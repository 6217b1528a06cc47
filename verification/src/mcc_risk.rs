//! Merchant category risk table.
use vstd::prelude::*;
use vstd::string::StringSliceAdditionalSpecFns;

verus! {

/// Whether two strings are equal, compared byte by byte.
pub fn str_equal(a: &str, b: &str) -> (r: bool)
    ensures
        r == (a@ == b@),
{
    let x = a.as_bytes();
    let y = b.as_bytes();
    proof {
        vstd::utf8::encode_utf8_decode_utf8(a@);
        vstd::utf8::encode_utf8_decode_utf8(b@);
    }
    if x.len() != y.len() {
        return false;
    }
    let mut i: usize = 0;
    while i < x.len()
        invariant
            i <= x@.len(),
            x@.len() == y@.len(),
            x@ == a.spec_bytes(),
            y@ == b.spec_bytes(),
            forall|j: int| 0 <= j < i ==> x@[j] == y@[j],
        decreases x@.len() - i,
    {
        if x[i] != y[i] {
            return false;
        }
        i = i + 1;
    }
    assert(x@ =~= y@);
    true
}

/// The risk of a merchant category code, in hundredths (the risk itself is
/// this number divided by 100). Codes outside the table carry a risk of 0.5.
pub open spec fn mcc_risk_of(mcc: Seq<char>) -> u8 {
    if mcc == "5411"@ {
        15
    } else if mcc == "5812"@ {
        30
    } else if mcc == "5912"@ {
        20
    } else if mcc == "5944"@ {
        45
    } else if mcc == "7801"@ {
        80
    } else if mcc == "7802"@ {
        75
    } else if mcc == "7995"@ {
        85
    } else if mcc == "4511"@ {
        35
    } else if mcc == "5311"@ {
        25
    } else if mcc == "5999"@ {
        50
    } else {
        50
    }
}

/// Any code outside the ten listed ones carries the default risk of 0.50.
pub proof fn lemma_unlisted_codes_are_default(mcc: Seq<char>)
    requires
        mcc != "5411"@,
        mcc != "5812"@,
        mcc != "5912"@,
        mcc != "5944"@,
        mcc != "7801"@,
        mcc != "7802"@,
        mcc != "7995"@,
        mcc != "4511"@,
        mcc != "5311"@,
        mcc != "5999"@,
    ensures
        mcc_risk_of(mcc) == 50,
{
}

/// The ten listed codes carry their risks from the table.
pub proof fn lemma_listed_codes()
    ensures
        mcc_risk_of("5411"@) == 15,
        mcc_risk_of("5812"@) == 30,
        mcc_risk_of("5912"@) == 20,
        mcc_risk_of("5944"@) == 45,
        mcc_risk_of("7801"@) == 80,
        mcc_risk_of("7802"@) == 75,
        mcc_risk_of("7995"@) == 85,
        mcc_risk_of("4511"@) == 35,
        mcc_risk_of("5311"@) == 25,
        mcc_risk_of("5999"@) == 50,
{
    reveal_strlit("5411");
    reveal_strlit("5812");
    reveal_strlit("5912");
    reveal_strlit("5944");
    reveal_strlit("7801");
    reveal_strlit("7802");
    reveal_strlit("7995");
    reveal_strlit("4511");
    reveal_strlit("5311");
    reveal_strlit("5999");
    assert("5411"@ =~= seq!['5', '4', '1', '1']);
    assert("5812"@ =~= seq!['5', '8', '1', '2']);
    assert("5912"@ =~= seq!['5', '9', '1', '2']);
    assert("5944"@ =~= seq!['5', '9', '4', '4']);
    assert("7801"@ =~= seq!['7', '8', '0', '1']);
    assert("7802"@ =~= seq!['7', '8', '0', '2']);
    assert("7995"@ =~= seq!['7', '9', '9', '5']);
    assert("4511"@ =~= seq!['4', '5', '1', '1']);
    assert("5311"@ =~= seq!['5', '3', '1', '1']);
    assert("5999"@ =~= seq!['5', '9', '9', '9']);
}

/// Risk of a merchant category code, in hundredths.
pub fn mcc_risk(mcc: &str) -> (risk: u8)
    ensures
        risk == mcc_risk_of(mcc@),
{
    if str_equal(mcc, "5411") {
        15
    } else if str_equal(mcc, "5812") {
        30
    } else if str_equal(mcc, "5912") {
        20
    } else if str_equal(mcc, "5944") {
        45
    } else if str_equal(mcc, "7801") {
        80
    } else if str_equal(mcc, "7802") {
        75
    } else if str_equal(mcc, "7995") {
        85
    } else if str_equal(mcc, "4511") {
        35
    } else if str_equal(mcc, "5311") {
        25
    } else if str_equal(mcc, "5999") {
        50
    } else {
        50
    }
}

/// Whether the customer already knows the merchant: `merchant_id` is one of
/// `known_merchants`.
pub fn is_known_merchant(known_merchants: &Vec<String>, merchant_id: &String) -> (known: bool)
    ensures
        known == exists|i: int| 0 <= i < known_merchants@.len() && (#[trigger] known_merchants@[i])@ == merchant_id@,
{
    let mut i: usize = 0;
    while i < known_merchants.len()
        invariant
            i <= known_merchants@.len(),
            forall|j: int| 0 <= j < i ==> (#[trigger] known_merchants@[j])@ != merchant_id@,
        decreases known_merchants@.len() - i,
    {
        if str_equal(known_merchants[i].as_str(), merchant_id.as_str()) {
            return true;
        }
        i = i + 1;
    }
    false
}

} // verus!
