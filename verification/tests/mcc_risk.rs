use crab_antiagiota_performance::mcc_risk::{is_known_merchant, mcc_risk, str_equal};

fn risk(mcc: &str) -> f32 {
    mcc_risk(mcc) as f32 / 100.0
}

#[test]
fn known_mcc_returns_correct_risk() {
    assert_eq!(risk("5411"), 0.15);
    assert_eq!(risk("7995"), 0.85);
    assert_eq!(risk("5912"), 0.20);
}

#[test]
fn unknown_mcc_returns_default() {
    assert_eq!(risk("9999"), 0.5);
    assert_eq!(risk(""), 0.5);
}

#[test]
fn every_listed_mcc_has_its_risk() {
    let table = [
        ("5411", 15),
        ("5812", 30),
        ("5912", 20),
        ("5944", 45),
        ("7801", 80),
        ("7802", 75),
        ("7995", 85),
        ("4511", 35),
        ("5311", 25),
        ("5999", 50),
    ];
    for (code, hundredths) in table {
        assert_eq!(mcc_risk(code), hundredths);
    }
    assert_eq!(mcc_risk("54111"), 50);
    assert_eq!(mcc_risk("541"), 50);
}

#[test]
fn string_equality_is_exact() {
    assert!(str_equal("MERC-001", "MERC-001"));
    assert!(!str_equal("MERC-001", "MERC-0010"));
    assert!(!str_equal("MERC-001", "MERC-002"));
    assert!(str_equal("", ""));
}

#[test]
fn known_merchant_lookup() {
    let known = vec!["MERC-009".to_string(), "MERC-001".to_string()];
    assert!(is_known_merchant(&known, &"MERC-001".to_string()));
    assert!(!is_known_merchant(&known, &"MERC-UNKNOWN".to_string()));
    assert!(!is_known_merchant(&Vec::new(), &"MERC-001".to_string()));
}
