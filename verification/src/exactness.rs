//! Probing every cell of an IVF index gives the brute-force fraud score.
use vstd::prelude::*;

use crate::distance::sq_dist;
use crate::ivf::{
    lemma_all_cells_cover, lemma_nearest_cells_all, lemma_probed_positions, nearest_cells_of, IvfIndex,
};
use crate::knn::{count_fraud, fraud_votes, nearest_five, scan_pool, ReferenceEntry, K_NEIGHBORS};
use crate::selection::{distinct_ids, ids_of, k_nearest, lemma_k_nearest_len, lemma_sorted_no_duplicates, precedes};

verus! {

/// The distance key of an entry: its squared distance to the query.
pub open spec fn entry_key(query: Seq<i16>, e: ReferenceEntry) -> u64 {
    sq_dist(query, e.vector@) as u64
}

/// An entry outside the five nearest that is exactly as near as one of them
/// has that one's label. Which five are nearest may then depend on how ties are
/// broken, but how many of them are fraud does not.
pub open spec fn ties_at_fifth_agree(query: Seq<i16>, entries: Seq<ReferenceEntry>) -> bool {
    forall|i: int, j: int|
        #![trigger nearest_five(query, entries).contains(i as usize), nearest_five(query, entries).contains(j as usize)]
        0 <= i < entries.len() && 0 <= j < entries.len() && nearest_five(query, entries).contains(i as usize)
            && !nearest_five(query, entries).contains(j as usize) && entry_key(query, entries[i]) == entry_key(query, entries[j])
            ==> entries[i].is_fraud == entries[j].is_fraud
}

proof fn lemma_scan_pool_distinct(query: Seq<i16>, entries: Seq<ReferenceEntry>)
    requires
        entries.len() <= usize::MAX,
    ensures
        distinct_ids(scan_pool(query, entries)),
{
}

/// The fraud votes of distinct positions are the number of those positions
/// whose entry is labelled fraud: every listed entry counts once.
pub proof fn lemma_count_fraud_as_set(ids: Seq<usize>, entries: Seq<ReferenceEntry>)
    requires
        ids.no_duplicates(),
    ensures
        count_fraud(ids, entries) == ids.to_set().filter(|p: usize| entries[p as int].is_fraud).len(),
        ids.to_set().filter(|p: usize| entries[p as int].is_fraud).finite(),
    decreases ids.len(),
{
    let f = |p: usize| entries[p as int].is_fraud;
    if ids.len() == 0 {
        assert(ids.to_set() =~= Set::<usize>::empty());
        assert(ids.to_set().filter(f) =~= Set::<usize>::empty());
    } else {
        let prev = ids.drop_last();
        let x = ids.last();
        assert(prev.no_duplicates()) by {
            assert forall|i: int, j: int| 0 <= i < prev.len() && 0 <= j < prev.len() && i != j implies prev[i] != prev[j] by {
                assert(prev[i] == ids[i]);
                assert(prev[j] == ids[j]);
            }
        }
        lemma_count_fraud_as_set(prev, entries);
        assert(!prev.contains(x)) by {
            if prev.contains(x) {
                let m = choose|m: int| 0 <= m < prev.len() && prev[m] == x;
                assert(ids[m] == ids[ids.len() - 1]);
            }
        }
        assert(ids.to_set() =~= prev.to_set().insert(x)) by {
            assert(ids =~= prev.push(x));
            prev.lemma_push_to_set_commute(x);
        }
        assert(!prev.to_set().contains(x));
        if f(x) {
            assert(ids.to_set().filter(f) =~= prev.to_set().filter(f).insert(x));
            assert(!prev.to_set().filter(f).contains(x));
        } else {
            assert(ids.to_set().filter(f) =~= prev.to_set().filter(f));
        }
    }
}

/// Counting over positions of the gathered entries is counting over the
/// entries at those positions.
proof fn lemma_count_fraud_relabel(
    arrivals: Seq<usize>,
    gathered: Seq<ReferenceEntry>,
    positions: Seq<usize>,
    entries: Seq<ReferenceEntry>,
)
    requires
        gathered.len() == positions.len(),
        forall|a: int| 0 <= a < positions.len() ==> gathered[a] == entries[#[trigger] positions[a] as int],
        forall|t: int| 0 <= t < arrivals.len() ==> (#[trigger] arrivals[t] as int) < positions.len(),
    ensures
        count_fraud(arrivals, gathered) == count_fraud(arrivals.map_values(|a: usize| positions[a as int]), entries),
    decreases arrivals.len(),
{
    if arrivals.len() > 0 {
        let prev = arrivals.drop_last();
        assert forall|t: int| 0 <= t < prev.len() implies (#[trigger] prev[t] as int) < positions.len() by {
            assert(prev[t] == arrivals[t]);
        }
        lemma_count_fraud_relabel(prev, gathered, positions, entries);
        let m = arrivals.map_values(|a: usize| positions[a as int]);
        assert(m.drop_last() =~= prev.map_values(|a: usize| positions[a as int]));
        assert(gathered[arrivals.last() as int] == entries[positions[arrivals.last() as int] as int]);
    }
}

/// Two sets of the same size that differ only in elements sharing one label
/// hold the same number of elements with that label.
proof fn lemma_swap_keeps_count(a: Set<usize>, b: Set<usize>, f: spec_fn(usize) -> bool)
    requires
        a.finite(),
        b.finite(),
        a.len() == b.len(),
        forall|p: usize, q: usize|
            #![trigger a.contains(p), b.contains(q)]
            a.contains(p) && !b.contains(p) && b.contains(q) && !a.contains(q) ==> f(p) == f(q),
    ensures
        a.filter(f).len() == b.filter(f).len(),
{
    let both = a.intersect(b);
    let da = a.difference(b);
    let db = b.difference(a);
    vstd::set_lib::lemma_set_difference_len(a, b);
    vstd::set_lib::lemma_set_difference_len(b, a);
    assert(b.intersect(a) =~= both);
    assert(da.len() == db.len());
    assert(a.filter(f) =~= both.filter(f) + da.filter(f));
    assert(b.filter(f) =~= both.filter(f) + db.filter(f));
    vstd::set_lib::lemma_len_subset(both.filter(f), a);
    vstd::set_lib::lemma_len_subset(da.filter(f), a);
    vstd::set_lib::lemma_len_subset(db.filter(f), b);
    assert(both.filter(f).disjoint(da.filter(f)));
    assert(both.filter(f).disjoint(db.filter(f)));
    vstd::set_lib::lemma_set_disjoint_lens(both.filter(f), da.filter(f));
    vstd::set_lib::lemma_set_disjoint_lens(both.filter(f), db.filter(f));
    if da.len() == 0 {
        da.lemma_len0_is_empty();
        db.lemma_len0_is_empty();
        assert(da.filter(f) =~= db.filter(f));
    } else {
        let p0 = da.choose();
        assert(da.contains(p0));
        assert(db.len() > 0);
        let q0 = db.choose();
        assert(db.contains(q0));
        assert(a.contains(p0) && b.contains(q0));
        // every element of either difference has the label of p0
        assert forall|p: usize| da.contains(p) implies f(p) == f(p0) by {
            assert(a.contains(p) && b.contains(q0));
        }
        assert forall|q: usize| db.contains(q) implies f(q) == f(p0) by {
            assert(a.contains(p0) && b.contains(q));
        }
        if f(p0) {
            assert(da.filter(f) =~= da);
            assert(db.filter(f) =~= db);
        } else {
            assert(da.filter(f) =~= Set::<usize>::empty());
            assert(db.filter(f) =~= Set::<usize>::empty());
        }
    }
}

/// Probing every cell of a partitioned index gives the brute-force fraud votes,
/// whenever an entry tied with one of the five nearest carries that one's
/// label. (The gathered order, cell by cell, may break a tie differently than
/// the original order; with mixed labels at the tie the votes can differ.)
pub proof fn lemma_full_probe_fraud_votes(index: IvfIndex, query: Seq<i16>, cell_keys: Seq<u64>, nprobe: int)
    requires
        index.is_partition(),
        index.cell_count() <= usize::MAX,
        index.entries@.len() <= usize::MAX,
        cell_keys.len() == index.cell_count(),
        nprobe >= index.cell_count(),
        ties_at_fifth_agree(query, index.entries@),
    ensures
        fraud_votes(query, index.probed_entries(nearest_cells_of(cell_keys, nprobe))) == fraud_votes(query, index.entries@),
{
    let entries = index.entries@;
    let n = entries.len() as int;
    let k = K_NEIGHBORS as int;
    let cells = nearest_cells_of(cell_keys, nprobe);
    lemma_nearest_cells_all(cell_keys, nprobe);
    lemma_probed_positions(index, cells);
    let probed = index.probed_positions(cells);
    let gathered = index.probed_entries(cells);
    // every position is gathered exactly once
    assert forall|p: usize| (p as int) < n implies #[trigger] probed.contains(p) by {
        lemma_all_cells_cover(index, cells, p as int);
    }
    assert(probed.len() == n) by {
        let as_int = probed.map_values(|p: usize| p as int);
        assert(as_int.no_duplicates()) by {
            assert forall|i: int, j: int| 0 <= i < as_int.len() && 0 <= j < as_int.len() && i != j implies as_int[i] != as_int[j] by {
                assert(probed[i] != probed[j]);
            }
        }
        as_int.unique_seq_to_set();
        vstd::set_lib::lemma_int_range(0, n);
        assert(as_int.to_set() =~= vstd::set_lib::set_int_range(0, n)) by {
            assert forall|x: int| as_int.to_set().contains(x) <==> vstd::set_lib::set_int_range(0, n).contains(x) by {
                if as_int.to_set().contains(x) {
                    let i = choose|i: int| 0 <= i < as_int.len() && as_int[i] == x;
                    assert(probed[i] as int == x);
                }
                if 0 <= x < n {
                    assert(probed.contains(x as usize));
                    let i = choose|i: int| 0 <= i < probed.len() && probed[i] == x as usize;
                    assert(as_int[i] == x);
                }
            }
        }
    }
    let brute_pool = scan_pool(query, entries);
    let probe_pool = scan_pool(query, gathered);
    lemma_scan_pool_distinct(query, entries);
    lemma_scan_pool_distinct(query, gathered);
    lemma_k_nearest_len(brute_pool, k);
    lemma_k_nearest_len(probe_pool, k);
    let sel_b = k_nearest(brute_pool, k);
    let sel_p = k_nearest(probe_pool, k);
    let s = ids_of(sel_b);
    let t = ids_of(sel_p);
    assert(s == nearest_five(query, entries));
    // arrival `a` in the probe holds the entry at position probed[a]
    assert forall|a: int| 0 <= a < n implies #[trigger] probe_pool[a] == (entry_key(query, entries[probed[a] as int]), a as usize) by {
        assert(gathered[a] == entries[probed[a] as int]);
    }
    assert forall|i: int| 0 <= i < t.len() implies (#[trigger] t[i] as int) < n && probe_pool[t[i] as int] == sel_p[i] by {
        assert(probe_pool.contains(sel_p[i]));
        let m = choose|m: int| 0 <= m < probe_pool.len() && probe_pool[m] == sel_p[i];
    }
    assert forall|i: int| 0 <= i < s.len() implies (#[trigger] s[i] as int) < n && brute_pool[s[i] as int] == sel_b[i] by {
        assert(brute_pool.contains(sel_b[i]));
        let m = choose|m: int| 0 <= m < brute_pool.len() && brute_pool[m] == sel_b[i];
    }
    let m = t.map_values(|a: usize| probed[a as int]);
    lemma_sorted_no_duplicates(sel_p);
    lemma_sorted_no_duplicates(sel_b);
    assert(t.no_duplicates()) by {
        assert forall|i: int, j: int| 0 <= i < t.len() && 0 <= j < t.len() && i != j implies t[i] != t[j] by {
            assert(probe_pool[t[i] as int] == sel_p[i]);
            assert(probe_pool[t[j] as int] == sel_p[j]);
        }
    }
    assert(s.no_duplicates()) by {
        assert forall|i: int, j: int| 0 <= i < s.len() && 0 <= j < s.len() && i != j implies s[i] != s[j] by {
            assert(brute_pool[s[i] as int] == sel_b[i]);
            assert(brute_pool[s[j] as int] == sel_b[j]);
        }
    }
    assert(m.no_duplicates()) by {
        assert forall|i: int, j: int| 0 <= i < m.len() && 0 <= j < m.len() && i != j implies m[i] != m[j] by {
            assert(t[i] != t[j]);
            assert(probed[t[i] as int] != probed[t[j] as int]);
        }
    }
    m.unique_seq_to_set();
    s.unique_seq_to_set();
    let big_s = s.to_set();
    let big_m = m.to_set();
    // brute force: whatever it selects is at most as far as what it leaves out
    assert forall|p: usize, q: usize|
        #![trigger big_s.contains(p), big_s.contains(q)]
        big_s.contains(p) && !big_s.contains(q) && (q as int) < n implies entry_key(query, entries[p as int]) <= entry_key(query, entries[q as int]) by {
        let i = choose|i: int| 0 <= i < s.len() && s[i] == p;
        assert(brute_pool[q as int] == (entry_key(query, entries[q as int]), q));
        assert(!sel_b.contains(brute_pool[q as int])) by {
            if sel_b.contains(brute_pool[q as int]) {
                let j = choose|j: int| 0 <= j < sel_b.len() && sel_b[j] == brute_pool[q as int];
                assert(s[j] == q);
                assert(big_s.contains(q));
            }
        }
        assert(brute_pool.contains(brute_pool[q as int]));
        assert(precedes(sel_b[i], brute_pool[q as int]));
    }
    // the probe: likewise, through the arrival order
    assert forall|p: usize, q: usize|
        #![trigger big_m.contains(p), big_m.contains(q)]
        big_m.contains(p) && !big_m.contains(q) && (q as int) < n implies entry_key(query, entries[p as int]) <= entry_key(query, entries[q as int]) by {
        let i = choose|i: int| 0 <= i < m.len() && m[i] == p;
        assert(probed.contains(q));
        let b = choose|b: int| 0 <= b < probed.len() && probed[b] == q;
        let cq = probe_pool[b];
        assert(cq == (entry_key(query, entries[q as int]), b as usize));
        assert(!sel_p.contains(cq)) by {
            if sel_p.contains(cq) {
                let j = choose|j: int| 0 <= j < sel_p.len() && sel_p[j] == cq;
                assert(t[j] == b as usize);
                assert(m[j] == q);
                assert(big_m.contains(q));
            }
        }
        assert(probe_pool.contains(cq));
        assert(precedes(sel_p[i], cq));
        assert(probe_pool[t[i] as int] == sel_p[i]);
    }
    let f = |p: usize| entries[p as int].is_fraud;
    assert(s.len() == m.len());
    assert forall|p: usize, q: usize|
        #![trigger big_s.contains(p), big_m.contains(q)]
        big_s.contains(p) && !big_m.contains(p) && big_m.contains(q) && !big_s.contains(q) implies f(p) == f(q) by {
        let i = choose|i: int| 0 <= i < s.len() && s[i] == p;
        let j = choose|j: int| 0 <= j < m.len() && m[j] == q;
        assert((p as int) < n && (q as int) < n);
        assert(big_s.contains(p) && !big_s.contains(q));
        assert(big_m.contains(q) && !big_m.contains(p));
        assert(entry_key(query, entries[p as int]) == entry_key(query, entries[q as int]));
        assert(s.contains((p as int) as usize));
        assert(!s.contains((q as int) as usize));
    }
    lemma_swap_keeps_count(big_s, big_m, f);
    lemma_count_fraud_relabel(t, gathered, probed, entries);
    lemma_count_fraud_as_set(m, entries);
    lemma_count_fraud_as_set(s, entries);
}

} // verus!
