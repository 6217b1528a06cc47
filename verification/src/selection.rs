use vstd::prelude::*;

verus! {

/// A candidate of a nearest-k selection: its distance key and an identifier
/// (an entry position, a cell number, ...). Smaller keys are nearer; equal keys
/// are ordered by identifier, so the earlier identifier wins a tie.
pub type Candidate = (u64, usize);

/// `a` comes strictly before `b` in the (key, identifier) order.
pub open spec fn precedes(a: Candidate, b: Candidate) -> bool {
    a.0 < b.0 || (a.0 == b.0 && a.1 < b.1)
}

pub open spec fn strictly_sorted(s: Seq<Candidate>) -> bool {
    forall|i: int, j: int| 0 <= i < j < s.len() ==> precedes(#[trigger] s[i], #[trigger] s[j])
}

/// No identifier occurs twice in `pool`.
pub open spec fn distinct_ids(pool: Seq<Candidate>) -> bool {
    forall|i: int, j: int| 0 <= i < j < pool.len() ==> #[trigger] pool[i].1 != #[trigger] pool[j].1
}

/// `sel` lists the `k` nearest candidates of `pool`, nearest first: it is sorted,
/// drawn from `pool`, and any candidate of `pool` it leaves out is only left out
/// because `sel` is full and everything in it comes before that candidate.
pub open spec fn is_k_nearest(sel: Seq<Candidate>, pool: Seq<Candidate>, k: int) -> bool {
    &&& sel.len() <= k
    &&& strictly_sorted(sel)
    &&& forall|i: int| 0 <= i < sel.len() ==> pool.contains(#[trigger] sel[i])
    &&& forall|p: Candidate|
        #![trigger pool.contains(p), sel.contains(p)]
        pool.contains(p) && !sel.contains(p) ==> {
            &&& sel.len() == k
            &&& forall|i: int| 0 <= i < sel.len() ==> precedes(#[trigger] sel[i], p)
        }
}

/// The `k` nearest candidates of `pool`, nearest first.
pub open spec fn k_nearest(pool: Seq<Candidate>, k: int) -> Seq<Candidate> {
    choose|sel: Seq<Candidate>| is_k_nearest(sel, pool, k)
}

/// The identifiers of a list of candidates.
pub open spec fn ids_of(sel: Seq<Candidate>) -> Seq<usize> {
    sel.map_values(|c: Candidate| c.1)
}

/// Where `x` goes in the sorted list `sel`: after every candidate that precedes it.
pub open spec fn insert_pos(sel: Seq<Candidate>, x: Candidate) -> int
    decreases sel.len(),
{
    if sel.len() == 0 {
        0
    } else if precedes(sel.last(), x) {
        sel.len() as int
    } else {
        insert_pos(sel.drop_last(), x)
    }
}

proof fn lemma_insert_pos(sel: Seq<Candidate>, x: Candidate)
    requires
        strictly_sorted(sel),
        !sel.contains(x),
    ensures
        0 <= insert_pos(sel, x) <= sel.len(),
        forall|i: int| 0 <= i < insert_pos(sel, x) ==> precedes(#[trigger] sel[i], x),
        forall|i: int| insert_pos(sel, x) <= i < sel.len() ==> precedes(x, #[trigger] sel[i]),
    decreases sel.len(),
{
    if sel.len() > 0 {
        let last = sel.len() - 1;
        assert(sel[last] != x);
        if precedes(sel.last(), x) {
            assert forall|i: int| 0 <= i < sel.len() implies precedes(#[trigger] sel[i], x) by {
                if i < last {
                    assert(precedes(sel[i], sel[last]));
                }
            }
        } else {
            let rest = sel.drop_last();
            assert forall|c: Candidate| rest.contains(c) implies sel.contains(c) by {
                let m = choose|m: int| 0 <= m < rest.len() && rest[m] == c;
                assert(sel[m] == c);
            }
            lemma_insert_pos(rest, x);
            assert(insert_pos(sel, x) == insert_pos(rest, x));
            assert(precedes(x, sel[last]));
            assert forall|i: int| 0 <= i < insert_pos(sel, x) implies precedes(#[trigger] sel[i], x) by {
                assert(rest[i] == sel[i]);
            }
            assert forall|i: int| insert_pos(sel, x) <= i < sel.len() implies precedes(x, #[trigger] sel[i]) by {
                if i < last {
                    assert(rest[i] == sel[i]);
                }
            }
        }
    }
}

/// Offering one more candidate to a selection: insert it at its place and keep
/// the first `k`.
proof fn lemma_insert_keeps_k_nearest(sel: Seq<Candidate>, pool: Seq<Candidate>, k: int, x: Candidate, pos: int)
    requires
        k >= 0,
        is_k_nearest(sel, pool, k),
        !pool.contains(x),
        0 <= pos <= sel.len(),
        forall|i: int| 0 <= i < pos ==> precedes(#[trigger] sel[i], x),
        forall|i: int| pos <= i < sel.len() ==> precedes(x, #[trigger] sel[i]),
    ensures
        is_k_nearest(
            if sel.len() == k && pos == k { sel } else if sel.len() == k { sel.insert(pos, x).drop_last() } else { sel.insert(pos, x) },
            pool.push(x),
            k,
        ),
{
    let pool2 = pool.push(x);
    if sel.len() == k && pos == k {
        assert forall|i: int| 0 <= i < sel.len() implies pool2.contains(#[trigger] sel[i]) by {
            assert(pool.contains(sel[i]));
            let m = choose|m: int| 0 <= m < pool.len() && pool[m] == sel[i];
            assert(pool2[m] == sel[i]);
        }
        assert forall|p: Candidate| pool2.contains(p) && !sel.contains(p) implies {
            &&& sel.len() == k
            &&& forall|i: int| 0 <= i < sel.len() ==> precedes(#[trigger] sel[i], p)
        } by {
            let m = choose|m: int| 0 <= m < pool2.len() && pool2[m] == p;
            if m < pool.len() {
                assert(pool[m] == p);
                assert(pool.contains(p));
            } else {
                assert(p == x);
            }
        }
    } else {
        let ins = sel.insert(pos, x);
        assert(ins.len() == sel.len() + 1);
        assert(forall|i: int| 0 <= i < pos ==> ins[i] == sel[i]);
        assert(ins[pos] == x);
        assert(forall|i: int| pos < i < ins.len() ==> ins[i] == sel[i - 1]);
        assert(strictly_sorted(ins)) by {
            assert forall|i: int, j: int| 0 <= i < j < ins.len() implies precedes(#[trigger] ins[i], #[trigger] ins[j]) by {
                if j < pos {
                } else if j == pos {
                    assert(precedes(sel[i], x));
                } else if i < pos {
                    assert(precedes(sel[i], sel[j - 1]));
                } else if i == pos {
                    assert(precedes(x, sel[j - 1]));
                } else {
                    assert(precedes(sel[i - 1], sel[j - 1]));
                }
            }
        }
        let new_sel = if sel.len() == k { ins.drop_last() } else { ins };
        assert(forall|i: int| 0 <= i < new_sel.len() ==> new_sel[i] == ins[i]);
        assert(new_sel.len() <= k);
        assert(strictly_sorted(new_sel));
        assert forall|i: int| 0 <= i < new_sel.len() implies pool2.contains(#[trigger] new_sel[i]) by {
            if i == pos {
                assert(pool2[pool.len() as int] == x);
            } else {
                let c = new_sel[i];
                if i < pos {
                    assert(c == sel[i]);
                } else {
                    assert(c == sel[i - 1]);
                }
                assert(pool.contains(c));
                let m = choose|m: int| 0 <= m < pool.len() && pool[m] == c;
                assert(pool2[m] == c);
            }
        }
        assert forall|p: Candidate| pool2.contains(p) && !new_sel.contains(p) implies {
            &&& new_sel.len() == k
            &&& forall|i: int| 0 <= i < new_sel.len() ==> precedes(#[trigger] new_sel[i], p)
        } by {
            assert(new_sel[pos] == x);
            assert(p != x);
            let m = choose|m: int| 0 <= m < pool2.len() && pool2[m] == p;
            assert(m < pool.len());
            assert(pool[m] == p);
            assert(pool.contains(p));
            if sel.contains(p) {
                // `p` is the candidate pushed out of a full selection
                let q = choose|q: int| 0 <= q < sel.len() && sel[q] == p;
                if q < pos {
                    assert(new_sel[q] == p);
                    assert(false);
                } else if q + 1 < new_sel.len() {
                    assert(ins[q + 1] == sel[q]);
                    assert(new_sel[q + 1] == p);
                    assert(false);
                }
                assert(sel.len() == k);
                assert(q == sel.len() - 1);
                assert forall|i: int| 0 <= i < new_sel.len() implies precedes(#[trigger] new_sel[i], p) by {
                    assert(precedes(ins[i], ins[q + 1]));
                    assert(ins[q + 1] == sel[q]);
                }
            } else {
                assert(sel.len() == k);
                assert forall|i: int| 0 <= i < new_sel.len() implies precedes(#[trigger] new_sel[i], p) by {
                    if i == pos {
                        assert(precedes(x, sel[pos]));
                        assert(precedes(sel[pos], p));
                    } else if i < pos {
                        assert(precedes(sel[i], p));
                    } else {
                        assert(precedes(sel[i - 1], p));
                    }
                }
            }
        }
    }
}

/// There is only one list of the `k` nearest candidates.
pub proof fn lemma_k_nearest_unique(a: Seq<Candidate>, b: Seq<Candidate>, pool: Seq<Candidate>, k: int)
    requires
        is_k_nearest(a, pool, k),
        is_k_nearest(b, pool, k),
    ensures
        a == b,
{
    let n = if a.len() <= b.len() { a.len() as int } else { b.len() as int };
    lemma_k_nearest_prefix_agree(a, b, pool, k, n);
    if a.len() < b.len() {
        let c = b[a.len() as int];
        assert(pool.contains(c));
        if a.contains(c) {
            let m = choose|m: int| 0 <= m < a.len() && a[m] == c;
            assert(b[m] == c);
            assert(precedes(b[m], b[a.len() as int]));
        }
    } else if b.len() < a.len() {
        let c = a[b.len() as int];
        assert(pool.contains(c));
        if b.contains(c) {
            let m = choose|m: int| 0 <= m < b.len() && b[m] == c;
            assert(a[m] == c);
            assert(precedes(a[m], a[b.len() as int]));
        }
    }
    assert(a =~= b);
}

proof fn lemma_k_nearest_prefix_agree(a: Seq<Candidate>, b: Seq<Candidate>, pool: Seq<Candidate>, k: int, n: int)
    requires
        is_k_nearest(a, pool, k),
        is_k_nearest(b, pool, k),
        0 <= n <= a.len(),
        n <= b.len(),
    ensures
        forall|i: int| 0 <= i < n ==> a[i] == b[i],
    decreases n,
{
    if n > 0 {
        lemma_k_nearest_prefix_agree(a, b, pool, k, n - 1);
        let i = n - 1;
        if a[i] != b[i] {
            if precedes(a[i], b[i]) {
                lemma_not_in_other(a, b, pool, k, i);
            } else {
                lemma_not_in_other(b, a, pool, k, i);
            }
        }
    }
}

/// Helper of the uniqueness proof: if the lists agree before position `i` and
/// `a[i]` cannot come before `b[i]`.
proof fn lemma_not_in_other(a: Seq<Candidate>, b: Seq<Candidate>, pool: Seq<Candidate>, k: int, i: int)
    requires
        is_k_nearest(a, pool, k),
        is_k_nearest(b, pool, k),
        0 <= i < a.len(),
        i < b.len(),
        forall|j: int| 0 <= j < i ==> a[j] == b[j],
    ensures
        !precedes(a[i], b[i]),
{
    let c = a[i];
    if !precedes(a[i], b[i]) {
        return;
    }
    assert(pool.contains(c));
    if b.contains(c) {
        let m = choose|m: int| 0 <= m < b.len() && b[m] == c;
        if m < i {
            assert(a[m] == c);
            assert(precedes(a[m], a[i]));
        } else if m > i {
            assert(precedes(b[i], b[m]));
        }
    } else {
        assert(precedes(b[i], c));
    }
}

/// Every pool has its list of `k` nearest candidates.
pub proof fn lemma_k_nearest_exists(pool: Seq<Candidate>, k: int)
    requires
        k >= 0,
        distinct_ids(pool),
    ensures
        is_k_nearest(k_nearest(pool, k), pool, k),
    decreases pool.len(),
{
    let sel = lemma_k_nearest_witness(pool, k);
    assert(is_k_nearest(sel, pool, k));
}

proof fn lemma_k_nearest_witness(pool: Seq<Candidate>, k: int) -> (sel: Seq<Candidate>)
    requires
        k >= 0,
        distinct_ids(pool),
    ensures
        is_k_nearest(sel, pool, k),
        sel.len() == if pool.len() < k { pool.len() as int } else { k },
    decreases pool.len(),
{
    if pool.len() == 0 {
        let sel = Seq::<Candidate>::empty();
        assert(is_k_nearest(sel, pool, k));
        sel
    } else {
        let prev = pool.drop_last();
        let x = pool.last();
        assert(distinct_ids(prev));
        let s = lemma_k_nearest_witness(prev, k);
        assert(!prev.contains(x)) by {
            if prev.contains(x) {
                let m = choose|m: int| 0 <= m < prev.len() && prev[m] == x;
                assert(pool[m].1 == pool[pool.len() - 1].1);
            }
        }
        assert(!s.contains(x)) by {
            if s.contains(x) {
                let m = choose|m: int| 0 <= m < s.len() && s[m] == x;
                assert(prev.contains(s[m]));
            }
        }
        lemma_insert_pos(s, x);
        let pos = insert_pos(s, x);
        lemma_insert_keeps_k_nearest(s, prev, k, x, pos);
        assert(prev.push(x) == pool);
        if s.len() == k && pos == k {
            s
        } else if s.len() == k {
            s.insert(pos, x).drop_last()
        } else {
            s.insert(pos, x)
        }
    }
}

/// The `k` nearest candidates of a pool are determined by which candidates the pool
/// holds, not by the order in which they were offered.
pub proof fn lemma_k_nearest_same_members(p1: Seq<Candidate>, p2: Seq<Candidate>, k: int)
    requires
        k >= 0,
        distinct_ids(p1),
        distinct_ids(p2),
        forall|c: Candidate| p1.contains(c) <==> p2.contains(c),
    ensures
        k_nearest(p1, k) == k_nearest(p2, k),
{
    lemma_k_nearest_exists(p1, k);
    lemma_k_nearest_exists(p2, k);
    let s1 = k_nearest(p1, k);
    assert(is_k_nearest(s1, p2, k));
    lemma_k_nearest_unique(s1, k_nearest(p2, k), p2, k);
}

/// Executable `(key, identifier)` order.
pub fn candidate_precedes(a: Candidate, b: Candidate) -> (r: bool)
    ensures
        r == precedes(a, b),
{
    a.0 < b.0 || (a.0 == b.0 && a.1 < b.1)
}

/// Streaming selection of the `k` nearest candidates seen so far.
pub struct NearestK {
    k: usize,
    best: Vec<Candidate>,
    offered: Ghost<Seq<Candidate>>,
}

impl NearestK {
    /// Every candidate offered so far, in the order it was offered.
    pub closed spec fn offered(&self) -> Seq<Candidate> {
        self.offered@
    }

    /// How many candidates are kept.
    pub closed spec fn capacity(&self) -> int {
        self.k as int
    }

    /// The internal invariant: the kept list is the `k` nearest of what was offered.
    pub closed spec fn wf(&self) -> bool {
        &&& distinct_ids(self.offered@)
        &&& is_k_nearest(self.best@, self.offered@, self.k as int)
        &&& self.best@.len() == if self.offered@.len() < self.k { self.offered@.len() as int } else { self.k as int }
    }

    /// An empty selection keeping at most `k` candidates.
    pub fn new(k: usize) -> (r: NearestK)
        ensures
            r.wf(),
            r.offered() == Seq::<Candidate>::empty(),
            r.capacity() == k,
    {
        let r = NearestK { k, best: Vec::new(), offered: Ghost(Seq::empty()) };
        assert(is_k_nearest(r.best@, r.offered@, k as int));
        r
    }

    /// Offer one candidate. Its identifier must be new to this selection.
    pub fn offer(&mut self, key: u64, id: usize)
        requires
            old(self).wf(),
            forall|i: int| 0 <= i < old(self).offered().len() ==> (#[trigger] old(self).offered()[i]).1 != id,
        ensures
            final(self).wf(),
            final(self).offered() == old(self).offered().push((key, id)),
            final(self).capacity() == old(self).capacity(),
    {
        let x: Candidate = (key, id);
        let ghost pool = self.offered@;
        let ghost sel = self.best@;
        let ghost k = self.k as int;
        assert(pool == old(self).offered());
        assert(!pool.contains(x)) by {
            if pool.contains(x) {
                let m = choose|m: int| 0 <= m < pool.len() && pool[m] == x;
                assert(old(self).offered()[m].1 != id);
            }
        }
        assert(!sel.contains(x)) by {
            if sel.contains(x) {
                let m = choose|m: int| 0 <= m < sel.len() && sel[m] == x;
                assert(pool.contains(sel[m]));
            }
        }
        proof {
            lemma_insert_pos(sel, x);
            lemma_insert_keeps_k_nearest(sel, pool, k, x, insert_pos(sel, x));
        }
        let n = self.best.len();
        let mut pos: usize = 0;
        while pos < n && candidate_precedes(self.best[pos], x)
            invariant
                n == self.best@.len(),
                self.best@ == sel,
                pos <= n,
                pos <= insert_pos(sel, x),
                0 <= insert_pos(sel, x) <= sel.len(),
                forall|i: int| 0 <= i < insert_pos(sel, x) ==> precedes(#[trigger] sel[i], x),
                forall|i: int| insert_pos(sel, x) <= i < sel.len() ==> precedes(x, #[trigger] sel[i]),
            decreases n - pos,
        {
            pos = pos + 1;
        }
        assert(pos == insert_pos(sel, x));
        let ghost new_pool = pool.push(x);
        if n == self.k && pos == self.k {
            self.offered = Ghost(new_pool);
        } else {
            let mut best = Vec::new();
            std::mem::swap(&mut best, &mut self.best);
            best.insert(pos, x);
            if n == self.k {
                best.pop();
            }
            assert(distinct_ids(new_pool)) by {
                assert forall|i: int, j: int| 0 <= i < j < new_pool.len() implies #[trigger] new_pool[i].1 != #[trigger] new_pool[j].1 by {
                    if j == pool.len() {
                        assert(old(self).offered()[i].1 != id);
                    } else {
                        assert(pool[i].1 != pool[j].1);
                    }
                }
            }
            self.best = best;
            self.offered = Ghost(new_pool);
        }
        proof {
            let np = self.offered@;
            assert(distinct_ids(np)) by {
                assert forall|i: int, j: int| 0 <= i < j < np.len() implies #[trigger] np[i].1 != #[trigger] np[j].1 by {
                    if j == pool.len() {
                        assert(old(self).offered()[i].1 != id);
                    } else {
                        assert(pool[i].1 != pool[j].1);
                    }
                }
            }
        }
    }

    /// The selected candidates, nearest first.
    pub fn selected(&self) -> (r: Vec<Candidate>)
        requires
            self.wf(),
        ensures
            r@ == k_nearest(self.offered(), self.capacity()),
            r@.len() == if self.offered().len() < self.capacity() { self.offered().len() as int } else { self.capacity() },
    {
        proof {
            lemma_k_nearest_exists(self.offered@, self.k as int);
            lemma_k_nearest_unique(self.best@, k_nearest(self.offered@, self.k as int), self.offered@, self.k as int);
        }
        let mut r: Vec<Candidate> = Vec::new();
        let mut i: usize = 0;
        while i < self.best.len()
            invariant
                i <= self.best@.len(),
                r@ == self.best@.subrange(0, i as int),
            decreases self.best@.len() - i,
        {
            r.push(self.best[i]);
            i = i + 1;
        }
        assert(r@ =~= self.best@);
        r
    }
}

/// The `k` nearest list holds `min(k, |pool|)` distinct candidates of the pool,
/// in order.
pub proof fn lemma_k_nearest_len(pool: Seq<Candidate>, k: int)
    requires
        k >= 0,
        distinct_ids(pool),
    ensures
        is_k_nearest(k_nearest(pool, k), pool, k),
        k_nearest(pool, k).len() == if pool.len() < k { pool.len() as int } else { k },
{
    let w = lemma_k_nearest_witness(pool, k);
    lemma_k_nearest_exists(pool, k);
    lemma_k_nearest_unique(w, k_nearest(pool, k), pool, k);
}

/// A strictly sorted list has no repeated candidate.
pub proof fn lemma_sorted_no_duplicates(s: Seq<Candidate>)
    requires
        strictly_sorted(s),
    ensures
        s.no_duplicates(),
{
    assert forall|i: int, j: int| 0 <= i < s.len() && 0 <= j < s.len() && i != j implies s[i] != s[j] by {
        if i < j {
            assert(precedes(s[i], s[j]));
        } else {
            assert(precedes(s[j], s[i]));
        }
    }
}

/// A pool with distinct identifiers has no repeated candidate.
pub proof fn lemma_distinct_ids_no_duplicates(pool: Seq<Candidate>)
    requires
        distinct_ids(pool),
    ensures
        pool.no_duplicates(),
{
    assert forall|i: int, j: int| 0 <= i < pool.len() && 0 <= j < pool.len() && i != j implies pool[i] != pool[j] by {
        if i < j {
            assert(pool[i].1 != pool[j].1);
        } else {
            assert(pool[j].1 != pool[i].1);
        }
    }
}

/// With room for the whole pool, the selection keeps every candidate.
pub proof fn lemma_k_nearest_covers(pool: Seq<Candidate>, k: int)
    requires
        k >= pool.len(),
        distinct_ids(pool),
    ensures
        forall|p: Candidate| pool.contains(p) ==> #[trigger] k_nearest(pool, k).contains(p),
{
    lemma_k_nearest_len(pool, k);
    let sel = k_nearest(pool, k);
    lemma_sorted_no_duplicates(sel);
    lemma_distinct_ids_no_duplicates(pool);
    sel.unique_seq_to_set();
    pool.unique_seq_to_set();
    assert(sel.to_set().subset_of(pool.to_set())) by {
        assert forall|p: Candidate| sel.to_set().contains(p) implies pool.to_set().contains(p) by {
            let i = choose|i: int| 0 <= i < sel.len() && sel[i] == p;
            assert(pool.contains(sel[i]));
        }
    }
    vstd::set_lib::lemma_subset_equality(sel.to_set(), pool.to_set());
    assert forall|p: Candidate| pool.contains(p) implies #[trigger] sel.contains(p) by {
        assert(pool.to_set().contains(p));
        assert(sel.to_set().contains(p));
    }
}

/// Keeping fewer candidates keeps a prefix of the longer list.
pub proof fn lemma_k_nearest_prefix(pool: Seq<Candidate>, k1: int, k2: int)
    requires
        0 <= k1 <= k2,
        distinct_ids(pool),
    ensures
        k_nearest(pool, k1) == k_nearest(pool, k2).take(k_nearest(pool, k1).len() as int),
        k_nearest(pool, k1).len() <= k_nearest(pool, k2).len(),
{
    lemma_k_nearest_len(pool, k1);
    lemma_k_nearest_len(pool, k2);
    let s2 = k_nearest(pool, k2);
    let m = k_nearest(pool, k1).len() as int;
    let t = s2.take(m);
    assert(is_k_nearest(t, pool, k1)) by {
        assert forall|i: int| 0 <= i < t.len() implies pool.contains(#[trigger] t[i]) by {
            assert(t[i] == s2[i]);
        }
        assert forall|p: Candidate|
            #![trigger pool.contains(p), t.contains(p)]
            pool.contains(p) && !t.contains(p) implies {
            &&& t.len() == k1
            &&& forall|i: int| 0 <= i < t.len() ==> precedes(#[trigger] t[i], p)
        } by {
            if s2.contains(p) {
                let j = choose|j: int| 0 <= j < s2.len() && s2[j] == p;
                if j < m {
                    assert(t[j] == p);
                }
                assert forall|i: int| 0 <= i < t.len() implies precedes(#[trigger] t[i], p) by {
                    assert(t[i] == s2[i]);
                }
            } else {
                assert forall|i: int| 0 <= i < t.len() implies precedes(#[trigger] t[i], p) by {
                    assert(t[i] == s2[i]);
                }
            }
        }
    }
    lemma_k_nearest_unique(t, k_nearest(pool, k1), pool, k1);
}

/// A candidate that is among the `k` nearest of the whole `full` pool and among
/// the `k` nearest of a sub-pool `small` stays among the `k` nearest of any pool
/// `large` between the two.
pub proof fn lemma_k_nearest_kept_in_larger_pool(
    full: Seq<Candidate>,
    small: Seq<Candidate>,
    large: Seq<Candidate>,
    k: int,
    t: Candidate,
)
    requires
        k >= 0,
        distinct_ids(full),
        distinct_ids(small),
        distinct_ids(large),
        forall|p: Candidate| small.contains(p) ==> large.contains(p),
        forall|p: Candidate| large.contains(p) ==> full.contains(p),
        k_nearest(full, k).contains(t),
        k_nearest(small, k).contains(t),
    ensures
        k_nearest(large, k).contains(t),
{
    lemma_k_nearest_len(full, k);
    lemma_k_nearest_len(small, k);
    lemma_k_nearest_len(large, k);
    let truth = k_nearest(full, k);
    let sel = k_nearest(large, k);
    let i0 = choose|i: int| 0 <= i < k_nearest(small, k).len() && k_nearest(small, k)[i] == t;
    assert(small.contains(t));
    assert(large.contains(t));
    if !sel.contains(t) {
        // every selected candidate comes before `t`, so it is also among the
        // nearest of `full`: `truth` would hold k + 1 candidates
        assert forall|q: Candidate| sel.to_set().contains(q) implies truth.to_set().contains(q) by {
            let i = choose|i: int| 0 <= i < sel.len() && sel[i] == q;
            assert(precedes(sel[i], t));
            assert(large.contains(q));
            assert(full.contains(q));
            if !truth.contains(q) {
                let j = choose|j: int| 0 <= j < truth.len() && truth[j] == t;
                assert(precedes(truth[j], q));
            }
        }
        assert(!sel.to_set().contains(t)) by {
            if sel.to_set().contains(t) {
                assert(sel.contains(t));
            }
        }
        assert(truth.to_set().contains(t));
        let bigger = sel.to_set().insert(t);
        assert(bigger.subset_of(truth.to_set()));
        lemma_sorted_no_duplicates(sel);
        lemma_sorted_no_duplicates(truth);
        sel.unique_seq_to_set();
        truth.unique_seq_to_set();
        vstd::set_lib::lemma_len_subset(bigger, truth.to_set());
        assert(bigger.len() == sel.to_set().len() + 1);
    }
}

} // verus!
