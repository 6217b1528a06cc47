//! IVF (inverted file) index over the int16 reference vectors.
//!
//! Two parts: the coarse quantizer (`nlist` centroids, one per cell) and the
//! inverted lists (every entry grouped by its cell, stored in one contiguous
//! array with CSR offsets).
use vstd::prelude::*;

use crate::distance::DIM;
use crate::knn::{fraud_score_top5, fraud_votes, ReferenceEntry, K_NEIGHBORS};
use crate::selection::{distinct_ids, ids_of, k_nearest, lemma_k_nearest_exists, precedes, Candidate, NearestK};

verus! {

/// An IVF index. Centroid coordinates are kept as the IEEE-754 bit patterns of
/// their `f32` values.
#[derive(Debug)]
pub struct IvfIndex {
    /// Coarse quantizer: `centroids[c]` is the center of cell `c`.
    pub centroids: Vec<[u32; 14]>,
    /// CSR offsets: cell `c` owns `entries[list_offsets[c]..list_offsets[c + 1]]`.
    pub list_offsets: Vec<usize>,
    /// All reference entries, reordered so each cell's entries are contiguous.
    pub entries: Vec<ReferenceEntry>,
}

/// How many of the first `i` assignments name cell `c`.
pub open spec fn count_in(a: Seq<u16>, c: int, i: int) -> nat
    decreases i,
{
    if i <= 0 {
        0
    } else {
        count_in(a, c, i - 1) + if a[i - 1] as int == c { 1nat } else { 0nat }
    }
}

/// How many of the first `i` assignments name a cell before `c`.
pub open spec fn count_below(a: Seq<u16>, c: int, i: int) -> nat
    decreases i,
{
    if i <= 0 {
        0
    } else {
        count_below(a, c, i - 1) + if (a[i - 1] as int) < c { 1nat } else { 0nat }
    }
}

/// Where the counting sort puts the `i`-th entry: after every entry of an
/// earlier cell, and after the earlier entries of its own cell.
pub open spec fn grouped_position(a: Seq<u16>, i: int) -> int {
    (count_below(a, a[i] as int, a.len() as int) + count_in(a, a[i] as int, i)) as int
}

pub proof fn lemma_count_below_step(a: Seq<u16>, c: int, i: int)
    requires
        0 <= i <= a.len(),
    ensures
        count_below(a, c + 1, i) == count_below(a, c, i) + count_in(a, c, i),
    decreases i,
{
    if i > 0 {
        lemma_count_below_step(a, c, i - 1);
    }
}

pub proof fn lemma_count_below_zero(a: Seq<u16>, i: int)
    requires
        0 <= i <= a.len(),
    ensures
        count_below(a, 0, i) == 0,
    decreases i,
{
    if i > 0 {
        lemma_count_below_zero(a, i - 1);
    }
}

pub proof fn lemma_count_below_mono(a: Seq<u16>, c1: int, c2: int, i: int)
    requires
        0 <= i <= a.len(),
        c1 <= c2,
    ensures
        count_below(a, c1, i) <= count_below(a, c2, i),
    decreases i,
{
    if i > 0 {
        lemma_count_below_mono(a, c1, c2, i - 1);
    }
}

pub proof fn lemma_count_below_all(a: Seq<u16>, m: int, i: int)
    requires
        0 <= i <= a.len(),
        forall|j: int| 0 <= j < a.len() ==> (a[j] as int) < m,
    ensures
        count_below(a, m, i) == i,
    decreases i,
{
    if i > 0 {
        lemma_count_below_all(a, m, i - 1);
    }
}

pub proof fn lemma_count_in_mono(a: Seq<u16>, c: int, i1: int, i2: int)
    requires
        0 <= i1 <= i2 <= a.len(),
    ensures
        count_in(a, c, i1) <= count_in(a, c, i2),
        i1 < i2 && a[i1] as int == c ==> count_in(a, c, i1) < count_in(a, c, i2),
    decreases i2,
{
    if i1 < i2 {
        lemma_count_in_mono(a, c, i1, i2 - 1);
        if i1 == i2 - 1 {
        }
    }
}

/// The counting sort places every entry inside its cell, and no two entries in
/// the same place.
pub proof fn lemma_grouped_position(a: Seq<u16>, nlist: int, i: int, j: int)
    requires
        forall|t: int| 0 <= t < a.len() ==> (a[t] as int) < nlist,
        0 <= i < a.len(),
        0 <= j < a.len(),
    ensures
        count_below(a, a[i] as int, a.len() as int) <= grouped_position(a, i) < count_below(a, a[i] + 1, a.len() as int),
        0 <= grouped_position(a, i) < a.len(),
        i != j ==> grouped_position(a, i) != grouped_position(a, j),
{
    let n = a.len() as int;
    lemma_count_below_step(a, a[i] as int, n);
    lemma_count_in_mono(a, a[i] as int, i, n);
    lemma_count_below_mono(a, a[i] + 1, nlist, n);
    lemma_count_below_all(a, nlist, n);
    lemma_count_below_step(a, a[j] as int, n);
    lemma_count_in_mono(a, a[j] as int, j, n);
    if i != j {
        if a[i] == a[j] {
            if i < j {
                lemma_count_in_mono(a, a[i] as int, i, j);
            } else {
                lemma_count_in_mono(a, a[i] as int, j, i);
            }
        } else if a[i] < a[j] {
            lemma_count_below_mono(a, a[i] + 1, a[j] as int, n);
        } else {
            lemma_count_below_mono(a, a[j] + 1, a[i] as int, n);
        }
    }
}

/// Counting sort of `entries` into the CSR layout, given each entry's cell:
/// `assignments[i]` is the cell of `entries[i]`.
///
/// `offsets[c]` is the number of entries in cells before `c`, so cell `c`
/// occupies `grouped[offsets[c]..offsets[c + 1]]`; within a cell the entries
/// keep their original order. Entries past the end of `assignments` stay where
/// they are.
pub fn group_by_cluster(entries: &[ReferenceEntry], assignments: &[u16], nlist: usize) -> (r: (
    Vec<usize>,
    Vec<ReferenceEntry>,
))
    requires
        assignments@.len() <= entries@.len(),
        nlist < usize::MAX,
        forall|i: int| 0 <= i < assignments@.len() ==> (#[trigger] assignments@[i] as int) < nlist,
    ensures
        r.0@.len() == nlist + 1,
        forall|c: int| 0 <= c <= nlist ==> #[trigger] r.0@[c] == count_below(assignments@, c, assignments@.len() as int),
        r.0@[0] == 0,
        r.0@[nlist as int] == assignments@.len(),
        r.1@.len() == entries@.len(),
        forall|i: int| 0 <= i < assignments@.len() ==> r.1@[grouped_position(assignments@, i)] == #[trigger] entries@[i],
        forall|i: int| assignments@.len() <= i < entries@.len() ==> #[trigger] r.1@[i] == entries@[i],
{
    let ghost a = assignments@;
    let alen = assignments.len();
    let ghost n = a.len() as int;
    assert(n == alen);
    // 1. COUNT: counts[c] = number of assignments equal to c.
    let mut counts: Vec<usize> = Vec::new();
    let mut c: usize = 0;
    while c < nlist
        invariant
            c <= nlist,
            counts@.len() == c,
            forall|d: int| 0 <= d < c ==> #[trigger] counts@[d] == 0,
        decreases nlist - c,
    {
        counts.push(0);
        c = c + 1;
    }
    let mut i: usize = 0;
    while i < assignments.len()
        invariant
            i <= n,
            n == assignments@.len(),
            a == assignments@,
            n <= entries@.len(),
            counts@.len() == nlist,
            forall|t: int| 0 <= t < n ==> (#[trigger] a[t] as int) < nlist,
            forall|d: int| 0 <= d < nlist ==> #[trigger] counts@[d] == count_in(a, d, i as int),
        decreases n - i,
    {
        let cell = assignments[i] as usize;
        proof {
            lemma_count_in_mono(a, cell as int, i as int, n);
            assert(count_in(a, cell as int, i as int) < count_in(a, cell as int, n));
            lemma_count_in_mono(a, cell as int, 0, n);
            assert(count_in(a, cell as int, n) <= n) by {
                lemma_count_in_le(a, cell as int, n);
            }
        }
        let old_count = counts[cell];
        counts.set(cell, old_count + 1);
        i = i + 1;
    }
    // 2. PREFIX SUM: offsets[c] = where cell c starts.
    let mut offsets: Vec<usize> = Vec::new();
    offsets.push(0);
    proof {
        lemma_count_below_zero(a, n);
    }
    let mut c: usize = 0;
    while c < nlist
        invariant
            c <= nlist,
            nlist < usize::MAX,
            n == a.len(),
            n == alen,
            counts@.len() == nlist,
            forall|t: int| 0 <= t < n ==> (#[trigger] a[t] as int) < nlist,
            forall|d: int| 0 <= d < nlist ==> #[trigger] counts@[d] == count_in(a, d, n),
            offsets@.len() == c + 1,
            forall|d: int| 0 <= d <= c ==> #[trigger] offsets@[d] == count_below(a, d, n),
        decreases nlist - c,
    {
        proof {
            lemma_count_below_step(a, c as int, n);
            lemma_count_below_mono(a, c + 1, nlist as int, n);
            lemma_count_below_all(a, nlist as int, n);
        }
        let next = offsets[c] + counts[c];
        offsets.push(next);
        c = c + 1;
    }
    proof {
        lemma_count_below_all(a, nlist as int, n);
    }
    // 3. SCATTER: cursor[c] = next free slot of cell c.
    let mut cursor: Vec<usize> = Vec::new();
    let mut c: usize = 0;
    while c < nlist
        invariant
            c <= nlist,
            offsets@.len() == nlist + 1,
            cursor@.len() == c,
            forall|d: int| 0 <= d < c ==> #[trigger] cursor@[d] == offsets@[d],
        decreases nlist - c,
    {
        cursor.push(offsets[c]);
        c = c + 1;
    }
    let mut grouped: Vec<ReferenceEntry> = Vec::new();
    let mut k: usize = 0;
    while k < entries.len()
        invariant
            k <= entries@.len(),
            grouped@ == entries@.subrange(0, k as int),
        decreases entries@.len() - k,
    {
        grouped.push(entries[k]);
        k = k + 1;
    }
    let mut i: usize = 0;
    while i < assignments.len()
        invariant
            i <= n,
            n == assignments@.len(),
            a == assignments@,
            n <= entries@.len(),
            grouped@.len() == entries@.len(),
            cursor@.len() == nlist,
            offsets@.len() == nlist + 1,
            forall|t: int| 0 <= t < n ==> (#[trigger] a[t] as int) < nlist,
            forall|d: int| 0 <= d <= nlist ==> #[trigger] offsets@[d] == count_below(a, d, n),
            forall|d: int| 0 <= d < nlist ==> #[trigger] cursor@[d] == count_below(a, d, n) + count_in(a, d, i as int),
            forall|j: int| 0 <= j < i ==> grouped@[grouped_position(a, j)] == #[trigger] entries@[j],
            forall|j: int| n <= j < entries@.len() ==> #[trigger] grouped@[j] == entries@[j],
        decreases n - i,
    {
        let cell = assignments[i] as usize;
        proof {
            lemma_grouped_position(a, nlist as int, i as int, i as int);
            assert(cursor@[cell as int] == grouped_position(a, i as int));
            lemma_count_in_mono(a, cell as int, i as int, n);
        }
        let slot = cursor[cell];
        let ghost before = grouped@;
        grouped.set(slot, entries[i]);
        cursor.set(cell, slot + 1);
        proof {
            assert(grouped@ == before.update(slot as int, entries@[i as int]));
            assert forall|j: int| 0 <= j < i + 1 implies grouped@[grouped_position(a, j)] == #[trigger] entries@[j] by {
                lemma_grouped_position(a, nlist as int, i as int, j);
                if j < i {
                    lemma_grouped_position(a, nlist as int, j, i as int);
                    assert(before[grouped_position(a, j)] == entries@[j]);
                    assert(grouped_position(a, j) != slot);
                    assert(grouped@[grouped_position(a, j)] == entries@[j]);
                } else {
                    assert(grouped_position(a, j) == slot);
                    assert(grouped@[slot as int] == entries@[i as int]);
                    assert(grouped@[grouped_position(a, j)] == entries@[j]);
                }
            }
        }
        i = i + 1;
    }
    (offsets, grouped)
}

/// `grouped` and `offsets` are the CSR layout of `entries` under `assignments`
/// with `nlist` cells.
pub open spec fn is_grouping(
    entries: Seq<ReferenceEntry>,
    assignments: Seq<u16>,
    nlist: int,
    offsets: Seq<usize>,
    grouped: Seq<ReferenceEntry>,
) -> bool {
    &&& offsets.len() == nlist + 1
    &&& forall|c: int| 0 <= c <= nlist ==> #[trigger] offsets[c] == count_below(assignments, c, assignments.len() as int)
    &&& grouped.len() == entries.len()
    &&& forall|i: int| 0 <= i < assignments.len() ==> grouped[grouped_position(assignments, i)] == #[trigger] entries[i]
    &&& forall|i: int| assignments.len() <= i < entries.len() ==> #[trigger] grouped[i] == entries[i]
}

pub proof fn lemma_count_in_le(a: Seq<u16>, c: int, i: int)
    requires
        0 <= i <= a.len(),
    ensures
        count_in(a, c, i) <= i,
    decreases i,
{
    if i > 0 {
        lemma_count_in_le(a, c, i - 1);
    }
}


/// The candidates of a coarse search: each cell's distance key, identified by
/// the cell number.
pub open spec fn cell_pool(cell_keys: Seq<u64>) -> Seq<Candidate> {
    Seq::new(cell_keys.len(), |c: int| (cell_keys[c], c as usize))
}

/// The `nprobe` cells nearest to a query whose distance key to cell `c` is
/// `cell_keys[c]`, nearest first; a tie goes to the lower cell number.
pub open spec fn nearest_cells_of(cell_keys: Seq<u64>, nprobe: int) -> Seq<usize> {
    ids_of(k_nearest(cell_pool(cell_keys), nprobe))
}

pub proof fn lemma_cell_pool_distinct(cell_keys: Seq<u64>)
    requires
        cell_keys.len() <= usize::MAX,
    ensures
        distinct_ids(cell_pool(cell_keys)),
{
}

/// The stride of the training sample: every `n / train_sample`-th entry.
pub open spec fn sample_stride(n: int, train_sample: int) -> int {
    if n / train_sample > 1 { n / train_sample } else { 1 }
}

/// The stride spreads a smaller sample over the whole set: it is `n /
/// train_sample` rounded down, the largest step `s >= 1` with
/// `s * train_sample <= n`, so the sample's last pick is among the final
/// `stride` entries.
pub proof fn lemma_sample_stride_spreads(n: int, train_sample: int)
    requires
        0 < train_sample < n,
    ensures
        sample_stride(n, train_sample) >= 1,
        sample_stride(n, train_sample) * train_sample <= n,
        n < (sample_stride(n, train_sample) + 1) * train_sample,
{
    let q = n / train_sample;
    let r = n % train_sample;
    assert(n == q * train_sample + r && 0 <= r < train_sample) by (nonlinear_arith)
        requires
            train_sample > 0,
            q == n / train_sample,
            r == n % train_sample,
    ;
    assert(q >= 1) by (nonlinear_arith)
        requires
            n == q * train_sample + r,
            0 <= r < train_sample,
            train_sample < n,
    ;
    assert(sample_stride(n, train_sample) == q);
    assert((q + 1) * train_sample == q * train_sample + train_sample) by (nonlinear_arith);
}

impl IvfIndex {
    /// Number of cells.
    pub open spec fn cell_count(&self) -> int {
        self.centroids@.len() as int
    }

    /// Cell `c`'s list can be sliced out of `entries`.
    pub open spec fn list_ok(&self, c: int) -> bool {
        &&& 0 <= c
        &&& c + 1 < self.list_offsets@.len()
        &&& self.list_offsets@[c] <= self.list_offsets@[c + 1] <= self.entries@.len()
    }

    /// The lists of the given cells can be sliced out of `entries`.
    pub open spec fn lists_ok_for(&self, cells: Seq<usize>) -> bool {
        forall|i: int| #![trigger cells[i]] 0 <= i < cells.len() ==> self.list_ok(cells[i] as int)
    }

    /// Every cell's list can be sliced out of `entries`.
    pub open spec fn lists_ok(&self) -> bool {
        forall|c: int| 0 <= c < self.cell_count() ==> #[trigger] self.list_ok(c)
    }

    /// The lists cover `entries` exactly, one after the other.
    pub open spec fn is_partition(&self) -> bool {
        &&& self.lists_ok()
        &&& self.list_offsets@.len() == self.cell_count() + 1
        &&& self.list_offsets@[0] == 0
        &&& self.list_offsets@[self.cell_count()] == self.entries@.len()
    }

    /// The entries of cell `c`.
    pub open spec fn cell(&self, c: int) -> Seq<ReferenceEntry> {
        self.entries@.subrange(self.list_offsets@[c] as int, self.list_offsets@[c + 1] as int)
    }

    /// The entries of the given cells, cell after cell.
    pub open spec fn probed_entries(&self, cells: Seq<usize>) -> Seq<ReferenceEntry>
        decreases cells.len(),
    {
        if cells.len() == 0 {
            Seq::empty()
        } else {
            self.probed_entries(cells.drop_last()) + self.cell(cells.last() as int)
        }
    }

    /// Number of inverted lists (cells).
    pub fn nlist(&self) -> (n: usize)
        ensures
            n == self.cell_count(),
    {
        self.centroids.len()
    }

    /// Whether every cell's list can be sliced out of `entries`.
    pub fn has_valid_lists(&self) -> (r: bool)
        ensures
            r == self.lists_ok(),
    {
        let nlist = self.centroids.len();
        let noffsets = self.list_offsets.len();
        let mut c: usize = 0;
        while c < nlist
            invariant
                c <= nlist,
                nlist == self.cell_count(),
                noffsets == self.list_offsets@.len(),
                forall|d: int| 0 <= d < c ==> #[trigger] self.list_ok(d),
            decreases nlist - c,
        {
            if c + 1 >= noffsets {
                assert(!self.list_ok(c as int));
                return false;
            }
            if !(self.list_offsets[c] <= self.list_offsets[c + 1] && self.list_offsets[c + 1] <= self.entries.len()) {
                assert(!self.list_ok(c as int));
                return false;
            }
            c = c + 1;
        }
        true
    }

    /// Whether cell `c`'s list can be sliced out of `entries`.
    pub fn has_valid_list(&self, c: usize) -> (r: bool)
        ensures
            r == self.list_ok(c as int),
    {
        let noffsets = self.list_offsets.len();
        if noffsets == 0 || c >= noffsets - 1 {
            return false;
        }
        self.list_offsets[c] <= self.list_offsets[c + 1] && self.list_offsets[c + 1] <= self.entries.len()
    }

    /// The entries assigned to cell `c`, as a contiguous slice.
    pub fn list(&self, c: usize) -> (r: &[ReferenceEntry])
        requires
            self.list_ok(c as int),
        ensures
            r@ == self.cell(c as int),
    {
        let noffsets = self.list_offsets.len();
        assert(c + 1 < noffsets);
        vstd::slice::slice_subrange(self.entries.as_slice(), self.list_offsets[c], self.list_offsets[c + 1])
    }

    /// Coarse search: the `nprobe` cells nearest to the query, nearest first,
    /// where `cell_keys[c]` orders the query's distance to centroid `c`. With
    /// `nprobe > nlist`, all cells.
    pub fn nearest_cells(&self, cell_keys: &[u64], nprobe: usize) -> (cells: Vec<usize>)
        requires
            cell_keys@.len() == self.cell_count(),
        ensures
            cells@ == nearest_cells_of(cell_keys@, nprobe as int),
            cells@.len() == if nprobe < self.cell_count() { nprobe as int } else { self.cell_count() },
            forall|i: int| 0 <= i < cells@.len() ==> (#[trigger] cells@[i] as int) < self.cell_count(),
    {
        let mut best = NearestK::new(nprobe);
        let mut c: usize = 0;
        while c < cell_keys.len()
            invariant
                c <= cell_keys@.len(),
                best.wf(),
                best.capacity() == nprobe,
                best.offered() =~= cell_pool(cell_keys@).take(c as int),
            decreases cell_keys@.len() - c,
        {
            proof {
                assert forall|j: int| 0 <= j < best.offered().len() implies (#[trigger] best.offered()[j]).1 != c by {
                    assert(best.offered()[j] == cell_pool(cell_keys@)[j]);
                }
            }
            best.offer(cell_keys[c], c);
            c = c + 1;
        }
        assert(cell_pool(cell_keys@).take(cell_keys@.len() as int) =~= cell_pool(cell_keys@));
        let sel = best.selected();
        proof {
            lemma_cell_pool_distinct(cell_keys@);
            lemma_k_nearest_exists(cell_pool(cell_keys@), nprobe as int);
        }
        let mut cells: Vec<usize> = Vec::new();
        let mut i: usize = 0;
        while i < sel.len()
            invariant
                i <= sel@.len(),
                sel@ == k_nearest(cell_pool(cell_keys@), nprobe as int),
                cells@ == ids_of(sel@).take(i as int),
                forall|j: int| 0 <= j < sel@.len() ==> cell_pool(cell_keys@).contains(#[trigger] sel@[j]),
                forall|j: int| 0 <= j < i ==> (#[trigger] cells@[j] as int) < self.cell_count(),
                cell_keys@.len() == self.cell_count(),
            decreases sel@.len() - i,
        {
            proof {
                let p = sel@[i as int];
                assert(cell_pool(cell_keys@).contains(p));
                let m = choose|m: int| 0 <= m < cell_keys@.len() && cell_pool(cell_keys@)[m] == p;
            }
            cells.push(sel[i].1);
            i = i + 1;
        }
        assert(ids_of(sel@).take(sel@.len() as int) =~= ids_of(sel@));
        cells
    }

    /// Fraud votes of a query through the index: probe the `nprobe` cells
    /// nearest to it (by `cell_keys`, as in `nearest_cells`), gather their
    /// entries cell after cell, and take the fraud votes of the five nearest of
    /// those, exactly as `fraud_score_top5` does on the shortlist.
    pub fn fraud_score(&self, query: &[i16; 14], cell_keys: &[u64], nprobe: usize) -> (votes: usize)
        requires
            cell_keys@.len() == self.cell_count(),
            self.lists_ok_for(nearest_cells_of(cell_keys@, nprobe as int)),
        ensures
            votes == fraud_votes(query@, self.probed_entries(nearest_cells_of(cell_keys@, nprobe as int))),
            votes <= K_NEIGHBORS,
    {
        let cells = self.nearest_cells(cell_keys, nprobe);
        let mut candidates: Vec<ReferenceEntry> = Vec::new();
        let mut t: usize = 0;
        while t < cells.len()
            invariant
                t <= cells@.len(),
                self.lists_ok_for(cells@),
                forall|i: int| 0 <= i < cells@.len() ==> (#[trigger] cells@[i] as int) < self.cell_count(),
                candidates@ == self.probed_entries(cells@.take(t as int)),
            decreases cells@.len() - t,
        {
            let c = cells[t];
            assert(self.list_ok(c as int));
            let list = self.list(c);
            let ghost before = candidates@;
            let mut j: usize = 0;
            while j < list.len()
                invariant
                    j <= list@.len(),
                    candidates@ == before + list@.take(j as int),
                decreases list@.len() - j,
            {
                candidates.push(list[j]);
                j = j + 1;
            }
            assert(list@.take(list@.len() as int) =~= list@);
            assert(cells@.take(t + 1).drop_last() =~= cells@.take(t as int));
            assert(candidates@ == self.probed_entries(cells@.take(t + 1)));
            t = t + 1;
        }
        assert(cells@.take(cells@.len() as int) =~= cells@);
        fraud_score_top5(query, candidates.as_slice())
    }

    /// Assemble an index from its trained centroids and each entry's cell
    /// (`assignments[i]` is the cell of `entries[i]`): the entries are binned into
    /// contiguous lists by `group_by_cluster`.
    pub fn from_assignments(centroids: Vec<[u32; 14]>, entries: &[ReferenceEntry], assignments: &[u16]) -> (index: IvfIndex)
        requires
            assignments@.len() == entries@.len(),
            centroids@.len() < usize::MAX,
            forall|i: int| 0 <= i < assignments@.len() ==> (#[trigger] assignments@[i] as int) < centroids@.len(),
        ensures
            index.centroids@ == centroids@,
            is_grouping(entries@, assignments@, centroids@.len() as int, index.list_offsets@, index.entries@),
            index.is_partition(),
    {
        let nlist = centroids.len();
        let (list_offsets, grouped) = group_by_cluster(entries, assignments, nlist);
        proof {
            let a = assignments@;
            let n = a.len() as int;
            assert forall|c: int| 0 <= c < nlist implies #[trigger] list_offsets@[c] <= list_offsets@[c + 1] <= grouped@.len() by {
                lemma_count_below_mono(a, c, c + 1, n);
                lemma_count_below_mono(a, c + 1, nlist as int, n);
                lemma_count_below_all(a, nlist as int, n);
            }
        }
        let index = IvfIndex { centroids, list_offsets, entries: grouped };
        assert(index.lists_ok()) by {
            assert forall|c: int| 0 <= c < index.cell_count() implies #[trigger] index.list_ok(c) by {
                assert(index.list_offsets@[c] <= index.list_offsets@[c + 1] <= index.entries@.len());
            }
        }
        index
    }
}

/// The training sample for the coarse quantizer: every entry when
/// `train_sample` covers them all, otherwise `train_sample` entries taken at the
/// fixed stride `entries.len() / train_sample` from the start (deterministic, no
/// random numbers).
pub fn training_sample(entries: &[ReferenceEntry], train_sample: usize) -> (sample: Vec<[i16; 14]>)
    requires
        train_sample > 0 || entries@.len() == 0,
    ensures
        train_sample >= entries@.len() ==> sample@ == entries@.map_values(|e: ReferenceEntry| e.vector),
        train_sample < entries@.len() ==> {
            &&& sample@.len() == train_sample
            &&& forall|j: int| 0 <= j < train_sample ==> #[trigger] sample@[j] == entries@[j * sample_stride(entries@.len() as int, train_sample as int)].vector
        },
{
    let n = entries.len();
    let mut sample: Vec<[i16; 14]> = Vec::new();
    if train_sample >= n {
        let mut i: usize = 0;
        while i < n
            invariant
                i <= n,
                n == entries@.len(),
                sample@ == entries@.map_values(|e: ReferenceEntry| e.vector).take(i as int),
            decreases n - i,
        {
            sample.push(entries[i].vector);
            i = i + 1;
        }
        assert(entries@.map_values(|e: ReferenceEntry| e.vector).take(n as int) =~= entries@.map_values(|e: ReferenceEntry| e.vector));
    } else {
        let q = n / train_sample;
        let stride = if q > 1 { q } else { 1 };
        assert(stride == sample_stride(n as int, train_sample as int));
        assert(q >= 1) by (nonlinear_arith)
            requires
                q == n / train_sample,
                train_sample < n,
                train_sample > 0,
        ;
        assert(stride == q);
        assert(train_sample * stride <= n) by (nonlinear_arith)
            requires
                stride == n / train_sample,
                train_sample > 0,
        ;
        let mut idx: usize = 0;
        let mut taken: usize = 0;
        while taken < train_sample
            invariant
                taken <= train_sample,
                idx == taken * stride,
                stride >= 1,
                train_sample * stride <= n,
                n == entries@.len(),
                stride == sample_stride(n as int, train_sample as int),
                sample@.len() == taken,
                forall|j: int| 0 <= j < taken ==> #[trigger] sample@[j] == entries@[j * stride].vector,
            decreases train_sample - taken,
        {
            assert(idx + stride <= n) by (nonlinear_arith)
                requires
                    idx == taken * stride,
                    taken < train_sample,
                    train_sample * stride <= n,
                    stride >= 1,
            ;
            sample.push(entries[idx].vector);
            idx = idx + stride;
            taken = taken + 1;
            assert(idx == taken * stride) by (nonlinear_arith)
                requires
                    idx == (taken - 1) * stride + stride,
            ;
        }
    }
    sample
}

impl IvfIndex {
    /// The positions in `entries` of the given cells' entries, cell after cell.
    pub open spec fn probed_positions(&self, cells: Seq<usize>) -> Seq<usize>
        decreases cells.len(),
    {
        if cells.len() == 0 {
            Seq::empty()
        } else {
            let c = cells.last() as int;
            let start = self.list_offsets@[c] as int;
            let end = self.list_offsets@[c + 1] as int;
            self.probed_positions(cells.drop_last()) + Seq::new((end - start) as nat, |j: int| (start + j) as usize)
        }
    }
}

/// Offsets never decrease along the cells.
pub proof fn lemma_offsets_chain(index: IvfIndex, c1: int, c2: int)
    requires
        index.lists_ok(),
        0 <= c1 <= c2 <= index.cell_count(),
    ensures
        index.list_offsets@[c1] <= index.list_offsets@[c2],
    decreases c2 - c1,
{
    if c1 < c2 {
        assert(index.list_ok(c2 - 1));
        lemma_offsets_chain(index, c1, c2 - 1);
    }
}

/// The positions gathered from distinct cells are distinct positions of
/// `entries`, each inside the list of one of those cells, and they are the
/// positions of the gathered entries.
pub proof fn lemma_probed_positions(index: IvfIndex, cells: Seq<usize>)
    requires
        index.lists_ok(),
        cells.no_duplicates(),
        forall|t: int| 0 <= t < cells.len() ==> (#[trigger] cells[t] as int) < index.cell_count(),
    ensures
        index.probed_positions(cells).no_duplicates(),
        index.probed_positions(cells).len() == index.probed_entries(cells).len(),
        forall|i: int| 0 <= i < index.probed_positions(cells).len() ==> (#[trigger] index.probed_positions(cells)[i] as int) < index.entries@.len(),
        forall|i: int| 0 <= i < index.probed_positions(cells).len() ==> index.probed_entries(cells)[i] == index.entries@[#[trigger] index.probed_positions(cells)[i] as int],
        forall|i: int| 0 <= i < index.probed_positions(cells).len() ==> exists|t: int| 0 <= t < cells.len()
            && index.list_offsets@[cells[t] as int] <= #[trigger] index.probed_positions(cells)[i]
            && index.probed_positions(cells)[i] < index.list_offsets@[cells[t] + 1],
    decreases cells.len(),
{
    if cells.len() > 0 {
        let prefix = cells.drop_last();
        assert(prefix.no_duplicates()) by {
            assert forall|i: int, j: int| 0 <= i < prefix.len() && 0 <= j < prefix.len() && i != j implies prefix[i] != prefix[j] by {
                assert(prefix[i] == cells[i]);
                assert(prefix[j] == cells[j]);
            }
        }
        lemma_probed_positions(index, prefix);
        let c = cells.last() as int;
        assert(index.list_ok(c));
        let start = index.list_offsets@[c] as int;
        let end = index.list_offsets@[c + 1] as int;
        let old_pos = index.probed_positions(prefix);
        let new_pos = Seq::new((end - start) as nat, |j: int| (start + j) as usize);
        let pos = index.probed_positions(cells);
        let ents = index.probed_entries(cells);
        assert(pos == old_pos + new_pos);
        assert(ents == index.probed_entries(prefix) + index.cell(c));
        assert forall|i: int| 0 <= i < pos.len() implies exists|t: int| 0 <= t < cells.len()
            && index.list_offsets@[cells[t] as int] <= #[trigger] pos[i]
            && pos[i] < index.list_offsets@[cells[t] + 1] by {
            if i < old_pos.len() {
                let t = choose|t: int| 0 <= t < prefix.len()
                    && index.list_offsets@[prefix[t] as int] <= old_pos[i]
                    && old_pos[i] < index.list_offsets@[prefix[t] + 1];
                assert(prefix[t] == cells[t]);
            } else {
                assert(cells[cells.len() - 1] == c);
            }
        }
        assert forall|i: int| 0 <= i < pos.len() implies (#[trigger] pos[i] as int) < index.entries@.len() by {
            if i < old_pos.len() {
            } else {
            }
        }
        assert forall|i: int| 0 <= i < pos.len() implies ents[i] == index.entries@[#[trigger] pos[i] as int] by {
            if i < old_pos.len() {
            } else {
                let j = i - old_pos.len();
                assert(index.cell(c)[j] == index.entries@[start + j]);
            }
        }
        assert(pos.no_duplicates()) by {
            assert forall|i: int, j: int| 0 <= i < pos.len() && 0 <= j < pos.len() && i != j implies pos[i] != pos[j] by {
                if i < old_pos.len() && j < old_pos.len() {
                } else if i >= old_pos.len() && j >= old_pos.len() {
                } else {
                    let (a, b) = if i < old_pos.len() { (i, j) } else { (j, i) };
                    // `a` is an older position, `b` a position of cell `c`
                    let t = choose|t: int| 0 <= t < prefix.len()
                        && index.list_offsets@[prefix[t] as int] <= old_pos[a]
                        && old_pos[a] < index.list_offsets@[prefix[t] + 1];
                    let c2 = prefix[t] as int;
                    assert(prefix[t] == cells[t]);
                    assert(c2 != c);
                    assert(index.list_ok(c2));
                    if c2 < c {
                        lemma_offsets_chain(index, c2 + 1, c);
                    } else {
                        lemma_offsets_chain(index, c + 1, c2);
                    }
                }
            }
        }
    }
}

/// In a partition, every position of `entries` lies in the list of some cell
/// before `c`, when it lies before that cell's start.
pub proof fn lemma_partition_cell_of(index: IvfIndex, p: int, c: int)
    requires
        index.is_partition(),
        0 <= c <= index.cell_count(),
        0 <= p < index.list_offsets@[c],
    ensures
        exists|c2: int| 0 <= c2 < c && #[trigger] index.list_offsets@[c2] <= p < index.list_offsets@[c2 + 1],
    decreases c,
{
    if c > 0 {
        if index.list_offsets@[c - 1] <= p {
            assert(index.list_offsets@[c - 1] <= p < index.list_offsets@[(c - 1) + 1]);
        } else {
            lemma_partition_cell_of(index, p, c - 1);
            let c2 = choose|c2: int| 0 <= c2 < c - 1 && #[trigger] index.list_offsets@[c2] <= p < index.list_offsets@[c2 + 1];
            assert(0 <= c2 < c);
        }
    }
}

/// Gathering every cell of a partition gathers every position.
pub proof fn lemma_all_cells_cover(index: IvfIndex, cells: Seq<usize>, p: int)
    requires
        index.is_partition(),
        index.cell_count() <= usize::MAX,
        cells.no_duplicates(),
        forall|t: int| 0 <= t < cells.len() ==> (#[trigger] cells[t] as int) < index.cell_count(),
        forall|c: usize| (c as int) < index.cell_count() ==> #[trigger] cells.contains(c),
        0 <= p < index.entries@.len(),
    ensures
        index.probed_positions(cells).contains(p as usize),
    decreases cells.len(),
{
    lemma_partition_cell_of(index, p, index.cell_count());
    let c = choose|c2: int| 0 <= c2 < index.cell_count() && #[trigger] index.list_offsets@[c2] <= p < index.list_offsets@[c2 + 1];
    assert(cells.contains(c as usize));
    let t = choose|t: int| 0 <= t < cells.len() && cells[t] == c as usize;
    lemma_probed_contains(index, cells, t, p);
}

/// Position `p` of cell `cells[t]` is among the gathered positions.
pub proof fn lemma_probed_contains(index: IvfIndex, cells: Seq<usize>, t: int, p: int)
    requires
        index.lists_ok(),
        forall|u: int| 0 <= u < cells.len() ==> (#[trigger] cells[u] as int) < index.cell_count(),
        0 <= t < cells.len(),
        index.list_offsets@[cells[t] as int] <= p < index.list_offsets@[cells[t] + 1],
    ensures
        index.probed_positions(cells).contains(p as usize),
    decreases cells.len(),
{
    let prefix = cells.drop_last();
    let c = cells.last() as int;
    assert(index.list_ok(c));
    let start = index.list_offsets@[c] as int;
    let end = index.list_offsets@[c + 1] as int;
    let old_pos = index.probed_positions(prefix);
    let new_pos = Seq::new((end - start) as nat, |j: int| (start + j) as usize);
    assert(index.probed_positions(cells) == old_pos + new_pos);
    if t == cells.len() - 1 {
        assert(new_pos[p - start] == p as usize);
        assert(index.probed_positions(cells)[old_pos.len() + (p - start)] == p as usize);
    } else {
        assert(prefix[t] == cells[t]);
        lemma_probed_contains(index, prefix, t, p);
        let i = choose|i: int| 0 <= i < old_pos.len() && old_pos[i] == p as usize;
        assert(index.probed_positions(cells)[i] == p as usize);
    }
}

/// With `nprobe` at least the number of cells, the coarse search returns every
/// cell, each once.
pub proof fn lemma_nearest_cells_all(cell_keys: Seq<u64>, nprobe: int)
    requires
        nprobe >= cell_keys.len(),
        cell_keys.len() <= usize::MAX,
    ensures
        nearest_cells_of(cell_keys, nprobe).no_duplicates(),
        forall|t: int| 0 <= t < nearest_cells_of(cell_keys, nprobe).len() ==> (#[trigger] nearest_cells_of(cell_keys, nprobe)[t] as int) < cell_keys.len(),
        forall|c: usize| (c as int) < cell_keys.len() ==> #[trigger] nearest_cells_of(cell_keys, nprobe).contains(c),
{
    let pool = cell_pool(cell_keys);
    lemma_cell_pool_distinct(cell_keys);
    lemma_nearest_cells_valid(cell_keys, nprobe);
    crate::selection::lemma_k_nearest_covers(pool, nprobe);
    let sel = k_nearest(pool, nprobe);
    assert forall|c: usize| (c as int) < cell_keys.len() implies #[trigger] nearest_cells_of(cell_keys, nprobe).contains(c) by {
        assert(pool[c as int] == (cell_keys[c as int], c));
        assert(pool.contains((cell_keys[c as int], c)));
        assert(sel.contains((cell_keys[c as int], c)));
        let i = choose|i: int| 0 <= i < sel.len() && sel[i] == (cell_keys[c as int], c);
        assert(ids_of(sel)[i] == c);
    }
}

/// The coarse search returns distinct cells that exist.
pub proof fn lemma_nearest_cells_valid(cell_keys: Seq<u64>, nprobe: int)
    requires
        nprobe >= 0,
        cell_keys.len() <= usize::MAX,
    ensures
        nearest_cells_of(cell_keys, nprobe).no_duplicates(),
        forall|t: int| 0 <= t < nearest_cells_of(cell_keys, nprobe).len() ==> (#[trigger] nearest_cells_of(cell_keys, nprobe)[t] as int) < cell_keys.len(),
{
    let pool = cell_pool(cell_keys);
    lemma_cell_pool_distinct(cell_keys);
    crate::selection::lemma_k_nearest_len(pool, nprobe);
    let sel = k_nearest(pool, nprobe);
    let ids = ids_of(sel);
    assert forall|t: int| 0 <= t < ids.len() implies (#[trigger] ids[t] as int) < cell_keys.len() by {
        assert(pool.contains(sel[t]));
        let m = choose|m: int| 0 <= m < pool.len() && pool[m] == sel[t];
    }
    assert forall|i: int, j: int| 0 <= i < ids.len() && 0 <= j < ids.len() && i != j implies ids[i] != ids[j] by {
        assert(pool.contains(sel[i]));
        assert(pool.contains(sel[j]));
        let mi = choose|m: int| 0 <= m < pool.len() && pool[m] == sel[i];
        let mj = choose|m: int| 0 <= m < pool.len() && pool[m] == sel[j];
        if i < j {
            assert(precedes(sel[i], sel[j]));
        } else {
            assert(precedes(sel[j], sel[i]));
        }
    }
}

/// Slot `k` of `grouped` holds the entry placed there.
pub open spec fn slot_holds_one_entry(entries: Seq<ReferenceEntry>, a: Seq<u16>, grouped: Seq<ReferenceEntry>, k: int) -> bool {
    exists|i: int| 0 <= i < a.len() && grouped_position(a, i) == k && grouped[k] == entries[i]
}

/// Slot `k` of `grouped` holds an entry assigned to cell `c`.
pub open spec fn slot_holds_cell_entry(entries: Seq<ReferenceEntry>, a: Seq<u16>, grouped: Seq<ReferenceEntry>, c: int, k: int) -> bool {
    exists|i: int| 0 <= i < a.len() && a[i] as int == c && grouped[k] == entries[i]
}

/// The counting sort is a permutation: every slot of `grouped` holds exactly
/// one entry, and the slice of cell `c` holds exactly the entries assigned to `c`.
pub proof fn lemma_grouping_is_permutation(
    entries: Seq<ReferenceEntry>,
    assignments: Seq<u16>,
    nlist: int,
    offsets: Seq<usize>,
    grouped: Seq<ReferenceEntry>,
)
    requires
        is_grouping(entries, assignments, nlist, offsets, grouped),
        assignments.len() == entries.len(),
        forall|i: int| 0 <= i < assignments.len() ==> (#[trigger] assignments[i] as int) < nlist,
    ensures
        forall|i: int, j: int| 0 <= i < j < assignments.len() ==> grouped_position(assignments, i) != grouped_position(assignments, j),
        forall|k: int| 0 <= k < grouped.len() ==> #[trigger] slot_holds_one_entry(entries, assignments, grouped, k),
        forall|c: int, k: int| 0 <= c < nlist && offsets[c] <= k < offsets[c + 1] ==> #[trigger] slot_holds_cell_entry(entries, assignments, grouped, c, k),
{
    let a = assignments;
    let n = a.len() as int;
    assert forall|i: int, j: int| 0 <= i < j < n implies grouped_position(a, i) != grouped_position(a, j) by {
        lemma_grouped_position(a, nlist, i, j);
    }
    let pos = Seq::new(n as nat, |i: int| grouped_position(a, i));
    assert(pos.no_duplicates()) by {
        assert forall|i: int, j: int| 0 <= i < n && 0 <= j < n && i != j implies pos[i] != pos[j] by {
            lemma_grouped_position(a, nlist, i, j);
        }
    }
    pos.unique_seq_to_set();
    vstd::set_lib::lemma_int_range(0, n);
    assert(pos.to_set().subset_of(vstd::set_lib::set_int_range(0, n))) by {
        assert forall|x: int| pos.to_set().contains(x) implies vstd::set_lib::set_int_range(0, n).contains(x) by {
            let i = choose|i: int| 0 <= i < pos.len() && pos[i] == x;
            lemma_grouped_position(a, nlist, i, i);
        }
    }
    vstd::set_lib::lemma_subset_equality(pos.to_set(), vstd::set_lib::set_int_range(0, n));
    assert forall|k: int| 0 <= k < grouped.len() implies #[trigger] slot_holds_one_entry(entries, assignments, grouped, k) by {
        assert(vstd::set_lib::set_int_range(0, n).contains(k));
        assert(pos.to_set().contains(k));
        let i = choose|i: int| 0 <= i < pos.len() && pos[i] == k;
        assert(grouped[grouped_position(a, i)] == entries[i]);
    }
    assert forall|c: int, k: int| 0 <= c < nlist && offsets[c] <= k < offsets[c + 1] implies #[trigger] slot_holds_cell_entry(entries, assignments, grouped, c, k) by {
        lemma_count_below_mono(a, c + 1, nlist, n);
        lemma_count_below_all(a, nlist, n);
        assert(0 <= k < grouped.len());
        assert(slot_holds_one_entry(entries, assignments, grouped, k));
        let i = choose|i: int| 0 <= i < a.len() && grouped_position(a, i) == k && grouped[k] == entries[i];
        lemma_grouped_position(a, nlist, i, i);
        if (a[i] as int) < c {
            lemma_count_below_mono(a, a[i] + 1, c, n);
        } else if (a[i] as int) > c {
            lemma_count_below_mono(a, c + 1, a[i] as int, n);
        }
    }
}

} // verus!
