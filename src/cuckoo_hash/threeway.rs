//! The three-way cuckoo hash table: every element has three candidate
//! buckets, which tolerates a higher load before the stash is used.
use crate::cuckoo_hash::{
    candidate, first_free, insert_outcome, is_candidate, lemma_chain_single_bucket,
    lemma_take_push_to_set, occupied, place_outcome, stashed_count, CuckooTable, Placement,
    Recorder, DEFAULT_CAPACITY, MAX_RELOCATE,
};
use vstd::prelude::*;

verus! {

/// A hash table of fixed capacity that resolves collisions by cuckoo
/// hashing with three candidate buckets per element, and keeps what the
/// bounded relocation chain cannot place in a stash.
pub struct CuckooHashTable {
    table: CuckooTable,
}

impl View for CuckooHashTable {
    type V = Set<u32>;

    /// The set of elements in the table.
    closed spec fn view(&self) -> Set<u32> {
        self.table@
    }
}

impl CuckooHashTable {
    /// The table is well formed, with three candidates per element.
    pub closed spec fn wf(&self) -> bool {
        self.table.wf() && self.table.spec_ways() == 3
    }

    /// Number of buckets.
    pub closed spec fn spec_capacity(&self) -> nat {
        self.table.spec_capacity()
    }

    /// Number of elements in the stash.
    pub closed spec fn spec_stash_len(&self) -> nat {
        self.table.spec_stash_len()
    }

    /// The slot of each bucket, in bucket order.
    pub closed spec fn slots(&self) -> Seq<Option<u32>> {
        self.table.slots()
    }

    /// The stash, oldest entry first.
    pub closed spec fn stash_view(&self) -> Seq<u32> {
        self.table.stash_view()
    }

    /// Some candidate bucket of `e` has an empty slot.
    pub open spec fn candidate_has_room(&self, e: u32) -> bool {
        first_free(3, self.spec_capacity(), self.slots(), e) is Some
    }

    /// The relocation statistics.
    pub closed spec fn spec_record(&self) -> Recorder {
        self.table.spec_record()
    }

    /// Builds an empty table of `DEFAULT_CAPACITY` buckets.
    pub fn new() -> (r: Self)
        ensures
            r.wf(),
            r@ == Set::<u32>::empty(),
            r.spec_capacity() == DEFAULT_CAPACITY,
            r.spec_stash_len() == 0,
            r.stash_view() == Seq::<u32>::empty(),
            r.slots().len() == r.spec_capacity(),
            forall|i: int| 0 <= i < r.slots().len() ==> #[trigger] r.slots()[i] is None,
            forall|e: u32| r.candidate_has_room(e),
    {
        CuckooHashTable { table: CuckooTable::with_ways(DEFAULT_CAPACITY, 3) }
    }

    /// Builds an empty table of `cap` buckets; a capacity of zero is raised
    /// to one.
    pub fn with_capacity(cap: usize) -> (r: Self)
        ensures
            r.wf(),
            r@ == Set::<u32>::empty(),
            r.spec_capacity() == if cap < 1 {
                1
            } else {
                cap
            },
            r.spec_stash_len() == 0,
            r.stash_view() == Seq::<u32>::empty(),
            r.slots().len() == r.spec_capacity(),
            forall|i: int| 0 <= i < r.slots().len() ==> #[trigger] r.slots()[i] is None,
            forall|e: u32| r.candidate_has_room(e),
    {
        CuckooHashTable { table: CuckooTable::with_ways(cap, 3) }
    }

    /// Inserts `data`. Returns `false` exactly when the element had to go to
    /// the stash. Inserting an element already present changes nothing and
    /// returns `true`.
    pub fn insert(&mut self, data: u32) -> (r: bool)
        requires
            old(self).wf(),
            old(self)@.len() < usize::MAX,
        ensures
            final(self).wf(),
            final(self)@ == old(self)@.insert(data),
            final(self).spec_capacity() == old(self).spec_capacity(),
            old(self)@.contains(data) ==> r && *final(self) == *old(self),
            old(self).candidate_has_room(data) ==> r,
            r ==> final(self).spec_stash_len() == old(self).spec_stash_len(),
            !r ==> final(self).spec_stash_len() == old(self).spec_stash_len() + 1,
            insert_outcome(
                3,
                old(self).spec_capacity(),
                old(self)@.contains(data),
                old(self).slots(),
                old(self).stash_view(),
                final(self).slots(),
                final(self).stash_view(),
                data,
                r,
            ),
    {
        self.table.insert(data)
    }

    /// Inserts `data` as `insert` does, but returns `None`, with the table
    /// unchanged, when a relocation chain is needed and the random source
    /// fails.
    pub fn try_insert(&mut self, data: u32) -> (r: Option<bool>)
        requires
            old(self).wf(),
            old(self)@.len() < usize::MAX,
        ensures
            r is None ==> *final(self) == *old(self) && !old(self)@.contains(data)
                && !old(self).candidate_has_room(data),
            r matches Some(b) ==> {
                &&& final(self).wf()
                &&& final(self)@ == old(self)@.insert(data)
                &&& final(self).spec_capacity() == old(self).spec_capacity()
                &&& (old(self)@.contains(data) ==> *final(self) == *old(self))
                &&& insert_outcome(
                    3,
                    old(self).spec_capacity(),
                    old(self)@.contains(data),
                    old(self).slots(),
                    old(self).stash_view(),
                    final(self).slots(),
                    final(self).stash_view(),
                    data,
                    b,
                )
            },
    {
        self.table.try_insert(data)
    }

    /// Inserts `data` as `insert` does, with a relocation chain, if one is
    /// needed, starting at candidate `start % 3`; reports where the element
    /// went.
    pub fn place(&mut self, data: u32, start: usize) -> (r: Placement)
        requires
            old(self).wf(),
            old(self)@.len() < usize::MAX,
        ensures
            final(self).wf(),
            final(self)@ == old(self)@.insert(data),
            final(self).spec_capacity() == old(self).spec_capacity(),
            old(self)@.contains(data) <==> r == Placement::Present,
            r == Placement::Present ==> *final(self) == *old(self),
            r == Placement::Direct <==> (!old(self)@.contains(data) && old(self).candidate_has_room(data)),
            !old(self)@.contains(data) ==> place_outcome(
                3,
                old(self).spec_capacity(),
                old(self).slots(),
                old(self).stash_view(),
                final(self).slots(),
                final(self).stash_view(),
                data,
                (start % 3usize) as int,
                r,
            ),
            r matches Placement::Relocated(n) ==> 1 <= n <= MAX_RELOCATE
                && final(self).spec_record() == old(self).spec_record().after(n as nat),
            r == Placement::Stashed ==> final(self).spec_record() == old(self).spec_record().after(
                MAX_RELOCATE as nat,
            ),
            r == Placement::Direct ==> final(self).spec_record() == old(self).spec_record(),
            final(self).spec_stash_len() == old(self).spec_stash_len() + if r == Placement::Stashed {
                1int
            } else {
                0int
            },
    {
        self.table.place(data, start)
    }

    /// Returns `true` if `data` is in the table.
    pub fn contains(&self, data: u32) -> (r: bool)
        requires
            self.wf(),
        ensures
            r == self@.contains(data),
    {
        self.table.contains(data)
    }

    /// Number of elements in the stash.
    pub fn stash_len(&self) -> (r: usize)
        ensures
            r == self.spec_stash_len(),
    {
        self.table.stash_len()
    }

    /// Number of buckets.
    pub fn capacity(&self) -> (r: usize)
        ensures
            r == self.spec_capacity(),
    {
        self.table.capacity()
    }

    /// Number of elements in the table.
    pub fn len(&self) -> (r: usize)
        requires
            self.wf(),
        ensures
            r == self@.len(),
    {
        self.table.len()
    }

    /// The relocation statistics.
    pub fn record(&self) -> (r: Recorder)
        ensures
            r == self.spec_record(),
    {
        self.table.record()
    }
}

impl CuckooHashTable {
    /// `after` is a table that `insert(data)` may leave behind when called on
    /// `before`, returning `r`.
    pub open spec fn inserted(before: Self, after: Self, data: u32, r: bool) -> bool {
        &&& after.wf()
        &&& after@ == before@.insert(data)
        &&& after.spec_capacity() == before.spec_capacity()
        &&& (before@.contains(data) ==> r && after == before)
        &&& (before.candidate_has_room(data) ==> r)
        &&& insert_outcome(
            3,
            before.spec_capacity(),
            before@.contains(data),
            before.slots(),
            before.stash_view(),
            after.slots(),
            after.stash_view(),
            data,
            r,
        )
        &&& (r ==> after.spec_stash_len() == before.spec_stash_len())
        &&& (!r ==> after.spec_stash_len() == before.spec_stash_len() + 1)
    }

    /// `after` is a table that `place(data, _)` may leave behind when called
    /// on `before`, returning `r`.
    pub open spec fn placed(before: Self, after: Self, data: u32, r: Placement) -> bool {
        &&& after.wf()
        &&& after@ == before@.insert(data)
        &&& after.spec_stash_len() == before.spec_stash_len() + if r == Placement::Stashed {
            1int
        } else {
            0int
        }
    }

    /// A run of insertions: `tables[i + 1]` is what inserting `xs[i]` into
    /// `tables[i]` left, with result `rs[i]`.
    pub open spec fn insert_run(tables: Seq<Self>, xs: Seq<u32>, rs: Seq<bool>) -> bool {
        &&& tables.len() == xs.len() + 1
        &&& rs.len() == xs.len()
        &&& forall|i: int| 0 <= i < xs.len() ==> Self::inserted(#[trigger] tables[i], tables[i + 1], xs[i], rs[i])
    }

    proof fn lemma_run_grows(tables: Seq<Self>, xs: Seq<u32>, rs: Seq<bool>, i: int, j: int)
        requires
            Self::insert_run(tables, xs, rs),
            0 <= i <= j <= xs.len(),
        ensures
            tables[i]@.subset_of(tables[j]@),
        decreases j - i,
    {
        if i < j {
            Self::lemma_run_grows(tables, xs, rs, i, j - 1);
            assert(Self::inserted(tables[j - 1], tables[j], xs[j - 1], rs[j - 1]));
        }
    }

    /// Once inserted, an element is found by `contains` right after its
    /// insertion and after any number of further insertions.
    pub proof fn lemma_inserted_stays(tables: Seq<Self>, xs: Seq<u32>, rs: Seq<bool>)
        requires
            Self::insert_run(tables, xs, rs),
        ensures
            forall|i: int, j: int| 0 <= i < j <= xs.len() ==> (#[trigger] tables[j]@).contains(#[trigger] xs[i]),
    {
        assert forall|i: int, j: int| 0 <= i < j <= xs.len() implies (#[trigger] tables[j]@).contains(#[trigger] xs[i]) by {
            assert(Self::inserted(tables[i], tables[i + 1], xs[i], rs[i]));
            Self::lemma_run_grows(tables, xs, rs, i + 1, j);
        }
    }

    proof fn lemma_run_prefix(tables: Seq<Self>, xs: Seq<u32>, rs: Seq<bool>, k: int)
        requires
            Self::insert_run(tables, xs, rs),
            tables[0]@ == Set::<u32>::empty(),
            0 <= k <= xs.len(),
        ensures
            tables[k]@ == xs.take(k).to_set(),
        decreases k,
    {
        if k == 0 {
            assert(xs.take(0).to_set() =~= Set::<u32>::empty());
        } else {
            Self::lemma_run_prefix(tables, xs, rs, k - 1);
            assert(Self::inserted(tables[k - 1], tables[k], xs[k - 1], rs[k - 1]));
            lemma_take_push_to_set(xs, k - 1);
        }
    }

    /// No data loss: after a run of insertions into an empty table, the
    /// elements that `contains` finds are exactly those inserted.
    pub proof fn lemma_no_data_loss(tables: Seq<Self>, xs: Seq<u32>, rs: Seq<bool>)
        requires
            Self::insert_run(tables, xs, rs),
            tables[0]@ == Set::<u32>::empty(),
        ensures
            tables[xs.len() as int]@ == xs.to_set(),
    {
        Self::lemma_run_prefix(tables, xs, rs, xs.len() as int);
        assert(xs.take(xs.len() as int) =~= xs);
    }

    /// Inserting an element that is already present changes nothing and
    /// returns `true`, however often it is repeated.
    pub proof fn lemma_duplicate_insert(t0: Self, t1: Self, t2: Self, x: u32, r1: bool, r2: bool)
        requires
            Self::inserted(t0, t1, x, r1),
            Self::inserted(t1, t2, x, r2),
        ensures
            r2,
            t2 == t1,
    {
    }

    /// There is one slot per bucket, every element in a slot sits in one of
    /// its candidate buckets, the elements of the table are exactly those in
    /// the slots and the stash, and their number is that of the occupied
    /// slots plus the stash length.
    pub proof fn lemma_layout(t: Self)
        requires
            t.wf(),
        ensures
            t.slots().len() == t.spec_capacity(),
            t.stash_view().len() == t.spec_stash_len(),
            forall|i: int|
                0 <= i < t.slots().len() && #[trigger] t.slots()[i] is Some ==> is_candidate(
                    3,
                    t.spec_capacity(),
                    t.slots()[i]->0,
                    i,
                ),
            forall|e: u32| t@.contains(e) <==> (t.slots().contains(Some(e)) || t.stash_view().contains(e)),
            t@.len() == occupied(t.slots()) + t.spec_stash_len(),
            t@.len() <= t.spec_capacity() + t.spec_stash_len(),
    {
        t.table.lemma_layout();
    }

    /// In a table of one bucket whose slot is taken, inserting an element not
    /// yet present returns `false` and adds one element to the stash.
    pub proof fn lemma_single_bucket_overflow(before: Self, after: Self, data: u32, r: bool)
        requires
            before.wf(),
            Self::inserted(before, after, data, r),
            before.spec_capacity() == 1,
            before.slots()[0] is Some,
            !before@.contains(data),
        ensures
            !r,
            after.spec_stash_len() == before.spec_stash_len() + 1,
    {
        Self::lemma_layout(before);
        let (j, p) = choose|j: int, p: Placement|
            0 <= j < 3 && #[trigger] place_outcome(
                3,
                before.spec_capacity(),
                before.slots(),
                before.stash_view(),
                after.slots(),
                after.stash_view(),
                data,
                j,
                p,
            ) && (r <==> p != Placement::Stashed);
        assert(candidate(1, data, 0) == 0);
        assert(candidate(1, data, 1) == 0);
        assert(candidate(1, data, 2) == 0);
        assert(candidate(1, data, j) == 0);
        lemma_chain_single_bucket(3, before.slots(), data, MAX_RELOCATE as nat);
    }

    /// No insertion has performed more than `MAX_RELOCATE` relocation steps,
    /// and the steps over all insertions number at most
    /// `MAX_RELOCATE` for each insertion that needed them.
    pub proof fn lemma_relocation_bound(t: Self)
        requires
            t.wf(),
        ensures
            t.spec_record().max_reload <= MAX_RELOCATE,
            t.spec_record().reload_cnt <= MAX_RELOCATE * t.spec_record().reload_elem,
    {
        t.table.lemma_record_bounds();
    }

    /// A run of `place` calls: `tables[i + 1]` is what placing `xs[i]` into
    /// `tables[i]` left, with result `rs[i]`.
    pub open spec fn place_run(tables: Seq<Self>, xs: Seq<u32>, rs: Seq<Placement>) -> bool {
        &&& tables.len() == xs.len() + 1
        &&& rs.len() == xs.len()
        &&& forall|i: int| 0 <= i < xs.len() ==> Self::placed(#[trigger] tables[i], tables[i + 1], xs[i], rs[i])
    }

    proof fn lemma_stash_prefix(tables: Seq<Self>, xs: Seq<u32>, rs: Seq<Placement>, k: int)
        requires
            Self::place_run(tables, xs, rs),
            0 <= k <= xs.len(),
        ensures
            tables[k].spec_stash_len() == tables[0].spec_stash_len() + stashed_count(rs.take(k)),
            stashed_count(rs.take(k)) <= k,
        decreases k,
    {
        if k > 0 {
            Self::lemma_stash_prefix(tables, xs, rs, k - 1);
            assert(Self::placed(tables[k - 1], tables[k], xs[k - 1], rs[k - 1]));
            assert(rs.take(k).drop_last() =~= rs.take(k - 1));
        }
    }

    /// After a run of `place` calls on an empty table, the stash holds one
    /// element for each call whose relocation chain ran out, so it grows by at
    /// most one element per insertion.
    pub proof fn lemma_stash_growth(tables: Seq<Self>, xs: Seq<u32>, rs: Seq<Placement>)
        requires
            Self::place_run(tables, xs, rs),
            tables[0].spec_stash_len() == 0,
        ensures
            tables[xs.len() as int].spec_stash_len() == stashed_count(rs),
            stashed_count(rs) <= xs.len(),
    {
        Self::lemma_stash_prefix(tables, xs, rs, xs.len() as int);
        assert(rs.take(xs.len() as int) =~= rs);
    }
}

} // verus!
