//! The cuckoo hashing engine shared by the two-way and the three-way tables:
//! direct placement into a candidate bucket, the bounded relocation chain, and
//! the stash.
use crate::bucket::{lemma_bucket_len, Bin, Bucket};
use crate::utils::{
    alt_three, alt_two, elem_bytes, elem_to_bytes, get_alt_hash, get_alt_hash_three, get_random, get_three_hash,
    get_two_hash, hash_index,
};
use vstd::prelude::*;
use vstd::set_lib::{lemma_int_range, lemma_len_subset, lemma_map_size, set_int_range};

pub mod standard;
pub mod threeway;

verus! {

broadcast use lemma_bucket_len;

/// Most relocation steps that one insertion performs before it falls back to
/// the stash. Each step puts the element in hand into a bucket and takes back
/// the element it displaced, if any.
pub const MAX_RELOCATE: usize = 256;

/// Number of buckets of a table built without an explicit capacity.
pub const DEFAULT_CAPACITY: usize = 4096;

/// Room reserved for the stash when a table is built.
pub const DEFAULT_STASH_SIZE: usize = 2;

/// Relocation statistics of a table.
#[derive(Clone, Copy, Debug)]
pub struct Recorder {
    /// Insertions that found no candidate bucket with room.
    pub reload_elem: u64,
    /// Relocation steps performed over all insertions.
    pub reload_cnt: u64,
    /// Most relocation steps performed by a single insertion.
    pub max_reload: u64,
}

impl Recorder {
    /// Returns a recorder with every count at zero.
    pub fn new() -> (r: Self)
        ensures
            r.reload_elem == 0,
            r.reload_cnt == 0,
            r.max_reload == 0,
    {
        Recorder { reload_elem: 0, reload_cnt: 0, max_reload: 0 }
    }

    /// The counts after one more insertion that needed `steps` relocation
    /// steps.
    pub open spec fn after(self, steps: nat) -> Recorder {
        Recorder {
            reload_elem: (self.reload_elem + 1) as u64,
            reload_cnt: (self.reload_cnt + steps) as u64,
            max_reload: if self.max_reload >= steps {
                self.max_reload
            } else {
                steps as u64
            },
        }
    }
}

/// Where an insertion put its element.
#[derive(Clone, Copy, Debug, PartialEq, Eq)]
pub enum Placement {
    /// The element was already in the table; nothing changed.
    Present,
    /// The element went into one of its candidate buckets that had room.
    Direct,
    /// The element went into a bucket after the given number of relocation
    /// steps.
    Relocated(usize),
    /// The relocation chain ran out after `MAX_RELOCATE` steps and the
    /// element left in hand went to the stash.
    Stashed,
}

/// `i` is one of the first `ways` candidate buckets of `e` in a table of
/// `cap` buckets.
pub open spec fn is_candidate(ways: nat, cap: nat, e: u32, i: int) -> bool {
    let key = elem_bytes(e);
    i == hash_index(key, 0, cap) || i == hash_index(key, 1, cap) || (ways == 3 && i
        == hash_index(key, 2, cap))
}

/// Candidate bucket number `j` of `e` in a table of `cap` buckets.
pub open spec fn candidate(cap: nat, e: u32, j: int) -> int {
    hash_index(elem_bytes(e), j, cap) as int
}

/// The first of the candidate buckets of `e`, in the order `h0, h1, h2`,
/// whose slot is empty.
pub open spec fn first_free(ways: nat, cap: nat, slots: Seq<Option<u32>>, e: u32) -> Option<int> {
    if slots[candidate(cap, e, 0)] is None {
        Some(candidate(cap, e, 0))
    } else if slots[candidate(cap, e, 1)] is None {
        Some(candidate(cap, e, 1))
    } else if ways == 3 && slots[candidate(cap, e, 2)] is None {
        Some(candidate(cap, e, 2))
    } else {
        None
    }
}

/// The bucket that element `x`, displaced from bucket `cur`, moves to.
pub open spec fn next_bucket(ways: nat, cap: nat, x: u32, cur: int) -> int {
    if ways == 2 {
        alt_two(elem_bytes(x), cap, cur as nat) as int
    } else {
        alt_three(elem_bytes(x), cap, cur as nat) as int
    }
}

/// The relocation chain with `fuel` steps left: element `h` goes into bucket
/// `v`; an element it displaces moves on to its next bucket. Once the steps
/// are spent, the element in hand goes into bucket `v` only if it is empty.
/// Gives the slots afterwards, the element still in hand, and the number of
/// steps taken.
pub open spec fn chain(ways: nat, cap: nat, slots: Seq<Option<u32>>, h: u32, v: int, fuel: nat) -> (
    Seq<Option<u32>>,
    Option<u32>,
    nat,
)
    decreases fuel,
{
    if fuel == 0 {
        if slots[v] is None {
            (slots.update(v, Some(h)), None, 0)
        } else {
            (slots, Some(h), 0)
        }
    } else {
        match slots[v] {
            None => (slots.update(v, Some(h)), None, 1),
            Some(x) => {
                let r = chain(ways, cap, slots.update(v, Some(h)), x, next_bucket(ways, cap, x, v), (fuel - 1) as nat);
                (r.0, r.1, r.2 + 1)
            },
        }
    }
}

/// How inserting `data`, absent from a table with slots `slots0` and stash
/// `stash0`, leaves slots `slots1` and stash `stash1` with outcome `r`, a
/// relocation chain, if needed, starting at candidate number `j`: the first
/// candidate with an empty slot takes the element; failing that, the chain
/// runs for up to `MAX_RELOCATE` steps and the element still in hand is
/// pushed at the end of the stash.
pub open spec fn place_outcome(
    ways: nat,
    cap: nat,
    slots0: Seq<Option<u32>>,
    stash0: Seq<u32>,
    slots1: Seq<Option<u32>>,
    stash1: Seq<u32>,
    data: u32,
    j: int,
    r: Placement,
) -> bool {
    match first_free(ways, cap, slots0, data) {
        Some(i) => r == Placement::Direct && slots1 == slots0.update(i, Some(data)) && stash1 == stash0,
        None => {
            let fin = chain(ways, cap, slots0, data, candidate(cap, data, j), MAX_RELOCATE as nat);
            slots1 == fin.0 && match fin.1 {
                None => r == Placement::Relocated(fin.2 as usize) && stash1 == stash0,
                Some(x) => r == Placement::Stashed && stash1 == stash0.push(x),
            }
        },
    }
}

/// Number of occupied slots.
pub open spec fn occupied(slots: Seq<Option<u32>>) -> nat
    decreases slots.len(),
{
    if slots.len() == 0 {
        0
    } else {
        occupied(slots.drop_last()) + if slots.last() is Some {
            1nat
        } else {
            0nat
        }
    }
}

/// No more slots are occupied than there are.
pub proof fn lemma_occupied_bound(slots: Seq<Option<u32>>)
    ensures
        occupied(slots) <= slots.len(),
    decreases slots.len(),
{
    if slots.len() > 0 {
        lemma_occupied_bound(slots.drop_last());
    }
}

proof fn lemma_occupied_empty(slots: Seq<Option<u32>>)
    requires
        forall|i: int| 0 <= i < slots.len() ==> #[trigger] slots[i] is None,
    ensures
        occupied(slots) == 0,
    decreases slots.len(),
{
    if slots.len() > 0 {
        lemma_occupied_empty(slots.drop_last());
    }
}

proof fn lemma_occupied_update(slots: Seq<Option<u32>>, i: int, h: u32)
    requires
        0 <= i < slots.len(),
    ensures
        occupied(slots.update(i, Some(h))) == occupied(slots) + if slots[i] is None {
            1nat
        } else {
            0nat
        },
    decreases slots.len(),
{
    let u = slots.update(i, Some(h));
    if i == slots.len() - 1 {
        assert(u.drop_last() =~= slots.drop_last());
    } else {
        assert(u.drop_last() =~= slots.drop_last().update(i, Some(h)));
        lemma_occupied_update(slots.drop_last(), i, h);
    }
}

/// A relocation chain fills one more slot exactly when it leaves no element
/// in hand.
proof fn lemma_chain_occupied(ways: nat, cap: nat, slots: Seq<Option<u32>>, h: u32, v: int, fuel: nat)
    requires
        0 <= v < slots.len(),
        slots.len() == cap,
    ensures
        ({
            let c = chain(ways, cap, slots, h, v, fuel);
            c.0.len() == slots.len() && occupied(c.0) == occupied(slots) + if c.1 is None {
                1nat
            } else {
                0nat
            }
        }),
    decreases fuel,
{
    lemma_occupied_update(slots, v, h);
    if fuel > 0 {
        if let Some(x) = slots[v] {
            let n = next_bucket(ways, cap, x, v);
            assert(0 <= n < cap) by {
                if ways == 2 {
                } else {
                }
            }
            lemma_chain_occupied(ways, cap, slots.update(v, Some(h)), x, n, (fuel - 1) as nat);
        }
    }
}

/// How inserting `data` into a table with slots `slots0` and stash `stash0`
/// leaves slots `slots1` and stash `stash1` and returns `r`: nothing changes
/// and `true` comes back if the element is `present`; otherwise the element is
/// placed as `place_outcome` says for some starting candidate, and `r` is
/// `false` exactly when it went to the stash.
pub open spec fn insert_outcome(
    ways: nat,
    cap: nat,
    present: bool,
    slots0: Seq<Option<u32>>,
    stash0: Seq<u32>,
    slots1: Seq<Option<u32>>,
    stash1: Seq<u32>,
    data: u32,
    r: bool,
) -> bool {
    if present {
        r && slots1 == slots0 && stash1 == stash0
    } else {
        exists|j: int, p: Placement|
            0 <= j < ways && #[trigger] place_outcome(ways, cap, slots0, stash0, slots1, stash1, data, j, p)
                && (r <==> p != Placement::Stashed)
    }
}

/// A cuckoo hash table of fixed capacity whose elements have `ways` candidate
/// buckets each (two or three).
pub struct CuckooTable {
    buffer: Vec<Bucket>,
    stash: Vec<u32>,
    capacity: usize,
    ways: usize,
    len: usize,
    record: Recorder,
    contents: Ghost<Set<u32>>,
}

impl View for CuckooTable {
    type V = Set<u32>;

    /// The set of elements in the table.
    closed spec fn view(&self) -> Set<u32> {
        self.contents@
    }
}

impl CuckooTable {
    /// Number of buckets.
    pub closed spec fn spec_capacity(&self) -> nat {
        self.capacity as nat
    }

    /// Number of candidate buckets per element.
    pub closed spec fn spec_ways(&self) -> nat {
        self.ways as nat
    }

    /// Number of elements in the stash.
    pub closed spec fn spec_stash_len(&self) -> nat {
        self.stash@.len()
    }

    /// The slot of each bucket, in bucket order.
    pub closed spec fn slots(&self) -> Seq<Option<u32>> {
        Seq::new(self.buffer@.len(), |i: int| self.buffer@[i]@[0])
    }

    /// The stash, oldest entry first.
    pub closed spec fn stash_view(&self) -> Seq<u32> {
        self.stash@
    }

    /// The relocation statistics.
    pub closed spec fn spec_record(&self) -> Recorder {
        self.record
    }

    /// Some bucket holds `e`.
    pub closed spec fn in_buckets(&self, e: u32) -> bool {
        exists|i: int| 0 <= i < self.buffer@.len() && #[trigger] self.buffer@[i].holds(e)
    }

    /// `e` is held by some bucket or by the stash.
    pub closed spec fn stored(&self, e: u32) -> bool {
        self.in_buckets(e) || self.stash@.contains(e)
    }

    /// Some candidate bucket of `e` has an empty slot.
    pub open spec fn candidate_has_room(&self, e: u32) -> bool {
        first_free(self.spec_ways(), self.spec_capacity(), self.slots(), e) is Some
    }

    /// Every element in a bucket sits in one of its candidate buckets.
    closed spec fn placed_well(&self) -> bool {
        forall|i: int, e: u32|
            0 <= i < self.buffer@.len() && #[trigger] self.buffer@[i].holds(e) ==> is_candidate(
                self.ways as nat,
                self.capacity as nat,
                e,
                i,
            )
    }

    /// `capacity` buckets, two or three ways, and every element in a bucket
    /// sits in one of its candidate buckets.
    closed spec fn layout_ok(&self) -> bool {
        &&& self.capacity >= 1
        &&& self.buffer@.len() == self.capacity
        &&& (self.ways == 2 || self.ways == 3)
        &&& self.placed_well()
    }

    /// The table is well formed: its layout holds, the elements held by the
    /// buckets and the stash are exactly the view, `len` counts them, and the
    /// statistics stay within the relocation bound.
    pub closed spec fn wf(&self) -> bool {
        &&& self.layout_ok()
        &&& self.contents@.finite()
        &&& forall|e: u32| self.contents@.contains(e) <==> self.stored(e)
        &&& self.len == self.contents@.len()
        &&& self.len == occupied(self.slots()) + self.stash@.len()
        &&& self.record.reload_elem <= self.len
        &&& self.record.reload_cnt <= MAX_RELOCATE * self.record.reload_elem
        &&& self.record.max_reload <= MAX_RELOCATE
    }

    /// Builds an empty table of `max(1, cap)` buckets whose elements have
    /// `ways` candidates each.
    pub fn with_ways(cap: usize, ways: usize) -> (r: Self)
        requires
            ways == 2 || ways == 3,
        ensures
            r.wf(),
            r@ == Set::<u32>::empty(),
            r.spec_capacity() == if cap < 1 {
                1
            } else {
                cap
            },
            r.spec_ways() == ways,
            r.spec_stash_len() == 0,
            r.stash_view() == Seq::<u32>::empty(),
            r.slots().len() == r.spec_capacity(),
            forall|i: int| 0 <= i < r.slots().len() ==> #[trigger] r.slots()[i] is None,
            forall|e: u32| r.candidate_has_room(e),
            r.spec_record() == (Recorder { reload_elem: 0, reload_cnt: 0, max_reload: 0 }),
    {
        let capacity: usize = if cap < 1 {
            1
        } else {
            cap
        };
        let mut buffer: Vec<Bucket> = Vec::with_capacity(capacity);
        let mut i: usize = 0;
        while i < capacity
            invariant
                i <= capacity,
                buffer@.len() == i,
                forall|j: int, e: u32| 0 <= j < i ==> !#[trigger] buffer@[j].holds(e),
                forall|j: int| 0 <= j < i ==> #[trigger] buffer@[j].has_room(),
            decreases capacity - i,
        {
            let b = Bucket::new();
            assert(forall|e: u32| !b.holds(e));
            assert(b@[0] is None);
            buffer.push(b);
            i = i + 1;
        }
        let r = CuckooTable {
            buffer,
            stash: Vec::with_capacity(DEFAULT_STASH_SIZE),
            capacity,
            ways,
            len: 0,
            record: Recorder::new(),
            contents: Ghost(Set::empty()),
        };
        assert forall|i: int| 0 <= i < r.slots().len() implies #[trigger] r.slots()[i] is None by {
            assert(r.buffer@[i].has_room());
            let k = choose|k: int| 0 <= k < crate::bucket::BUCKET_SIZE && r.buffer@[i]@[k] is None;
            assert(k == 0);
        }
        assert(r.stash_view() =~= Seq::<u32>::empty());
        proof {
            lemma_occupied_empty(r.slots());
        }
        assert forall|e: u32| r.candidate_has_room(e) by {
            let i = hash_index(elem_bytes(e), 0, capacity as nat) as int;
            assert(is_candidate(ways as nat, capacity as nat, e, i));
            assert(r.buffer@[i].has_room());
        }
        r
    }
}

impl CuckooTable {
    /// The candidate buckets of `e`, in the order of the hash oracle.
    fn candidates(&self, e: u32) -> (r: Vec<usize>)
        requires
            self.layout_ok(),
        ensures
            r@.len() == self.ways,
            forall|j: int| 0 <= j < self.ways ==> #[trigger] r@[j] == hash_index(elem_bytes(e), j, self.capacity as nat),
            forall|j: int| 0 <= j < self.ways ==> #[trigger] r@[j] < self.capacity,
            forall|i: int| is_candidate(self.ways as nat, self.capacity as nat, e, i) <==> exists|j: int| 0 <= j < self.ways && r@[j] == i,
    {
        let key = elem_to_bytes(e);
        let r = if self.ways == 2 {
            let h = get_two_hash(key.as_slice(), self.capacity);
            vec![h.0, h.1]
        } else {
            let h = get_three_hash(key.as_slice(), self.capacity);
            vec![h.0, h.1, h.2]
        };
        assert forall|i: int| is_candidate(self.ways as nat, self.capacity as nat, e, i) implies exists|j: int| 0 <= j < self.ways && r@[j] == i by {
            if i == r@[0] {
            } else if i == r@[1] {
                assert(r@[1] == i);
            } else {
                assert(r@[2] == i);
            }
        }
        r
    }

    /// The bucket that an element `x` displaced from bucket `cur` moves to.
    fn alternate(&self, x: u32, cur: usize) -> (r: usize)
        requires
            self.layout_ok(),
        ensures
            r < self.capacity,
            is_candidate(self.ways as nat, self.capacity as nat, x, r as int),
            self.ways == 2 ==> r == crate::utils::alt_two(elem_bytes(x), self.capacity as nat, cur as nat),
            self.ways == 3 ==> r == crate::utils::alt_three(elem_bytes(x), self.capacity as nat, cur as nat),
    {
        let key = elem_to_bytes(x);
        if self.ways == 2 {
            get_alt_hash(key.as_slice(), self.capacity, cur)
        } else {
            get_alt_hash_three(key.as_slice(), self.capacity, cur)
        }
    }

    /// Looks `data` up in its candidate buckets `cands`, then in the stash.
    fn lookup(&self, data: u32, cands: &Vec<usize>) -> (r: bool)
        requires
            self.layout_ok(),
            cands@.len() == self.ways,
            forall|j: int| 0 <= j < self.ways ==> #[trigger] cands@[j] < self.capacity,
            forall|i: int| is_candidate(self.ways as nat, self.capacity as nat, data, i) ==> exists|j: int| 0 <= j < self.ways && cands@[j] == i,
        ensures
            r == self.stored(data),
    {
        let bin = Bin::new(data);
        let mut j: usize = 0;
        while j < self.ways
            invariant
                j <= self.ways,
                self.layout_ok(),
                cands@.len() == self.ways,
                forall|jj: int| 0 <= jj < self.ways ==> #[trigger] cands@[jj] < self.capacity,
                bin@ == Some(data),
                forall|jj: int| 0 <= jj < j ==> !self.buffer@[#[trigger] cands@[jj] as int].holds(data),
            decreases self.ways - j,
        {
            let idx = cands[j];
            if self.buffer[idx].contains(&bin) {
                assert(self.buffer@[idx as int].holds(data));
                return true;
            }
            j = j + 1;
        }
        assert(!self.in_buckets(data)) by {
            if self.in_buckets(data) {
                let i = choose|i: int| 0 <= i < self.buffer@.len() && #[trigger] self.buffer@[i].holds(data);
                assert(is_candidate(self.ways as nat, self.capacity as nat, data, i));
                let jj = choose|jj: int| 0 <= jj < self.ways && cands@[jj] == i;
                assert(!self.buffer@[cands@[jj] as int].holds(data));
            }
        }
        let mut k: usize = 0;
        while k < self.stash.len()
            invariant
                k <= self.stash@.len(),
                forall|kk: int| 0 <= kk < k ==> self.stash@[kk] != data,
            decreases self.stash@.len() - k,
        {
            if self.stash[k] == data {
                return true;
            }
            k = k + 1;
        }
        false
    }

    /// Returns `true` if `data` is in the table.
    pub fn contains(&self, data: u32) -> (r: bool)
        requires
            self.wf(),
        ensures
            r == self@.contains(data),
    {
        let cands = self.candidates(data);
        self.lookup(data, &cands)
    }
}

impl CuckooTable {
    /// Puts `bin` into bucket `idx`, taking back what the bucket displaced.
    fn put_into(&mut self, idx: usize, bin: &mut Bin)
        requires
            old(self).layout_ok(),
            idx < old(self).capacity,
            old(bin)@ matches Some(x) ==> is_candidate(old(self).ways as nat, old(self).capacity as nat, x, idx as int),
        ensures
            final(self).layout_ok(),
            final(self).capacity == old(self).capacity,
            final(self).ways == old(self).ways,
            final(self).stash == old(self).stash,
            final(self).len == old(self).len,
            final(self).record == old(self).record,
            final(self).contents == old(self).contents,
            final(self).slots() == old(self).slots().update(idx as int, old(bin)@),
            final(bin)@ == old(self).slots()[idx as int],
            final(bin)@ matches Some(x) ==> is_candidate(old(self).ways as nat, old(self).capacity as nat, x, idx as int),
            forall|e: u32| (final(self).stored(e) || final(bin)@ == Some(e)) <==> (old(self).stored(e) || old(bin)@ == Some(e)),
    {
        let ghost h0 = bin@;
        let mut b = self.buffer[idx];
        let ghost ob = b;
        b.insert(bin);
        self.buffer.set(idx, b);
        proof {
            let t0 = *old(self);
            let t1 = *self;
            assert(t1.buffer@ == t0.buffer@.update(idx as int, t1.buffer@[idx as int]));
            lemma_bucket_swap(t0, t1, idx as int, h0, bin@);
            assert forall|i: int, e: u32| 0 <= i < t1.buffer@.len() && #[trigger] t1.buffer@[i].holds(e) implies is_candidate(
                t1.ways as nat,
                t1.capacity as nat,
                e,
                i,
            ) by {
                if i != idx {
                    assert(t0.buffer@[i].holds(e));
                } else if ob.holds(e) {
                    assert(t0.buffer@[i].holds(e));
                }
            }
            let k = choose|k: int|
                0 <= k < crate::bucket::BUCKET_SIZE && (ob.has_room() ==> ob@[k] is None) && b@ == ob@.update(k, h0)
                    && bin@ == ob@[k];
            assert(k == 0);
            if bin@ is Some {
                assert(ob.holds(bin@->0));
            }
            assert(t1.buffer@[idx as int] == b);
            assert(t1.slots() =~= t0.slots().update(idx as int, h0));
        }
    }

    /// Runs the relocation chain for `e`, starting at its candidate bucket
    /// `victim`: each step puts the element in hand into the current bucket
    /// and, if it displaced an element, moves on to that element's alternate
    /// bucket. Returns the number of steps taken and the element still in hand
    /// once `MAX_RELOCATE` steps are spent and the last bucket has no room.
    fn relocate(&mut self, e: u32, victim: usize) -> (r: (usize, Option<u32>))
        requires
            old(self).layout_ok(),
            victim < old(self).capacity,
            is_candidate(old(self).ways as nat, old(self).capacity as nat, e, victim as int),
        ensures
            final(self).layout_ok(),
            final(self).capacity == old(self).capacity,
            final(self).ways == old(self).ways,
            final(self).stash == old(self).stash,
            final(self).len == old(self).len,
            final(self).record == old(self).record,
            final(self).contents == old(self).contents,
            1 <= r.0 <= MAX_RELOCATE,
            r.1 is Some ==> r.0 == MAX_RELOCATE,
            forall|x: u32| (final(self).stored(x) || r.1 == Some(x)) <==> (old(self).stored(x) || x == e),
            (final(self).slots(), r.1, r.0 as nat) == chain(
                old(self).ways as nat,
                old(self).capacity as nat,
                old(self).slots(),
                e,
                victim as int,
                MAX_RELOCATE as nat,
            ),
    {
        let ghost fin = chain(
            self.ways as nat,
            self.capacity as nat,
            self.slots(),
            e,
            victim as int,
            MAX_RELOCATE as nat,
        );
        let ghost v0 = victim;
        let mut held = Bin::new(e);
        let mut victim: usize = victim;
        let mut steps: usize = 0;
        let mut done = false;
        while !done && steps < MAX_RELOCATE
            invariant
                self.layout_ok(),
                self.capacity == old(self).capacity,
                self.ways == old(self).ways,
                self.stash == old(self).stash,
                self.len == old(self).len,
                self.record == old(self).record,
                self.contents == old(self).contents,
                victim < self.capacity,
                steps <= MAX_RELOCATE,
                done ==> held@ is None && steps >= 1,
                !done ==> held@ is Some,
                !done ==> is_candidate(self.ways as nat, self.capacity as nat, held@->0, victim as int),
                !done && steps == 0 ==> held@ == Some(e),
                forall|x: u32| (self.stored(x) || held@ == Some(x)) <==> (old(self).stored(x) || x == e),
                fin == chain(
                    old(self).ways as nat,
                    old(self).capacity as nat,
                    old(self).slots(),
                    e,
                    v0 as int,
                    MAX_RELOCATE as nat,
                ),
                !done ==> ({
                    let c = chain(
                        self.ways as nat,
                        self.capacity as nat,
                        self.slots(),
                        held@->0,
                        victim as int,
                        (MAX_RELOCATE - steps) as nat,
                    );
                    c.0 == fin.0 && c.1 == fin.1 && c.2 + steps == fin.2
                }),
                done ==> self.slots() == fin.0 && fin.1 is None && fin.2 == steps,
            decreases MAX_RELOCATE - steps,
        {
            self.put_into(victim, &mut held);
            steps = steps + 1;
            match held.element() {
                None => {
                    done = true;
                },
                Some(x) => {
                    victim = self.alternate(x, victim);
                },
            }
        }
        if !done && self.buffer[victim].is_available() {
            self.put_into(victim, &mut held);
        }
        (steps, held.element())
    }

    /// Inserts `data`, starting a relocation chain, if one is needed, at its
    /// candidate bucket number `start % ways`. An element already present
    /// leaves the table unchanged. Otherwise the element goes into the first
    /// candidate bucket with room; failing that, the relocation chain places
    /// it, displacing at most `MAX_RELOCATE` elements, and the element in hand
    /// when the chain runs out goes to the stash.
    pub fn place(&mut self, data: u32, start: usize) -> (r: Placement)
        requires
            old(self).wf(),
            old(self)@.len() < usize::MAX,
        ensures
            final(self).wf(),
            final(self)@ == old(self)@.insert(data),
            final(self).spec_capacity() == old(self).spec_capacity(),
            final(self).spec_ways() == old(self).spec_ways(),
            old(self)@.contains(data) <==> r == Placement::Present,
            r == Placement::Present ==> *final(self) == *old(self),
            r == Placement::Direct <==> (!old(self)@.contains(data) && old(self).candidate_has_room(data)),
            !old(self)@.contains(data) ==> place_outcome(
                old(self).spec_ways(),
                old(self).spec_capacity(),
                old(self).slots(),
                old(self).stash_view(),
                final(self).slots(),
                final(self).stash_view(),
                data,
                (start % (old(self).spec_ways() as usize)) as int,
                r,
            ),
            r matches Placement::Relocated(n) ==> 1 <= n <= MAX_RELOCATE
                && final(self).spec_record() == old(self).spec_record().after(n as nat),
            r == Placement::Stashed ==> final(self).spec_record() == old(self).spec_record().after(
                MAX_RELOCATE as nat,
            ),
            r == Placement::Direct ==> final(self).spec_record() == old(self).spec_record(),
            final(self).spec_stash_len() == old(self).spec_stash_len() + if r == Placement::Stashed {
                1int
            } else {
                0int
            },
    {
        let cands = self.candidates(data);
        if self.lookup(data, &cands) {
            return Placement::Present;
        }
        proof {
            lemma_u32_set_len(self.contents@.insert(data));
        }
        let mut j: usize = 0;
        while j < self.ways
            invariant
                *self == *old(self),
                old(self).wf(),
                old(self)@.len() < usize::MAX,
                self.contents@.insert(data).len() <= 0x1_0000_0000,
                !self.stored(data),
                j <= self.ways,
                cands@.len() == self.ways,
                forall|jj: int| 0 <= jj < self.ways ==> #[trigger] cands@[jj] < self.capacity,
                forall|i: int| is_candidate(self.ways as nat, self.capacity as nat, data, i) <==> exists|jj: int| 0 <= jj < self.ways && cands@[jj] == i,
                forall|jj: int| 0 <= jj < self.ways ==> #[trigger] cands@[jj] == candidate(self.capacity as nat, data, jj),
                forall|jj: int| 0 <= jj < j ==> self.slots()[#[trigger] cands@[jj] as int] is Some,
            decreases self.ways - j,
        {
            let idx = cands[j];
            if self.buffer[idx].is_available() {
                assert(is_candidate(self.ways as nat, self.capacity as nat, data, idx as int));
                assert(self.slots()[idx as int] is None);
                assert(cands@[j as int] == candidate(self.capacity as nat, data, j as int));
                if j > 0 {
                    assert(self.slots()[cands@[0] as int] is Some);
                    assert(cands@[0] == candidate(self.capacity as nat, data, 0));
                }
                if j > 1 {
                    assert(self.slots()[cands@[1] as int] is Some);
                    assert(cands@[1] == candidate(self.capacity as nat, data, 1));
                }
                assert(first_free(self.ways as nat, self.capacity as nat, self.slots(), data) == Some(idx as int));
                let mut bin = Bin::new(data);
                let ghost before = *self;
                proof {
                    lemma_occupied_update(self.slots(), idx as int, data);
                }
                self.put_into(idx, &mut bin);
                let ghost mid = *self;
                self.len = self.len + 1;
                self.contents = Ghost(self.contents@.insert(data));
                assert forall|e: u32| self.contents@.contains(e) <==> self.stored(e) by {
                    assert(before.contents@.contains(e) <==> before.stored(e));
                    assert((mid.stored(e) || bin@ == Some(e)) <==> (before.stored(e) || e == data));
                    assert(mid.buffer == self.buffer);
                    assert(mid.stored(e) == self.stored(e));
                }
                return Placement::Direct;
            }
            assert(self.slots()[idx as int] is Some);
            j = j + 1;
        }
        assert(self.slots()[cands@[0] as int] is Some);
        assert(self.slots()[cands@[1] as int] is Some);
        assert(self.ways == 3 ==> self.slots()[cands@[2] as int] is Some);
        assert(!self.candidate_has_room(data));
        let first = cands[start % self.ways];
        let ghost before = *self;
        proof {
            lemma_chain_occupied(
                self.ways as nat,
                self.capacity as nat,
                self.slots(),
                data,
                first as int,
                MAX_RELOCATE as nat,
            );
        }
        let (steps, left) = self.relocate(data, first);
        let ghost mid = *self;
        let steps64 = steps as u64;
        self.record = Recorder {
            reload_elem: self.record.reload_elem + 1,
            reload_cnt: self.record.reload_cnt + steps64,
            max_reload: if self.record.max_reload >= steps64 {
                self.record.max_reload
            } else {
                steps64
            },
        };
        self.len = self.len + 1;
        self.contents = Ghost(self.contents@.insert(data));
        match left {
            None => {
                assert forall|e: u32| self.contents@.contains(e) <==> self.stored(e) by {
                    assert(before.contents@.contains(e) <==> before.stored(e));
                    assert((mid.stored(e) || left == Some(e)) <==> (before.stored(e) || e == data));
                    assert(mid.buffer == self.buffer);
                    assert(mid.stored(e) == self.stored(e));
                }
                Placement::Relocated(steps)
            },
            Some(x) => {
                self.stash.push(x);
                assert forall|e: u32| self.contents@.contains(e) <==> self.stored(e) by {
                    assert(before.contents@.contains(e) <==> before.stored(e));
                    assert((mid.stored(e) || left == Some(e)) <==> (before.stored(e) || e == data));
                    assert(mid.buffer == self.buffer);
                    assert(self.stash@ == mid.stash@.push(x));
                    assert(self.stash@.contains(e) <==> (mid.stash@.contains(e) || e == x)) by {
                        if e == x {
                            assert(self.stash@[mid.stash@.len() as int] == x);
                        }
                        if mid.stash@.contains(e) {
                            let k = choose|k: int| 0 <= k < mid.stash@.len() && mid.stash@[k] == e;
                            assert(self.stash@[k] == e);
                        }
                    }
                }
                Placement::Stashed
            },
        }
    }
}

impl CuckooTable {
    /// Returns `true` if some candidate bucket of `data` has an empty slot.
    fn has_free_candidate(&self, data: u32) -> (r: bool)
        requires
            self.layout_ok(),
        ensures
            r == self.candidate_has_room(data),
    {
        let cands = self.candidates(data);
        assert(cands@[0] == candidate(self.capacity as nat, data, 0));
        assert(cands@[1] == candidate(self.capacity as nat, data, 1));
        if self.buffer[cands[0]].is_available() {
            return true;
        }
        if self.buffer[cands[1]].is_available() {
            return true;
        }
        if self.ways == 3 {
            assert(cands@[2] == candidate(self.capacity as nat, data, 2));
            if self.buffer[cands[2]].is_available() {
                return true;
            }
        }
        false
    }

    /// Inserts `data`, drawing at random the candidate bucket where a
    /// relocation chain starts when one is needed. Returns `None`, with the
    /// table unchanged, when a chain is needed and the random source fails;
    /// otherwise `Some(false)` exactly when the element went to the stash. An
    /// element already present leaves the table unchanged and gives
    /// `Some(true)`.
    pub fn try_insert(&mut self, data: u32) -> (r: Option<bool>)
        requires
            old(self).wf(),
            old(self)@.len() < usize::MAX,
        ensures
            r is None ==> *final(self) == *old(self) && !old(self)@.contains(data)
                && !old(self).candidate_has_room(data),
            r matches Some(b) ==> {
                &&& final(self).wf()
                &&& final(self)@ == old(self)@.insert(data)
                &&& final(self).spec_capacity() == old(self).spec_capacity()
                &&& final(self).spec_ways() == old(self).spec_ways()
                &&& (old(self)@.contains(data) ==> *final(self) == *old(self))
                &&& insert_outcome(
                    old(self).spec_ways(),
                    old(self).spec_capacity(),
                    old(self)@.contains(data),
                    old(self).slots(),
                    old(self).stash_view(),
                    final(self).slots(),
                    final(self).stash_view(),
                    data,
                    b,
                )
            },
    {
        if self.contains(data) {
            return Some(true);
        }
        if self.has_free_candidate(data) {
            let p = self.place(data, 0);
            assert(place_outcome(
                old(self).spec_ways(),
                old(self).spec_capacity(),
                old(self).slots(),
                old(self).stash_view(),
                self.slots(),
                self.stash_view(),
                data,
                0,
                p,
            ));
            return Some(true);
        }
        match get_random(self.ways) {
            Some(start) => {
                let p = self.place(data, start);
                assert(place_outcome(
                    old(self).spec_ways(),
                    old(self).spec_capacity(),
                    old(self).slots(),
                    old(self).stash_view(),
                    self.slots(),
                    self.stash_view(),
                    data,
                    (start % (old(self).spec_ways() as usize)) as int,
                    p,
                ));
                Some(!matches!(p, Placement::Stashed))
            },
            None => None,
        }
    }

    /// Inserts `data` as `try_insert` does; when the random source fails, the
    /// relocation chain starts at the first candidate instead. Returns `false`
    /// exactly when the element went to the stash; an element already present
    /// leaves the table unchanged and gives `true`.
    pub fn insert(&mut self, data: u32) -> (r: bool)
        requires
            old(self).wf(),
            old(self)@.len() < usize::MAX,
        ensures
            final(self).wf(),
            final(self)@ == old(self)@.insert(data),
            final(self).spec_capacity() == old(self).spec_capacity(),
            final(self).spec_ways() == old(self).spec_ways(),
            old(self)@.contains(data) ==> r && *final(self) == *old(self),
            old(self).candidate_has_room(data) ==> r,
            r ==> final(self).spec_stash_len() == old(self).spec_stash_len(),
            !r ==> final(self).spec_stash_len() == old(self).spec_stash_len() + 1,
            insert_outcome(
                old(self).spec_ways(),
                old(self).spec_capacity(),
                old(self)@.contains(data),
                old(self).slots(),
                old(self).stash_view(),
                final(self).slots(),
                final(self).stash_view(),
                data,
                r,
            ),
    {
        match self.try_insert(data) {
            Some(b) => b,
            None => {
                let p = self.place(data, 0);
                assert(place_outcome(
                    old(self).spec_ways(),
                    old(self).spec_capacity(),
                    old(self).slots(),
                    old(self).stash_view(),
                    self.slots(),
                    self.stash_view(),
                    data,
                    0,
                    p,
                ));
                !matches!(p, Placement::Stashed)
            },
        }
    }

    /// Number of elements in the stash.
    pub fn stash_len(&self) -> (r: usize)
        ensures
            r == self.spec_stash_len(),
    {
        self.stash.len()
    }

    /// Number of buckets.
    pub fn capacity(&self) -> (r: usize)
        ensures
            r == self.spec_capacity(),
    {
        self.capacity
    }

    /// Number of elements in the table.
    pub fn len(&self) -> (r: usize)
        requires
            self.wf(),
        ensures
            r == self@.len(),
    {
        self.len
    }

    /// The relocation statistics.
    pub fn record(&self) -> (r: Recorder)
        ensures
            r == self.spec_record(),
    {
        self.record
    }
}

impl CuckooTable {
    /// In a well-formed table there is one slot per bucket, every element in
    /// a slot sits in one of its candidate buckets, the elements of the table
    /// are exactly those in the slots and the stash, and their number is that
    /// of the occupied slots plus the stash length.
    pub proof fn lemma_layout(&self)
        requires
            self.wf(),
        ensures
            self.slots().len() == self.spec_capacity(),
            self.stash_view().len() == self.spec_stash_len(),
            forall|i: int|
                0 <= i < self.slots().len() && #[trigger] self.slots()[i] is Some ==> is_candidate(
                    self.spec_ways(),
                    self.spec_capacity(),
                    self.slots()[i]->0,
                    i,
                ),
            forall|e: u32| self@.contains(e) <==> (self.slots().contains(Some(e)) || self.stash_view().contains(e)),
            self@.len() == occupied(self.slots()) + self.spec_stash_len(),
            self@.len() <= self.spec_capacity() + self.spec_stash_len(),
    {
        lemma_occupied_bound(self.slots());
        assert forall|i: int| 0 <= i < self.slots().len() && #[trigger] self.slots()[i] is Some implies is_candidate(
            self.spec_ways(),
            self.spec_capacity(),
            self.slots()[i]->0,
            i,
        ) by {
            assert(self.buffer@[i].holds(self.slots()[i]->0));
        }
        assert forall|e: u32| self@.contains(e) <==> (self.slots().contains(Some(e)) || self.stash_view().contains(e)) by {
            assert(self@.contains(e) == self.stored(e));
            if self.in_buckets(e) {
                let i = choose|i: int| 0 <= i < self.buffer@.len() && #[trigger] self.buffer@[i].holds(e);
                let k = choose|k: int| 0 <= k < crate::bucket::BUCKET_SIZE && self.buffer@[i]@[k] == Some(e);
                assert(k == 0);
                assert(self.slots()[i] == Some(e));
            }
            if self.slots().contains(Some(e)) {
                let i = choose|i: int| 0 <= i < self.slots().len() && self.slots()[i] == Some(e);
                assert(self.buffer@[i]@[0] == Some(e));
                assert(self.buffer@[i].holds(e));
            }
        }
    }

    /// In a well-formed table no insertion has performed more than
    /// `MAX_RELOCATE` relocation steps, and the steps over all insertions
    /// number at most `MAX_RELOCATE` for each insertion that needed them.
    pub proof fn lemma_record_bounds(&self)
        requires
            self.wf(),
        ensures
            self.spec_record().max_reload <= MAX_RELOCATE,
            self.spec_record().reload_cnt <= MAX_RELOCATE * self.spec_record().reload_elem,
            self.spec_record().reload_elem <= self@.len(),
    {
    }
}

/// In a table of one bucket whose slot is full, the relocation chain never
/// frees the slot: an element is always left in hand.
pub proof fn lemma_chain_single_bucket(ways: nat, slots: Seq<Option<u32>>, h: u32, fuel: nat)
    requires
        slots.len() == 1,
        slots[0] is Some,
    ensures
        ({
            let c = chain(ways, 1, slots, h, 0, fuel);
            c.1 is Some && c.0.len() == 1 && c.0[0] is Some
        }),
    decreases fuel,
{
    if fuel > 0 {
        let x = slots[0]->0;
        assert(next_bucket(ways, 1, x, 0) == 0);
        lemma_chain_single_bucket(ways, slots.update(0, Some(h)), x, (fuel - 1) as nat);
    }
}

/// Number of insertions among `rs` whose element went to the stash.
pub open spec fn stashed_count(rs: Seq<Placement>) -> nat
    decreases rs.len(),
{
    if rs.len() == 0 {
        0
    } else {
        stashed_count(rs.drop_last()) + if rs.last() == Placement::Stashed {
            1nat
        } else {
            0nat
        }
    }
}

/// The values among the first `k + 1` entries of `xs` are those among the
/// first `k`, and entry `k`.
pub(crate) proof fn lemma_take_push_to_set(xs: Seq<u32>, k: int)
    requires
        0 <= k < xs.len(),
    ensures
        xs.take(k + 1).to_set() == xs.take(k).to_set().insert(xs[k]),
{
    let a = xs.take(k);
    let b = xs.take(k + 1);
    assert(b =~= a.push(xs[k]));
    assert forall|e: u32| b.to_set().contains(e) <==> a.to_set().insert(xs[k]).contains(e) by {
        if b.contains(e) {
            let i = choose|i: int| 0 <= i < b.len() && #[trigger] b[i] == e;
            if i < k {
                assert(a[i] == e);
            }
        }
        if a.contains(e) {
            let i = choose|i: int| 0 <= i < a.len() && #[trigger] a[i] == e;
            assert(b[i] == e);
        }
        if e == xs[k] {
            assert(b[k] == e);
        }
    }
    assert(b.to_set() =~= a.to_set().insert(xs[k]));
}

/// Replacing bucket `v` by one that holds what the old one held, with `h0`
/// taken in and `h1` handed out, keeps every element stored or in hand.
proof fn lemma_bucket_swap(t0: CuckooTable, t1: CuckooTable, v: int, h0: Option<u32>, h1: Option<u32>)
    requires
        0 <= v < t0.buffer@.len(),
        t1.buffer@ == t0.buffer@.update(v, t1.buffer@[v]),
        t1.stash == t0.stash,
        forall|e: u32| (t1.buffer@[v].holds(e) || h1 == Some(e)) <==> (t0.buffer@[v].holds(e) || h0 == Some(e)),
    ensures
        forall|e: u32| (t1.stored(e) || h1 == Some(e)) <==> (t0.stored(e) || h0 == Some(e)),
        forall|e: u32| t1.in_buckets(e) ==> t0.in_buckets(e) || h0 == Some(e),
{
    assert forall|e: u32| t1.in_buckets(e) implies t0.in_buckets(e) || h0 == Some(e) by {
        let i = choose|i: int| 0 <= i < t1.buffer@.len() && #[trigger] t1.buffer@[i].holds(e);
        if i != v {
            assert(t0.buffer@[i].holds(e));
        }
    }
    assert forall|e: u32| t0.in_buckets(e) implies t1.in_buckets(e) || h1 == Some(e) by {
        let i = choose|i: int| 0 <= i < t0.buffer@.len() && #[trigger] t0.buffer@[i].holds(e);
        if i != v {
            assert(t1.buffer@[i].holds(e));
        }
    }
    assert forall|e: u32| h0 == Some(e) implies t1.in_buckets(e) || h1 == Some(e) by {
        assert(t1.buffer@[v].holds(e) || h1 == Some(e));
    }
    assert forall|e: u32| h1 == Some(e) implies t0.in_buckets(e) || h0 == Some(e) by {
        assert(t0.buffer@[v].holds(e) || h0 == Some(e));
    }
}

/// A set of 32-bit values has at most `2^32` members.
proof fn lemma_u32_set_len(s: Set<u32>)
    requires
        s.finite(),
    ensures
        s.len() <= 0x1_0000_0000,
{
    let f = |x: u32| x as int;
    let t = s.map(f);
    lemma_map_size(s, t, f);
    lemma_int_range(0, 0x1_0000_0000);
    assert(t.subset_of(set_int_range(0, 0x1_0000_0000)));
    lemma_len_subset(t, set_int_range(0, 0x1_0000_0000));
}

} // verus!
