//! Storage slots: a [`Bin`] holds at most one element, a [`Bucket`] holds a
//! fixed number of bins under one hash index.
use crate::utils::{get_random, le_value, read_le};
use vstd::prelude::*;

verus! {

/// Width of an element in bits.
pub const ELEM_BIT_WIDTH: usize = 32;

/// Width of an element in bytes.
pub const BIN_SIZE: usize = 4;

/// Number of bins in a bucket.
pub const BUCKET_SIZE: usize = 1;

/// The smallest storage unit: empty, or occupied by one 32-bit element.
#[derive(Clone, Copy, Debug)]
pub struct Bin {
    slot: Option<u32>,
}

impl View for Bin {
    type V = Option<u32>;

    closed spec fn view(&self) -> Option<u32> {
        self.slot
    }
}

impl PartialEq for Bin {
    fn eq(&self, other: &Bin) -> (r: bool) {
        match (self.slot, other.slot) {
            (None, None) => true,
            (Some(a), Some(b)) => a == b,
            _ => false,
        }
    }
}

impl vstd::std_specs::cmp::PartialEqSpecImpl for Bin {
    open spec fn obeys_eq_spec() -> bool {
        true
    }

    open spec fn eq_spec(&self, other: &Bin) -> bool {
        self@ == other@
    }
}

impl Bin {
    /// Returns an empty bin.
    pub fn empty() -> (r: Self)
        ensures
            r@ is None,
    {
        Bin { slot: None }
    }

    /// Returns a bin occupied by `e`.
    pub fn new(e: u32) -> (r: Self)
        ensures
            r@ == Some(e),
    {
        Bin { slot: Some(e) }
    }

    /// Returns `true` if the bin holds no element.
    pub fn is_empty(&self) -> (r: bool)
        ensures
            r == self@ is None,
    {
        self.slot.is_none()
    }

    /// Returns the element held, if any.
    pub fn element(&self) -> (r: Option<u32>)
        ensures
            r == self@,
    {
        self.slot
    }

    /// Builds an occupied bin from the little-endian bytes of `slice`. Only
    /// the first `BIN_SIZE` bytes are read; a shorter slice fills the low
    /// bytes and leaves the high bytes zero.
    pub fn from_slice(slice: &[u8]) -> (r: Self)
        ensures
            r@ == Some(le_value(slice@.take(min_len(slice@.len() as int))) as u32),
    {
        let mut bin = Self::empty();
        bin.slice_copy(slice);
        assert(slice@.take(min_len(slice@.len() as int)) + seq![0u8, 0u8, 0u8, 0u8].skip(min_len(slice@.len() as int))
            =~= slice@.take(min_len(slice@.len() as int)) + Seq::new((BIN_SIZE - min_len(slice@.len() as int)) as nat, |i: int| 0u8));
        proof {
            lemma_le_value_zero_pad(slice@.take(min_len(slice@.len() as int)), (BIN_SIZE - min_len(slice@.len() as int)) as nat);
        }
        bin
    }

    /// Overwrites the low bytes of the bin with the bytes of `slice`, at most
    /// `BIN_SIZE` of them; the remaining high bytes keep their value (zero
    /// for an empty bin). The bin is occupied afterwards.
    pub fn slice_copy(&mut self, slice: &[u8])
        ensures
            final(self)@ == Some(
                le_value(
                    slice@.take(min_len(slice@.len() as int)) + bytes_of(old(self)@).skip(min_len(slice@.len() as int)),
                ) as u32,
            ),
    {
        let len: usize = slice.len();
        let n: usize = if len < BIN_SIZE {
            len
        } else {
            BIN_SIZE
        };
        let mut bytes = match self.slot {
            Some(v) => crate::utils::elem_to_bytes(v),
            None => vec![0u8, 0u8, 0u8, 0u8],
        };
        assert(bytes@ == bytes_of(self@));
        let mut i: usize = 0;
        while i < n
            invariant
                n == min_len(slice@.len() as int),
                n <= slice@.len(),
                i <= n,
                bytes@.len() == BIN_SIZE,
                bytes@ == slice@.take(i as int) + bytes_of(old(self)@).skip(i as int),
            decreases n - i,
        {
            bytes.set(i, slice[i]);
            assert(bytes@ =~= slice@.take(i + 1) + bytes_of(old(self)@).skip(i + 1));
            i = i + 1;
        }
        let w = read_le(bytes.as_slice(), 0, BIN_SIZE);
        proof {
            lemma_le_value_bound4(bytes@);
            assert(bytes@.subrange(0, BIN_SIZE as int) =~= bytes@);
        }
        self.slot = Some(w as u32);
    }
}

/// A fixed number of bins addressed by one hash index.
#[derive(Clone, Copy, Debug)]
pub struct Bucket {
    buffer: [Bin; BUCKET_SIZE],
}

impl View for Bucket {
    type V = Seq<Option<u32>>;

    closed spec fn view(&self) -> Seq<Option<u32>> {
        self.buffer@.map_values(|b: Bin| b@)
    }
}

/// A bucket always has `BUCKET_SIZE` slots.
pub broadcast proof fn lemma_bucket_len(b: Bucket)
    ensures
        #[trigger] b@.len() == BUCKET_SIZE,
{
}

impl Bucket {
    /// Some slot of the bucket is empty.
    pub open spec fn has_room(&self) -> bool {
        exists|i: int| 0 <= i < BUCKET_SIZE && self@[i] is None
    }

    /// Some slot of the bucket holds `e`.
    pub open spec fn holds(&self, e: u32) -> bool {
        exists|i: int| 0 <= i < BUCKET_SIZE && self@[i] == Some(e)
    }

    /// Returns a bucket whose bins are all empty.
    pub fn new() -> (r: Self)
        ensures
            forall|i: int| 0 <= i < BUCKET_SIZE ==> r@[i] is None,
    {
        let r = Bucket { buffer: [Bin::empty(); BUCKET_SIZE] };
        assert(forall|i: int| 0 <= i < BUCKET_SIZE ==> r.buffer@[i]@ is None);
        r
    }

    /// Returns `true` if some bin of the bucket is empty.
    pub fn is_available(&self) -> (r: bool)
        ensures
            r == self.has_room(),
    {
        let mut i: usize = 0;
        while i < BUCKET_SIZE
            invariant
                i <= BUCKET_SIZE,
                forall|j: int| 0 <= j < i ==> self@[j] is Some,
            decreases BUCKET_SIZE - i,
        {
            if self.buffer[i].is_empty() {
                assert(self@[i as int] is None);
                return true;
            }
            i = i + 1;
        }
        false
    }

    /// Returns `true` if some occupied bin of the bucket equals `bin`.
    pub fn contains(&self, bin: &Bin) -> (r: bool)
        ensures
            r == (exists|i: int| 0 <= i < BUCKET_SIZE && self@[i] is Some && self@[i] == bin@),
    {
        let mut i: usize = 0;
        while i < BUCKET_SIZE
            invariant
                i <= BUCKET_SIZE,
                forall|j: int| 0 <= j < i ==> !(self@[j] is Some && self@[j] == bin@),
            decreases BUCKET_SIZE - i,
        {
            if !self.buffer[i].is_empty() && self.buffer[i] == *bin {
                assert(self@[i as int] is Some && self@[i as int] == bin@);
                return true;
            }
            i = i + 1;
        }
        false
    }

    /// Places `bin` in the bucket and hands back what it displaced. If a bin
    /// is empty, `bin` goes there and comes back empty. Otherwise a bin chosen
    /// at random among all of them takes `bin`, and its former occupant is
    /// handed back for the caller to relocate. Nothing is dropped. With one
    /// bin per bucket no random number is drawn; with more, a failed random
    /// source makes the first bin the victim, which the contract allows.
    pub fn insert(&mut self, bin: &mut Bin)
        ensures
            exists|k: int|
                0 <= k < BUCKET_SIZE
                    && (old(self).has_room() ==> old(self)@[k] is None)
                    && final(self)@ == old(self)@.update(k, old(bin)@)
                    && final(bin)@ == old(self)@[k],
            old(self).has_room() ==> final(bin)@ is None,
            forall|e: u32|
                (final(self).holds(e) || final(bin)@ == Some(e))
                    <==> (old(self).holds(e) || old(bin)@ == Some(e)),
    {
        let mut i: usize = 0;
        while i < BUCKET_SIZE
            invariant
                i <= BUCKET_SIZE,
                *self == *old(self),
                *bin == *old(bin),
                forall|j: int| 0 <= j < i ==> self@[j] is Some,
            decreases BUCKET_SIZE - i,
        {
            if self.buffer[i].is_empty() {
                self.swap_slot(i, bin);
                proof {
                    lemma_swap_keeps(*old(self), *old(bin), *self, *bin, i as int);
                }
                assert(old(self)@[i as int] is None);
                return;
            }
            i = i + 1;
        }
        let victim: usize = if BUCKET_SIZE > 1 {
            match get_random(BUCKET_SIZE) {
                Some(v) => v,
                None => 0,
            }
        } else {
            0
        };
        assert(!old(self).has_room());
        self.swap_slot(victim, bin);
        proof {
            lemma_swap_keeps(*old(self), *old(bin), *self, *bin, victim as int);
        }
    }

    fn swap_slot(&mut self, k: usize, bin: &mut Bin)
        requires
            k < BUCKET_SIZE,
        ensures
            final(self)@ == old(self)@.update(k as int, old(bin)@),
            final(bin)@ == old(self)@[k as int],
    {
        let held = self.buffer[k];
        self.buffer[k] = *bin;
        *bin = held;
        assert(self@ =~= old(self)@.update(k as int, old(bin)@));
    }
}

proof fn lemma_swap_keeps(s0: Bucket, b0: Bin, s1: Bucket, b1: Bin, k: int)
    requires
        0 <= k < BUCKET_SIZE,
        s1@ == s0@.update(k, b0@),
        b1@ == s0@[k],
    ensures
        forall|e: u32| (s1.holds(e) || b1@ == Some(e)) <==> (s0.holds(e) || b0@ == Some(e)),
{
    assert forall|e: u32| (s1.holds(e) || b1@ == Some(e)) <==> (s0.holds(e) || b0@ == Some(e)) by {
        if s1.holds(e) {
            let i = choose|i: int| 0 <= i < BUCKET_SIZE && s1@[i] == Some(e);
            if i != k {
                assert(s0@[i] == Some(e));
            }
        }
        if s0.holds(e) {
            let i = choose|i: int| 0 <= i < BUCKET_SIZE && s0@[i] == Some(e);
            if i != k {
                assert(s1@[i] == Some(e));
            } else {
                assert(b1@ == Some(e));
            }
        }
        if b0@ == Some(e) {
            assert(s1@[k] == Some(e));
        }
        if b1@ == Some(e) {
            assert(s0@[k] == Some(e));
        }
    }
}

/// The number of bytes that a bin takes from a slice of `n` bytes.
pub open spec fn min_len(n: int) -> int {
    if n < BIN_SIZE {
        n
    } else {
        BIN_SIZE as int
    }
}

/// The bytes of a bin's value; an empty bin reads as zero.
pub open spec fn bytes_of(slot: Option<u32>) -> Seq<u8> {
    match slot {
        Some(v) => crate::utils::elem_bytes(v),
        None => seq![0u8, 0u8, 0u8, 0u8],
    }
}

proof fn lemma_le_value_bound4(b: Seq<u8>)
    requires
        b.len() == BIN_SIZE,
    ensures
        le_value(b) < 0x1_0000_0000,
{
    reveal_with_fuel(le_value, 5);
    assert(b.skip(1).skip(1).skip(1).skip(1).len() == 0);
}

proof fn lemma_le_value_zero_pad(b: Seq<u8>, k: nat)
    ensures
        le_value(b + Seq::new(k, |i: int| 0u8)) == le_value(b),
    decreases b.len(),
{
    let z = Seq::new(k, |i: int| 0u8);
    if b.len() == 0 {
        assert(b + z =~= z);
        lemma_le_value_zeros(k);
    } else {
        assert((b + z).skip(1) =~= b.skip(1) + z);
        lemma_le_value_zero_pad(b.skip(1), k);
    }
}

proof fn lemma_le_value_zeros(k: nat)
    ensures
        le_value(Seq::new(k, |i: int| 0u8)) == 0,
    decreases k,
{
    if k > 0 {
        assert(Seq::new(k, |i: int| 0u8).skip(1) =~= Seq::new((k - 1) as nat, |i: int| 0u8));
        lemma_le_value_zeros((k - 1) as nat);
    }
}

} // verus!
