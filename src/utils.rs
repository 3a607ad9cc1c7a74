//! The hash oracle: candidate bucket indices derived from a SHA-256 digest,
//! the alternate-candidate rules, and a uniform random index.
use vstd::prelude::*;

verus! {

/// Digest of `data` under SHA-256, as computed by `ring`.
pub uninterp spec fn sha256_of(data: Seq<u8>) -> Seq<u8>;

/// Longest input accepted by the hash oracle, well below SHA-256's own
/// limit of 2^61 bytes.
pub const MAX_KEY_LEN: u64 = 0x1000_0000_0000_0000;

/// Relies on `ring::digest::digest` with `ring::digest::SHA256`: the 32-byte
/// SHA-256 digest of `data`, a function of `data` alone. `ring` panics only on
/// inputs longer than SHA-256 admits, which `requires` leaves out.
#[verifier::external_body]
fn sha256(data: &[u8]) -> (r: Vec<u8>)
    requires
        data@.len() <= MAX_KEY_LEN,
    ensures
        r@ == sha256_of(data@),
        r@.len() == 32,
{
    ring::digest::digest(&ring::digest::SHA256, data).as_ref().to_vec()
}

/// Relies on `ring::rand::generate` over `ring::rand::SystemRandom`: eight
/// bytes from the operating system's secure random source, or `None` when
/// that source fails. Nothing is promised of the bytes themselves.
#[verifier::external_body]
fn random_bytes() -> (r: Option<[u8; 8]>) {
    let rng = ring::rand::SystemRandom::new();
    match ring::rand::generate::<[u8; 8]>(&rng) {
        Ok(bytes) => Some(bytes.expose()),
        Err(_) => None,
    }
}

/// `256^n`.
pub open spec fn pow256(n: nat) -> nat
    decreases n,
{
    if n == 0 {
        1
    } else {
        256 * pow256((n - 1) as nat)
    }
}

/// The unsigned integer whose little-endian byte encoding is `b`.
pub open spec fn le_value(b: Seq<u8>) -> nat
    decreases b.len(),
{
    if b.len() == 0 {
        0
    } else {
        b[0] as nat + 256 * le_value(b.skip(1))
    }
}

/// The little-endian encoding of a 32-bit element: its canonical bytes.
pub open spec fn elem_bytes(v: u32) -> Seq<u8> {
    seq![(v & 0xff) as u8, ((v >> 8u32) & 0xff) as u8, ((v >> 16u32) & 0xff) as u8, ((v >> 24u32) & 0xff) as u8]
}

/// The `k`-th 64-bit word of the digest of `key`, read little-endian.
pub open spec fn digest_word(key: Seq<u8>, k: int) -> nat {
    le_value(sha256_of(key).subrange(8 * k, 8 * k + 8))
}

/// The `k`-th candidate bucket of `key` in a table of `range` buckets.
pub open spec fn hash_index(key: Seq<u8>, k: int, range: nat) -> nat {
    digest_word(key, k) % range
}

proof fn lemma_le_value_bound(b: Seq<u8>)
    ensures
        le_value(b) < pow256(b.len()),
    decreases b.len(),
{
    if b.len() > 0 {
        lemma_le_value_bound(b.skip(1));
        let t = le_value(b.skip(1));
        let p = pow256((b.len() - 1) as nat);
        assert(t + 1 <= p);
        assert(b[0] as nat + 256 * t < 256 * p) by (nonlinear_arith)
            requires
                b[0] < 256,
                t + 1 <= p,
        ;
    }
}

/// Reads `b[lo..lo + n]` as a little-endian integer.
pub(crate) fn read_le(b: &[u8], lo: usize, n: usize) -> (r: u64)
    requires
        n <= 8,
        lo + n <= b@.len(),
    ensures
        r as nat == le_value(b@.subrange(lo as int, lo + n)),
{
    let len: usize = b.len();
    let mut v: u64 = 0;
    let mut i: usize = n;
    proof {
        reveal_with_fuel(pow256, 9);
    }
    assert(pow256(8) == 0x1_0000_0000_0000_0000);
    while i > 0
        invariant
            i <= n <= 8,
            lo + n <= b@.len() == len,
            v as nat == le_value(b@.subrange(lo + i, lo + n)),
            v < pow256((n - i) as nat),
            pow256(8) == 0x1_0000_0000_0000_0000,
        decreases i,
    {
        i = i - 1;
        let ghost tail = b@.subrange(lo + i + 1, lo + n);
        let ghost s = b@.subrange(lo + i, lo + n);
        assert(s.skip(1) =~= tail);
        assert(le_value(s) == s[0] as nat + 256 * le_value(tail));
        proof {
            lemma_pow256_mono((n - i - 1) as nat, 7);
        }
        assert(v * 256 + (b[(lo + i) as int] as nat) < 256 * pow256((n - i - 1) as nat)) by (nonlinear_arith)
            requires
                v < pow256((n - i - 1) as nat),
                b[(lo + i) as int] < 256,
        ;
        v = v * 256 + b[lo + i] as u64;
    }
    v
}

proof fn lemma_pow256_mono(a: nat, b: nat)
    requires
        a <= b,
    ensures
        pow256(a) <= pow256(b),
    decreases b,
{
    if a < b {
        lemma_pow256_mono(a, (b - 1) as nat);
    }
}

/// The canonical bytes of an element: its little-endian encoding.
pub fn elem_to_bytes(v: u32) -> (r: Vec<u8>)
    ensures
        r@ == elem_bytes(v),
{
    let r = vec![(v & 0xff) as u8, ((v >> 8u32) & 0xff) as u8, ((v >> 16u32) & 0xff) as u8, ((v >> 24u32) & 0xff) as u8];
    assert(r@ =~= elem_bytes(v));
    r
}

/// The two candidate bucket indices of `key` in a table of `range` buckets:
/// the first two 64-bit words of its SHA-256 digest, each reduced modulo
/// `range`.
pub fn get_two_hash(key: &[u8], range: usize) -> (r: (usize, usize))
    requires
        range > 0,
        key@.len() <= MAX_KEY_LEN,
    ensures
        r.0 == hash_index(key@, 0, range as nat),
        r.1 == hash_index(key@, 1, range as nat),
{
    let d = sha256(key);
    let w0 = read_le(d.as_slice(), 0, 8);
    let w1 = read_le(d.as_slice(), 8, 8);
    let m = range as u64;
    ((w0 % m) as usize, (w1 % m) as usize)
}

/// The three candidate bucket indices of `key` in a table of `range` buckets:
/// the first three 64-bit words of its SHA-256 digest, each reduced modulo
/// `range`.
pub fn get_three_hash(key: &[u8], range: usize) -> (r: (usize, usize, usize))
    requires
        range > 0,
        key@.len() <= MAX_KEY_LEN,
    ensures
        r.0 == hash_index(key@, 0, range as nat),
        r.1 == hash_index(key@, 1, range as nat),
        r.2 == hash_index(key@, 2, range as nat),
{
    let d = sha256(key);
    let w0 = read_le(d.as_slice(), 0, 8);
    let w1 = read_le(d.as_slice(), 8, 8);
    let w2 = read_le(d.as_slice(), 16, 8);
    let m = range as u64;
    ((w0 % m) as usize, (w1 % m) as usize, (w2 % m) as usize)
}

/// Where an element held at bucket `hash` goes next in a two-way table: the
/// other of its two candidates.
pub open spec fn alt_two(key: Seq<u8>, range: nat, hash: nat) -> nat {
    if hash_index(key, 0, range) == hash {
        hash_index(key, 1, range)
    } else {
        hash_index(key, 0, range)
    }
}

/// Where an element held at bucket `hash` goes next in a three-way table: the
/// candidate after `hash` in the cyclic order `h0, h1, h2`.
pub open spec fn alt_three(key: Seq<u8>, range: nat, hash: nat) -> nat {
    if hash_index(key, 0, range) == hash {
        hash_index(key, 1, range)
    } else if hash_index(key, 1, range) == hash {
        hash_index(key, 2, range)
    } else {
        hash_index(key, 0, range)
    }
}

/// Returns the candidate of `data` that follows `hash` among its two
/// candidates.
pub fn get_alt_hash(data: &[u8], range: usize, hash: usize) -> (r: usize)
    requires
        range > 0,
        data@.len() <= MAX_KEY_LEN,
    ensures
        r == alt_two(data@, range as nat, hash as nat),
{
    let hset = get_two_hash(data, range);
    if hset.0 == hash {
        hset.1
    } else {
        hset.0
    }
}

/// Returns the candidate of `data` that follows `hash` in the cyclic order of
/// its three candidates.
pub fn get_alt_hash_three(data: &[u8], range: usize, hash: usize) -> (r: usize)
    requires
        range > 0,
        data@.len() <= MAX_KEY_LEN,
    ensures
        r == alt_three(data@, range as nat, hash as nat),
{
    let hset = get_three_hash(data, range);
    if hset.0 == hash {
        hset.1
    } else if hset.1 == hash {
        hset.2
    } else {
        hset.0
    }
}

/// The index in `[0, range)` that eight random bytes select: their
/// little-endian value reduced modulo `range`.
pub fn index_from_bytes(bytes: [u8; 8], range: usize) -> (r: usize)
    requires
        range > 0,
    ensures
        r as nat == le_value(bytes@) % (range as nat),
{
    let w = read_le(bytes.as_slice(), 0, 8);
    assert(bytes@.subrange(0, 8) =~= bytes@);
    (w % (range as u64)) as usize
}

/// A random index in `[0, range)`: eight bytes from the operating system's
/// secure random source, as `index_from_bytes` reads them, or `None` when
/// that source fails.
pub fn get_random(range: usize) -> (r: Option<usize>)
    requires
        range > 0,
    ensures
        r matches Some(x) ==> x < range,
{
    match random_bytes() {
        Some(bytes) => Some(index_from_bytes(bytes, range)),
        None => None,
    }
}

} // verus!
