//! A fixed-capacity cuckoo hash table for set-membership workloads, such as
//! the building block of a private set intersection protocol.
//!
//! Two variants are provided: [`StandardCuckoo`], where every element has two
//! candidate buckets, and [`ThreewayCuckoo`], where it has three. Elements that
//! a bounded relocation chain cannot place go to an unbounded stash, so an
//! insertion never fails and never loses an element.
//!
//! Candidate buckets are derived from the SHA-256 digest of the element's
//! little-endian bytes, and the random choices of the relocation algorithm come
//! from the operating system, both through the `ring` crate.
pub mod bucket;
pub mod cuckoo_hash;
pub mod utils;

pub use cuckoo_hash::standard::CuckooHashTable as StandardCuckoo;
pub use cuckoo_hash::threeway::CuckooHashTable as ThreewayCuckoo;
