//! Key support for the hash table: a trait for types that can be reduced to a
//! 64-bit integer by a fixed deterministic hash, together with the hash used
//! for string-like keys.

use vstd::prelude::*;
use vstd::utf8::encode_utf8;
use vstd::utf8::encode_utf8_decode_utf8;
use vstd::wrapping::u64_specs;

verus! {

/// A type usable as a hash-table key.
///
/// A key is abstracted by its view; the hash is a fixed deterministic
/// function of the view, so equal keys always hash alike.
pub trait TableKey: View + Sized {
    /// The fixed deterministic 64-bit reduction of a key value.
    spec fn hash_of(key: Self::V) -> u64;

    /// Reduces the key to a 64-bit integer for universal hashing.
    fn hash64(&self) -> (r: u64)
        ensures
            r == Self::hash_of(self@),
    ;

    /// Decides equality of key views.
    fn key_eq(&self, other: &Self) -> (r: bool)
        ensures
            r == (self@ == other@),
    ;

    /// A copy of the key with the same view.
    fn dup(&self) -> (r: Self)
        ensures
            r@ == self@,
    ;
}

pub open spec fn fnv1a_offset() -> u64 {
    0xcbf2_9ce4_8422_2325
}

pub open spec fn fnv1a_prime() -> u64 {
    0x100_0000_01b3
}

/// The FNV-1a state after absorbing `bytes`, starting from state `h`.
pub open spec fn fnv1a_from(h: u64, bytes: Seq<u8>) -> u64
    decreases bytes.len(),
{
    if bytes.len() == 0 {
        h
    } else {
        fnv1a_from(u64_specs::wrapping_mul(h ^ (bytes[0] as u64), fnv1a_prime()), bytes.drop_first())
    }
}

/// The 64-bit FNV-1a hash of a byte sequence.
pub open spec fn fnv1a(bytes: Seq<u8>) -> u64 {
    fnv1a_from(fnv1a_offset(), bytes)
}

/// Computes the 64-bit FNV-1a hash of a byte slice.
pub fn fnv1a_bytes(bs: &[u8]) -> (r: u64)
    ensures
        r == fnv1a(bs@),
{
    let mut h: u64 = 0xcbf2_9ce4_8422_2325;
    let mut i: usize = 0;
    proof {
        assert(bs@.skip(0) =~= bs@);
    }
    while i < bs.len()
        invariant
            0 <= i <= bs@.len(),
            fnv1a_from(h, bs@.skip(i as int)) == fnv1a(bs@),
        decreases bs@.len() - i,
    {
        proof {
            assert(bs@.skip(i as int).drop_first() =~= bs@.skip(i + 1));
            assert(bs@.skip(i as int)[0] == bs@[i as int]);
        }
        h = (h ^ (bs[i] as u64)).wrapping_mul(0x100_0000_01b3);
        i = i + 1;
    }
    proof {
        assert(bs@.skip(i as int) =~= Seq::<u8>::empty());
    }
    h
}

/// Decides equality of two string slices by their views.
pub fn str_eq(a: &str, b: &str) -> (r: bool)
    ensures
        r == (a@ == b@),
{
    proof {
        encode_utf8_decode_utf8(a@);
        encode_utf8_decode_utf8(b@);
    }
    let ab = a.as_bytes();
    let bb = b.as_bytes();
    if ab.len() != bb.len() {
        return false;
    }
    let mut i: usize = 0;
    while i < ab.len()
        invariant
            ab@ == encode_utf8(a@),
            bb@ == encode_utf8(b@),
            ab@.len() == bb@.len(),
            0 <= i <= ab@.len(),
            forall|j: int| 0 <= j < i ==> ab@[j] == bb@[j],
        decreases ab@.len() - i,
    {
        if ab[i] != bb[i] {
            return false;
        }
        i = i + 1;
    }
    proof {
        assert(ab@ =~= bb@);
    }
    true
}

impl TableKey for i32 {
    open spec fn hash_of(key: i32) -> u64 {
        key as u64
    }

    fn hash64(&self) -> (r: u64) {
        *self as u64
    }

    fn key_eq(&self, other: &Self) -> (r: bool) {
        *self == *other
    }

    fn dup(&self) -> (r: Self) {
        *self
    }
}

impl TableKey for u64 {
    open spec fn hash_of(key: u64) -> u64 {
        key
    }

    fn hash64(&self) -> (r: u64) {
        *self
    }

    fn key_eq(&self, other: &Self) -> (r: bool) {
        *self == *other
    }

    fn dup(&self) -> (r: Self) {
        *self
    }
}

impl<'a> TableKey for &'a str {
    open spec fn hash_of(key: Seq<char>) -> u64 {
        fnv1a(encode_utf8(key))
    }

    fn hash64(&self) -> (r: u64) {
        fnv1a_bytes(self.as_bytes())
    }

    fn key_eq(&self, other: &Self) -> (r: bool) {
        str_eq(self, other)
    }

    fn dup(&self) -> (r: Self) {
        *self
    }
}

impl TableKey for String {
    open spec fn hash_of(key: Seq<char>) -> u64 {
        fnv1a(encode_utf8(key))
    }

    fn hash64(&self) -> (r: u64) {
        fnv1a_bytes(self.as_str().as_bytes())
    }

    fn key_eq(&self, other: &Self) -> (r: bool) {
        self.eq(other)
    }

    fn dup(&self) -> (r: Self) {
        self.clone()
    }
}

} // verus!
