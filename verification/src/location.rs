//! A named place with two integer coordinates: the vertex type of the
//! demonstration graphs and of the search.

use crate::keys::fnv1a;
use crate::keys::fnv1a_bytes;
use crate::keys::fnv1a_prime;
use crate::keys::str_eq;
use crate::keys::TableKey;
use vstd::prelude::*;
use vstd::utf8::encode_utf8;
use vstd::wrapping::u64_specs;

verus! {

/// The abstraction of a `Location`: its name as a character sequence and its
/// two coordinates.
pub ghost struct LocationView {
    pub name: Seq<char>,
    pub lat: u32,
    pub long: u32,
}

#[derive(Debug)]
pub struct Location {
    pub name: String,
    pub lat: u32,
    pub long: u32,
}

impl View for Location {
    type V = LocationView;

    open spec fn view(&self) -> LocationView {
        LocationView { name: self.name@, lat: self.lat, long: self.long }
    }
}

impl Clone for Location {
    /// A clone is equal to the original.
    fn clone(&self) -> (r: Self)
        ensures
            r == *self,
    {
        Location { name: self.name.clone(), lat: self.lat, long: self.long }
    }
}

impl PartialEq for Location {
    fn eq(&self, other: &Self) -> (r: bool) {
        self.name.eq(&other.name) && self.lat == other.lat && self.long == other.long
    }
}

impl Eq for Location {

}

impl vstd::std_specs::cmp::PartialEqSpecImpl for Location {
    open spec fn obeys_eq_spec() -> bool {
        true
    }

    open spec fn eq_spec(&self, other: &Location) -> bool {
        self@ == other@
    }
}

/// Folds a coordinate into a running 64-bit hash state.
pub open spec fn hash_mix(h: u64, x: u64) -> u64 {
    u64_specs::wrapping_mul(h ^ x, fnv1a_prime())
}

impl TableKey for Location {
    /// The hash of a location: the FNV-1a hash of its name, mixed with each
    /// coordinate in turn.
    open spec fn hash_of(key: LocationView) -> u64 {
        hash_mix(hash_mix(fnv1a(encode_utf8(key.name)), key.lat as u64), key.long as u64)
    }

    fn hash64(&self) -> (r: u64) {
        let h = fnv1a_bytes(self.name.as_str().as_bytes());
        let h = (h ^ (self.lat as u64)).wrapping_mul(0x100_0000_01b3);
        (h ^ (self.long as u64)).wrapping_mul(0x100_0000_01b3)
    }

    fn key_eq(&self, other: &Self) -> (r: bool) {
        str_eq(self.name.as_str(), other.name.as_str()) && self.lat == other.lat && self.long
            == other.long
    }

    fn dup(&self) -> (r: Self) {
        self.clone()
    }
}

} // verus!
