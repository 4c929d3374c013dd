//! The trusted persistence layer: a stable B-tree map holding the encoded
//! records, and a stable cell holding the identifier counter.
//!
//! Verus cannot read the stable-structures types themselves, so each one is
//! held in an opaque struct. Uninterpreted functions name the map's contents
//! and the cell's value, and each method the store logic needs is a thin
//! wrapper whose contract states what the crate's source shows of it.

use vstd::prelude::*;

verus! {

/// A stable B-tree map from record identifiers to encoded records.
/// Held opaquely; [`byte_map`] names its contents.
#[verifier::external_body]
pub struct ByteMap {
    inner: ic_stable_structures::StableBTreeMap<
        u64,
        Vec<u8>,
        ic_stable_structures::DefaultMemoryImpl,
    >,
}

/// The mapping a [`ByteMap`] currently holds.
pub uninterp spec fn byte_map(m: ByteMap) -> Map<u64, Seq<u8>>;

impl ByteMap {
    /// Relies on `BTreeMap::new`: a map over a fresh memory holds nothing.
    #[verifier::external_body]
    pub fn new() -> (r: ByteMap)
        ensures
            byte_map(r) =~= Map::empty(),
    {
        ByteMap {
            inner: ic_stable_structures::StableBTreeMap::new(
                ic_stable_structures::DefaultMemoryImpl::default(),
            ),
        }
    }

    /// Relies on `BTreeMap::insert`: stores the value under the key and
    /// returns whatever value the key held before.
    #[verifier::external_body]
    pub fn insert(&mut self, key: u64, value: Vec<u8>) -> (prev: Option<Vec<u8>>)
        ensures
            byte_map(*final(self)) == byte_map(*old(self)).insert(key, value@),
            match prev {
                Some(p) => byte_map(*old(self)).contains_key(key) && p@ == byte_map(
                    *old(self),
                )[key],
                None => !byte_map(*old(self)).contains_key(key),
            },
    {
        self.inner.insert(key, value)
    }

    /// Relies on `BTreeMap::get`: returns the value stored under the key,
    /// if the key is present.
    #[verifier::external_body]
    pub fn get(&self, key: u64) -> (r: Option<Vec<u8>>)
        ensures
            match r {
                Some(p) => byte_map(*self).contains_key(key) && p@ == byte_map(*self)[key],
                None => !byte_map(*self).contains_key(key),
            },
    {
        self.inner.get(&key)
    }

    /// Relies on `BTreeMap::iter`: the entries come out sorted by key,
    /// each present key exactly once, covering the whole map.
    #[verifier::external_body]
    pub fn entries(&self) -> (r: Vec<(u64, Vec<u8>)>)
        ensures
            forall|i: int|
                0 <= i < r@.len() ==> byte_map(*self).contains_key(#[trigger] r@[i].0) && r@[i].1@
                    == byte_map(*self)[r@[i].0],
            forall|k: u64| #[trigger]
                byte_map(*self).contains_key(k) ==> exists|i: int|
                    0 <= i < r@.len() && #[trigger] r@[i].0 == k,
            forall|i: int, j: int|
                0 <= i < j < r@.len() ==> #[trigger] r@[i].0 < #[trigger] r@[j].0,
    {
        self.inner.iter().map(|e| (*e.key(), e.value())).collect()
    }
}

/// The stable cell that persists the identifier counter.
/// Held opaquely; [`id_cell`] names its value.
#[verifier::external_body]
pub struct IdCell {
    inner: ic_stable_structures::Cell<u64, ic_stable_structures::DefaultMemoryImpl>,
}

/// The value an [`IdCell`] currently holds.
pub uninterp spec fn id_cell(c: IdCell) -> u64;

impl IdCell {
    /// Relies on `Cell::new`: a cell over a fresh memory takes the given
    /// initial value.
    #[verifier::external_body]
    pub fn new(value: u64) -> (r: IdCell)
        ensures
            id_cell(r) == value,
    {
        IdCell {
            inner: ic_stable_structures::Cell::new(
                ic_stable_structures::DefaultMemoryImpl::default(),
                value,
            ),
        }
    }

    /// Relies on `Cell::get`: returns the held value.
    #[verifier::external_body]
    pub fn get(&self) -> (r: u64)
        ensures
            r == id_cell(*self),
    {
        *self.inner.get()
    }

    /// Relies on `Cell::set`: replaces the held value and returns the one
    /// it replaced.
    #[verifier::external_body]
    pub fn set(&mut self, value: u64) -> (prev: u64)
        ensures
            id_cell(*final(self)) == value,
            prev == id_cell(*old(self)),
    {
        self.inner.set(value)
    }
}

} // verus!
