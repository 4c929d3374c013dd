//! The record store: identifier allocation, persistence, and the four
//! record operations.
//!
//! Each operation's contract is stated against a spec-level transition
//! function on the store's mathematical content, a map from identifier to
//! record view, so callers see the exact outcome and the exact next state.

use crate::codec::record_bytes;
use crate::record::{Car, CarPayload, CarView, Error};
use crate::storage::{byte_map, id_cell, ByteMap, IdCell};
use vstd::prelude::*;

verus! {

/// The record a create operation builds from its inputs.
pub open spec fn new_record(
    id: u64,
    name: Seq<char>,
    model: Seq<char>,
    price_per_hour: u64,
    now: u64,
) -> CarView {
    CarView {
        id,
        name,
        model,
        price_per_hour,
        is_available: true,
        created_at: now,
        updated_at: None,
    }
}

/// The outcome of a fetch: the stored record, or `NotFound`.
pub open spec fn spec_get(m: Map<u64, CarView>, id: u64) -> Result<CarView, Error> {
    if m.contains_key(id) {
        Ok(m[id])
    } else {
        Err(Error::NotFound(id))
    }
}

/// The outcome and next contents of a rent: flips an available record to
/// unavailable and stamps it, or reports why it cannot.
pub open spec fn spec_rent(m: Map<u64, CarView>, id: u64, now: u64) -> (Result<CarView, Error>, Map<
    u64,
    CarView,
>) {
    if !m.contains_key(id) {
        (Err(Error::NotFound(id)), m)
    } else if !m[id].is_available {
        (Err(Error::AlreadyUnavailable(id)), m)
    } else {
        let c = CarView { is_available: false, updated_at: Some(now), ..m[id] };
        (Ok(c), m.insert(id, c))
    }
}

/// The outcome and next contents of a return: flips an unavailable record
/// back to available and stamps it, or reports why it cannot.
pub open spec fn spec_return(m: Map<u64, CarView>, id: u64, now: u64) -> (Result<
    CarView,
    Error,
>, Map<u64, CarView>) {
    if !m.contains_key(id) {
        (Err(Error::NotFound(id)), m)
    } else if m[id].is_available {
        (Err(Error::AlreadyAvailable(id)), m)
    } else {
        let c = CarView { is_available: true, updated_at: Some(now), ..m[id] };
        (Ok(c), m.insert(id, c))
    }
}

/// The record store: a persistent map of encoded records keyed by
/// identifier, and the persistent counter that hands out fresh identifiers.
pub struct CarStore {
    map: ByteMap,
    counter: IdCell,
    records: Ghost<Map<u64, CarView>>,
}

impl View for CarStore {
    type V = Map<u64, CarView>;

    /// The records the store holds.
    closed spec fn view(&self) -> Map<u64, CarView> {
        self.records@
    }
}

impl CarStore {
    /// The identifier the next create will take.
    pub closed spec fn next_id(&self) -> u64 {
        id_cell(self.counter)
    }

    /// Well-formedness: the held records are finitely many, each stored
    /// under its own identifier, the held identifiers are exactly those
    /// below the counter (records are never deleted), and the persisted
    /// bytes are exactly the encodings of the records.
    pub closed spec fn wf(&self) -> bool {
        &&& self@.dom().finite()
        &&& forall|k: u64| #[trigger]
            self@.contains_key(k) ==> self@[k].id == k && k < id_cell(self.counter)
        &&& forall|k: u64| k < id_cell(self.counter) ==> #[trigger] self@.contains_key(k)
        &&& byte_map(self.map).dom() == self@.dom()
        &&& forall|k: u64| #[trigger]
            self@.contains_key(k) ==> byte_map(self.map)[k] == record_bytes(self@[k])
    }

    /// A fresh store: no records, identifiers starting at zero.
    pub fn new() -> (r: CarStore)
        ensures
            r.wf(),
            r@ =~= Map::empty(),
            r.next_id() == 0,
    {
        let r = CarStore { map: ByteMap::new(), counter: IdCell::new(0), records: Ghost(Map::empty()) };
        proof {
            assert(byte_map(r.map).dom() =~= r@.dom());
        }
        r
    }

    /// Reads the identifier the next create will take.
    pub fn peek_next_id(&self) -> (r: u64)
        ensures
            r == self.next_id(),
    {
        self.counter.get()
    }

    /// Creates a record: allocates the next identifier, stores the record
    /// with `is_available` true and no update stamp, and returns it.
    pub fn add_car(&mut self, payload: CarPayload, now: u64) -> (r: Car)
        requires
            old(self).wf(),
            old(self).next_id() < u64::MAX,
        ensures
            final(self).wf(),
            r@ == new_record(
                old(self).next_id(),
                payload.name@,
                payload.model@,
                payload.price_per_hour,
                now,
            ),
            final(self)@ == old(self)@.insert(r@.id, r@),
            final(self).next_id() == old(self).next_id() + 1,
    {
        let id = self.counter.get();
        let _prev = self.counter.set(id + 1);
        let car = Car {
            id,
            name: payload.name,
            model: payload.model,
            price_per_hour: payload.price_per_hour,
            is_available: true,
            created_at: now,
            updated_at: None,
        };
        let bytes = car.to_bytes();
        self.map.insert(id, bytes);
        proof {
            self.records@ = self.records@.insert(id, car@);
            assert(byte_map(self.map).dom() =~= self@.dom());
        }
        car
    }

    /// Fetches the record stored under `id`, or `NotFound`.
    pub fn get_car(&self, id: u64) -> (r: Result<Car, Error>)
        requires
            self.wf(),
        ensures
            ({
                let res = spec_get(self@, id);
                match r {
                    Ok(c) => res == Ok::<CarView, Error>(c@),
                    Err(e) => res == Err::<CarView, Error>(e),
                }
            }),
    {
        match self.map.get(id) {
            Some(bytes) => {
                proof {
                    assert(byte_map(self.map).dom().contains(id));
                    assert(record_bytes(self@[id]) == bytes@);
                }
                match Car::from_bytes(bytes.as_slice()) {
                    Some(car) => Ok(car),
                    None => {
                        proof {
                            assert(false);
                        }
                        Err(Error::NotFound(id))
                    },
                }
            },
            None => {
                proof {
                    assert(!byte_map(self.map).dom().contains(id));
                }
                Err(Error::NotFound(id))
            },
        }
    }

    /// Rents the record stored under `id`: flips it to unavailable and
    /// stamps `updated_at`, or reports `NotFound` or `AlreadyUnavailable`.
    pub fn rent_car(&mut self, id: u64, now: u64) -> (r: Result<Car, Error>)
        requires
            old(self).wf(),
        ensures
            final(self).wf(),
            final(self).next_id() == old(self).next_id(),
            ({
                let (res, m2) = spec_rent(old(self)@, id, now);
                &&& final(self)@ == m2
                &&& match r {
                    Ok(c) => res == Ok::<CarView, Error>(c@),
                    Err(e) => res == Err::<CarView, Error>(e),
                }
            }),
    {
        match self.map.get(id) {
            None => {
                proof {
                    assert(!byte_map(self.map).dom().contains(id));
                }
                Err(Error::NotFound(id))
            },
            Some(bytes) => {
                proof {
                    assert(byte_map(self.map).dom().contains(id));
                    assert(record_bytes(self@[id]) == bytes@);
                }
                match Car::from_bytes(bytes.as_slice()) {
                    None => {
                        proof {
                            assert(false);
                        }
                        Err(Error::NotFound(id))
                    },
                    Some(car) => {
                        if !car.is_available {
                            return Err(Error::AlreadyUnavailable(id));
                        }
                        let upd = Car { is_available: false, updated_at: Some(now), ..car };
                        let bytes2 = upd.to_bytes();
                        self.map.insert(id, bytes2);
                        proof {
                            self.records@ = self.records@.insert(id, upd@);
                            assert(byte_map(self.map).dom() =~= self@.dom());
                        }
                        Ok(upd)
                    },
                }
            },
        }
    }

    /// Returns the record stored under `id`: flips it back to available and
    /// stamps `updated_at`, or reports `NotFound` or `AlreadyAvailable`.
    pub fn return_car(&mut self, id: u64, now: u64) -> (r: Result<Car, Error>)
        requires
            old(self).wf(),
        ensures
            final(self).wf(),
            final(self).next_id() == old(self).next_id(),
            ({
                let (res, m2) = spec_return(old(self)@, id, now);
                &&& final(self)@ == m2
                &&& match r {
                    Ok(c) => res == Ok::<CarView, Error>(c@),
                    Err(e) => res == Err::<CarView, Error>(e),
                }
            }),
    {
        match self.map.get(id) {
            None => {
                proof {
                    assert(!byte_map(self.map).dom().contains(id));
                }
                Err(Error::NotFound(id))
            },
            Some(bytes) => {
                proof {
                    assert(byte_map(self.map).dom().contains(id));
                    assert(record_bytes(self@[id]) == bytes@);
                }
                match Car::from_bytes(bytes.as_slice()) {
                    None => {
                        proof {
                            assert(false);
                        }
                        Err(Error::NotFound(id))
                    },
                    Some(car) => {
                        if car.is_available {
                            return Err(Error::AlreadyAvailable(id));
                        }
                        let upd = Car { is_available: true, updated_at: Some(now), ..car };
                        let bytes2 = upd.to_bytes();
                        self.map.insert(id, bytes2);
                        proof {
                            self.records@ = self.records@.insert(id, upd@);
                            assert(byte_map(self.map).dom() =~= self@.dom());
                        }
                        Ok(upd)
                    },
                }
            },
        }
    }

    /// Lists every stored record, in ascending identifier order.
    pub fn list_cars(&self) -> (r: Vec<Car>)
        requires
            self.wf(),
        ensures
            r@.len() == self@.dom().len(),
            forall|i: int|
                0 <= i < r@.len() ==> self@.contains_key(#[trigger] r@[i]@.id) && r@[i]@
                    == self@[r@[i]@.id],
            forall|k: u64| #[trigger]
                self@.contains_key(k) ==> exists|i: int| 0 <= i < r@.len() && #[trigger] r@[i]@.id == k,
            forall|i: int, j: int| 0 <= i < j < r@.len() ==> #[trigger] r@[i]@.id < #[trigger] r@[j]@.id,
    {
        let entries = self.map.entries();
        let n = entries.len();
        let mut out: Vec<Car> = Vec::new();
        let mut idx: usize = 0;
        while idx < n
            invariant
                self.wf(),
                n == entries@.len(),
                idx <= n,
                out@.len() == idx,
                forall|i: int|
                    0 <= i < entries@.len() ==> byte_map(self.map).contains_key(
                        #[trigger] entries@[i].0,
                    ) && entries@[i].1@ == byte_map(self.map)[entries@[i].0],
                forall|k: u64| #[trigger]
                    byte_map(self.map).contains_key(k) ==> exists|i: int|
                        0 <= i < entries@.len() && #[trigger] entries@[i].0 == k,
                forall|i: int, j: int|
                    0 <= i < j < entries@.len() ==> #[trigger] entries@[i].0 < #[trigger] entries@[j].0,
                forall|t: int|
                    0 <= t < idx ==> #[trigger] out@[t]@ == self@[entries@[t].0] && out@[t]@.id
                        == entries@[t].0,
            decreases n - idx,
        {
            let bytes: &Vec<u8> = &entries[idx].1;
            proof {
                assert(byte_map(self.map).contains_key(entries@[idx as int].0));
                assert(self@.contains_key(entries@[idx as int].0));
                assert(record_bytes(self@[entries@[idx as int].0]) == bytes@);
            }
            match Car::from_bytes(bytes.as_slice()) {
                Some(car) => {
                    out.push(car);
                },
                None => {
                    proof {
                        assert(false);
                    }
                },
            }
            idx = idx + 1;
        }
        proof {
            assert(byte_map(self.map).dom() == self@.dom());
            lemma_seq_keys_cover_dom(entries@, byte_map(self.map));
            assert forall|k: u64| #[trigger] self@.contains_key(k) implies exists|i: int|
                0 <= i < out@.len() && #[trigger] out@[i]@.id == k by {
                assert(self@.dom().contains(k));
                assert(byte_map(self.map).contains_key(k));
                let i = choose|i: int| 0 <= i < entries@.len() && #[trigger] entries@[i].0 == k;
                assert(out@[i]@.id == k);
            }
        }
        out
    }
}

/// Everything a well-formed store holds is keyed by its own identifier and
/// sits strictly below the counter.
pub proof fn lemma_wf_ids_below_counter(s: CarStore, k: u64)
    requires
        s.wf(),
        s@.contains_key(k),
    ensures
        k < s.next_id(),
        s@[k].id == k,
{
}

/// A well-formed store holds finitely many records.
pub proof fn lemma_wf_finite(s: CarStore)
    requires
        s.wf(),
    ensures
        s@.dom().finite(),
{
}

/// A well-formed store holds every identifier below its counter: nothing
/// is ever deleted, so the issued identifiers stay present.
pub proof fn lemma_wf_issued_present(s: CarStore, k: u64)
    requires
        s.wf(),
        k < s.next_id(),
    ensures
        s@.contains_key(k),
{
}

/// A sequence of pairwise distinct keys that all lie in a finite map's
/// domain, and that covers it, has exactly as many entries as the domain.
proof fn lemma_seq_keys_cover_dom(s: Seq<(u64, Vec<u8>)>, m: Map<u64, Seq<u8>>)
    requires
        m.dom().finite(),
        forall|i: int| 0 <= i < s.len() ==> m.contains_key(#[trigger] s[i].0),
        forall|k: u64| #[trigger] m.contains_key(k) ==> exists|i: int| 0 <= i < s.len() && #[trigger] s[i].0 == k,
        forall|i: int, j: int| 0 <= i < j < s.len() ==> #[trigger] s[i].0 < #[trigger] s[j].0,
    ensures
        s.len() == m.dom().len(),
    decreases s.len(),
{
    if s.len() == 0 {
        assert(m.dom() =~= Set::empty());
    } else {
        let last = s[s.len() - 1].0;
        let s2 = s.drop_last();
        let m2 = m.remove(last);
        assert(m.contains_key(last));
        assert forall|i: int| 0 <= i < s2.len() implies m2.contains_key(#[trigger] s2[i].0) by {
            assert(s2[i] == s[i]);
            assert(s[i].0 < last);
        }
        assert forall|k: u64| #[trigger] m2.contains_key(k) implies exists|i: int|
            0 <= i < s2.len() && #[trigger] s2[i].0 == k by {
            assert(m.contains_key(k));
            let i = choose|i: int| 0 <= i < s.len() && #[trigger] s[i].0 == k;
            assert(k != last);
            assert(i < s.len() - 1);
            assert(s2[i] == s[i]);
        }
        lemma_seq_keys_cover_dom(s2, m2);
        assert(m.dom() =~= m2.dom().insert(last));
        assert(m.dom().len() == m2.dom().len() + 1);
    }
}

} // verus!
