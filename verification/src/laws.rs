//! The store's general laws, each proved from the contracts in [`crate::store`].

use crate::record::{CarView, Error};
use crate::store::{
    lemma_wf_finite, lemma_wf_ids_below_counter, lemma_wf_issued_present, new_record, spec_get, spec_rent, spec_return, CarStore,
};
use vstd::prelude::*;

verus! {

/// Identifiers are never reused: everything the store holds sits strictly
/// below the next identifier to be handed out, so a fresh identifier is
/// absent from the store.
pub proof fn lemma_ids_fresh(s: CarStore, k: u64)
    requires
        s.wf(),
        k >= s.next_id(),
    ensures
        !s@.contains_key(k),
{
    if s@.contains_key(k) {
        lemma_wf_ids_below_counter(s, k);
    }
}

/// The store holds exactly the identifiers it has issued: every
/// identifier below the counter and none at or above it. Together with
/// the create contract, which returns the counter's value and advances it
/// by one, the issued identifiers are 0, 1, 2, ... in order, with no gaps
/// and no repeats.
pub proof fn lemma_ids_exactly_issued(s: CarStore, k: u64)
    requires
        s.wf(),
    ensures
        s@.contains_key(k) <==> k < s.next_id(),
{
    if k < s.next_id() {
        lemma_wf_issued_present(s, k);
    } else {
        lemma_ids_fresh(s, k);
    }
}

/// Fetching an identifier the store never issued reports `NotFound`.
pub proof fn lemma_get_unissued(s: CarStore, id: u64)
    requires
        s.wf(),
        id >= s.next_id(),
    ensures
        spec_get(s@, id) == Err::<CarView, Error>(Error::NotFound(id)),
{
    lemma_ids_fresh(s, id);
}

/// Fetching right after a create yields exactly the record the create
/// returned.
pub proof fn lemma_get_after_add(
    m: Map<u64, CarView>,
    id: u64,
    name: Seq<char>,
    model: Seq<char>,
    price_per_hour: u64,
    now: u64,
)
    ensures
        spec_get(m.insert(id, new_record(id, name, model, price_per_hour, now)), id)
            == Ok::<CarView, Error>(new_record(id, name, model, price_per_hour, now)),
{
}

/// A create grows the held record set by exactly one entry, since the
/// identifier it takes is fresh.
pub proof fn lemma_add_grows_by_one(s: CarStore, c: CarView)
    requires
        s.wf(),
    ensures
        s@.insert(s.next_id(), c).dom().len() == s@.dom().len() + 1,
{
    lemma_wf_finite(s);
    lemma_ids_fresh(s, s.next_id());
    assert(s@.insert(s.next_id(), c).dom() =~= s@.dom().insert(s.next_id()));
}

/// Renting twice in a row fails: the second rent of the same record
/// reports `AlreadyUnavailable`.
pub proof fn lemma_rent_twice(m: Map<u64, CarView>, id: u64, t1: u64, t2: u64)
    requires
        spec_rent(m, id, t1).0 is Ok,
    ensures
        spec_rent(spec_rent(m, id, t1).1, id, t2).0 == Err::<CarView, Error>(
            Error::AlreadyUnavailable(id),
        ),
{
}

/// Returning twice in a row fails: the second return of the same record
/// reports `AlreadyAvailable`.
pub proof fn lemma_return_twice(m: Map<u64, CarView>, id: u64, t1: u64, t2: u64)
    requires
        spec_return(m, id, t1).0 is Ok,
    ensures
        spec_return(spec_return(m, id, t1).1, id, t2).0 == Err::<CarView, Error>(
            Error::AlreadyAvailable(id),
        ),
{
}

/// Renting and then returning restores availability, and moves the update
/// stamp forward: the stored stamp goes from the rent time to the no
/// earlier return time.
pub proof fn lemma_rent_then_return(m: Map<u64, CarView>, id: u64, t1: u64, t2: u64)
    requires
        spec_rent(m, id, t1).0 is Ok,
        t1 <= t2,
    ensures
        ({
            let m1 = spec_rent(m, id, t1).1;
            let (res, m2) = spec_return(m1, id, t2);
            &&& m1[id].updated_at == Some(t1)
            &&& res is Ok
            &&& res->Ok_0.is_available
            &&& res->Ok_0.updated_at == Some(t2)
            &&& m2[id] == res->Ok_0
        }),
{
}

} // verus!
