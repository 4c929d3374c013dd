//! The vehicle record, its creation payload, and the error taxonomy.

use vstd::prelude::*;

verus! {

/// A rentable vehicle record.
///
/// `id` is assigned by the store and never changes afterwards. `is_available`
/// starts `true` and is flipped only by the explicit rent/return transitions,
/// which also stamp `updated_at`.
#[derive(Clone, Debug, PartialEq, Eq)]
pub struct Car {
    pub id: u64,
    pub name: String,
    pub model: String,
    pub price_per_hour: u64,
    pub is_available: bool,
    pub created_at: u64,
    pub updated_at: Option<u64>,
}

/// The mathematical image of a [`Car`]: text fields as character sequences.
#[verifier::ext_equal]
pub struct CarView {
    pub id: u64,
    pub name: Seq<char>,
    pub model: Seq<char>,
    pub price_per_hour: u64,
    pub is_available: bool,
    pub created_at: u64,
    pub updated_at: Option<u64>,
}

impl View for Car {
    type V = CarView;

    open spec fn view(&self) -> CarView {
        CarView {
            id: self.id,
            name: self.name@,
            model: self.model@,
            price_per_hour: self.price_per_hour,
            is_available: self.is_available,
            created_at: self.created_at,
            updated_at: self.updated_at,
        }
    }
}

/// The caller-supplied fields of a new record. No validation is performed:
/// empty strings and a zero price are accepted.
#[derive(Clone, Debug, PartialEq, Eq)]
pub struct CarPayload {
    pub name: String,
    pub model: String,
    pub price_per_hour: u64,
}

/// Every caller-visible failure of the store, each carrying the identifier
/// that the failed operation was given.
#[derive(Clone, Copy, Debug, PartialEq, Eq, Structural)]
pub enum Error {
    /// No record is stored under the identifier.
    NotFound(u64),
    /// A rent was requested but the record is already rented out.
    AlreadyUnavailable(u64),
    /// A return was requested but the record is already available.
    AlreadyAvailable(u64),
}

} // verus!
