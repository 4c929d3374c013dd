//! A deterministic, length-prefixed byte encoding for records.
//!
//! The store persists each record as bytes. The encoding is canonical: a
//! record has exactly one encoding, and decoding succeeds exactly on the
//! encodings, so encode and decode are mutually inverse.

use crate::record::{Car, CarView};
use vstd::bytes::{
    lemma_auto_spec_u64_to_from_le_bytes, spec_u64_from_le_bytes, spec_u64_to_le_bytes,
    u64_from_le_bytes, u64_to_le_bytes,
};
use vstd::prelude::*;
use vstd::slice::{slice_index_get, slice_subrange, slice_to_vec};
use vstd::string::{StringExecFns, StringSliceAdditionalSpecFns};
use vstd::utf8::{decode_utf8, encode_utf8, valid_utf8};

verus! {

broadcast use vstd::utf8::encode_utf8_valid_utf8, vstd::utf8::encode_utf8_decode_utf8;

/// The single byte that records the availability flag.
pub open spec fn bool_byte(b: bool) -> Seq<u8> {
    if b {
        seq![1u8]
    } else {
        seq![0u8]
    }
}

/// Nine bytes for the optional timestamp: a presence tag, then the value.
/// An absent timestamp carries a zero value so that the encoding is canonical.
pub open spec fn opt_u64_bytes(o: Option<u64>) -> Seq<u8> {
    match o {
        Some(t) => seq![1u8] + spec_u64_to_le_bytes(t),
        None => seq![0u8] + spec_u64_to_le_bytes(0),
    }
}

/// A text field: the byte length of its UTF-8 form, then those bytes.
pub open spec fn text_bytes(s: Seq<char>) -> Seq<u8> {
    spec_u64_to_le_bytes(encode_utf8(s).len() as u64) + encode_utf8(s)
}

/// The canonical byte encoding of a record: the fixed-width numeric fields,
/// then the two length-prefixed text fields.
pub open spec fn record_bytes(c: CarView) -> Seq<u8> {
    spec_u64_to_le_bytes(c.id) + spec_u64_to_le_bytes(c.price_per_hour) + bool_byte(
        c.is_available,
    ) + spec_u64_to_le_bytes(c.created_at) + opt_u64_bytes(c.updated_at) + text_bytes(c.name)
        + text_bytes(c.model)
}

/// The piecewise description of a record encoding: each field occupies its
/// own segment of the byte string. Equivalent to `b == record_bytes(c)`.
pub open spec fn parts_match(b: Seq<u8>, c: CarView) -> bool {
    let nl = encode_utf8(c.name).len() as int;
    let ml = encode_utf8(c.model).len() as int;
    &&& b.len() == 50 + nl + ml
    &&& b.subrange(0, 8) == spec_u64_to_le_bytes(c.id)
    &&& b.subrange(8, 16) == spec_u64_to_le_bytes(c.price_per_hour)
    &&& b.subrange(16, 17) == bool_byte(c.is_available)
    &&& b.subrange(17, 25) == spec_u64_to_le_bytes(c.created_at)
    &&& b.subrange(25, 34) == opt_u64_bytes(c.updated_at)
    &&& b.subrange(34, 42) == spec_u64_to_le_bytes(encode_utf8(c.name).len() as u64)
    &&& b.subrange(42, 42 + nl) == encode_utf8(c.name)
    &&& b.subrange(42 + nl, 50 + nl) == spec_u64_to_le_bytes(encode_utf8(c.model).len() as u64)
    &&& b.subrange(50 + nl, 50 + nl + ml) == encode_utf8(c.model)
}

/// A byte string is the encoding of `c` exactly when every segment of it
/// matches the corresponding field of `c`.
pub proof fn lemma_parts_match(b: Seq<u8>, c: CarView)
    ensures
        parts_match(b, c) <==> b == record_bytes(c),
{
    lemma_auto_spec_u64_to_from_le_bytes();
    let nl = encode_utf8(c.name).len() as int;
    let ml = encode_utf8(c.model).len() as int;
    let r = record_bytes(c);
    assert(bool_byte(c.is_available).len() == 1);
    assert(opt_u64_bytes(c.updated_at).len() == 9);
    assert(text_bytes(c.name).len() == 8 + nl);
    assert(text_bytes(c.model).len() == 8 + ml);
    assert(r.len() == 50 + nl + ml);
    assert(r.subrange(0, 8) =~= spec_u64_to_le_bytes(c.id));
    assert(r.subrange(8, 16) =~= spec_u64_to_le_bytes(c.price_per_hour));
    assert(r.subrange(16, 17) =~= bool_byte(c.is_available));
    assert(r.subrange(17, 25) =~= spec_u64_to_le_bytes(c.created_at));
    assert(r.subrange(25, 34) =~= opt_u64_bytes(c.updated_at));
    assert(r.subrange(34, 42) =~= spec_u64_to_le_bytes(encode_utf8(c.name).len() as u64));
    assert(r.subrange(42, 42 + nl) =~= encode_utf8(c.name));
    assert(r.subrange(42 + nl, 50 + nl) =~= spec_u64_to_le_bytes(
        encode_utf8(c.model).len() as u64,
    ));
    assert(r.subrange(50 + nl, 50 + nl + ml) =~= encode_utf8(c.model));
    if parts_match(b, c) {
        assert forall|i: int| 0 <= i < b.len() implies b[i] == r[i] by {
            if i < 8 {
                assert(b.subrange(0, 8)[i] == r.subrange(0, 8)[i]);
            } else if i < 16 {
                assert(b.subrange(8, 16)[i - 8] == r.subrange(8, 16)[i - 8]);
            } else if i < 17 {
                assert(b.subrange(16, 17)[i - 16] == r.subrange(16, 17)[i - 16]);
            } else if i < 25 {
                assert(b.subrange(17, 25)[i - 17] == r.subrange(17, 25)[i - 17]);
            } else if i < 34 {
                assert(b.subrange(25, 34)[i - 25] == r.subrange(25, 34)[i - 25]);
            } else if i < 42 {
                assert(b.subrange(34, 42)[i - 34] == r.subrange(34, 42)[i - 34]);
            } else if i < 42 + nl {
                assert(b.subrange(42, 42 + nl)[i - 42] == r.subrange(42, 42 + nl)[i - 42]);
            } else if i < 50 + nl {
                assert(b.subrange(42 + nl, 50 + nl)[i - 42 - nl] == r.subrange(
                    42 + nl,
                    50 + nl,
                )[i - 42 - nl]);
            } else {
                assert(b.subrange(50 + nl, 50 + nl + ml)[i - 50 - nl] == r.subrange(
                    50 + nl,
                    50 + nl + ml,
                )[i - 50 - nl]);
            }
        }
        assert(b =~= r);
    }
}

fn push_u64(out: &mut Vec<u8>, x: u64)
    ensures
        final(out)@ == old(out)@ + spec_u64_to_le_bytes(x),
{
    let mut tmp = u64_to_le_bytes(x);
    out.append(&mut tmp);
}

fn push_text(out: &mut Vec<u8>, s: &String)
    ensures
        final(out)@ == old(out)@ + text_bytes(s@),
{
    let st: &str = s.as_str();
    let bs: &[u8] = st.as_bytes();
    let n: usize = bs.len();
    proof {
        assert(bs@ == encode_utf8(s@));
        assert(n <= usize::MAX);
        assert(usize::MAX <= u64::MAX);
    }
    push_u64(out, n as u64);
    let mut tmp: Vec<u8> = slice_to_vec(bs);
    out.append(&mut tmp);
    proof {
        assert(out@ =~= old(out)@ + text_bytes(s@));
    }
}

#[verifier::external_type_specification]
#[verifier::external_body]
pub struct ExUtf8Error(core::str::Utf8Error);

/// Relies on `core::str::from_utf8`: it succeeds exactly on valid UTF-8
/// input, and the returned string slice is a view of the same bytes.
pub assume_specification<'a>[ core::str::from_utf8 ](v: &'a [u8]) -> (r: Result<
    &'a str,
    core::str::Utf8Error,
>)
    ensures
        r is Ok <==> valid_utf8(v@),
        r matches Ok(s) ==> encode_utf8(s@) == v@,
;

/// In a byte string that matches `c`, the two length prefixes hold the exact
/// byte lengths of the text fields, and those lengths are bounded by the
/// string's length.
proof fn lemma_match_lengths(b: Seq<u8>, c: CarView)
    requires
        parts_match(b, c),
        b.len() <= usize::MAX,
    ensures
        encode_utf8(c.name).len() + encode_utf8(c.model).len() == b.len() - 50,
        spec_u64_from_le_bytes(b.subrange(34, 42)) == encode_utf8(c.name).len(),
        spec_u64_from_le_bytes(
            b.subrange(
                42 + encode_utf8(c.name).len() as int,
                50 + encode_utf8(c.name).len() as int,
            ),
        ) == encode_utf8(c.model).len(),
{
    lemma_auto_spec_u64_to_from_le_bytes();
    let nl = encode_utf8(c.name).len();
    let ml = encode_utf8(c.model).len();
    assert(nl <= u64::MAX && ml <= u64::MAX);
    assert(spec_u64_from_le_bytes(spec_u64_to_le_bytes(nl as u64)) == nl as u64);
    assert(spec_u64_from_le_bytes(spec_u64_to_le_bytes(ml as u64)) == ml as u64);
}

impl Car {
    /// The persisted form of this record: exactly [`record_bytes`] of its view.
    pub fn to_bytes(&self) -> (out: Vec<u8>)
        ensures
            out@ == record_bytes(self@),
    {
        let mut out: Vec<u8> = Vec::new();
        push_u64(&mut out, self.id);
        push_u64(&mut out, self.price_per_hour);
        out.push(if self.is_available { 1u8 } else { 0u8 });
        push_u64(&mut out, self.created_at);
        match self.updated_at {
            Some(t) => {
                out.push(1u8);
                push_u64(&mut out, t);
            },
            None => {
                out.push(0u8);
                push_u64(&mut out, 0);
            },
        }
        push_text(&mut out, &self.name);
        push_text(&mut out, &self.model);
        proof {
            assert(out@ =~= record_bytes(self@));
        }
        out
    }

    /// Decodes a persisted record. Returns the record whose encoding is
    /// exactly `bytes`, and `None` when `bytes` encodes no record.
    pub fn from_bytes(bytes: &[u8]) -> (r: Option<Car>)
        ensures
            forall|c: CarView| record_bytes(c) == bytes@ ==> r is Some && r->Some_0@ == c,
            r is Some ==> bytes@ == record_bytes(r->Some_0@),
    {
        let n: usize = bytes.len();
        if n < 50 {
            proof {
                assert forall|c: CarView| record_bytes(c) != bytes@ by {
                    if record_bytes(c) == bytes@ {
                        lemma_parts_match(bytes@, c);
                    }
                }
            }
            return None;
        }
        let id = u64_from_le_bytes(slice_subrange(bytes, 0, 8));
        let price = u64_from_le_bytes(slice_subrange(bytes, 8, 16));
        let avail_b: u8 = *slice_index_get(bytes, 16);
        let created = u64_from_le_bytes(slice_subrange(bytes, 17, 25));
        let tag: u8 = *slice_index_get(bytes, 25);
        let upd_v = u64_from_le_bytes(slice_subrange(bytes, 26, 34));
        if avail_b > 1 {
            proof {
                assert forall|c: CarView| record_bytes(c) != bytes@ by {
                    if record_bytes(c) == bytes@ {
                        lemma_parts_match(bytes@, c);
                        assert(bytes@[16] == bytes@.subrange(16, 17)[0]);
                        assert(bool_byte(c.is_available)[0] <= 1);
                    }
                }
            }
            return None;
        }
        if tag > 1 || (tag == 0 && upd_v != 0) {
            proof {
                lemma_auto_spec_u64_to_from_le_bytes();
                assert forall|c: CarView| record_bytes(c) != bytes@ by {
                    if record_bytes(c) == bytes@ {
                        lemma_parts_match(bytes@, c);
                        assert(bytes@[25] == bytes@.subrange(25, 34)[0]);
                        assert(bytes@.subrange(26, 34) =~= bytes@.subrange(25, 34).subrange(1, 9));
                        match c.updated_at {
                            Some(t) => {
                                assert(bytes@.subrange(25, 34)[0] == 1);
                                assert((seq![1u8] + spec_u64_to_le_bytes(t)).subrange(1, 9)
                                    =~= spec_u64_to_le_bytes(t));
                            },
                            None => {
                                assert(bytes@.subrange(25, 34)[0] == 0);
                                assert((seq![0u8] + spec_u64_to_le_bytes(0)).subrange(1, 9)
                                    =~= spec_u64_to_le_bytes(0));
                            },
                        }
                    }
                }
            }
            return None;
        }
        let nl64 = u64_from_le_bytes(slice_subrange(bytes, 34, 42));
        if nl64 > (n - 50) as u64 {
            proof {
                assert forall|c: CarView| record_bytes(c) != bytes@ by {
                    if record_bytes(c) == bytes@ {
                        lemma_parts_match(bytes@, c);
                        lemma_match_lengths(bytes@, c);
                    }
                }
            }
            return None;
        }
        let nl: usize = nl64 as usize;
        let moff: usize = 42 + nl;
        let ml64 = u64_from_le_bytes(slice_subrange(bytes, moff, moff + 8));
        if ml64 != (n - 50 - nl) as u64 {
            proof {
                assert forall|c: CarView| record_bytes(c) != bytes@ by {
                    if record_bytes(c) == bytes@ {
                        lemma_parts_match(bytes@, c);
                        lemma_match_lengths(bytes@, c);
                    }
                }
            }
            return None;
        }
        let name_sl = slice_subrange(bytes, 42, moff);
        let model_sl = slice_subrange(bytes, moff + 8, n);
        let name_s = match core::str::from_utf8(name_sl) {
            Ok(s) => s,
            Err(_) => {
                proof {
                    assert forall|c: CarView| record_bytes(c) != bytes@ by {
                        if record_bytes(c) == bytes@ {
                            lemma_parts_match(bytes@, c);
                            lemma_match_lengths(bytes@, c);
                            assert(valid_utf8(encode_utf8(c.name)));
                        }
                    }
                }
                return None;
            },
        };
        let model_s = match core::str::from_utf8(model_sl) {
            Ok(s) => s,
            Err(_) => {
                proof {
                    assert forall|c: CarView| record_bytes(c) != bytes@ by {
                        if record_bytes(c) == bytes@ {
                            lemma_parts_match(bytes@, c);
                            lemma_match_lengths(bytes@, c);
                            assert(valid_utf8(encode_utf8(c.model)));
                        }
                    }
                }
                return None;
            },
        };
        let car = Car {
            id,
            name: <String as StringExecFns>::from_str(name_s),
            model: <String as StringExecFns>::from_str(model_s),
            price_per_hour: price,
            is_available: avail_b == 1,
            created_at: created,
            updated_at: if tag == 1 {
                Some(upd_v)
            } else {
                None
            },
        };
        proof {
            lemma_auto_spec_u64_to_from_le_bytes();
            let b = bytes@;
            assert(encode_utf8(car@.name) == b.subrange(42, 42 + nl as int));
            assert(encode_utf8(car@.model) == b.subrange(50 + nl as int, n as int));
            assert(b.subrange(16, 17) =~= bool_byte(car@.is_available)) by {
                assert(b.subrange(16, 17)[0] == b[16]);
            }
            assert(b.subrange(25, 34) =~= opt_u64_bytes(car@.updated_at)) by {
                assert(b.subrange(26, 34) =~= b.subrange(25, 34).subrange(1, 9));
                assert(spec_u64_to_le_bytes(upd_v) == b.subrange(26, 34));
                assert(b.subrange(25, 34)[0] == b[25]);
            }
            assert(parts_match(b, car@));
            lemma_parts_match(b, car@);
            assert forall|c: CarView| record_bytes(c) == b implies car@ == c by {
                lemma_parts_match(b, c);
                lemma_match_lengths(b, c);
                let cnl = encode_utf8(c.name).len() as int;
                assert(cnl == nl as int);
                assert(decode_utf8(encode_utf8(c.name)) == decode_utf8(encode_utf8(car@.name)));
                assert(decode_utf8(encode_utf8(c.model)) == decode_utf8(encode_utf8(car@.model)));
                assert(b[25] == b.subrange(25, 34)[0]);
                match c.updated_at {
                    Some(t) => {
                        assert((seq![1u8] + spec_u64_to_le_bytes(t)).subrange(1, 9)
                            =~= spec_u64_to_le_bytes(t));
                        assert(b.subrange(26, 34) =~= b.subrange(25, 34).subrange(1, 9));
                        assert(t == upd_v);
                    },
                    None => {
                        assert(b[25] == 0);
                    },
                }
                assert(car@ =~= c);
            }
        }
        Some(car)
    }
}

} // verus!
