//! The serializer: an abstract value onto the wire-type vocabulary, and
//! from there onto bytes. A pure transform; on failure nothing partial is
//! produced.

use vstd::prelude::*;
use crate::error::Error;
use crate::value::{Value, ValueV, view_vlist, lemma_view_vlist, lemma_view_vlist_push};
use crate::wire::{Type, TypeV, BULK_MAX, view_list, lemma_view_list, lemma_view_list_push};
use vstd::utf8::encode_utf8;

verus! {

/// The wire value an abstract value maps to, or the one terminal error
/// of the mapping policy:
/// unit and a missing option map to Null; booleans to 0 or 1; integers
/// to the 64-bit signed wire integer, rejected as `InvalidInteger` when
/// they cannot fit; text and raw bytes to Bulk, rejected as `TooMuchBulk`
/// beyond the cap; known-length sequences and records to Arrays of their
/// serialized elements; floats and keyed dictionaries are `UnsupportedType`;
/// a sequence of unknown length is `UnknownLength`.
pub open spec fn spec_ser(v: ValueV) -> Result<TypeV, Error>
    decreases v, 0nat,
{
    match v {
        ValueV::Unit => Result::Ok(TypeV::Null),
        ValueV::Bool(b) => Result::Ok(TypeV::Integer(if b { 1int } else { 0int })),
        ValueV::Int(i) => Result::Ok(TypeV::Integer(i as int)),
        ValueV::UInt(u) => if u <= i64::MAX {
            Result::Ok(TypeV::Integer(u as int))
        } else {
            Result::Err(Error::InvalidInteger)
        },
        ValueV::Float => Result::Err(Error::UnsupportedType),
        ValueV::Dict => Result::Err(Error::UnsupportedType),
        ValueV::Text(s) => if encode_utf8(s).len() <= BULK_MAX {
            Result::Ok(TypeV::Bulk { len: encode_utf8(s).len(), data: encode_utf8(s) })
        } else {
            Result::Err(Error::TooMuchBulk)
        },
        ValueV::Blob(b) => if b.len() <= BULK_MAX {
            Result::Ok(TypeV::Bulk { len: b.len(), data: b })
        } else {
            Result::Err(Error::TooMuchBulk)
        },
        ValueV::OptionNone => Result::Ok(TypeV::Null),
        ValueV::OptionSome(x) => spec_ser(*x),
        ValueV::UnknownLenList(_) => Result::Err(Error::UnknownLength),
        ValueV::List(es) => match spec_ser_list(es) {
            Result::Ok(ts) => Result::Ok(TypeV::Array(ts)),
            Result::Err(e) => Result::Err(e),
        },
        ValueV::Record(es) => match spec_ser_list(es) {
            Result::Ok(ts) => Result::Ok(TypeV::Array(ts)),
            Result::Err(e) => Result::Err(e),
        },
    }
}

/// Serialize a run of values left to right; the first failure wins.
pub open spec fn spec_ser_list(es: Seq<ValueV>) -> Result<Seq<TypeV>, Error>
    decreases es, 1nat,
{
    if es.len() == 0 {
        Result::Ok(Seq::empty())
    } else {
        match spec_ser(es[0]) {
            Result::Err(e) => Result::Err(e),
            Result::Ok(t) => match spec_ser_list(es.drop_first()) {
                Result::Err(e) => Result::Err(e),
                Result::Ok(ts) => Result::Ok(seq![t] + ts),
            },
        }
    }
}

/// Map an abstract value onto one wire value, exactly as `spec_ser` says.
pub fn to_wire(v: &Value) -> (r: Result<Type, Error>)
    ensures
        match spec_ser(v@) {
            Result::Ok(tv) => r matches Result::Ok(t) && t@ == tv,
            Result::Err(e) => r == Result::<Type, Error>::Err(e),
        },
    decreases v, 1nat,
{
    match v {
        Value::Unit => Result::Ok(Type::Null),
        Value::Bool(b) => Result::Ok(Type::Integer(if *b { 1 } else { 0 })),
        Value::Int(i) => Result::Ok(Type::Integer(*i)),
        Value::UInt(u) => {
            if *u <= i64::MAX as u64 {
                Result::Ok(Type::Integer(*u as i64))
            } else {
                Result::Err(Error::InvalidInteger)
            }
        },
        Value::Float => Result::Err(Error::UnsupportedType),
        Value::Dict => Result::Err(Error::UnsupportedType),
        Value::Text(s) => {
            let bytes = vstd::string::StrSliceExecFns::as_bytes_vec(s.as_str());
            if bytes.len() <= BULK_MAX as usize {
                let n = bytes.len() as u32;
                Result::Ok(Type::Bulk { len: n, data: bytes })
            } else {
                Result::Err(Error::TooMuchBulk)
            }
        },
        Value::Blob(b) => {
            if b.len() <= BULK_MAX as usize {
                let n = b.len() as u32;
                let data = vstd::slice::slice_to_vec(b.as_slice());
                assert(data@ =~= b@);
                Result::Ok(Type::Bulk { len: n, data })
            } else {
                Result::Err(Error::TooMuchBulk)
            }
        },
        Value::OptionNone => Result::Ok(Type::Null),
        Value::OptionSome(x) => to_wire(&**x),
        Value::UnknownLenList(_) => Result::Err(Error::UnknownLength),
        Value::List(es) => match ser_elems(v, es) {
            Result::Ok(ts) => Result::Ok(Type::Array(ts)),
            Result::Err(e) => Result::Err(e),
        },
        Value::Record(es) => match ser_elems(v, es) {
            Result::Ok(ts) => Result::Ok(Type::Array(ts)),
            Result::Err(e) => Result::Err(e),
        },
    }
}

/// Serialize the elements of a list or record, first failure wins.
/// `owner` is the value the elements belong to, for termination.
fn ser_elems(owner: &Value, es: &Vec<Value>) -> (r: Result<Vec<Type>, Error>)
    requires
        *owner == Value::List(*es) || *owner == Value::Record(*es),
    ensures
        match spec_ser_list(view_vlist(es@)) {
            Result::Ok(tvs) => r matches Result::Ok(ts) && view_list(ts@) == tvs,
            Result::Err(e) => r == Result::<Vec<Type>, Error>::Err(e),
        },
    decreases owner, 0nat,
{
    let ghost vs = view_vlist(es@);
    proof {
        lemma_view_vlist(es@);
    }
    let mut out: Vec<Type> = Vec::new();
    let mut j: usize = 0;
    let n = es.len();
    assert(view_list(out@) =~= Seq::<TypeV>::empty());
    proof {
        assert(vs.skip(0) =~= vs);
        match spec_ser_list(vs) {
            Result::Ok(ts) => {
                assert(view_list(out@) + ts =~= ts);
            },
            Result::Err(_) => {},
        }
    }
    while j < n
        invariant
            j <= n,
            n == es@.len(),
            *owner == Value::List(*es) || *owner == Value::Record(*es),
            vs == view_vlist(es@),
            vs.len() == n,
            forall|i: int| 0 <= i < n ==> vs[i] == #[trigger] es@[i]@,
            view_list(out@).len() == j,
            match spec_ser_list(vs.skip(j as int)) {
                Result::Ok(ts) => spec_ser_list(vs) == Result::<Seq<TypeV>, Error>::Ok(
                    view_list(out@) + ts,
                ),
                Result::Err(e) => spec_ser_list(vs) == Result::<Seq<TypeV>, Error>::Err(e),
            },
        decreases n - j,
    {
        let e: &Value = &es[j];
        proof {
            if *owner == Value::List(*es) {
                assert(decreases_to!(*owner => owner->List_0));
            } else {
                assert(decreases_to!(*owner => owner->Record_0));
            }
            assert(decreases_to!(*es => es@));
            assert(decreases_to!(es@ => es@[j as int]));
        }
        let one = to_wire(e);
        proof {
            assert(vs.skip(j as int).len() > 0);
            assert(vs.skip(j as int)[0] == vs[j as int]);
            assert(vs.skip(j as int).drop_first() =~= vs.skip(j + 1));
        }
        match one {
            Result::Err(err) => {
                return Result::Err(err);
            },
            Result::Ok(t) => {
                proof {
                    lemma_view_list_push(out@, t);
                    match spec_ser_list(vs.skip(j + 1)) {
                        Result::Ok(ts) => {
                            assert((view_list(out@) + seq![t@]) + ts =~= view_list(out@) + (
                            seq![t@] + ts));
                        },
                        Result::Err(_) => {},
                    }
                }
                out.push(t);
                j = j + 1;
            },
        }
    }
    proof {
        assert(vs.skip(n as int) =~= Seq::<ValueV>::empty());
        assert(spec_ser_list(Seq::<ValueV>::empty()) == Result::<Seq<TypeV>, Error>::Ok(
            Seq::<TypeV>::empty(),
        ));
        assert(view_list(out@) + Seq::<TypeV>::empty() =~= view_list(out@));
    }
    Result::Ok(out)
}

/// Serialize an abstract value to wire bytes: the canonical encoding of
/// the wire value `spec_ser` assigns it, or that mapping's error.
pub fn serialize(v: &Value) -> (r: Result<Vec<u8>, Error>)
    ensures
        match spec_ser(v@) {
            Result::Ok(tv) => r matches Result::Ok(b) && b@ == tv.enc(),
            Result::Err(e) => r == Result::<Vec<u8>, Error>::Err(e),
        },
{
    match to_wire(v) {
        Result::Ok(t) => Result::Ok(crate::wire::encode(&t)),
        Result::Err(e) => Result::Err(e),
    }
}

} // verus!
