//! The deserializer: a parsed wire value rebuilt into the shape the
//! caller requests, or a shape-mismatch error when the wire variant
//! cannot satisfy it.

use vstd::prelude::*;
use crate::error::Error;
use crate::parser::{spec_parse, SpecOutcome, ParseOutcome};
use crate::value::{Value, ValueV, Shape, ShapeV, IntWidth, view_vlist, lemma_view_vlist,
    lemma_view_vlist_push, view_slist, lemma_view_slist};
use crate::wire::{Type, TypeV, view_list, lemma_view_list};
use vstd::utf8::{valid_utf8, decode_utf8, encode_utf8};

verus! {

/// Narrow a wire integer to a requested width; out of range fails.
pub open spec fn spec_de_int(i: i64, w: IntWidth) -> Result<ValueV, Error> {
    match w {
        IntWidth::I8 => if -128 <= i <= 127 {
            Result::Ok(ValueV::Int(i))
        } else {
            Result::Err(Error::InvalidInteger)
        },
        IntWidth::I16 => if -32768 <= i <= 32767 {
            Result::Ok(ValueV::Int(i))
        } else {
            Result::Err(Error::InvalidInteger)
        },
        IntWidth::I32 => if -2147483648 <= i <= 2147483647 {
            Result::Ok(ValueV::Int(i))
        } else {
            Result::Err(Error::InvalidInteger)
        },
        IntWidth::I64 => Result::Ok(ValueV::Int(i)),
        IntWidth::U8 => if 0 <= i <= 255 {
            Result::Ok(ValueV::UInt(i as u64))
        } else {
            Result::Err(Error::InvalidInteger)
        },
        IntWidth::U16 => if 0 <= i <= 65535 {
            Result::Ok(ValueV::UInt(i as u64))
        } else {
            Result::Err(Error::InvalidInteger)
        },
        IntWidth::U32 => if 0 <= i <= 4294967295 {
            Result::Ok(ValueV::UInt(i as u64))
        } else {
            Result::Err(Error::InvalidInteger)
        },
        IntWidth::U64 => if 0 <= i {
            Result::Ok(ValueV::UInt(i as u64))
        } else {
            Result::Err(Error::InvalidInteger)
        },
    }
}

/// What rebuilding `t` into shape `sh` yields: Null satisfies unit and
/// absent options; the three text-like wire shapes satisfy `Text` (when
/// their payload decodes) and `Blob`; integers narrow to the requested
/// width; Arrays satisfy homogeneous lists and fixed records of the same
/// length; everything else is a `ShapeMismatch`.
pub open spec fn spec_de(t: TypeV, sh: ShapeV) -> Result<ValueV, Error>
    decreases t, sh,
{
    match sh {
        ShapeV::Unit => if t is Null {
            Result::Ok(ValueV::Unit)
        } else {
            Result::Err(Error::ShapeMismatch)
        },
        ShapeV::Bool => match t {
            TypeV::Integer(i) => if i == 0 {
                Result::Ok(ValueV::Bool(false))
            } else if i == 1 {
                Result::Ok(ValueV::Bool(true))
            } else {
                Result::Err(Error::ShapeMismatch)
            },
            _ => Result::Err(Error::ShapeMismatch),
        },
        ShapeV::Int(w) => match t {
            TypeV::Integer(i) => if i64::MIN <= i <= i64::MAX {
                spec_de_int(i as i64, w)
            } else {
                Result::Err(Error::InvalidInteger)
            },
            _ => Result::Err(Error::ShapeMismatch),
        },
        ShapeV::Text => match t {
            TypeV::Simple(b) => if valid_utf8(b) {
                Result::Ok(ValueV::Text(decode_utf8(b)))
            } else {
                Result::Err(Error::ShapeMismatch)
            },
            TypeV::Bulk { len, data } => if valid_utf8(data) {
                Result::Ok(ValueV::Text(decode_utf8(data)))
            } else {
                Result::Err(Error::ShapeMismatch)
            },
            TypeV::Error(s) => Result::Ok(ValueV::Text(s)),
            _ => Result::Err(Error::ShapeMismatch),
        },
        ShapeV::Blob => match t {
            TypeV::Simple(b) => Result::Ok(ValueV::Blob(b)),
            TypeV::Bulk { len, data } => Result::Ok(ValueV::Blob(data)),
            TypeV::Error(s) => Result::Ok(ValueV::Blob(encode_utf8(s))),
            _ => Result::Err(Error::ShapeMismatch),
        },
        ShapeV::Optional(inner) => if t is Null {
            Result::Ok(ValueV::OptionNone)
        } else {
            match spec_de(t, *inner) {
                Result::Ok(v) => Result::Ok(ValueV::OptionSome(Box::new(v))),
                Result::Err(e) => Result::Err(e),
            }
        },
        ShapeV::List(inner) => match t {
            TypeV::Array(ts) => match spec_de_list(ts, *inner) {
                Result::Ok(vs) => Result::Ok(ValueV::List(vs)),
                Result::Err(e) => Result::Err(e),
            },
            _ => Result::Err(Error::ShapeMismatch),
        },
        ShapeV::Record(shs) => match t {
            TypeV::Array(ts) => if ts.len() == shs.len() {
                match spec_de_record(ts, shs) {
                    Result::Ok(vs) => Result::Ok(ValueV::Record(vs)),
                    Result::Err(e) => Result::Err(e),
                }
            } else {
                Result::Err(Error::ShapeMismatch)
            },
            _ => Result::Err(Error::ShapeMismatch),
        },
    }
}

/// Rebuild every element of a run into one common shape.
pub open spec fn spec_de_list(ts: Seq<TypeV>, sh: ShapeV) -> Result<Seq<ValueV>, Error>
    decreases ts, sh,
{
    if ts.len() == 0 {
        Result::Ok(Seq::empty())
    } else {
        match spec_de(ts[0], sh) {
            Result::Err(e) => Result::Err(e),
            Result::Ok(v) => match spec_de_list(ts.drop_first(), sh) {
                Result::Err(e) => Result::Err(e),
                Result::Ok(vs) => Result::Ok(seq![v] + vs),
            },
        }
    }
}

/// Rebuild a run of elements against a run of field shapes, in step.
pub open spec fn spec_de_record(ts: Seq<TypeV>, shs: Seq<ShapeV>) -> Result<Seq<ValueV>, Error>
    decreases ts, shs,
{
    if ts.len() == 0 || shs.len() == 0 {
        Result::Ok(Seq::empty())
    } else {
        match spec_de(ts[0], shs[0]) {
            Result::Err(e) => Result::Err(e),
            Result::Ok(v) => match spec_de_record(ts.drop_first(), shs.drop_first()) {
                Result::Err(e) => Result::Err(e),
                Result::Ok(vs) => Result::Ok(seq![v] + vs),
            },
        }
    }
}

/// Rebuild one parsed wire value into the requested shape, exactly as
/// `spec_de` says.
pub fn from_wire(t: &Type, sh: &Shape) -> (r: Result<Value, Error>)
    ensures
        match spec_de(t@, sh@) {
            Result::Ok(vv) => r matches Result::Ok(v) && v@ == vv,
            Result::Err(e) => r == Result::<Value, Error>::Err(e),
        },
    decreases t, sh, 1nat,
{
    match sh {
        Shape::Unit => {
            if let Type::Null = t {
                Result::Ok(Value::Unit)
            } else {
                Result::Err(Error::ShapeMismatch)
            }
        },
        Shape::Bool => {
            if let Type::Integer(i) = t {
                if *i == 0 {
                    Result::Ok(Value::Bool(false))
                } else if *i == 1 {
                    Result::Ok(Value::Bool(true))
                } else {
                    Result::Err(Error::ShapeMismatch)
                }
            } else {
                Result::Err(Error::ShapeMismatch)
            }
        },
        Shape::Int(w) => {
            if let Type::Integer(i) = t {
                de_int(*i, *w)
            } else {
                Result::Err(Error::ShapeMismatch)
            }
        },
        Shape::Text => {
            match t {
                Type::Simple(b) => match crate::text::bytes_to_string(b.as_slice()) {
                    Some(s) => Result::Ok(Value::Text(s)),
                    None => Result::Err(Error::ShapeMismatch),
                },
                Type::Bulk { len: _, data } => match crate::text::bytes_to_string(
                    data.as_slice(),
                ) {
                    Some(s) => Result::Ok(Value::Text(s)),
                    None => Result::Err(Error::ShapeMismatch),
                },
                Type::Error(s) => Result::Ok(Value::Text(s.clone())),
                _ => Result::Err(Error::ShapeMismatch),
            }
        },
        Shape::Blob => {
            match t {
                Type::Simple(b) => {
                    let out = vstd::slice::slice_to_vec(b.as_slice());
                    assert(out@ =~= b@);
                    Result::Ok(Value::Blob(out))
                },
                Type::Bulk { len: _, data } => {
                    let out = vstd::slice::slice_to_vec(data.as_slice());
                    assert(out@ =~= data@);
                    Result::Ok(Value::Blob(out))
                },
                Type::Error(s) => Result::Ok(
                    Value::Blob(vstd::string::StrSliceExecFns::as_bytes_vec(s.as_str())),
                ),
                _ => Result::Err(Error::ShapeMismatch),
            }
        },
        Shape::Optional(inner) => {
            if let Type::Null = t {
                Result::Ok(Value::OptionNone)
            } else {
                proof {
                    assert(decreases_to!(*sh => sh->Optional_0));
                }
                match from_wire(t, &**inner) {
                    Result::Ok(v) => Result::Ok(Value::OptionSome(Box::new(v))),
                    Result::Err(e) => Result::Err(e),
                }
            }
        },
        Shape::List(inner) => {
            if let Type::Array(ts) = t {
                match de_elems(t, ts, &**inner) {
                    Result::Ok(vs) => Result::Ok(Value::List(vs)),
                    Result::Err(e) => Result::Err(e),
                }
            } else {
                Result::Err(Error::ShapeMismatch)
            }
        },
        Shape::Record(shs) => {
            if let Type::Array(ts) = t {
                proof {
                    lemma_view_list(ts@);
                    lemma_view_slist(shs@);
                }
                if ts.len() != shs.len() {
                    Result::Err(Error::ShapeMismatch)
                } else {
                    match de_fields(t, ts, shs) {
                        Result::Ok(vs) => Result::Ok(Value::Record(vs)),
                        Result::Err(e) => Result::Err(e),
                    }
                }
            } else {
                Result::Err(Error::ShapeMismatch)
            }
        },
    }
}

/// Narrow one wire integer to the requested width.
fn de_int(i: i64, w: IntWidth) -> (r: Result<Value, Error>)
    ensures
        match spec_de_int(i, w) {
            Result::Ok(vv) => r matches Result::Ok(v) && v@ == vv,
            Result::Err(e) => r == Result::<Value, Error>::Err(e),
        },
{
    match w {
        IntWidth::I8 => if -128 <= i && i <= 127 {
            Result::Ok(Value::Int(i))
        } else {
            Result::Err(Error::InvalidInteger)
        },
        IntWidth::I16 => if -32768 <= i && i <= 32767 {
            Result::Ok(Value::Int(i))
        } else {
            Result::Err(Error::InvalidInteger)
        },
        IntWidth::I32 => if -2147483648 <= i && i <= 2147483647 {
            Result::Ok(Value::Int(i))
        } else {
            Result::Err(Error::InvalidInteger)
        },
        IntWidth::I64 => Result::Ok(Value::Int(i)),
        IntWidth::U8 => if 0 <= i && i <= 255 {
            Result::Ok(Value::UInt(i as u64))
        } else {
            Result::Err(Error::InvalidInteger)
        },
        IntWidth::U16 => if 0 <= i && i <= 65535 {
            Result::Ok(Value::UInt(i as u64))
        } else {
            Result::Err(Error::InvalidInteger)
        },
        IntWidth::U32 => if 0 <= i && i <= 4294967295 {
            Result::Ok(Value::UInt(i as u64))
        } else {
            Result::Err(Error::InvalidInteger)
        },
        IntWidth::U64 => if 0 <= i {
            Result::Ok(Value::UInt(i as u64))
        } else {
            Result::Err(Error::InvalidInteger)
        },
    }
}

/// Rebuild the elements of an Array into one common shape; the first
/// failure wins. `owner` is the Array the elements belong to.
fn de_elems(owner: &Type, ts: &Vec<Type>, sh: &Shape) -> (r: Result<Vec<Value>, Error>)
    requires
        *owner == Type::Array(*ts),
    ensures
        match spec_de_list(view_list(ts@), sh@) {
            Result::Ok(vvs) => r matches Result::Ok(vs) && view_vlist(vs@) == vvs,
            Result::Err(e) => r == Result::<Vec<Value>, Error>::Err(e),
        },
    decreases owner, sh, 0nat,
{
    let ghost tvs = view_list(ts@);
    proof {
        lemma_view_list(ts@);
    }
    let mut out: Vec<Value> = Vec::new();
    let mut j: usize = 0;
    let n = ts.len();
    assert(view_vlist(out@) =~= Seq::<ValueV>::empty());
    proof {
        assert(tvs.skip(0) =~= tvs);
        match spec_de_list(tvs, sh@) {
            Result::Ok(vs) => {
                assert(view_vlist(out@) + vs =~= vs);
            },
            Result::Err(_) => {},
        }
    }
    while j < n
        invariant
            j <= n,
            n == ts@.len(),
            *owner == Type::Array(*ts),
            tvs == view_list(ts@),
            tvs.len() == n,
            forall|i: int| 0 <= i < n ==> tvs[i] == #[trigger] ts@[i]@,
            match spec_de_list(tvs.skip(j as int), sh@) {
                Result::Ok(vs) => spec_de_list(tvs, sh@) == Result::<Seq<ValueV>, Error>::Ok(
                    view_vlist(out@) + vs,
                ),
                Result::Err(e) => spec_de_list(tvs, sh@) == Result::<Seq<ValueV>, Error>::Err(e),
            },
        decreases n - j,
    {
        let e: &Type = &ts[j];
        proof {
            assert(decreases_to!(*owner => owner->Array_0));
            assert(decreases_to!(*ts => ts@));
            assert(decreases_to!(ts@ => ts@[j as int]));
            assert(tvs.skip(j as int)[0] == tvs[j as int]);
            assert(tvs.skip(j as int).drop_first() =~= tvs.skip(j + 1));
        }
        let one = from_wire(e, sh);
        match one {
            Result::Err(err) => {
                return Result::Err(err);
            },
            Result::Ok(v) => {
                proof {
                    lemma_view_vlist_push(out@, v);
                    match spec_de_list(tvs.skip(j + 1), sh@) {
                        Result::Ok(vs) => {
                            assert((view_vlist(out@) + seq![v@]) + vs =~= view_vlist(out@) + (
                            seq![v@] + vs));
                        },
                        Result::Err(_) => {},
                    }
                }
                out.push(v);
                j = j + 1;
            },
        }
    }
    proof {
        assert(tvs.skip(n as int) =~= Seq::<TypeV>::empty());
        assert(view_vlist(out@) + Seq::<ValueV>::empty() =~= view_vlist(out@));
    }
    Result::Ok(out)
}

/// Rebuild the elements of an Array against the field shapes of a
/// record, in step; the first failure wins.
fn de_fields(owner: &Type, ts: &Vec<Type>, shs: &Vec<Shape>) -> (r: Result<Vec<Value>, Error>)
    requires
        *owner == Type::Array(*ts),
        ts@.len() == shs@.len(),
    ensures
        match spec_de_record(view_list(ts@), view_slist(shs@)) {
            Result::Ok(vvs) => r matches Result::Ok(vs) && view_vlist(vs@) == vvs,
            Result::Err(e) => r == Result::<Vec<Value>, Error>::Err(e),
        },
    decreases owner, shs, 0nat,
{
    let ghost tvs = view_list(ts@);
    let ghost svs = view_slist(shs@);
    proof {
        lemma_view_list(ts@);
        lemma_view_slist(shs@);
    }
    let mut out: Vec<Value> = Vec::new();
    let mut j: usize = 0;
    let n = ts.len();
    assert(view_vlist(out@) =~= Seq::<ValueV>::empty());
    proof {
        assert(tvs.skip(0) =~= tvs);
        assert(svs.skip(0) =~= svs);
        match spec_de_record(tvs, svs) {
            Result::Ok(vs) => {
                assert(view_vlist(out@) + vs =~= vs);
            },
            Result::Err(_) => {},
        }
    }
    while j < n
        invariant
            j <= n,
            n == ts@.len(),
            n == shs@.len(),
            *owner == Type::Array(*ts),
            tvs == view_list(ts@),
            svs == view_slist(shs@),
            tvs.len() == n,
            svs.len() == n,
            forall|i: int| 0 <= i < n ==> tvs[i] == #[trigger] ts@[i]@,
            forall|i: int| 0 <= i < n ==> svs[i] == #[trigger] shs@[i]@,
            match spec_de_record(tvs.skip(j as int), svs.skip(j as int)) {
                Result::Ok(vs) => spec_de_record(tvs, svs) == Result::<Seq<ValueV>, Error>::Ok(
                    view_vlist(out@) + vs,
                ),
                Result::Err(e) => spec_de_record(tvs, svs) == Result::<Seq<ValueV>, Error>::Err(
                    e,
                ),
            },
        decreases n - j,
    {
        let e: &Type = &ts[j];
        let s: &Shape = &shs[j];
        proof {
            assert(decreases_to!(*owner => owner->Array_0));
            assert(decreases_to!(*ts => ts@));
            assert(decreases_to!(ts@ => ts@[j as int]));
            assert(tvs.skip(j as int)[0] == tvs[j as int]);
            assert(svs.skip(j as int)[0] == svs[j as int]);
            assert(tvs.skip(j as int).drop_first() =~= tvs.skip(j + 1));
            assert(svs.skip(j as int).drop_first() =~= svs.skip(j + 1));
        }
        let one = from_wire(e, s);
        match one {
            Result::Err(err) => {
                return Result::Err(err);
            },
            Result::Ok(v) => {
                proof {
                    lemma_view_vlist_push(out@, v);
                    match spec_de_record(tvs.skip(j + 1), svs.skip(j + 1)) {
                        Result::Ok(vs) => {
                            assert((view_vlist(out@) + seq![v@]) + vs =~= view_vlist(out@) + (
                            seq![v@] + vs));
                        },
                        Result::Err(_) => {},
                    }
                }
                out.push(v);
                j = j + 1;
            },
        }
    }
    proof {
        assert(tvs.skip(n as int) =~= Seq::<TypeV>::empty());
        assert(view_vlist(out@) + Seq::<ValueV>::empty() =~= view_vlist(out@));
    }
    Result::Ok(out)
}

/// What deserializing a byte buffer yields: the parse outcome folded
/// into the mapping's error space, then the shape-directed rebuild.
pub open spec fn spec_deserialize(s: Seq<u8>, sh: ShapeV) -> Result<ValueV, Error> {
    match spec_parse(s) {
        SpecOutcome::Value(t, n) => spec_de(t, sh),
        SpecOutcome::Incomplete => Result::Err(Error::Incomplete),
        SpecOutcome::Malformed(e) => Result::Err(Error::Parse(e)),
    }
}

/// Deserialize one wire value from the front of `input` into the
/// requested shape. Bytes past the first complete value are ignored.
pub fn deserialize(input: &[u8], sh: &Shape) -> (r: Result<Value, Error>)
    ensures
        match spec_deserialize(input@, sh@) {
            Result::Ok(vv) => r matches Result::Ok(v) && v@ == vv,
            Result::Err(e) => r == Result::<Value, Error>::Err(e),
        },
{
    match crate::parser::parse(input) {
        ParseOutcome::Complete(t, _n) => from_wire(&t, sh),
        ParseOutcome::Incomplete(_) => Result::Err(Error::Incomplete),
        ParseOutcome::Malformed(e) => Result::Err(Error::Parse(e)),
    }
}

} // verus!
