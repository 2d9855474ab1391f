//! The codec's laws: every value the wire can represent survives
//! serialize, parse, rebuild — unchanged.

use vstd::prelude::*;
use crate::decimal::{dec_int, i64_of_line, digits_val, all_digits};
use crate::error::Error;
use crate::parser::{spec_parse, spec_parse_d, spec_elems, spec_line, find_crlf, lemma_find_crlf,
    SpecOutcome, ElemsOut};
use crate::ser::{spec_ser, spec_ser_list};
use crate::de::{spec_de, spec_de_list, spec_de_record};
use crate::value::{ValueV, ShapeV, IntWidth};
use crate::wire::{TypeV, BULK_MAX, MAX_DEPTH, no_crlf, enc_list, rank_list};
use vstd::utf8::{valid_utf8, decode_utf8, encode_utf8};

verus! {

/// A prefixed line whose payload holds no CRLF is recognized whole: the
/// payload comes back verbatim and consumption stops after its CRLF.
pub proof fn lemma_line_at(s: Seq<u8>, payload: Seq<u8>, rest: Seq<u8>)
    requires
        s.len() >= 1,
        s.drop_first() == payload + seq![13u8, 10u8] + rest,
        no_crlf(payload),
    ensures
        spec_line(s) == Option::Some((payload, payload.len() + 3 as int)),
{
    let d = s.drop_first();
    lemma_find_crlf(d);
    let p = payload.len() as int;
    assert(d[p] == 13);
    assert(d[p + 1] == 10);
    match find_crlf(d) {
        Option::None => {
            assert(false);
        },
        Option::Some(i) => {
            if i < p {
                assert(d[i] == 13 && d[i + 1] == 10);
                if i + 1 < p {
                    assert(payload[i] == 13 && payload[i + 1] == 10);
                    assert(false);
                } else {
                    assert(d[i + 1] == 13);
                    assert(false);
                }
            } else if i > p {
                assert(!(d[p] == 13 && d[p + 1] == 10));
                assert(false);
            }
            assert(i == p);
            assert(s.subrange(1, 1 + p) =~= payload);
        },
    }
}

/// Parsing the canonical encoding of a well-formed value, with any bytes
/// after it, recovers exactly that value and consumes exactly its
/// encoding — at any depth budget that covers the value's nesting.
#[verifier::rlimit(100)]
pub proof fn lemma_parse_encoding(t: TypeV, rest: Seq<u8>, depth: nat)
    requires
        t.wf(),
        t.rank() <= depth,
    ensures
        spec_parse_d(t.enc() + rest, depth) == SpecOutcome::Value(t, t.enc().len() as int),
    decreases t, 0nat,
{
    let s = t.enc() + rest;
    match t {
        TypeV::Simple(b) => {
            assert(s[0] == 43);
            assert(s.drop_first() =~= b + seq![13u8, 10u8] + rest);
            lemma_line_at(s, b, rest);
        },
        TypeV::Error(sv) => {
            let eb = encode_utf8(sv);
            assert(s[0] == 45);
            assert(s.drop_first() =~= eb + seq![13u8, 10u8] + rest);
            lemma_line_at(s, eb, rest);
            vstd::utf8::encode_utf8_valid_utf8(sv);
            vstd::utf8::encode_utf8_decode_utf8(sv);
        },
        TypeV::Integer(i) => {
            let dl = dec_int(i);
            assert(s[0] == 58);
            crate::decimal::lemma_dec_int_no_crlf(i);
            assert(no_crlf(dl));
            assert(s.drop_first() =~= dl + seq![13u8, 10u8] + rest);
            lemma_line_at(s, dl, rest);
            crate::decimal::lemma_dec_int_reads_back(i);
        },
        TypeV::Bulk { len, data } => {
            let dl = dec_int(len as int);
            let tail = data + seq![13u8, 10u8] + rest;
            assert(s[0] == 36);
            crate::decimal::lemma_dec_int_no_crlf(len as int);
            assert(no_crlf(dl));
            assert(s.drop_first() =~= dl + seq![13u8, 10u8] + tail);
            lemma_line_at(s, dl, tail);
            crate::decimal::lemma_dec_int_reads_back(len as int);
            let n = dl.len() + 3;
            let body = s.skip(n as int);
            assert(body =~= tail);
            assert(body[len as int] == 13);
            assert(body[len as int + 1] == 10);
            assert(body.take(len as int) =~= data);
            assert(t.enc().len() == n + len + 2);
        },
        TypeV::Null => {
            assert(s[0] == 36);
            let payload = seq![45u8, 49u8];
            assert(no_crlf(payload));
            assert(s.drop_first() =~= payload + seq![13u8, 10u8] + rest);
            lemma_line_at(s, payload, rest);
            assert(payload[0] == 45);
            let digits = payload.drop_first();
            assert(digits =~= seq![49u8]);
            assert(all_digits(digits));
            assert(digits.drop_last() =~= Seq::<u8>::empty());
            assert(digits_val(Seq::<u8>::empty()) == 0);
            assert(digits_val(digits) == 1);
            assert(i64_of_line(payload) == Option::Some(-1 as i64));
            assert(t.enc().len() == 5);
        },
        TypeV::Array(es) => {
            let dl = dec_int(es.len() as int);
            let tail = enc_list(es) + rest;
            assert(s[0] == 42);
            crate::decimal::lemma_dec_int_no_crlf(es.len() as int);
            assert(no_crlf(dl));
            assert(s.drop_first() =~= dl + seq![13u8, 10u8] + tail);
            lemma_line_at(s, dl, tail);
            crate::decimal::lemma_dec_int_reads_back(es.len() as int);
            let n = dl.len() + 3;
            assert(t.rank() == 1 + rank_list(es));
            assert(depth >= 1);
            if es.len() == 0 {
                assert(enc_list(es) =~= Seq::<u8>::empty());
                assert(t.enc().len() == n);
                assert(es =~= Seq::<TypeV>::empty());
            } else {
                assert(s.skip(n as int) =~= enc_list(es) + rest);
                lemma_elems_encoding(es, rest, (depth - 1) as nat);
                assert(t.enc().len() == n + enc_list(es).len());
            }
        },
    }
}

/// Parsing the concatenated encodings of a run of well-formed values
/// recovers exactly that run.
pub proof fn lemma_elems_encoding(es: Seq<TypeV>, rest: Seq<u8>, depth: nat)
    requires
        forall|i: int| 0 <= i < es.len() ==> (#[trigger] es[i]).wf(),
        rank_list(es) <= depth,
    ensures
        spec_elems(enc_list(es) + rest, es.len() as nat, depth) == ElemsOut::Items(
            es,
            enc_list(es).len() as int,
        ),
    decreases es, 1nat,
{
    if es.len() == 0 {
        assert(enc_list(es) =~= Seq::<u8>::empty());
        assert(es =~= Seq::<TypeV>::empty());
    } else {
        let head = es[0];
        let tail = es.drop_first();
        assert(head.wf());
        assert(rank_list(es) == if head.rank() > rank_list(tail) {
            head.rank()
        } else {
            rank_list(tail)
        });
        lemma_parse_encoding(head, enc_list(tail) + rest, depth);
        assert(enc_list(es) + rest =~= head.enc() + (enc_list(tail) + rest));
        assert(forall|i: int| 0 <= i < tail.len() ==> tail[i] == #[trigger] es[i + 1]);
        lemma_elems_encoding(tail, rest, depth);
        let n0 = head.enc().len() as int;
        assert((enc_list(es) + rest).skip(n0) =~= enc_list(tail) + rest);
        assert(seq![head] + tail =~= es);
        assert(enc_list(es).len() == n0 + enc_list(tail).len());
    }
}

/// The nesting depth the serializer will give a value: each list or
/// record layer becomes one Array layer on the wire.
pub open spec fn vrank(v: ValueV) -> nat
    decreases v, 0nat,
{
    match v {
        ValueV::OptionSome(x) => vrank(*x),
        ValueV::List(es) => 1 + vrank_list(es),
        ValueV::Record(es) => 1 + vrank_list(es),
        _ => 0,
    }
}

/// The largest `vrank` among a run of values.
pub open spec fn vrank_list(es: Seq<ValueV>) -> nat
    decreases es, 1nat,
{
    if es.len() == 0 {
        0
    } else if vrank(es[0]) > vrank_list(es.drop_first()) {
        vrank(es[0])
    } else {
        vrank_list(es.drop_first())
    }
}

/// The shape a value deserializes back into: the one a round-tripping
/// caller would request.
pub open spec fn shape_of(v: ValueV) -> ShapeV
    decreases v, 0nat,
{
    match v {
        ValueV::Unit => ShapeV::Unit,
        ValueV::Bool(_) => ShapeV::Bool,
        ValueV::Int(_) => ShapeV::Int(IntWidth::I64),
        ValueV::UInt(_) => ShapeV::Int(IntWidth::U64),
        ValueV::Text(_) => ShapeV::Text,
        ValueV::Blob(_) => ShapeV::Blob,
        ValueV::OptionNone => ShapeV::Optional(Box::new(ShapeV::Unit)),
        ValueV::OptionSome(x) => ShapeV::Optional(Box::new(shape_of(*x))),
        ValueV::List(es) => ShapeV::List(
            Box::new(
                if es.len() == 0 {
                    ShapeV::Unit
                } else {
                    shape_of(es[0])
                },
            ),
        ),
        ValueV::Record(es) => ShapeV::Record(shape_of_list(es)),
        _ => ShapeV::Unit,
    }
}

/// The field shapes of a record's values.
pub open spec fn shape_of_list(es: Seq<ValueV>) -> Seq<ShapeV>
    decreases es, 1nat,
{
    if es.len() == 0 {
        Seq::empty()
    } else {
        seq![shape_of(es[0])] + shape_of_list(es.drop_first())
    }
}

/// A record's field shapes line up one to one with its values.
pub proof fn lemma_shape_of_list_len(es: Seq<ValueV>)
    ensures
        shape_of_list(es).len() == es.len(),
    decreases es,
{
    if es.len() > 0 {
        lemma_shape_of_list_len(es.drop_first());
    }
}

/// A value the wire can represent faithfully: nothing the serializer
/// rejects anywhere inside it; no present option whose content would
/// itself go on the wire as Null (Null reads back as the absent option);
/// lists homogeneous in shape, so one element shape describes them all.
pub open spec fn wire_safe(v: ValueV) -> bool
    decreases v, 0nat,
{
    match v {
        ValueV::Float => false,
        ValueV::Dict => false,
        ValueV::UnknownLenList(_) => false,
        ValueV::UInt(u) => u <= i64::MAX,
        ValueV::Text(s) => encode_utf8(s).len() <= BULK_MAX,
        ValueV::Blob(b) => b.len() <= BULK_MAX,
        ValueV::OptionSome(x) => wire_safe(*x) && spec_ser(*x) != Result::<TypeV, Error>::Ok(
            TypeV::Null,
        ),
        ValueV::List(es) => es.len() <= i64::MAX && wire_safe_list(es) && (forall|i: int|
            0 <= i < es.len() ==> shape_of(#[trigger] es[i]) == shape_of(es[0])),
        ValueV::Record(es) => es.len() <= i64::MAX && wire_safe_list(es),
        _ => true,
    }
}

/// Every value of a run is wire safe.
pub open spec fn wire_safe_list(es: Seq<ValueV>) -> bool
    decreases es, 1nat,
{
    if es.len() == 0 {
        true
    } else {
        wire_safe(es[0]) && wire_safe_list(es.drop_first())
    }
}

/// A wire-safe value of bounded nesting serializes, and to a well-formed
/// wire value whose nesting matches the value's own.
pub proof fn lemma_ser_ok(v: ValueV)
    requires
        wire_safe(v),
        vrank(v) <= MAX_DEPTH,
    ensures
        spec_ser(v) matches Result::Ok(t) && t.wf() && t.rank() <= vrank(v),
    decreases v, 0nat,
{
    match v {
        ValueV::OptionSome(x) => {
            lemma_ser_ok(*x);
        },
        ValueV::List(es) => {
            lemma_ser_list_ok(es);
        },
        ValueV::Record(es) => {
            lemma_ser_list_ok(es);
        },
        _ => {},
    }
}

/// Element runs: each serializes, lengths agree, and the run's nesting
/// bound carries over.
pub proof fn lemma_ser_list_ok(es: Seq<ValueV>)
    requires
        wire_safe_list(es),
        vrank_list(es) <= MAX_DEPTH,
    ensures
        spec_ser_list(es) matches Result::Ok(ts) && {
            &&& ts.len() == es.len()
            &&& forall|i: int| 0 <= i < ts.len() ==> (#[trigger] ts[i]).wf()
            &&& rank_list(ts) <= vrank_list(es)
            &&& forall|i: int|
                0 <= i < ts.len() ==> Result::<TypeV, Error>::Ok(#[trigger] ts[i]) == spec_ser(
                    es[i],
                )
        },
    decreases es, 1nat,
{
    if es.len() == 0 {
        assert(rank_list(Seq::<TypeV>::empty()) == 0);
    } else {
        lemma_ser_ok(es[0]);
        lemma_ser_list_ok(es.drop_first());
        match (spec_ser(es[0]), spec_ser_list(es.drop_first())) {
            (Result::Ok(t), Result::Ok(ts)) => {
                crate::parser::lemma_rank_list_cons(t, ts);
                assert forall|i: int| 0 <= i < (seq![t] + ts).len() implies (#[trigger] (seq![t]
                    + ts)[i]).wf() by {
                    if i > 0 {
                        assert((seq![t] + ts)[i] == ts[i - 1]);
                    }
                }
                assert forall|i: int| 0 <= i < (seq![t] + ts).len() implies Result::<
                    TypeV,
                    Error,
                >::Ok(#[trigger] (seq![t] + ts)[i]) == spec_ser(es[i]) by {
                    if i > 0 {
                        assert((seq![t] + ts)[i] == ts[i - 1]);
                        assert(es.drop_first()[i - 1] == es[i]);
                    }
                }
            },
            _ => {
                assert(false);
            },
        }
    }
}

/// Rebuilding a wire-safe value's serialization under its own shape gives
/// the value back.
pub proof fn lemma_de_ser(v: ValueV)
    requires
        wire_safe(v),
        vrank(v) <= MAX_DEPTH,
    ensures
        spec_ser(v) matches Result::Ok(t) && spec_de(t, shape_of(v)) == Result::<
            ValueV,
            Error,
        >::Ok(v),
    decreases v, 0nat,
{
    lemma_ser_ok(v);
    match v {
        ValueV::Unit => {
            assert(spec_de(TypeV::Null, ShapeV::Unit) is Ok);
        },
        ValueV::Bool(b) => {
            assert(spec_de(spec_ser(v)->Ok_0, ShapeV::Bool) is Ok);
        },
        ValueV::Int(i) => {
            assert(spec_de(spec_ser(v)->Ok_0, shape_of(v)) is Ok);
        },
        ValueV::UInt(u) => {
            assert(spec_de(spec_ser(v)->Ok_0, shape_of(v)) is Ok);
        },
        ValueV::Blob(b) => {
            assert(spec_de(spec_ser(v)->Ok_0, shape_of(v)) is Ok);
        },
        ValueV::OptionNone => {
            assert(spec_de(spec_ser(v)->Ok_0, shape_of(v)) is Ok);
        },
        ValueV::Text(s) => {
            vstd::utf8::encode_utf8_valid_utf8(s);
            vstd::utf8::encode_utf8_decode_utf8(s);
            assert(spec_de(spec_ser(v)->Ok_0, shape_of(v)) is Ok);
        },
        ValueV::OptionSome(x) => {
            lemma_de_ser(*x);
            assert(Box::new(*x) == x);
            assert(spec_de(spec_ser(v)->Ok_0, shape_of(v)) == Result::<ValueV, Error>::Ok(v));
        },
        ValueV::List(es) => {
            lemma_ser_list_ok(es);
            if es.len() == 0 {
                match spec_ser_list(es) {
                    Result::Ok(ts) => {
                        assert(ts =~= Seq::<TypeV>::empty());
                        assert(es =~= Seq::<ValueV>::empty());
                        assert(spec_de_list(ts, ShapeV::Unit) == Result::<
                            Seq<ValueV>,
                            Error,
                        >::Ok(Seq::empty()));
                        assert(*Box::new(ShapeV::Unit) == ShapeV::Unit);
                        assert(shape_of(v) == ShapeV::List(Box::new(ShapeV::Unit)));
                        assert(spec_de(spec_ser(v)->Ok_0, shape_of(v)) == Result::<
                            ValueV,
                            Error,
                        >::Ok(v));
                    },
                    _ => {
                        assert(false);
                    },
                }
            } else {
                lemma_de_ser_list(es, shape_of(es[0]));
                let sh0 = shape_of(es[0]);
                assert(*Box::new(sh0) == sh0);
                assert(shape_of(v) == ShapeV::List(Box::new(sh0)));
                match spec_ser_list(es) {
                    Result::Ok(ts) => {
                        assert(spec_de_list(ts, sh0) == Result::<Seq<ValueV>, Error>::Ok(es));
                        assert(spec_ser(v) == Result::<TypeV, Error>::Ok(TypeV::Array(ts)));
                        assert(spec_de(TypeV::Array(ts), shape_of(v)) == Result::<
                            ValueV,
                            Error,
                        >::Ok(ValueV::List(es)));
                    },
                    _ => {
                        assert(false);
                    },
                }
            }
        },
        ValueV::Record(es) => {
            lemma_ser_list_ok(es);
            lemma_de_ser_record(es);
            lemma_shape_of_list_len(es);
            assert(spec_de(spec_ser(v)->Ok_0, shape_of(v)) == Result::<ValueV, Error>::Ok(v));
        },
        _ => {
            assert(!wire_safe(v));
        },
    }
}

/// Element runs under one common shape: rebuild undoes serialize.
pub proof fn lemma_de_ser_list(es: Seq<ValueV>, sh: ShapeV)
    requires
        wire_safe_list(es),
        vrank_list(es) <= MAX_DEPTH,
        forall|i: int| 0 <= i < es.len() ==> shape_of(#[trigger] es[i]) == sh,
    ensures
        spec_ser_list(es) matches Result::Ok(ts) && spec_de_list(ts, sh) == Result::<
            Seq<ValueV>,
            Error,
        >::Ok(es),
    decreases es, 1nat,
{
    lemma_ser_list_ok(es);
    if es.len() == 0 {
        assert(es =~= Seq::<ValueV>::empty());
    } else {
        lemma_de_ser(es[0]);
        assert(forall|i: int|
            0 <= i < es.drop_first().len() ==> #[trigger] es.drop_first()[i] == es[i + 1]);
        lemma_de_ser_list(es.drop_first(), sh);
        match (spec_ser(es[0]), spec_ser_list(es.drop_first())) {
            (Result::Ok(t), Result::Ok(ts)) => {
                assert((seq![t] + ts)[0] == t);
                assert((seq![t] + ts).drop_first() =~= ts);
                assert(seq![es[0]] + es.drop_first() =~= es);
                assert(spec_ser_list(es) == Result::<Seq<TypeV>, Error>::Ok(seq![t] + ts));
            },
            _ => {
                assert(false);
            },
        }
    }
}

/// Record fields against their own shapes: rebuild undoes serialize.
pub proof fn lemma_de_ser_record(es: Seq<ValueV>)
    requires
        wire_safe_list(es),
        vrank_list(es) <= MAX_DEPTH,
    ensures
        spec_ser_list(es) matches Result::Ok(ts) && spec_de_record(ts, shape_of_list(es))
            == Result::<Seq<ValueV>, Error>::Ok(es),
    decreases es, 1nat,
{
    lemma_ser_list_ok(es);
    if es.len() == 0 {
        assert(es =~= Seq::<ValueV>::empty());
        assert(shape_of_list(es) =~= Seq::<ShapeV>::empty());
    } else {
        lemma_de_ser(es[0]);
        lemma_de_ser_record(es.drop_first());
        match (spec_ser(es[0]), spec_ser_list(es.drop_first())) {
            (Result::Ok(t), Result::Ok(ts)) => {
                assert((seq![t] + ts)[0] == t);
                assert((seq![t] + ts).drop_first() =~= ts);
                let shs = shape_of_list(es);
                assert(shs[0] == shape_of(es[0]));
                assert(shs.drop_first() =~= shape_of_list(es.drop_first()));
                assert(seq![es[0]] + es.drop_first() =~= es);
            },
            _ => {
                assert(false);
            },
        }
    }
}

/// Round trip: for every wire-safe value within the parser's nesting
/// bound, serializing gives a well-formed wire value; parsing the bytes
/// (with any remainder after them) recovers exactly that wire value; and
/// rebuilding it under the value's own shape gives the value back.
pub proof fn lemma_round_trip(v: ValueV)
    requires
        wire_safe(v),
        vrank(v) <= MAX_DEPTH,
    ensures
        spec_ser(v) matches Result::Ok(t) && {
            &&& t.wf()
            &&& spec_parse(t.enc()) == SpecOutcome::Value(t, t.enc().len() as int)
            &&& spec_de(t, shape_of(v)) == Result::<ValueV, Error>::Ok(v)
        },
{
    lemma_ser_ok(v);
    lemma_de_ser(v);
    match spec_ser(v) {
        Result::Ok(t) => {
            lemma_parse_encoding(t, Seq::empty(), MAX_DEPTH as nat);
            assert(t.enc() + Seq::<u8>::empty() =~= t.enc());
        },
        _ => {},
    }
}

} // verus!
