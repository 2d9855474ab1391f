//! The wire-type model: the closed set of value shapes the protocol can
//! carry, their well-formedness, and their canonical byte encoding.

use vstd::prelude::*;
use crate::decimal::dec_int;
use vstd::utf8::encode_utf8;

verus! {

/// Largest length a Bulk payload may declare: 512 MiB.
pub const BULK_MAX: u32 = 536870912;

/// Deepest Array nesting the parser follows before reporting an error.
pub const MAX_DEPTH: u32 = 64;

/// A parsed or to-be-encoded wire value.
///
/// `Bulk` keeps the declared length beside the payload; a well-formed value
/// has `len` equal to the payload's length and at most `BULK_MAX`. A declared
/// length of `-1` on the wire is not a `Bulk` (nor an empty `Array`): it
/// parses as `Null`.
#[derive(Debug, PartialEq)]
pub enum Type {
    Simple(Vec<u8>),
    Error(String),
    Integer(i64),
    Bulk { len: u32, data: Vec<u8> },
    Array(Vec<Type>),
    Null,
}

/// The mathematical shadow of [`Type`]: payloads as sequences and
/// unbounded integers.
pub enum TypeV {
    Simple(Seq<u8>),
    Error(Seq<char>),
    Integer(int),
    Bulk { len: nat, data: Seq<u8> },
    Array(Seq<TypeV>),
    Null,
}

impl View for Type {
    type V = TypeV;

    open spec fn view(&self) -> TypeV
        decreases self,
    {
        match self {
            Type::Simple(b) => TypeV::Simple(b@),
            Type::Error(s) => TypeV::Error(s@),
            Type::Integer(i) => TypeV::Integer(*i as int),
            Type::Bulk { len, data } => TypeV::Bulk { len: *len as nat, data: data@ },
            Type::Array(es) => TypeV::Array(view_list(es@)),
            Type::Null => TypeV::Null,
        }
    }
}

/// The element-wise model of a sequence of wire values.
pub open spec fn view_list(es: Seq<Type>) -> Seq<TypeV>
    decreases es,
{
    if es.len() == 0 {
        Seq::empty()
    } else {
        seq![es[0]@] + view_list(es.drop_first())
    }
}

/// `view_list` models each element in place.
pub proof fn lemma_view_list(es: Seq<Type>)
    ensures
        view_list(es).len() == es.len(),
        forall|i: int| 0 <= i < es.len() ==> view_list(es)[i] == #[trigger] es[i]@,
    decreases es,
{
    if es.len() > 0 {
        lemma_view_list(es.drop_first());
        assert(view_list(es) == seq![es[0]@] + view_list(es.drop_first()));
        assert(view_list(es).len() == es.len());
        assert forall|i: int| 0 <= i < es.len() implies view_list(es)[i] == #[trigger] es[i]@ by {
            if i > 0 {
                assert(view_list(es)[i] == (seq![es[0]@] + view_list(es.drop_first()))[i]);
                assert((seq![es[0]@] + view_list(es.drop_first()))[i] == view_list(
                    es.drop_first(),
                )[i - 1]);
                assert(es.drop_first()[i - 1] == es[i]);
            } else {
                assert(view_list(es)[0] == es[0]@);
            }
        }
    } else {
        assert(view_list(es).len() == 0);
    }
}

/// Appending one value to a run appends its model.
pub proof fn lemma_view_list_push(es: Seq<Type>, t: Type)
    ensures
        view_list(es.push(t)) == view_list(es) + seq![t@],
{
    lemma_view_list(es);
    lemma_view_list(es.push(t));
    assert forall|i: int| 0 <= i < es.push(t).len() implies view_list(es.push(t))[i] == (
    view_list(es) + seq![t@])[i] by {
        assert(view_list(es.push(t))[i] == es.push(t)[i]@);
        if i < es.len() {
            assert(es.push(t)[i] == es[i]);
            assert(view_list(es)[i] == es[i]@);
        } else {
            assert(es.push(t)[i] == t);
        }
    }
    assert(view_list(es.push(t)) =~= view_list(es) + seq![t@]);
}

/// `s` holds no CRLF pair.
pub open spec fn no_crlf(s: Seq<u8>) -> bool {
    forall|i: int| 0 <= i && i + 1 < s.len() ==> !(#[trigger] s[i] == 13 && s[i + 1] == 10)
}

impl TypeV {
    /// The invariant of each wire shape: line payloads free of the line
    /// terminator, integers within 64 signed bits, Bulk lengths honest and
    /// capped, Array nesting within the parser's depth bound.
    pub open spec fn wf(self) -> bool
        decreases self,
    {
        &&& match self {
            TypeV::Simple(b) => no_crlf(b),
            TypeV::Error(s) => no_crlf(encode_utf8(s)),
            TypeV::Integer(i) => i64::MIN <= i <= i64::MAX,
            TypeV::Bulk { len, data } => len == data.len() && len <= BULK_MAX,
            TypeV::Array(es) => es.len() <= i64::MAX && forall|i: int|
                0 <= i < es.len() ==> (#[trigger] es[i]).wf(),
            TypeV::Null => true,
        }
        &&& self.rank() <= MAX_DEPTH
    }

    /// Array-nesting depth: how much parser recursion the value needs.
    pub open spec fn rank(self) -> nat
        decreases self,
    {
        match self {
            TypeV::Array(es) => 1 + rank_list(es),
            _ => 0,
        }
    }

    /// The canonical byte encoding of one wire value.
    pub open spec fn enc(self) -> Seq<u8>
        decreases self,
    {
        match self {
            TypeV::Simple(b) => seq![43u8] + b + seq![13u8, 10u8],
            TypeV::Error(s) => seq![45u8] + encode_utf8(s) + seq![13u8, 10u8],
            TypeV::Integer(i) => seq![58u8] + dec_int(i) + seq![13u8, 10u8],
            TypeV::Bulk { len, data } => seq![36u8] + dec_int(len as int) + seq![13u8, 10u8]
                + data + seq![13u8, 10u8],
            TypeV::Array(es) => seq![42u8] + dec_int(es.len() as int) + seq![13u8, 10u8]
                + enc_list(es),
            TypeV::Null => seq![36u8, 45u8, 49u8, 13u8, 10u8],
        }
    }
}

/// The largest rank among a sequence of wire values.
pub open spec fn rank_list(es: Seq<TypeV>) -> nat
    decreases es,
{
    if es.len() == 0 {
        0
    } else if es[0].rank() > rank_list(es.drop_first()) {
        es[0].rank()
    } else {
        rank_list(es.drop_first())
    }
}

/// The concatenated encodings of a sequence of wire values.
pub open spec fn enc_list(es: Seq<TypeV>) -> Seq<u8>
    decreases es,
{
    if es.len() == 0 {
        Seq::empty()
    } else {
        es[0].enc() + enc_list(es.drop_first())
    }
}

/// Append a borrowed byte slice to an owned buffer.
pub fn push_bytes(out: &mut Vec<u8>, b: &[u8])
    ensures
        final(out)@ == old(out)@ + b@,
{
    let n = b.len();
    let mut i: usize = 0;
    while i < n
        invariant
            i <= n,
            n == b@.len(),
            out@ == old(out)@ + b@.take(i as int),
        decreases n - i,
    {
        out.push(*vstd::slice::slice_index_get(b, i));
        assert(out@ =~= old(out)@ + b@.take(i + 1));
        i = i + 1;
    }
    assert(out@ =~= old(out)@ + b@);
}

/// Append the canonical encoding of `t` to `out`.
pub fn encode_into(t: &Type, out: &mut Vec<u8>)
    ensures
        final(out)@ == old(out)@ + t@.enc(),
    decreases t,
{
    match t {
        Type::Simple(b) => {
            out.push(43);
            push_bytes(out, b.as_slice());
            out.push(13);
            out.push(10);
            assert(out@ =~= old(out)@ + (seq![43u8] + b@ + seq![13u8, 10u8]));
        },
        Type::Error(s) => {
            out.push(45);
            let bytes = vstd::string::StrSliceExecFns::as_bytes_vec(s.as_str());
            push_bytes(out, bytes.as_slice());
            out.push(13);
            out.push(10);
            assert(out@ =~= old(out)@ + (seq![45u8] + encode_utf8(s@) + seq![13u8, 10u8]));
        },
        Type::Integer(i) => {
            out.push(58);
            crate::decimal::push_dec_i64(out, *i);
            out.push(13);
            out.push(10);
            assert(out@ =~= old(out)@ + (seq![58u8] + dec_int(*i as int) + seq![13u8, 10u8]));
        },
        Type::Bulk { len, data } => {
            out.push(36);
            crate::decimal::push_dec_i64(out, *len as i64);
            out.push(13);
            out.push(10);
            push_bytes(out, data.as_slice());
            out.push(13);
            out.push(10);
            assert(out@ =~= old(out)@ + (seq![36u8] + dec_int(*len as int) + seq![13u8, 10u8]
                + data@ + seq![13u8, 10u8]));
        },
        Type::Array(es) => {
            out.push(42);
            let n = es.len();
            crate::decimal::push_dec_u64(out, n as u64);
            out.push(13);
            out.push(10);
            let ghost views = view_list(es@);
            proof {
                lemma_view_list(es@);
            }
            assert(out@ =~= old(out)@ + (seq![42u8] + dec_int(views.len() as int)
                + seq![13u8, 10u8]));
            let ghost mid = out@;
            let mut j: usize = 0;
            while j < n
                invariant
                    j <= n,
                    n == es@.len(),
                    *t == Type::Array(*es),
                    views == view_list(es@),
                    views.len() == n,
                    forall|i: int| 0 <= i < n ==> views[i] == #[trigger] es@[i]@,
                    out@ == mid + enc_list(views.take(j as int)),
                decreases n - j,
            {
                let e: &Type = &es[j];
                proof {
                    assert(decreases_to!(*t => t->Array_0));
                    assert(decreases_to!(t->Array_0 => t->Array_0@));
                    assert(decreases_to!(t->Array_0@ => t->Array_0@[j as int]));
                    assert(es@[j as int] == t->Array_0@[j as int]);
                    assert(decreases_to!(*t => es@[j as int]));
                }
                encode_into(e, out);
                proof {
                    lemma_enc_list_take(views, j as int);
                }
                assert(out@ =~= mid + enc_list(views.take(j + 1)));
                j = j + 1;
            }
            assert(views.take(n as int) =~= views);
            assert(out@ =~= old(out)@ + t@.enc());
        },
        Type::Null => {
            out.push(36);
            out.push(45);
            out.push(49);
            out.push(13);
            out.push(10);
            assert(out@ =~= old(out)@ + seq![36u8, 45u8, 49u8, 13u8, 10u8]);
        },
    }
}

/// Encoding one more element appends that element's encoding.
pub proof fn lemma_enc_list_take(es: Seq<TypeV>, j: int)
    requires
        0 <= j < es.len(),
    ensures
        enc_list(es.take(j + 1)) == enc_list(es.take(j)) + es[j].enc(),
    decreases j,
{
    if j == 0 {
        assert(es.take(1).drop_first() =~= Seq::<TypeV>::empty());
        assert(enc_list(Seq::<TypeV>::empty()) == Seq::<u8>::empty());
        assert(es.take(0) =~= Seq::<TypeV>::empty());
        assert(es.take(1)[0] == es[0]);
        assert(enc_list(es.take(1)) == es[0].enc() + enc_list(es.take(1).drop_first()));
        assert(enc_list(es.take(1)) =~= enc_list(es.take(0)) + es[0].enc());
    } else {
        lemma_enc_list_take(es.drop_first(), j - 1);
        assert(es.take(j + 1).drop_first() =~= es.drop_first().take(j));
        assert(es.take(j).drop_first() =~= es.drop_first().take(j - 1));
        assert(es.take(j + 1)[0] == es[0]);
        assert(es.take(j)[0] == es[0]);
        assert(es.drop_first()[j - 1] == es[j]);
        assert(enc_list(es.take(j + 1)) == es[0].enc() + enc_list(es.drop_first().take(j)));
        assert(enc_list(es.take(j)) == es[0].enc() + enc_list(es.drop_first().take(j - 1)));
        assert(enc_list(es.take(j)) + es[j].enc() =~= es[0].enc() + (enc_list(
            es.drop_first().take(j - 1)) + es.drop_first()[j - 1].enc()));
    }
}

/// Encode one wire value to its canonical bytes.
pub fn encode(t: &Type) -> (r: Vec<u8>)
    ensures
        r@ == t@.enc(),
{
    let mut out: Vec<u8> = Vec::new();
    encode_into(t, &mut out);
    assert(out@ =~= t@.enc());
    out
}

} // verus!
