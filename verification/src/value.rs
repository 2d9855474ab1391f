//! The abstract structured-value model and the target shapes a
//! deserializing caller may request.

use vstd::prelude::*;

verus! {

/// A requested integer width; values are narrowing-checked against it.
#[derive(Debug, PartialEq, Eq, Structural, Clone, Copy)]
pub enum IntWidth {
    I8,
    I16,
    I32,
    I64,
    U8,
    U16,
    U32,
    U64,
}

/// An abstract structured value: what an embedder hands the serializer
/// or receives back from the deserializer.
///
/// `Float` and `Dict` carry no payload here: the protocol cannot represent
/// them, and the serializer rejects them whatever they hold.
/// `UnknownLenList` stands for a sequence whose length is only known after
/// iteration; the wire format writes the count first, so it is rejected.
/// `Record` is a fixed-shape record or an enum variant's fields: both go
/// on the wire as a positional array.
#[derive(Debug, PartialEq)]
pub enum Value {
    Unit,
    Bool(bool),
    Int(i64),
    UInt(u64),
    Float,
    Text(String),
    Blob(Vec<u8>),
    OptionNone,
    OptionSome(Box<Value>),
    List(Vec<Value>),
    UnknownLenList(Vec<Value>),
    Record(Vec<Value>),
    Dict,
}

/// The mathematical shadow of [`Value`].
pub enum ValueV {
    Unit,
    Bool(bool),
    Int(i64),
    UInt(u64),
    Float,
    Text(Seq<char>),
    Blob(Seq<u8>),
    OptionNone,
    OptionSome(Box<ValueV>),
    List(Seq<ValueV>),
    UnknownLenList(Seq<ValueV>),
    Record(Seq<ValueV>),
    Dict,
}

impl View for Value {
    type V = ValueV;

    open spec fn view(&self) -> ValueV
        decreases self,
    {
        match self {
            Value::Unit => ValueV::Unit,
            Value::Bool(b) => ValueV::Bool(*b),
            Value::Int(i) => ValueV::Int(*i),
            Value::UInt(u) => ValueV::UInt(*u),
            Value::Float => ValueV::Float,
            Value::Text(s) => ValueV::Text(s@),
            Value::Blob(b) => ValueV::Blob(b@),
            Value::OptionNone => ValueV::OptionNone,
            Value::OptionSome(x) => ValueV::OptionSome(Box::new((**x)@)),
            Value::List(es) => ValueV::List(view_vlist(es@)),
            Value::UnknownLenList(es) => ValueV::UnknownLenList(view_vlist(es@)),
            Value::Record(es) => ValueV::Record(view_vlist(es@)),
            Value::Dict => ValueV::Dict,
        }
    }
}

/// The element-wise model of a sequence of values.
pub open spec fn view_vlist(es: Seq<Value>) -> Seq<ValueV>
    decreases es,
{
    if es.len() == 0 {
        Seq::empty()
    } else {
        seq![es[0]@] + view_vlist(es.drop_first())
    }
}

/// `view_vlist` models each element in place.
pub proof fn lemma_view_vlist(es: Seq<Value>)
    ensures
        view_vlist(es).len() == es.len(),
        forall|i: int| 0 <= i < es.len() ==> view_vlist(es)[i] == #[trigger] es[i]@,
    decreases es,
{
    if es.len() > 0 {
        lemma_view_vlist(es.drop_first());
        assert(view_vlist(es) == seq![es[0]@] + view_vlist(es.drop_first()));
        assert forall|i: int| 0 <= i < es.len() implies view_vlist(es)[i] == #[trigger] es[i]@ by {
            if i > 0 {
                assert(view_vlist(es)[i] == view_vlist(es.drop_first())[i - 1]);
                assert(es.drop_first()[i - 1] == es[i]);
            } else {
                assert(view_vlist(es)[0] == es[0]@);
            }
        }
    } else {
        assert(view_vlist(es).len() == 0);
    }
}

/// Appending one value to a run appends its model.
pub proof fn lemma_view_vlist_push(es: Seq<Value>, v: Value)
    ensures
        view_vlist(es.push(v)) == view_vlist(es) + seq![v@],
{
    lemma_view_vlist(es);
    lemma_view_vlist(es.push(v));
    assert forall|i: int| 0 <= i < es.push(v).len() implies view_vlist(es.push(v))[i] == (
    view_vlist(es) + seq![v@])[i] by {
        assert(view_vlist(es.push(v))[i] == es.push(v)[i]@);
        if i < es.len() {
            assert(es.push(v)[i] == es[i]);
            assert(view_vlist(es)[i] == es[i]@);
        } else {
            assert(es.push(v)[i] == v);
        }
    }
    assert(view_vlist(es.push(v)) =~= view_vlist(es) + seq![v@]);
}

/// The shape a deserializing caller asks a wire value to be rebuilt into.
#[derive(Debug, PartialEq)]
pub enum Shape {
    Unit,
    Bool,
    Int(IntWidth),
    Text,
    Blob,
    Optional(Box<Shape>),
    List(Box<Shape>),
    Record(Vec<Shape>),
}

/// The mathematical shadow of [`Shape`].
pub enum ShapeV {
    Unit,
    Bool,
    Int(IntWidth),
    Text,
    Blob,
    Optional(Box<ShapeV>),
    List(Box<ShapeV>),
    Record(Seq<ShapeV>),
}

impl View for Shape {
    type V = ShapeV;

    open spec fn view(&self) -> ShapeV
        decreases self,
    {
        match self {
            Shape::Unit => ShapeV::Unit,
            Shape::Bool => ShapeV::Bool,
            Shape::Int(w) => ShapeV::Int(*w),
            Shape::Text => ShapeV::Text,
            Shape::Blob => ShapeV::Blob,
            Shape::Optional(x) => ShapeV::Optional(Box::new((**x)@)),
            Shape::List(x) => ShapeV::List(Box::new((**x)@)),
            Shape::Record(ss) => ShapeV::Record(view_slist(ss@)),
        }
    }
}

/// The element-wise model of a sequence of shapes.
pub open spec fn view_slist(ss: Seq<Shape>) -> Seq<ShapeV>
    decreases ss,
{
    if ss.len() == 0 {
        Seq::empty()
    } else {
        seq![ss[0]@] + view_slist(ss.drop_first())
    }
}

/// `view_slist` models each element in place.
pub proof fn lemma_view_slist(ss: Seq<Shape>)
    ensures
        view_slist(ss).len() == ss.len(),
        forall|i: int| 0 <= i < ss.len() ==> view_slist(ss)[i] == #[trigger] ss[i]@,
    decreases ss,
{
    if ss.len() > 0 {
        lemma_view_slist(ss.drop_first());
        assert(view_slist(ss) == seq![ss[0]@] + view_slist(ss.drop_first()));
        assert forall|i: int| 0 <= i < ss.len() implies view_slist(ss)[i] == #[trigger] ss[i]@ by {
            if i > 0 {
                assert(view_slist(ss)[i] == view_slist(ss.drop_first())[i - 1]);
                assert(ss.drop_first()[i - 1] == ss[i]);
            } else {
                assert(view_slist(ss)[0] == ss[0]@);
            }
        }
    } else {
        assert(view_slist(ss).len() == 0);
    }
}

} // verus!
