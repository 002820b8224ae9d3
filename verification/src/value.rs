//! Shapes say what is expected on the wire; values are what was found there.

use vstd::prelude::*;

verus! {

/// What the codec is asked to read at one point of a message.
///
/// The wire carries no type information, so every read is directed by a
/// shape. A structure with named fields is a [`Shape::Tuple`] of its fields in
/// the order of their declaration; a structure of one field has the shape of
/// that field.
#[derive(Debug, PartialEq, Eq)]
pub enum Shape {
    /// One byte; zero is `false`.
    Bool,
    U8,
    I8,
    U16,
    I16,
    U32,
    I32,
    U64,
    I64,
    /// An IEEE-754 single, four bytes.
    F32,
    /// An IEEE-754 double, eight bytes.
    F64,
    /// A single character. The format has none.
    Char,
    /// A byte length and that many bytes of UTF-8.
    Text,
    /// A byte length and that many bytes.
    Bytes,
    /// Nothing on the wire.
    Unit,
    /// A value that may be absent. The format has none.
    Optional,
    /// A count and that many elements of one shape.
    Sequence(Box<Shape>),
    /// The fields one after another, without a count.
    Tuple(Vec<Shape>),
    /// Text entries `key=value` up to the end of the enclosing scope.
    StringMap,
    /// A sum type. The format has none.
    Variant,
    /// Whatever the wire says is there. The wire does not say.
    Any,
    /// The name of a field or of a variant. The wire holds none.
    Identifier,
    /// A value to skip without knowing its shape.
    IgnoredAny,
}

/// A decoded value, or one to encode.
#[derive(Debug, PartialEq, Eq)]
pub enum Value {
    Bool(bool),
    U8(u8),
    I8(i8),
    U16(u16),
    I16(i16),
    U32(u32),
    I32(i32),
    U64(u64),
    I64(i64),
    /// The bit pattern of an IEEE-754 single.
    F32(u32),
    /// The bit pattern of an IEEE-754 double.
    F64(u64),
    Text(String),
    Bytes(Vec<u8>),
    Unit,
    Sequence(Vec<Value>),
    Tuple(Vec<Value>),
    /// The entries in the order of the wire.
    StringMap(Vec<(String, String)>),
}

/// The mathematical content of a [`Value`].
pub enum ValueView {
    Bool(bool),
    U8(u8),
    I8(i8),
    U16(u16),
    I16(i16),
    U32(u32),
    I32(i32),
    U64(u64),
    I64(i64),
    F32(u32),
    F64(u64),
    Text(Seq<char>),
    Bytes(Seq<u8>),
    Unit,
    Sequence(Seq<ValueView>),
    Tuple(Seq<ValueView>),
    StringMap(Seq<(Seq<char>, Seq<char>)>),
}

/// The contents of map entries.
pub open spec fn entries_view(entries: Seq<(String, String)>) -> Seq<(Seq<char>, Seq<char>)> {
    entries.map_values(|e: (String, String)| (e.0@, e.1@))
}

/// The contents of a list of values.
pub open spec fn values_view(items: Seq<Value>) -> Seq<ValueView>
    decreases items,
{
    Seq::new(
        items.len(),
        |i: int|
            if 0 <= i < items.len() {
                items[i]@
            } else {
                ValueView::Unit
            },
    )
}

/// `values_view` keeps the length and takes the view of each value.
pub proof fn lemma_values_view(items: Seq<Value>)
    ensures
        values_view(items).len() == items.len(),
        forall|i: int| 0 <= i < items.len() ==> #[trigger] values_view(items)[i] == items[i]@,
{
}

impl View for Value {
    type V = ValueView;

    open spec fn view(&self) -> ValueView
        decreases self,
    {
        match self {
            Value::Bool(b) => ValueView::Bool(*b),
            Value::U8(x) => ValueView::U8(*x),
            Value::I8(x) => ValueView::I8(*x),
            Value::U16(x) => ValueView::U16(*x),
            Value::I16(x) => ValueView::I16(*x),
            Value::U32(x) => ValueView::U32(*x),
            Value::I32(x) => ValueView::I32(*x),
            Value::U64(x) => ValueView::U64(*x),
            Value::I64(x) => ValueView::I64(*x),
            Value::F32(bits) => ValueView::F32(*bits),
            Value::F64(bits) => ValueView::F64(*bits),
            Value::Text(s) => ValueView::Text(s@),
            Value::Bytes(b) => ValueView::Bytes(b@),
            Value::Unit => ValueView::Unit,
            Value::Sequence(items) => ValueView::Sequence(values_view(items@)),
            Value::Tuple(items) => ValueView::Tuple(values_view(items@)),
            Value::StringMap(entries) => ValueView::StringMap(entries_view(entries@)),
        }
    }
}

} // verus!
