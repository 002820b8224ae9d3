//! Decoding what was encoded gives the value back.

use crate::de::{decode_message, entry_of, ReadState, Step};
use crate::error::Error;
use crate::ser::{
    all_fit_prefix, bytes_wire, encodable, entries_wire, fits, max_len, message, text_wire, wire,
    wire_all,
};
use crate::text::{entry_text, lemma_entry_text_bytes, separator_index, split_entry};
use crate::value::{Shape, ValueView};
use crate::wire::{
    le_bytes, le_signed_bytes, lemma_le_bytes_len, lemma_le_signed_of_bytes,
    lemma_le_value_of_bytes, lemma_le_value_single, lemma_pow256_widths, pow256,
};
use vstd::prelude::*;
use vstd::utf8::encode_utf8;

verus! {

/// The state of a deserializer that has `front` before it, then `tail`, and
/// that may read `rest` bytes more than `front` holds.
pub open spec fn before(front: Seq<u8>, tail: Seq<u8>, rest: nat) -> ReadState {
    ReadState { source: front + tail, budget: front.len() + rest }
}

/// The outcome of a read that gave `value` and left `tail` and `rest`.
pub open spec fn gives<T>(value: T, tail: Seq<u8>, rest: nat) -> Step<T> {
    Step { result: Ok(value), state: ReadState { source: tail, budget: rest } }
}

/// Taking as many bytes as stand in front gives those bytes.
pub proof fn lemma_take_front(front: Seq<u8>, tail: Seq<u8>, rest: nat)
    ensures
        before(front, tail, rest).take(front.len()) == gives(front, tail, rest),
{
    let all = front + tail;
    assert(all.subrange(0, front.len() as int) =~= front);
    assert(all.subrange(front.len() as int, all.len() as int) =~= tail);
}

/// An unsigned number that was written in `width` bytes is read back.
pub proof fn lemma_unsigned_round_trip(value: nat, width: nat, tail: Seq<u8>, rest: nat)
    requires
        value < pow256(width),
    ensures
        le_bytes(value, width).len() == width,
        before(le_bytes(value, width), tail, rest).unsigned(width) == gives(value, tail, rest),
{
    lemma_le_bytes_len(value, width);
    lemma_le_value_of_bytes(value, width);
    lemma_take_front(le_bytes(value, width), tail, rest);
}

/// A two's complement number that was written in `width` bytes is read
/// back.
pub proof fn lemma_signed_round_trip(value: int, width: nat, tail: Seq<u8>, rest: nat)
    requires
        width > 0,
        -(pow256(width) as int) <= 2 * value < pow256(width),
    ensures
        le_signed_bytes(value, width).len() == width,
        before(le_signed_bytes(value, width), tail, rest).signed(width) == gives(
            value,
            tail,
            rest,
        ),
{
    lemma_le_signed_of_bytes(value, width);
    lemma_take_front(le_signed_bytes(value, width), tail, rest);
}

/// A byte buffer that was written with its length is read back.
pub proof fn lemma_bytes_round_trip(bytes: Seq<u8>, tail: Seq<u8>, rest: nat)
    requires
        bytes.len() <= max_len(),
    ensures
        bytes_wire(bytes).len() == 4 + bytes.len(),
        before(bytes_wire(bytes), tail, rest).bytes() == gives(bytes, tail, rest),
{
    lemma_pow256_widths();
    let prefix = le_bytes(bytes.len(), 4);
    lemma_unsigned_round_trip(bytes.len(), 4, bytes + tail, bytes.len() + rest);
    lemma_take_front(bytes, tail, rest);
    assert(bytes_wire(bytes) + tail =~= prefix + (bytes + tail));
    assert(before(bytes_wire(bytes), tail, rest) == before(
        prefix,
        bytes + tail,
        bytes.len() + rest,
    ));
}

/// A text that was written with its length is read back.
pub proof fn lemma_text_round_trip(text: Seq<char>, tail: Seq<u8>, rest: nat)
    requires
        encode_utf8(text).len() <= max_len(),
    ensures
        text_wire(text).len() == 4 + encode_utf8(text).len(),
        before(text_wire(text), tail, rest).text() == gives(text, tail, rest),
{
    broadcast use vstd::utf8::encode_utf8_decode_utf8, vstd::utf8::encode_utf8_valid_utf8;

    lemma_bytes_round_trip(encode_utf8(text), tail, rest);
}

/// Where no `=` stands in the key, an entry is split into its key and its
/// value again.
pub proof fn lemma_split_entry(key: Seq<char>, value: Seq<char>)
    requires
        !key.contains('='),
    ensures
        separator_index(entry_text((key, value))) == key.len(),
        split_entry(entry_text((key, value))) == Some((key, value)),
    decreases key.len(),
{
    let text = entry_text((key, value));
    if key.len() == 0 {
        assert(text[0] == '=');
    } else {
        assert(key.contains(key[0]));
        assert(text[0] == key[0]);
        let shorter = key.drop_first();
        assert forall|c: char| shorter.contains(c) implies key.contains(c) by {
            let i = choose|i: int| 0 <= i < shorter.len() && shorter[i] == c;
            assert(key[i + 1] == c);
        }
        lemma_split_entry(shorter, value);
        assert(text.drop_first() =~= entry_text((shorter, value)));
    }
    assert(text.subrange(0, key.len() as int) =~= key);
    assert(text.subrange(key.len() as int + 1, text.len() as int) =~= value);
}

/// Whether no key of a map holds `=`.
pub open spec fn keys_plain(entries: Seq<(Seq<char>, Seq<char>)>) -> bool {
    forall|i: int| 0 <= i < entries.len() ==> !(#[trigger] entries[i]).0.contains('=')
}

/// The entries of a map that were written one after another, in a scope
/// that ends with them, are read back.
pub proof fn lemma_entries_round_trip(entries: Seq<(Seq<char>, Seq<char>)>, tail: Seq<u8>)
    requires
        keys_plain(entries),
        entries_wire(entries).len() <= max_len(),
    ensures
        before(entries_wire(entries), tail, 0).entries() == gives(entries, tail, 0),
    decreases entries.len(),
{
    let start = before(entries_wire(entries), tail, 0);
    if entries.len() == 0 {
        assert(start.source =~= tail);
        assert(start.entries().result->Ok_0 =~= entries);
    } else {
        let first = entries[0];
        let others = entries.drop_first();
        let line = entry_text(first);
        let after_first = entries_wire(others) + tail;
        lemma_le_bytes_len(encode_utf8(line).len(), 4);
        lemma_entry_text_bytes(first);
        lemma_text_round_trip(line, after_first, entries_wire(others).len());
        assert(entries_wire(entries) + tail =~= text_wire(line) + after_first);
        assert(start == before(text_wire(line), after_first, entries_wire(others).len()));
        lemma_split_entry(first.0, first.1);
        assert(entry_of(line) == Ok::<(Seq<char>, Seq<char>), Error>(first));
        assert forall|i: int| 0 <= i < others.len() implies !(#[trigger] others[i]).0.contains(
            '=',
        ) by {
            assert(others[i] == entries[i + 1]);
        }
        lemma_entries_round_trip(others, tail);
        assert(start.entry().state == before(entries_wire(others), tail, 0));
        assert(seq![first] + others =~= entries);
    }
}

/// Whether every value of a list is one that `shape` describes.
pub open spec fn all_conform(items: Seq<ValueView>, shape: Shape) -> bool
    decreases shape, 1nat,
{
    forall|i: int| 0 <= i < items.len() ==> conforms(#[trigger] items[i], shape)
}

/// Whether a list holds one value for each of `shapes`, each one that its
/// shape describes.
pub open spec fn each_conforms(items: Seq<ValueView>, shapes: Seq<Shape>) -> bool
    decreases shapes,
{
    &&& items.len() == shapes.len()
    &&& forall|i: int| 0 <= i < shapes.len() ==> conforms(#[trigger] items[i], shapes[i])
}

/// Whether a value is one that `shape` describes.
pub open spec fn conforms(value: ValueView, shape: Shape) -> bool
    decreases shape, 0nat,
{
    match shape {
        Shape::Bool => value is Bool,
        Shape::U8 => value is U8,
        Shape::I8 => value is I8,
        Shape::U16 => value is U16,
        Shape::I16 => value is I16,
        Shape::U32 => value is U32,
        Shape::I32 => value is I32,
        Shape::U64 => value is U64,
        Shape::I64 => value is I64,
        Shape::F32 => value is F32,
        Shape::F64 => value is F64,
        Shape::Text => value is Text,
        Shape::Bytes => value is Bytes,
        Shape::Unit => value is Unit,
        Shape::Sequence(element) => value is Sequence && all_conform(
            value->Sequence_0,
            *element,
        ),
        Shape::Tuple(fields) => value is Tuple && each_conforms(value->Tuple_0, fields@),
        Shape::StringMap => value is StringMap,
        _ => false,
    }
}

/// Whether every map in a list can be read back, where `rest` bytes of the
/// scope follow the list.
pub open spec fn all_maps_close(items: Seq<ValueView>, rest: nat) -> bool
    decreases items, 0nat,
{
    if items.len() == 0 {
        true
    } else {
        &&& maps_close(items[0], wire_all(items.drop_first()).len() + rest)
        &&& all_maps_close(items.drop_first(), rest)
    }
}

/// Whether every map in a value can be read back, where `rest` bytes of the
/// scope follow the value. A map is read up to the end of its scope and is
/// split at the first `=` of each entry: so nothing may follow it, and no
/// key may hold `=`.
pub open spec fn maps_close(value: ValueView, rest: nat) -> bool
    decreases value, 1nat,
{
    match value {
        ValueView::Sequence(items) => all_maps_close(items, rest),
        ValueView::Tuple(items) => all_maps_close(items, rest),
        ValueView::StringMap(entries) => rest == 0 && keys_plain(entries),
        _ => true,
    }
}

/// What holds of every value of a list holds of all but the first.
proof fn lemma_others(items: Seq<ValueView>, shape: Shape)
    requires
        items.len() > 0,
        all_conform(items, shape),
        all_fit_prefix(items),
    ensures
        all_conform(items.drop_first(), shape),
        all_fit_prefix(items.drop_first()),
        conforms(items[0], shape),
        fits(items[0]),
{
    let others = items.drop_first();
    assert forall|i: int| 0 <= i < others.len() implies conforms(#[trigger] others[i], shape)
        && fits(others[i]) by {
        assert(others[i] == items[i + 1]);
    }
}

/// The values of a list that were written one after another are read back.
pub proof fn lemma_elements_round_trip(
    items: Seq<ValueView>,
    shape: Shape,
    tail: Seq<u8>,
    rest: nat,
)
    requires
        all_conform(items, shape),
        all_fit_prefix(items),
        all_maps_close(items, rest),
        wire_all(items).len() + rest <= max_len(),
    ensures
        before(wire_all(items), tail, rest).elements(shape, items.len()) == gives(
            items,
            tail,
            rest,
        ),
    decreases items, 0nat,
{
    let start = before(wire_all(items), tail, rest);
    if items.len() == 0 {
        assert(start.source =~= tail);
        assert(start.elements(shape, 0).result->Ok_0 =~= items);
    } else {
        let first = items[0];
        let others = items.drop_first();
        let after_first = wire_all(others) + tail;
        let left = wire_all(others).len() + rest;
        lemma_others(items, shape);
        lemma_value_round_trip(first, shape, after_first, left);
        assert(wire_all(items) + tail =~= wire(first) + after_first);
        assert(start == before(wire(first), after_first, left));
        lemma_elements_round_trip(others, shape, tail, rest);
        assert(seq![first] + others =~= items);
    }
}

/// The fields of a tuple from the one at `from` on, written one after
/// another, are read back.
pub proof fn lemma_fields_round_trip(
    items: Seq<ValueView>,
    shapes: Seq<Shape>,
    from: nat,
    tail: Seq<u8>,
    rest: nat,
)
    requires
        from <= items.len(),
        each_conforms(items, shapes),
        all_fit_prefix(items),
        all_maps_close(items.subrange(from as int, items.len() as int), rest),
        wire_all(items.subrange(from as int, items.len() as int)).len() + rest <= max_len(),
    ensures
        before(
            wire_all(items.subrange(from as int, items.len() as int)),
            tail,
            rest,
        ).fields(shapes, from) == gives(
            items.subrange(from as int, items.len() as int),
            tail,
            rest,
        ),
    decreases items, items.len() - from,
{
    let here = items.subrange(from as int, items.len() as int);
    let start = before(wire_all(here), tail, rest);
    if from == items.len() {
        assert(start.source =~= tail);
        assert(start.fields(shapes, from).result->Ok_0 =~= here);
    } else {
        let first = items[from as int];
        let others = items.subrange(from as int + 1, items.len() as int);
        let after_first = wire_all(others) + tail;
        let left = wire_all(others).len() + rest;
        assert(here[0] == first);
        assert(here.drop_first() =~= others);
        assert(conforms(items[from as int], shapes[from as int]));
        lemma_value_round_trip(first, shapes[from as int], after_first, left);
        assert(wire_all(here) + tail =~= wire(first) + after_first);
        assert(start == before(wire(first), after_first, left));
        lemma_fields_round_trip(items, shapes, from + 1, tail, rest);
        assert(seq![first] + others =~= here);
    }
}

/// A value that was written is read back, where the shape describes it, its
/// lengths fit their prefixes, its maps end the scope and the scope is one
/// that a budget can count.
pub proof fn lemma_value_round_trip(value: ValueView, shape: Shape, tail: Seq<u8>, rest: nat)
    requires
        conforms(value, shape),
        fits(value),
        maps_close(value, rest),
        wire(value).len() + rest <= max_len(),
    ensures
        before(wire(value), tail, rest).value(shape) == gives(value, tail, rest),
    decreases value, 1nat,
{
    lemma_pow256_widths();
    let start = before(wire(value), tail, rest);
    match value {
        ValueView::Bool(b) => {
            let byte: u8 = if b {
                1
            } else {
                0
            };
            lemma_take_front(seq![byte], tail, rest);
            lemma_le_value_single(seq![byte]);
        },
        ValueView::U8(x) => {
            lemma_take_front(seq![x], tail, rest);
            lemma_le_value_single(seq![x]);
        },
        ValueView::I8(x) => lemma_signed_round_trip(x as int, 1, tail, rest),
        ValueView::U16(x) => lemma_unsigned_round_trip(x as nat, 2, tail, rest),
        ValueView::I16(x) => lemma_signed_round_trip(x as int, 2, tail, rest),
        ValueView::U32(x) => lemma_unsigned_round_trip(x as nat, 4, tail, rest),
        ValueView::I32(x) => lemma_signed_round_trip(x as int, 4, tail, rest),
        ValueView::U64(x) => lemma_unsigned_round_trip(x as nat, 8, tail, rest),
        ValueView::I64(x) => lemma_signed_round_trip(x as int, 8, tail, rest),
        ValueView::F32(bits) => lemma_unsigned_round_trip(bits as nat, 4, tail, rest),
        ValueView::F64(bits) => lemma_unsigned_round_trip(bits as nat, 8, tail, rest),
        ValueView::Text(text) => lemma_text_round_trip(text, tail, rest),
        ValueView::Bytes(bytes) => lemma_bytes_round_trip(bytes, tail, rest),
        ValueView::Unit => {
            assert(start.source =~= tail);
        },
        ValueView::Sequence(items) => {
            let element = *shape->Sequence_0;
            let body = wire_all(items);
            let prefix = le_bytes(items.len(), 4);
            lemma_unsigned_round_trip(items.len(), 4, body + tail, body.len() + rest);
            assert(wire(value) + tail =~= prefix + (body + tail));
            assert(start == before(prefix, body + tail, body.len() + rest));
            lemma_elements_round_trip(items, element, tail, rest);
        },
        ValueView::Tuple(items) => {
            let shapes = shape->Tuple_0@;
            assert(items.subrange(0, items.len() as int) =~= items);
            lemma_fields_round_trip(items, shapes, 0, tail, rest);
        },
        ValueView::StringMap(entries) => lemma_entries_round_trip(entries, tail),
    }
}

/// A value that is encoded as a message decodes to itself.
///
/// This holds of every value that the shape describes and that can be sent
/// ([`encodable`]), but for two uses of maps that the format cannot tell
/// apart: a map with `=` in a key, and a map that is not the last thing in
/// its message ([`maps_close`]).
pub proof fn lemma_round_trip(value: ValueView, shape: Shape)
    requires
        conforms(value, shape),
        encodable(value),
        maps_close(value, 0),
    ensures
        decode_message(message(value), shape) == Ok::<ValueView, Error>(value),
{
    lemma_round_trip_before(value, shape, Seq::empty());
    assert(message(value) + Seq::<u8>::empty() =~= message(value));
}

/// A value that is encoded as a message decodes to itself where more bytes
/// follow the message: they are not looked at.
pub proof fn lemma_round_trip_before(value: ValueView, shape: Shape, tail: Seq<u8>)
    requires
        conforms(value, shape),
        encodable(value),
        maps_close(value, 0),
    ensures
        decode_message(message(value) + tail, shape) == Ok::<ValueView, Error>(value),
{
    lemma_pow256_widths();
    let body = wire(value);
    let all = message(value) + tail;
    lemma_le_bytes_len(body.len(), 4);
    lemma_le_value_of_bytes(body.len(), 4);
    lemma_value_round_trip(value, shape, tail, 0);
    assert(all.subrange(0, 4) =~= le_bytes(body.len(), 4));
    assert(all.subrange(4, all.len() as int) =~= body + tail);
}

} // verus!
