//! Decoding ROSMSG bytes into values.
//!
//! A [`Deserializer`] reads from a byte slice under a budget: the number of
//! bytes that the value being read may still use. What each read returns, and
//! what it leaves behind, is given by the functions of [`ReadState`].

use crate::error::Error;
use crate::ser::{text_wire, Serializer};
use crate::text::{
    lemma_cut_at_separator, lemma_same_text, lemma_separator_in_bytes, lemma_split_lengths,
    split_entry, SEPARATOR,
};
use crate::value::{entries_view, lemma_values_view, values_view, Shape, Value, ValueView};
use crate::wire::{le_bytes, le_signed, le_value};
use vstd::prelude::*;
use vstd::slice::{slice_subrange, slice_to_vec};
use vstd::utf8::{decode_utf8, encode_utf8, valid_utf8};

verus! {

/// What a [`Deserializer`] stands for: the bytes not yet read, and the number
/// of bytes that may still be read in the current scope.
pub struct ReadState {
    pub source: Seq<u8>,
    pub budget: nat,
}

/// The outcome of one read: what it returned and the state it left.
pub struct Step<T> {
    pub result: Result<T, Error>,
    pub state: ReadState,
}

impl ReadState {
    /// Takes `size` bytes from the budget, or fails with `Overflow` and
    /// changes nothing.
    pub open spec fn reserve(self, size: nat) -> Step<()> {
        if size > self.budget {
            Step { result: Err(Error::Overflow), state: self }
        } else {
            Step {
                result: Ok(()),
                state: ReadState { source: self.source, budget: (self.budget - size) as nat },
            }
        }
    }

    /// Reserves `size` bytes and then reads them. The budget is checked
    /// first; a source that is too short is found out only after that.
    pub open spec fn take(self, size: nat) -> Step<Seq<u8>> {
        if size > self.budget {
            Step { result: Err(Error::Overflow), state: self }
        } else if size > self.source.len() {
            Step {
                result: Err(Error::EndOfBuffer),
                state: ReadState { source: self.source, budget: (self.budget - size) as nat },
            }
        } else {
            Step {
                result: Ok(self.source.subrange(0, size as int)),
                state: ReadState {
                    source: self.source.subrange(size as int, self.source.len() as int),
                    budget: (self.budget - size) as nat,
                },
            }
        }
    }

    /// Reads an unsigned little-endian number of `width` bytes.
    pub open spec fn unsigned(self, width: nat) -> Step<nat> {
        let taken = self.take(width);
        Step {
            result: match taken.result {
                Ok(bytes) => Ok(le_value(bytes)),
                Err(e) => Err(e),
            },
            state: taken.state,
        }
    }

    /// Reads a two's complement little-endian number of `width` bytes.
    pub open spec fn signed(self, width: nat) -> Step<int> {
        let taken = self.take(width);
        Step {
            result: match taken.result {
                Ok(bytes) => Ok(le_signed(bytes)),
                Err(e) => Err(e),
            },
            state: taken.state,
        }
    }

    /// Reads a length prefix and then that many bytes.
    pub open spec fn bytes(self) -> Step<Seq<u8>> {
        let prefix = self.unsigned(4);
        match prefix.result {
            Ok(length) => prefix.state.take(length),
            Err(e) => Step { result: Err(e), state: prefix.state },
        }
    }

    /// Reads a length prefix and then that many bytes of UTF-8.
    pub open spec fn text(self) -> Step<Seq<char>> {
        let body = self.bytes();
        Step {
            result: match body.result {
                Ok(bytes) => if valid_utf8(bytes) {
                    Ok(decode_utf8(bytes))
                } else {
                    Err(Error::BadStringData)
                },
                Err(e) => Err(e),
            },
            state: body.state,
        }
    }
}

/// What was read so far, followed by what the rest of a list gives.
pub open spec fn after<T>(done: Seq<T>, rest: Step<Seq<T>>) -> Step<Seq<T>> {
    Step {
        result: match rest.result {
            Ok(more) => Ok(done + more),
            Err(e) => Err(e),
        },
        state: rest.state,
    }
}

/// The error that answers a shape which the format does not have, or `None`
/// for a shape that it has.
pub open spec fn unsupported(shape: Shape) -> Option<Error> {
    match shape {
        Shape::Char => Some(Error::UnsupportedCharType),
        Shape::Optional | Shape::Variant => Some(Error::UnsupportedEnumType),
        Shape::Any => Some(Error::UnsupportedDeserializerMethod("deserialize_any")),
        Shape::Identifier => Some(Error::UnsupportedDeserializerMethod("deserialize_identifier")),
        Shape::IgnoredAny => Some(
            Error::UnsupportedDeserializerMethod("deserialize_ignored_any"),
        ),
        _ => None,
    }
}

/// The number of bytes of a scalar shape; zero for every other shape.
pub open spec fn scalar_width(shape: Shape) -> nat {
    match shape {
        Shape::Bool | Shape::U8 | Shape::I8 => 1,
        Shape::U16 | Shape::I16 => 2,
        Shape::U32 | Shape::I32 | Shape::F32 => 4,
        Shape::U64 | Shape::I64 | Shape::F64 => 8,
        _ => 0,
    }
}

/// Whether a shape is read as a two's complement number.
pub open spec fn is_signed(shape: Shape) -> bool {
    shape is I8 || shape is I16 || shape is I32 || shape is I64
}

/// Whether a shape is read as an unsigned number. A boolean is one, and so
/// is the bit pattern of a float.
pub open spec fn is_unsigned(shape: Shape) -> bool {
    scalar_width(shape) > 0 && !is_signed(shape)
}

/// The value of an unsigned scalar shape that the number `n` stands for.
pub open spec fn unsigned_value(shape: Shape, n: nat) -> ValueView {
    match shape {
        Shape::Bool => ValueView::Bool(n != 0),
        Shape::U8 => ValueView::U8(n as u8),
        Shape::U16 => ValueView::U16(n as u16),
        Shape::U32 => ValueView::U32(n as u32),
        Shape::U64 => ValueView::U64(n as u64),
        Shape::F32 => ValueView::F32(n as u32),
        _ => ValueView::F64(n as u64),
    }
}

/// The value of a signed scalar shape that the number `n` stands for.
pub open spec fn signed_value(shape: Shape, n: int) -> ValueView {
    match shape {
        Shape::I8 => ValueView::I8(n as i8),
        Shape::I16 => ValueView::I16(n as i16),
        Shape::I32 => ValueView::I32(n as i32),
        _ => ValueView::I64(n as i64),
    }
}

/// The longest text whose copy with a length prefix fits the budget of a
/// deserializer of its own.
pub open spec fn max_part_len() -> nat {
    (u32::MAX - 4) as nat
}

/// Key and value of a map entry. Each is read again from a copy with a
/// length prefix, in a scope of its own, so each has to fit one.
pub open spec fn entry_of(text: Seq<char>) -> Result<(Seq<char>, Seq<char>), Error> {
    match split_entry(text) {
        None => Err(Error::BadMapEntry),
        Some((key, value)) => if encode_utf8(key).len() > max_part_len() || encode_utf8(
            value,
        ).len() > max_part_len() {
            Err(Error::Overflow)
        } else {
            Ok((key, value))
        },
    }
}

/// The state of a deserializer that is to read all of `buffer` and no more.
pub open spec fn scope_of(buffer: Seq<u8>) -> ReadState {
    ReadState { source: buffer, budget: buffer.len() }
}

impl ReadState {
    /// Reads the text of one map entry and gives key and value as they
    /// would stand on the wire by themselves, each with its length prefix.
    pub open spec fn item(self) -> Step<(Seq<u8>, Seq<u8>)> {
        let line = self.text();
        Step {
            result: match line.result {
                Ok(text) => match split_entry(text) {
                    Some((key, value)) => Ok((text_wire(key), text_wire(value))),
                    None => Err(Error::BadMapEntry),
                },
                Err(e) => Err(e),
            },
            state: line.state,
        }
    }

    /// Reads one map entry: a text, split at its first `=`.
    pub open spec fn entry(self) -> Step<(Seq<char>, Seq<char>)> {
        let line = self.text();
        Step {
            result: match line.result {
                Ok(text) => entry_of(text),
                Err(e) => Err(e),
            },
            state: line.state,
        }
    }

    /// Reads map entries until the budget is used up.
    pub open spec fn entries(self) -> Step<Seq<(Seq<char>, Seq<char>)>>
        decreases self.budget,
    {
        if self.budget == 0 {
            Step { result: Ok(Seq::empty()), state: self }
        } else {
            let first = self.entry();
            match first.result {
                Ok(pair) => after(seq![pair], first.state.entries()),
                Err(e) => Step { result: Err(e), state: first.state },
            }
        }
    }

    /// Reads a count and then that many values of one shape.
    pub open spec fn sequence(self, shape: Shape) -> Step<Seq<ValueView>>
        decreases shape, 0nat, 1nat,
    {
        let prefix = self.unsigned(4);
        match prefix.result {
            Ok(count) => prefix.state.elements(shape, count),
            Err(e) => Step { result: Err(e), state: prefix.state },
        }
    }

    /// Reads `count` values of one shape.
    pub open spec fn elements(self, shape: Shape, count: nat) -> Step<Seq<ValueView>>
        decreases shape, 0nat, 0nat, count + 1,
    {
        if count == 0 {
            Step { result: Ok(Seq::empty()), state: self }
        } else {
            let first = self.value(shape);
            match first.result {
                Ok(item) => after(seq![item], first.state.elements(shape, (count - 1) as nat)),
                Err(e) => Step { result: Err(e), state: first.state },
            }
        }
    }

    /// Reads one value of each of `shapes`, from the one at `from` on.
    pub open spec fn fields(self, shapes: Seq<Shape>, from: nat) -> Step<Seq<ValueView>>
        decreases shapes, shapes.len() - from,
    {
        if from >= shapes.len() {
            Step { result: Ok(Seq::empty()), state: self }
        } else {
            let first = self.value(shapes[from as int]);
            match first.result {
                Ok(item) => after(seq![item], first.state.fields(shapes, from + 1)),
                Err(e) => Step { result: Err(e), state: first.state },
            }
        }
    }

    /// Reads one value of the given shape.
    pub open spec fn value(self, shape: Shape) -> Step<ValueView>
        decreases shape, 0nat, 0nat, 0nat,
    {
        if let Some(e) = unsupported(shape) {
            Step { result: Err(e), state: self }
        } else if is_unsigned(shape) {
            let number = self.unsigned(scalar_width(shape));
            Step {
                result: match number.result {
                    Ok(n) => Ok(unsigned_value(shape, n)),
                    Err(e) => Err(e),
                },
                state: number.state,
            }
        } else if is_signed(shape) {
            let number = self.signed(scalar_width(shape));
            Step {
                result: match number.result {
                    Ok(n) => Ok(signed_value(shape, n)),
                    Err(e) => Err(e),
                },
                state: number.state,
            }
        } else {
            match shape {
                Shape::Text => {
                    let text = self.text();
                    Step {
                        result: match text.result {
                            Ok(chars) => Ok(ValueView::Text(chars)),
                            Err(e) => Err(e),
                        },
                        state: text.state,
                    }
                },
                Shape::Bytes => {
                    let body = self.bytes();
                    Step {
                        result: match body.result {
                            Ok(bytes) => Ok(ValueView::Bytes(bytes)),
                            Err(e) => Err(e),
                        },
                        state: body.state,
                    }
                },
                Shape::Sequence(element) => {
                    let items = self.sequence(*element);
                    Step {
                        result: match items.result {
                            Ok(values) => Ok(ValueView::Sequence(values)),
                            Err(e) => Err(e),
                        },
                        state: items.state,
                    }
                },
                Shape::Tuple(shapes) => {
                    let items = self.fields(shapes@, 0);
                    Step {
                        result: match items.result {
                            Ok(values) => Ok(ValueView::Tuple(values)),
                            Err(e) => Err(e),
                        },
                        state: items.state,
                    }
                },
                Shape::StringMap => {
                    let map = self.entries();
                    Step {
                        result: match map.result {
                            Ok(entries) => Ok(ValueView::StringMap(entries)),
                            Err(e) => Err(e),
                        },
                        state: map.state,
                    }
                },
                // `Shape::Unit`: nothing is read.
                _ => Step { result: Ok(ValueView::Unit), state: self },
            }
        }
    }
}

/// Reading on after one more value is reading on after the longer list.
pub proof fn lemma_after_push<T>(done: Seq<T>, next: T, rest: Step<Seq<T>>)
    ensures
        after(done, after(seq![next], rest)) == after(done.push(next), rest),
{
    if let Ok(more) = rest.result {
        assert(done + (seq![next] + more) =~= done.push(next) + more);
    }
}

/// A text that was read is short enough for a length prefix.
pub proof fn lemma_text_len(state: ReadState)
    ensures
        state.bytes().result is Ok ==> state.bytes().result->Ok_0.len() <= u32::MAX,
        state.text().result is Ok ==> encode_utf8(state.text().result->Ok_0).len() <= u32::MAX,
        state.text().result is Ok ==> encode_utf8(state.text().result->Ok_0)
            == state.bytes().result->Ok_0,
{
    broadcast use vstd::utf8::decode_utf8_encode_utf8;

    let prefix = state.take(4);
    if prefix.result is Ok {
        crate::wire::lemma_le_value_bound(prefix.result->Ok_0);
        crate::wire::lemma_pow256_widths();
    }
}

/// A text alone on the wire, read in a scope of its own, is read back: the
/// text comes out and nothing is left.
pub proof fn lemma_text_alone(text: Seq<char>)
    requires
        encode_utf8(text).len() <= max_part_len(),
    ensures
        scope_of(text_wire(text)).text() == (Step {
            result: Ok::<Seq<char>, Error>(text),
            state: ReadState { source: Seq::<u8>::empty(), budget: 0 },
        }),
{
    broadcast use vstd::utf8::encode_utf8_decode_utf8, vstd::utf8::encode_utf8_valid_utf8;

    let body = encode_utf8(text);
    let all = text_wire(text);
    let start = scope_of(all);
    crate::wire::lemma_le_bytes_len(body.len(), 4);
    crate::wire::lemma_pow256_widths();
    crate::wire::lemma_le_value_of_bytes(body.len(), 4);
    assert(all.subrange(0, 4) =~= le_bytes(body.len(), 4));
    let prefix = start.take(4);
    assert(prefix.state.source =~= body);
    assert(prefix.state.source.subrange(0, body.len() as int) =~= body);
    assert(prefix.state.source.subrange(body.len() as int, body.len() as int) =~= Seq::<
        u8,
    >::empty());
}

/// The state in which the value of a message is read: the source after the
/// length prefix, and the length that the prefix declares as the budget.
pub open spec fn body_state(bytes: Seq<u8>) -> ReadState {
    ReadState {
        source: bytes.subrange(4, bytes.len() as int),
        budget: le_value(bytes.subrange(0, 4)),
    }
}

/// What a message decodes to: the first four bytes give the length of the
/// value, the value is read within that length, and the whole length has to
/// be used. Bytes after the message are not looked at.
pub open spec fn decode_message(bytes: Seq<u8>, shape: Shape) -> Result<ValueView, Error> {
    if bytes.len() < 4 {
        Err(Error::EndOfBuffer)
    } else {
        let body = body_state(bytes).value(shape);
        match body.result {
            Ok(value) => if body.state.budget == 0 {
                Ok(value)
            } else {
                Err(Error::Underflow)
            },
            Err(e) => Err(e),
        }
    }
}

/// A reader of ROSMSG data from a byte slice.
///
/// The deserializer does not read the length prefix of a message: the
/// caller hands it the number of bytes that the data may take.
pub struct Deserializer<'a> {
    reader: &'a [u8],
    length: u32,
}

impl<'a> View for Deserializer<'a> {
    type V = ReadState;

    closed spec fn view(&self) -> ReadState {
        ReadState { source: self.reader@, budget: self.length as nat }
    }
}

impl<'a> Deserializer<'a> {
    /// A deserializer that reads from `reader` and may use
    /// `expected_length` bytes of it.
    pub fn new(reader: &'a [u8], expected_length: u32) -> (de: Self)
        ensures
            de@ == (ReadState { source: reader@, budget: expected_length as nat }),
    {
        Deserializer { reader, length: expected_length }
    }

    /// A deserializer for the message at the front of `reader`: the length
    /// prefix is read and becomes the budget. A reader of fewer than four
    /// bytes gives `EndOfBuffer`.
    pub fn framed(reader: &'a [u8]) -> (r: Result<Self, Error>)
        ensures
            reader@.len() < 4 ==> r is Err && r->Err_0 == Error::EndOfBuffer,
            reader@.len() >= 4 ==> r is Ok && r->Ok_0@ == body_state(reader@),
    {
        match crate::wire::read_u32(reader) {
            Some(length) => Ok(Deserializer::new(slice_subrange(reader, 4, reader.len()), length)),
            None => Err(Error::EndOfBuffer),
        }
    }

    /// A deserializer in a scope of its own that reads all of `buffer` and
    /// no more. A buffer that is longer than a budget can count gives
    /// `Overflow`.
    pub fn scoped(buffer: &'a [u8]) -> (r: Result<Self, Error>)
        ensures
            buffer@.len() > u32::MAX ==> r is Err && r->Err_0 == Error::Overflow,
            buffer@.len() <= u32::MAX ==> r is Ok && r->Ok_0@ == scope_of(buffer@),
    {
        if buffer.len() > u32::MAX as usize {
            return Err(Error::Overflow);
        }
        Ok(Deserializer::new(buffer, buffer.len() as u32))
    }

    /// Ends the reading of a message: where some of the budget is left, the
    /// message declared more than its value took, which is an `Underflow`.
    pub fn end(&self) -> (r: Result<(), Error>)
        ensures
            self@.budget == 0 ==> r is Ok,
            self@.budget != 0 ==> r == Err::<(), Error>(Error::Underflow),
    {
        if self.is_fully_read() {
            Ok(())
        } else {
            Err(Error::Underflow)
        }
    }

    /// Gives back the bytes that were not read.
    pub fn into_inner(self) -> (reader: &'a [u8])
        ensures
            reader@ == self@.source,
    {
        self.reader
    }

    /// The budget: the number of bytes that may still be read.
    pub fn remaining(&self) -> (budget: u32)
        ensures
            budget == self@.budget,
    {
        self.length
    }

    /// Whether the budget is used up. Nothing more can then be read.
    pub fn is_fully_read(&self) -> (done: bool)
        ensures
            done == (self@.budget == 0),
    {
        self.length == 0
    }

    /// Takes `size` bytes from the budget. Where the budget is smaller, the
    /// call fails with `Overflow` and the deserializer stays as it was.
    pub fn reserve_bytes(&mut self, size: u32) -> (r: Result<(), Error>)
        ensures
            r == old(self)@.reserve(size as nat).result,
            final(self)@ == old(self)@.reserve(size as nat).state,
            size > old(self)@.budget ==> r == Err::<(), Error>(Error::Overflow) && final(self)@
                == old(self)@,
    {
        if size > self.length {
            return Err(Error::Overflow);
        }
        self.length -= size;
        Ok(())
    }

    /// Reads `size` bytes that were reserved before.
    fn read_exact(&mut self, size: usize) -> (r: Result<Vec<u8>, Error>)
        ensures
            final(self)@.budget == old(self)@.budget,
            size > old(self)@.source.len() ==> r == Err::<Vec<u8>, Error>(Error::EndOfBuffer)
                && final(self)@ == old(self)@,
            size <= old(self)@.source.len() ==> r is Ok && r->Ok_0@ == old(self)@.source.subrange(
                0,
                size as int,
            ) && final(self)@.source == old(self)@.source.subrange(
                size as int,
                old(self)@.source.len() as int,
            ),
    {
        if size > self.reader.len() {
            return Err(Error::EndOfBuffer);
        }
        let buffer = slice_to_vec(slice_subrange(self.reader, 0, size));
        self.reader = slice_subrange(self.reader, size, self.reader.len());
        Ok(buffer)
    }

    /// Leaves out the first `size` bytes of the source.
    fn advance(&mut self, size: usize)
        requires
            size <= old(self)@.source.len(),
        ensures
            final(self)@.budget == old(self)@.budget,
            final(self)@.source == old(self)@.source.subrange(
                size as int,
                old(self)@.source.len() as int,
            ),
    {
        self.reader = slice_subrange(self.reader, size, self.reader.len());
    }

    /// Reads a length prefix: four bytes, little-endian.
    pub fn pop_length(&mut self) -> (r: Result<u32, Error>)
        ensures
            final(self)@ == old(self)@.unsigned(4).state,
            match r {
                Ok(length) => old(self)@.unsigned(4).result == Ok::<nat, Error>(length as nat),
                Err(e) => old(self)@.unsigned(4).result == Err::<nat, Error>(e),
            },
    {
        self.reserve_bytes(4)?;
        match crate::wire::read_u32(self.reader) {
            Some(length) => {
                self.advance(4);
                Ok(length)
            },
            None => Err(Error::EndOfBuffer),
        }
    }

    /// Reads a byte buffer: a length prefix and that many bytes.
    pub fn get_bytes(&mut self) -> (r: Result<Vec<u8>, Error>)
        ensures
            final(self)@ == old(self)@.bytes().state,
            match r {
                Ok(buffer) => old(self)@.bytes().result == Ok::<Seq<u8>, Error>(buffer@),
                Err(e) => old(self)@.bytes().result == Err::<Seq<u8>, Error>(e),
            },
    {
        let length = self.pop_length()?;
        self.reserve_bytes(length)?;
        self.read_exact(length as usize)
    }

    /// Reads a text: a length prefix and that many bytes of UTF-8.
    pub fn get_string(&mut self) -> (r: Result<String, Error>)
        ensures
            final(self)@ == old(self)@.text().state,
            match r {
                Ok(text) => old(self)@.text().result == Ok::<Seq<char>, Error>(text@),
                Err(e) => old(self)@.text().result == Err::<Seq<char>, Error>(e),
            },
    {
        let buffer = self.get_bytes()?;
        match crate::wire::string_from_utf8(buffer) {
            Some(text) => Ok(text),
            None => Err(Error::BadStringData),
        }
    }

    /// Reads a boolean: one byte, `false` where it is zero.
    pub fn deserialize_bool(&mut self) -> (r: Result<bool, Error>)
        ensures
            final(self)@ == old(self)@.unsigned(1).state,
            match r {
                Ok(v) => old(self)@.unsigned(1).result is Ok && v == (old(self)@.unsigned(
                    1,
                ).result->Ok_0 != 0),
                Err(e) => old(self)@.unsigned(1).result == Err::<nat, Error>(e),
            },
    {
        let byte = self.deserialize_u8()?;
        Ok(byte != 0)
    }

    /// Reads one byte.
    pub fn deserialize_u8(&mut self) -> (r: Result<u8, Error>)
        ensures
            final(self)@ == old(self)@.unsigned(1).state,
            match r {
                Ok(v) => old(self)@.unsigned(1).result == Ok::<nat, Error>(v as nat),
                Err(e) => old(self)@.unsigned(1).result == Err::<nat, Error>(e),
            },
    {
        self.reserve_bytes(1)?;
        match crate::wire::read_u8(self.reader) {
            Some(v) => {
                proof {
                    crate::wire::lemma_le_value_single(self@.source.subrange(0, 1));
                }
                self.advance(1);
                Ok(v)
            },
            None => Err(Error::EndOfBuffer),
        }
    }

    /// Reads one byte in two's complement.
    pub fn deserialize_i8(&mut self) -> (r: Result<i8, Error>)
        ensures
            final(self)@ == old(self)@.signed(1).state,
            match r {
                Ok(v) => old(self)@.signed(1).result == Ok::<int, Error>(v as int),
                Err(e) => old(self)@.signed(1).result == Err::<int, Error>(e),
            },
    {
        self.reserve_bytes(1)?;
        match crate::wire::read_i8(self.reader) {
            Some(v) => {
                self.advance(1);
                Ok(v)
            },
            None => Err(Error::EndOfBuffer),
        }
    }

    /// Reads two bytes, little-endian.
    pub fn deserialize_u16(&mut self) -> (r: Result<u16, Error>)
        ensures
            final(self)@ == old(self)@.unsigned(2).state,
            match r {
                Ok(v) => old(self)@.unsigned(2).result == Ok::<nat, Error>(v as nat),
                Err(e) => old(self)@.unsigned(2).result == Err::<nat, Error>(e),
            },
    {
        self.reserve_bytes(2)?;
        match crate::wire::read_u16(self.reader) {
            Some(v) => {
                self.advance(2);
                Ok(v)
            },
            None => Err(Error::EndOfBuffer),
        }
    }

    /// Reads four bytes, little-endian.
    pub fn deserialize_u32(&mut self) -> (r: Result<u32, Error>)
        ensures
            final(self)@ == old(self)@.unsigned(4).state,
            match r {
                Ok(v) => old(self)@.unsigned(4).result == Ok::<nat, Error>(v as nat),
                Err(e) => old(self)@.unsigned(4).result == Err::<nat, Error>(e),
            },
    {
        self.reserve_bytes(4)?;
        match crate::wire::read_u32(self.reader) {
            Some(v) => {
                self.advance(4);
                Ok(v)
            },
            None => Err(Error::EndOfBuffer),
        }
    }

    /// Reads eight bytes, little-endian.
    pub fn deserialize_u64(&mut self) -> (r: Result<u64, Error>)
        ensures
            final(self)@ == old(self)@.unsigned(8).state,
            match r {
                Ok(v) => old(self)@.unsigned(8).result == Ok::<nat, Error>(v as nat),
                Err(e) => old(self)@.unsigned(8).result == Err::<nat, Error>(e),
            },
    {
        self.reserve_bytes(8)?;
        match crate::wire::read_u64(self.reader) {
            Some(v) => {
                self.advance(8);
                Ok(v)
            },
            None => Err(Error::EndOfBuffer),
        }
    }

    /// Reads two bytes in two's complement, little-endian.
    pub fn deserialize_i16(&mut self) -> (r: Result<i16, Error>)
        ensures
            final(self)@ == old(self)@.signed(2).state,
            match r {
                Ok(v) => old(self)@.signed(2).result == Ok::<int, Error>(v as int),
                Err(e) => old(self)@.signed(2).result == Err::<int, Error>(e),
            },
    {
        self.reserve_bytes(2)?;
        match crate::wire::read_i16(self.reader) {
            Some(v) => {
                self.advance(2);
                Ok(v)
            },
            None => Err(Error::EndOfBuffer),
        }
    }

    /// Reads four bytes in two's complement, little-endian.
    pub fn deserialize_i32(&mut self) -> (r: Result<i32, Error>)
        ensures
            final(self)@ == old(self)@.signed(4).state,
            match r {
                Ok(v) => old(self)@.signed(4).result == Ok::<int, Error>(v as int),
                Err(e) => old(self)@.signed(4).result == Err::<int, Error>(e),
            },
    {
        self.reserve_bytes(4)?;
        match crate::wire::read_i32(self.reader) {
            Some(v) => {
                self.advance(4);
                Ok(v)
            },
            None => Err(Error::EndOfBuffer),
        }
    }

    /// Reads eight bytes in two's complement, little-endian.
    pub fn deserialize_i64(&mut self) -> (r: Result<i64, Error>)
        ensures
            final(self)@ == old(self)@.signed(8).state,
            match r {
                Ok(v) => old(self)@.signed(8).result == Ok::<int, Error>(v as int),
                Err(e) => old(self)@.signed(8).result == Err::<int, Error>(e),
            },
    {
        self.reserve_bytes(8)?;
        match crate::wire::read_i64(self.reader) {
            Some(v) => {
                self.advance(8);
                Ok(v)
            },
            None => Err(Error::EndOfBuffer),
        }
    }

    /// Reads the bit pattern of an IEEE-754 single: four bytes, little-endian.
    pub fn deserialize_f32(&mut self) -> (r: Result<u32, Error>)
        ensures
            final(self)@ == old(self)@.unsigned(4).state,
            match r {
                Ok(v) => old(self)@.unsigned(4).result == Ok::<nat, Error>(v as nat),
                Err(e) => old(self)@.unsigned(4).result == Err::<nat, Error>(e),
            },
    {
        self.reserve_bytes(4)?;
        match crate::wire::read_u32(self.reader) {
            Some(v) => {
                self.advance(4);
                Ok(v)
            },
            None => Err(Error::EndOfBuffer),
        }
    }

    /// Reads the bit pattern of an IEEE-754 double: eight bytes, little-endian.
    pub fn deserialize_f64(&mut self) -> (r: Result<u64, Error>)
        ensures
            final(self)@ == old(self)@.unsigned(8).state,
            match r {
                Ok(v) => old(self)@.unsigned(8).result == Ok::<nat, Error>(v as nat),
                Err(e) => old(self)@.unsigned(8).result == Err::<nat, Error>(e),
            },
    {
        self.reserve_bytes(8)?;
        match crate::wire::read_u64(self.reader) {
            Some(v) => {
                self.advance(8);
                Ok(v)
            },
            None => Err(Error::EndOfBuffer),
        }
    }

    /// Reads a sequence: a count, then that many values of the shape
    /// `element`.
    pub fn deserialize_seq(&mut self, element: &Shape) -> (r: Result<Vec<Value>, Error>)
        ensures
            final(self)@ == old(self)@.sequence(*element).state,
            match r {
                Ok(items) => old(self)@.sequence(*element).result == Ok::<Seq<ValueView>, Error>(
                    values_view(items@),
                ),
                Err(e) => old(self)@.sequence(*element).result == Err::<Seq<ValueView>, Error>(e),
            },
        decreases element, 1nat,
    {
        let count = self.pop_length()?;
        let ghost start = self@;
        let mut items: Vec<Value> = Vec::new();
        let mut i: u32 = 0;
        proof {
            lemma_values_view(items@);
            assert(values_view(items@) + start.elements(*element, count as nat).result->Ok_0
                =~= start.elements(*element, count as nat).result->Ok_0);
        }
        while i < count
            invariant
                i <= count,
                old(self)@.unsigned(4).result == Ok::<nat, Error>(count as nat),
                old(self)@.unsigned(4).state == start,
                start.elements(*element, count as nat) == after(
                    values_view(items@),
                    self@.elements(*element, (count - i) as nat),
                ),
            decreases count - i,
        {
            let ghost done = values_view(items@);
            match self.deserialize(element) {
                Ok(item) => {
                    proof {
                        lemma_after_push(
                            done,
                            item@,
                            self@.elements(*element, (count - i - 1) as nat),
                        );
                        lemma_values_view(items@);
                        lemma_values_view(items@.push(item));
                        assert(values_view(items@.push(item)) =~= done.push(item@));
                    }
                    items.push(item);
                },
                Err(e) => {
                    return Err(e);
                },
            }
            i += 1;
        }
        proof {
            assert(values_view(items@) + Seq::<ValueView>::empty() =~= values_view(items@));
        }
        Ok(items)
    }

    /// Reads a tuple or a structure: one value of each of `fields`, in their
    /// order, with no count before them.
    pub fn deserialize_tuple(&mut self, fields: &Vec<Shape>) -> (r: Result<Vec<Value>, Error>)
        ensures
            final(self)@ == old(self)@.fields(fields@, 0).state,
            match r {
                Ok(items) => old(self)@.fields(fields@, 0).result == Ok::<Seq<ValueView>, Error>(
                    values_view(items@),
                ),
                Err(e) => old(self)@.fields(fields@, 0).result == Err::<Seq<ValueView>, Error>(e),
            },
        decreases fields, 1nat,
    {
        let ghost start = self@;
        let mut items: Vec<Value> = Vec::new();
        let mut i: usize = 0;
        proof {
            lemma_values_view(items@);
            assert(values_view(items@) + start.fields(fields@, 0).result->Ok_0
                =~= start.fields(fields@, 0).result->Ok_0);
        }
        while i < fields.len()
            invariant
                i <= fields.len(),
                start == old(self)@,
                start.fields(fields@, 0) == after(
                    values_view(items@),
                    self@.fields(fields@, i as nat),
                ),
            decreases fields.len() - i,
        {
            let ghost done = values_view(items@);
            match self.deserialize(&fields[i]) {
                Ok(item) => {
                    proof {
                        lemma_after_push(done, item@, self@.fields(fields@, (i + 1) as nat));
                        lemma_values_view(items@);
                        lemma_values_view(items@.push(item));
                        assert(values_view(items@.push(item)) =~= done.push(item@));
                    }
                    items.push(item);
                },
                Err(e) => {
                    return Err(e);
                },
            }
            i += 1;
        }
        proof {
            assert(values_view(items@) + Seq::<ValueView>::empty() =~= values_view(items@));
        }
        Ok(items)
    }

    /// Reads the text of one map entry and splits it at its first `=`. Key
    /// and value come back as they would stand on the wire by themselves:
    /// each as a buffer that holds a length prefix and the text.
    pub fn pop_item(&mut self) -> (r: Result<(Vec<u8>, Vec<u8>), Error>)
        ensures
            final(self)@ == old(self)@.item().state,
            match r {
                Ok(pair) => old(self)@.item().result == Ok::<(Seq<u8>, Seq<u8>), Error>(
                    (pair.0@, pair.1@),
                ),
                Err(e) => old(self)@.item().result == Err::<(Seq<u8>, Seq<u8>), Error>(e),
            },
    {
        let data = self.get_string()?;
        let line = data.as_str();
        let bytes = line.as_bytes();
        let mut at: usize = 0;
        while at < bytes.len() && bytes[at] != SEPARATOR
            invariant
                at <= bytes.len(),
                forall|k: int| 0 <= k < at ==> bytes@[k] != SEPARATOR,
            decreases bytes.len() - at,
        {
            at += 1;
        }
        proof {
            lemma_text_len(old(self)@);
            lemma_separator_in_bytes(line@);
        }
        if at == bytes.len() {
            return Err(Error::BadMapEntry);
        }
        proof {
            lemma_cut_at_separator(line@, at as int);
        }
        let (key, rest) = line.split_at(at);
        let (_, value) = rest.split_at(1);
        proof {
            let parts = split_entry(line@)->0;
            lemma_same_text(key@, parts.0);
            lemma_same_text(value@, parts.1);
        }
        let key = value_into_bytes(key)?;
        let value = value_into_bytes(value)?;
        Ok((key, value))
    }

    /// Reads a map: entries `key=value`, each a text, until the budget is
    /// used up. The entries come back in the order of the wire.
    pub fn deserialize_map(&mut self) -> (r: Result<Vec<(String, String)>, Error>)
        ensures
            final(self)@ == old(self)@.entries().state,
            match r {
                Ok(entries) => old(self)@.entries().result == Ok::<
                    Seq<(Seq<char>, Seq<char>)>,
                    Error,
                >(entries_view(entries@)),
                Err(e) => old(self)@.entries().result == Err::<Seq<(Seq<char>, Seq<char>)>, Error>(
                    e,
                ),
            },
    {
        let ghost start = self@;
        let mut entries: Vec<(String, String)> = Vec::new();
        proof {
            assert(entries_view(entries@) + start.entries().result->Ok_0
                =~= start.entries().result->Ok_0);
        }
        while !self.is_fully_read()
            invariant
                start == old(self)@,
                start.entries() == after(entries_view(entries@), self@.entries()),
            decreases self@.budget,
        {
            let ghost before = self@;
            let ghost done = entries_view(entries@);
            let ghost text = before.text().result->Ok_0;
            let (key, value) = self.pop_item()?;
            proof {
                let parts = split_entry(text)->0;
                lemma_text_len(before);
                lemma_split_lengths(text);
                crate::wire::lemma_le_bytes_len(encode_utf8(parts.0).len(), 4);
                crate::wire::lemma_le_bytes_len(encode_utf8(parts.1).len(), 4);
                if encode_utf8(parts.0).len() <= max_part_len() {
                    lemma_text_alone(parts.0);
                }
                if encode_utf8(parts.1).len() <= max_part_len() {
                    lemma_text_alone(parts.1);
                }
            }
            let key = read_alone(&key)?;
            let value = read_alone(&value)?;
            proof {
                let pair = (key@, value@);
                lemma_after_push(done, pair, self@.entries());
                assert(entries_view(entries@.push((key, value))) =~= done.push(pair));
            }
            entries.push((key, value));
        }
        proof {
            assert(entries_view(entries@) + Seq::<(Seq<char>, Seq<char>)>::empty()
                =~= entries_view(entries@));
        }
        Ok(entries)
    }

    /// Reads one value of the given shape. A shape that the format does not
    /// have fails with its own error, whatever the bytes are, and nothing is
    /// read.
    pub fn deserialize(&mut self, shape: &Shape) -> (r: Result<Value, Error>)
        ensures
            unsupported(*shape) is Some ==> r == Err::<Value, Error>(unsupported(*shape)->0)
                && final(self)@ == old(self)@,
            final(self)@ == old(self)@.value(*shape).state,
            match r {
                Ok(value) => old(self)@.value(*shape).result == Ok::<ValueView, Error>(value@),
                Err(e) => old(self)@.value(*shape).result == Err::<ValueView, Error>(e),
            },
        decreases shape, 0nat,
    {
        match shape {
            Shape::Bool => Ok(Value::Bool(self.deserialize_bool()?)),
            Shape::U8 => Ok(Value::U8(self.deserialize_u8()?)),
            Shape::I8 => Ok(Value::I8(self.deserialize_i8()?)),
            Shape::U16 => Ok(Value::U16(self.deserialize_u16()?)),
            Shape::I16 => Ok(Value::I16(self.deserialize_i16()?)),
            Shape::U32 => Ok(Value::U32(self.deserialize_u32()?)),
            Shape::I32 => Ok(Value::I32(self.deserialize_i32()?)),
            Shape::U64 => Ok(Value::U64(self.deserialize_u64()?)),
            Shape::I64 => Ok(Value::I64(self.deserialize_i64()?)),
            Shape::F32 => Ok(Value::F32(self.deserialize_f32()?)),
            Shape::F64 => Ok(Value::F64(self.deserialize_f64()?)),
            Shape::Char => Err(Error::UnsupportedCharType),
            Shape::Text => Ok(Value::Text(self.get_string()?)),
            Shape::Bytes => Ok(Value::Bytes(self.get_bytes()?)),
            Shape::Unit => Ok(Value::Unit),
            Shape::Optional => Err(Error::UnsupportedEnumType),
            Shape::Sequence(element) => Ok(Value::Sequence(self.deserialize_seq(element)?)),
            Shape::Tuple(fields) => Ok(Value::Tuple(self.deserialize_tuple(fields)?)),
            Shape::StringMap => Ok(Value::StringMap(self.deserialize_map()?)),
            Shape::Variant => Err(Error::UnsupportedEnumType),
            Shape::Any => Err(Error::UnsupportedDeserializerMethod("deserialize_any")),
            Shape::Identifier => Err(Error::UnsupportedDeserializerMethod("deserialize_identifier")),
            Shape::IgnoredAny => Err(
                Error::UnsupportedDeserializerMethod("deserialize_ignored_any"),
            ),
        }
    }
}

/// The bytes of a text as it stands on the wire by itself: its length, then
/// its UTF-8 form.
pub fn value_into_bytes(val: &str) -> (r: Result<Vec<u8>, Error>)
    ensures
        encode_utf8(val@).len() <= u32::MAX ==> r is Ok && r->Ok_0@ == text_wire(val@),
        encode_utf8(val@).len() > u32::MAX ==> r == Err::<Vec<u8>, Error>(Error::Overflow),
{
    let mut serializer = Serializer::new(Vec::new());
    serializer.serialize_str(val)?;
    Ok(serializer.into_inner())
}

/// Reads a text from a buffer that holds nothing else, in a scope of its
/// own. A buffer that is longer than a budget can count gives `Overflow`.
fn read_alone(buffer: &Vec<u8>) -> (r: Result<String, Error>)
    ensures
        buffer@.len() > u32::MAX ==> r == Err::<String, Error>(Error::Overflow),
        buffer@.len() <= u32::MAX ==> match r {
            Ok(text) => scope_of(buffer@).text().result == Ok::<Seq<char>, Error>(text@),
            Err(e) => scope_of(buffer@).text().result == Err::<Seq<char>, Error>(e),
        },
{
    let mut deserializer = Deserializer::scoped(buffer.as_slice())?;
    deserializer.get_string()
}

/// What is left of a source after the message at its front was read: the
/// bytes after the last one that the value took. A source too short for a
/// length prefix is left as it is.
pub open spec fn after_message(bytes: Seq<u8>, shape: Shape) -> Seq<u8> {
    if bytes.len() < 4 {
        bytes
    } else {
        body_state(bytes).value(shape).state.source
    }
}

/// Decodes one message of the given shape from the front of `reader`, and
/// leaves `reader` at the first byte that was not read.
///
/// A reader that ends before the length prefix or before the value is read
/// gives `EndOfBuffer`; a value that needs more than the length permits gives
/// `Overflow`; one that leaves some of the length unused gives `Underflow`.
pub fn from_reader<'a>(reader: &mut &'a [u8], shape: &Shape) -> (r: Result<Value, Error>)
    ensures
        match r {
            Ok(value) => decode_message(old(reader)@, *shape) == Ok::<ValueView, Error>(value@),
            Err(e) => decode_message(old(reader)@, *shape) == Err::<ValueView, Error>(e),
        },
        final(reader)@ == after_message(old(reader)@, *shape),
{
    let mut deserializer = Deserializer::framed(*reader)?;
    let value = deserializer.deserialize(shape);
    let end = deserializer.end();
    *reader = deserializer.into_inner();
    let value = value?;
    end?;
    Ok(value)
}

/// Decodes a message of the given shape from `bytes`.
pub fn from_slice(bytes: &[u8], shape: &Shape) -> (r: Result<Value, Error>)
    ensures
        match r {
            Ok(value) => decode_message(bytes@, *shape) == Ok::<ValueView, Error>(value@),
            Err(e) => decode_message(bytes@, *shape) == Err::<ValueView, Error>(e),
        },
{
    let mut reader = bytes;
    from_reader(&mut reader, shape)
}

/// Decodes a message of the given shape from the UTF-8 bytes of `value`.
pub fn from_str(value: &str, shape: &Shape) -> (r: Result<Value, Error>)
    ensures
        match r {
            Ok(decoded) => decode_message(encode_utf8(value@), *shape) == Ok::<ValueView, Error>(
                decoded@,
            ),
            Err(e) => decode_message(encode_utf8(value@), *shape) == Err::<ValueView, Error>(e),
        },
{
    from_slice(value.as_bytes(), shape)
}

} // verus!
