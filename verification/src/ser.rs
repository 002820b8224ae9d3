//! Encoding values as ROSMSG bytes.
//!
//! [`wire`] says what the bytes of a value are. A [`Serializer`] appends
//! them to a buffer, and [`to_vec`] frames them as a message.

use crate::error::Error;
use crate::text::{entry_text, lemma_entry_text_bytes};
use crate::value::{entries_view, lemma_values_view, values_view, Value, ValueView};
use crate::wire::{le_bytes, le_signed_bytes};
use vstd::prelude::*;
use vstd::string::StringExecFns;
use vstd::utf8::encode_utf8;

verus! {

/// The largest number that a length prefix can hold.
pub open spec fn max_len() -> nat {
    u32::MAX as nat
}

/// A byte buffer on the wire: its length in four bytes, then the bytes.
pub open spec fn bytes_wire(bytes: Seq<u8>) -> Seq<u8> {
    le_bytes(bytes.len(), 4) + bytes
}

/// A text on the wire: the length of its UTF-8 form in four bytes, then
/// that form.
pub open spec fn text_wire(text: Seq<char>) -> Seq<u8> {
    bytes_wire(encode_utf8(text))
}

/// The entries of a map on the wire, one text after another.
pub open spec fn entries_wire(entries: Seq<(Seq<char>, Seq<char>)>) -> Seq<u8>
    decreases entries.len(),
{
    if entries.len() == 0 {
        Seq::empty()
    } else {
        text_wire(entry_text(entries[0])) + entries_wire(entries.drop_first())
    }
}

/// The values of a list on the wire, one after another.
pub open spec fn wire_all(items: Seq<ValueView>) -> Seq<u8>
    decreases items, 0nat,
{
    if items.len() == 0 {
        Seq::empty()
    } else {
        wire(items[0]) + wire_all(items.drop_first())
    }
}

/// The bytes of a value on the wire, without the frame of a message.
pub open spec fn wire(value: ValueView) -> Seq<u8>
    decreases value, 1nat,
{
    match value {
        ValueView::Bool(b) => seq![if b { 1u8 } else { 0u8 }],
        ValueView::U8(x) => seq![x],
        ValueView::I8(x) => le_signed_bytes(x as int, 1),
        ValueView::U16(x) => le_bytes(x as nat, 2),
        ValueView::I16(x) => le_signed_bytes(x as int, 2),
        ValueView::U32(x) => le_bytes(x as nat, 4),
        ValueView::I32(x) => le_signed_bytes(x as int, 4),
        ValueView::U64(x) => le_bytes(x as nat, 8),
        ValueView::I64(x) => le_signed_bytes(x as int, 8),
        ValueView::F32(bits) => le_bytes(bits as nat, 4),
        ValueView::F64(bits) => le_bytes(bits as nat, 8),
        ValueView::Text(text) => text_wire(text),
        ValueView::Bytes(bytes) => bytes_wire(bytes),
        ValueView::Unit => Seq::empty(),
        ValueView::Sequence(items) => le_bytes(items.len(), 4) + wire_all(items),
        ValueView::Tuple(items) => wire_all(items),
        ValueView::StringMap(entries) => entries_wire(entries),
    }
}

/// Whether the text of a map entry is short enough for a length prefix.
pub open spec fn entry_fits_prefix(entry: (Seq<char>, Seq<char>)) -> bool {
    encode_utf8(entry_text(entry)).len() <= max_len()
}

/// Whether every entry of a map is short enough for a length prefix.
pub open spec fn entries_fit_prefix(entries: Seq<(Seq<char>, Seq<char>)>) -> bool {
    forall|i: int| 0 <= i < entries.len() ==> entry_fits_prefix(#[trigger] entries[i])
}

/// Whether every value of a list fits.
pub open spec fn all_fit_prefix(items: Seq<ValueView>) -> bool
    decreases items, 0nat,
{
    forall|i: int| 0 <= i < items.len() ==> fits(#[trigger] items[i])
}

/// Whether every length and every count in a value can be written as a
/// prefix of four bytes.
pub open spec fn fits(value: ValueView) -> bool
    decreases value, 1nat,
{
    match value {
        ValueView::Text(text) => encode_utf8(text).len() <= max_len(),
        ValueView::Bytes(bytes) => bytes.len() <= max_len(),
        ValueView::Sequence(items) => items.len() <= max_len() && all_fit_prefix(items),
        ValueView::Tuple(items) => all_fit_prefix(items),
        ValueView::StringMap(entries) => entries_fit_prefix(entries),
        _ => true,
    }
}

/// Whether a value can be sent as a message: its prefixes fit, and so does
/// the length of the whole.
pub open spec fn encodable(value: ValueView) -> bool {
    fits(value) && wire(value).len() <= max_len()
}

/// A message: the length of a value's bytes in four bytes, then the bytes.
pub open spec fn message(value: ValueView) -> Seq<u8> {
    bytes_wire(wire(value))
}

/// The bytes of a list are those of its front followed by those of its last
/// value.
pub proof fn lemma_wire_all_push(items: Seq<ValueView>, last: ValueView)
    ensures
        wire_all(items.push(last)) == wire_all(items) + wire(last),
    decreases items.len(),
{
    let all = items.push(last);
    if items.len() == 0 {
        assert(all.drop_first() =~= Seq::<ValueView>::empty());
        assert(wire_all(all) =~= wire(last) + wire_all(all.drop_first()));
        assert(wire_all(all) =~= wire_all(items) + wire(last));
    } else {
        lemma_wire_all_push(items.drop_first(), last);
        assert(all.drop_first() =~= items.drop_first().push(last));
        assert(wire_all(all) =~= wire_all(items) + wire(last));
    }
}

/// The bytes of a map are those of its front followed by those of its last
/// entry.
pub proof fn lemma_entries_wire_push(
    entries: Seq<(Seq<char>, Seq<char>)>,
    last: (Seq<char>, Seq<char>),
)
    ensures
        entries_wire(entries.push(last)) == entries_wire(entries) + text_wire(entry_text(last)),
    decreases entries.len(),
{
    let all = entries.push(last);
    if entries.len() == 0 {
        assert(all.drop_first() =~= Seq::<(Seq<char>, Seq<char>)>::empty());
        assert(entries_wire(all) =~= text_wire(entry_text(last)) + entries_wire(
            all.drop_first(),
        ));
        assert(entries_wire(all) =~= entries_wire(entries) + text_wire(entry_text(last)));
    } else {
        lemma_entries_wire_push(entries.drop_first(), last);
        assert(all.drop_first() =~= entries.drop_first().push(last));
        assert(entries_wire(all) =~= entries_wire(entries) + text_wire(entry_text(last)));
    }
}

/// A writer of ROSMSG data into a byte buffer.
///
/// The serializer does not write the length prefix of a message.
pub struct Serializer {
    writer: Vec<u8>,
}

impl View for Serializer {
    type V = Seq<u8>;

    closed spec fn view(&self) -> Seq<u8> {
        self.writer@
    }
}

impl Serializer {
    /// A serializer that appends to `writer`.
    pub fn new(writer: Vec<u8>) -> (ser: Self)
        ensures
            ser@ == writer@,
    {
        Serializer { writer }
    }

    /// Gives back the buffer with all that was written.
    pub fn into_inner(self) -> (writer: Vec<u8>)
        ensures
            writer@ == self@,
    {
        self.writer
    }

    /// Writes a length or a count as a prefix of four bytes. One that four
    /// bytes cannot hold fails with `Overflow`, and nothing is written.
    pub fn write_size(&mut self, len: usize) -> (r: Result<(), Error>)
        ensures
            len <= max_len() ==> r is Ok && final(self)@ == old(self)@ + le_bytes(len as nat, 4),
            len > max_len() ==> r == Err::<(), Error>(Error::Overflow) && final(self)@ == old(
                self,
            )@,
    {
        if len > u32::MAX as usize {
            return Err(Error::Overflow);
        }
        self.put_size(len);
        Ok(())
    }

    /// Writes a length or a count that four bytes can hold.
    fn put_size(&mut self, len: usize)
        requires
            len <= max_len(),
        ensures
            final(self)@ == old(self)@ + le_bytes(len as nat, 4),
    {
        crate::wire::write_u32(&mut self.writer, len as u32);
    }

    /// Writes a byte buffer whose length four bytes can hold.
    fn put_bytes(&mut self, v: &[u8])
        requires
            v@.len() <= max_len(),
        ensures
            final(self)@ == old(self)@ + bytes_wire(v@),
    {
        self.put_size(v.len());
        let mut body = vstd::slice::slice_to_vec(v);
        self.writer.append(&mut body);
        assert(self.writer@ =~= old(self)@ + bytes_wire(v@));
    }

    /// Writes a boolean as one byte, `1` or `0`.
    pub fn serialize_bool(&mut self, v: bool)
        ensures
            final(self)@ == old(self)@ + wire(ValueView::Bool(v)),
    {
        crate::wire::write_u8(&mut self.writer, if v { 1 } else { 0 });
    }

    /// Writes one byte.
    pub fn serialize_u8(&mut self, v: u8)
        ensures
            final(self)@ == old(self)@ + wire(ValueView::U8(v)),
    {
        crate::wire::write_u8(&mut self.writer, v);
    }

    /// Writes one byte in two's complement.
    pub fn serialize_i8(&mut self, v: i8)
        ensures
            final(self)@ == old(self)@ + wire(ValueView::I8(v)),
    {
        crate::wire::write_i8(&mut self.writer, v);
    }

    /// Writes two bytes, little-endian.
    pub fn serialize_u16(&mut self, v: u16)
        ensures
            final(self)@ == old(self)@ + wire(ValueView::U16(v)),
    {
        crate::wire::write_u16(&mut self.writer, v);
    }

    /// Writes two bytes in two's complement, little-endian.
    pub fn serialize_i16(&mut self, v: i16)
        ensures
            final(self)@ == old(self)@ + wire(ValueView::I16(v)),
    {
        crate::wire::write_i16(&mut self.writer, v);
    }

    /// Writes four bytes, little-endian.
    pub fn serialize_u32(&mut self, v: u32)
        ensures
            final(self)@ == old(self)@ + wire(ValueView::U32(v)),
    {
        crate::wire::write_u32(&mut self.writer, v);
    }

    /// Writes four bytes in two's complement, little-endian.
    pub fn serialize_i32(&mut self, v: i32)
        ensures
            final(self)@ == old(self)@ + wire(ValueView::I32(v)),
    {
        crate::wire::write_i32(&mut self.writer, v);
    }

    /// Writes eight bytes, little-endian.
    pub fn serialize_u64(&mut self, v: u64)
        ensures
            final(self)@ == old(self)@ + wire(ValueView::U64(v)),
    {
        crate::wire::write_u64(&mut self.writer, v);
    }

    /// Writes eight bytes in two's complement, little-endian.
    pub fn serialize_i64(&mut self, v: i64)
        ensures
            final(self)@ == old(self)@ + wire(ValueView::I64(v)),
    {
        crate::wire::write_i64(&mut self.writer, v);
    }

    /// Writes the bit pattern of an IEEE-754 single: four bytes,
    /// little-endian.
    pub fn serialize_f32(&mut self, bits: u32)
        ensures
            final(self)@ == old(self)@ + wire(ValueView::F32(bits)),
    {
        crate::wire::write_u32(&mut self.writer, bits);
    }

    /// Writes the bit pattern of an IEEE-754 double: eight bytes,
    /// little-endian.
    pub fn serialize_f64(&mut self, bits: u64)
        ensures
            final(self)@ == old(self)@ + wire(ValueView::F64(bits)),
    {
        crate::wire::write_u64(&mut self.writer, bits);
    }

    /// Writes a byte buffer: its length, then its bytes. A buffer whose
    /// length four bytes cannot hold fails with `Overflow`, and nothing is
    /// written.
    pub fn serialize_bytes(&mut self, v: &[u8]) -> (r: Result<(), Error>)
        ensures
            v@.len() <= max_len() ==> r is Ok && final(self)@ == old(self)@ + bytes_wire(v@),
            v@.len() > max_len() ==> r == Err::<(), Error>(Error::Overflow) && final(self)@
                == old(self)@,
    {
        if v.len() > u32::MAX as usize {
            return Err(Error::Overflow);
        }
        self.put_bytes(v);
        Ok(())
    }

    /// Writes a text: the length of its UTF-8 form, then that form. A text
    /// whose length four bytes cannot hold fails with `Overflow`, and nothing
    /// is written.
    pub fn serialize_str(&mut self, v: &str) -> (r: Result<(), Error>)
        ensures
            encode_utf8(v@).len() <= max_len() ==> r is Ok && final(self)@ == old(self)@
                + text_wire(v@),
            encode_utf8(v@).len() > max_len() ==> r == Err::<(), Error>(Error::Overflow)
                && final(self)@ == old(self)@,
    {
        self.serialize_bytes(v.as_bytes())
    }

    /// Writes a map entry: key and value with `=` between them, as one text.
    /// An entry whose length four bytes cannot hold fails with `Overflow`,
    /// and nothing is written.
    pub fn serialize_entry(&mut self, key: &str, value: &str) -> (r: Result<(), Error>)
        ensures
            entry_fits_prefix((key@, value@)) ==> r is Ok && final(self)@ == old(self)@
                + text_wire(entry_text((key@, value@))),
            !entry_fits_prefix((key@, value@)) ==> r == Err::<(), Error>(Error::Overflow)
                && final(self)@ == old(self)@,
    {
        if !entry_fits(key, value) {
            return Err(Error::Overflow);
        }
        self.put_entry(key, value);
        Ok(())
    }

    /// Writes a map entry whose length four bytes can hold.
    fn put_entry(&mut self, key: &str, value: &str)
        requires
            encode_utf8(entry_text((key@, value@))).len() <= max_len(),
        ensures
            final(self)@ == old(self)@ + text_wire(entry_text((key@, value@))),
    {
        let mut line = String::new();
        line.append(key);
        line.append("=");
        line.append(value);
        proof {
            reveal_strlit("=");
            assert("="@ =~= seq!['=']);
            assert(line@ =~= entry_text((key@, value@)));
        }
        self.put_bytes(line.as_str().as_bytes());
    }

    /// Writes the entries of a map, one text after another.
    fn put_entries(&mut self, entries: &Vec<(String, String)>)
        requires
            fits(ValueView::StringMap(entries_view(entries@))),
        ensures
            final(self)@ == old(self)@ + entries_wire(entries_view(entries@)),
    {
        let ghost all = entries_view(entries@);
        let mut i: usize = 0;
        while i < entries.len()
            invariant
                i <= entries.len(),
                all == entries_view(entries@),
                fits(ValueView::StringMap(all)),
                self@ == old(self)@ + entries_wire(all.subrange(0, i as int)),
            decreases entries.len() - i,
        {
            let entry = &entries[i];
            proof {
                assert(all[i as int] == (entry.0@, entry.1@));
                assert(entry_fits_prefix(all[i as int]));
                lemma_entries_wire_push(all.subrange(0, i as int), all[i as int]);
                assert(all.subrange(0, i as int).push(all[i as int]) =~= all.subrange(
                    0,
                    i + 1,
                ));
            }
            self.put_entry(entry.0.as_str(), entry.1.as_str());
            i += 1;
        }
        assert(all.subrange(0, entries.len() as int) =~= all);
    }

    /// Writes the values of a list, one after another.
    fn put_all(&mut self, items: &Vec<Value>)
        requires
            all_fit_prefix(values_view(items@)),
        ensures
            final(self)@ == old(self)@ + wire_all(values_view(items@)),
        decreases items, 0nat,
    {
        let ghost all = values_view(items@);
        let mut i: usize = 0;
        while i < items.len()
            invariant
                i <= items.len(),
                all == values_view(items@),
                all_fit_prefix(all),
                self@ == old(self)@ + wire_all(all.subrange(0, i as int)),
            decreases items.len() - i,
        {
            proof {
                assert(all[i as int] == items@[i as int]@);
                lemma_wire_all_push(all.subrange(0, i as int), all[i as int]);
                assert(all.subrange(0, i as int).push(all[i as int]) =~= all.subrange(
                    0,
                    i + 1,
                ));
            }
            self.put_value(&items[i]);
            i += 1;
        }
        assert(all.subrange(0, items.len() as int) =~= all);
    }

    /// Writes a value whose prefixes fit.
    fn put_value(&mut self, value: &Value)
        requires
            fits(value@),
        ensures
            final(self)@ == old(self)@ + wire(value@),
        decreases value, 1nat,
    {
        proof {
            match value {
                Value::Sequence(items) => lemma_values_view(items@),
                Value::Tuple(items) => lemma_values_view(items@),
                _ => {},
            }
        }
        match value {
            Value::Bool(v) => self.serialize_bool(*v),
            Value::U8(v) => self.serialize_u8(*v),
            Value::I8(v) => self.serialize_i8(*v),
            Value::U16(v) => self.serialize_u16(*v),
            Value::I16(v) => self.serialize_i16(*v),
            Value::U32(v) => self.serialize_u32(*v),
            Value::I32(v) => self.serialize_i32(*v),
            Value::U64(v) => self.serialize_u64(*v),
            Value::I64(v) => self.serialize_i64(*v),
            Value::F32(bits) => self.serialize_f32(*bits),
            Value::F64(bits) => self.serialize_f64(*bits),
            Value::Text(text) => self.put_bytes(text.as_str().as_bytes()),
            Value::Bytes(bytes) => self.put_bytes(bytes.as_slice()),
            Value::Unit => {},
            Value::Sequence(items) => {
                self.put_size(items.len());
                self.put_all(items);
            },
            Value::Tuple(items) => self.put_all(items),
            Value::StringMap(entries) => self.put_entries(entries),
        }
    }

    /// Writes a value. Where a length or a count in it is more than four
    /// bytes can hold, the call fails with `Overflow` and nothing is written.
    pub fn serialize(&mut self, value: &Value) -> (r: Result<(), Error>)
        ensures
            fits(value@) ==> r is Ok && final(self)@ == old(self)@ + wire(value@),
            !fits(value@) ==> r == Err::<(), Error>(Error::Overflow) && final(self)@ == old(
                self,
            )@,
    {
        if !value_fits(value) {
            return Err(Error::Overflow);
        }
        self.put_value(value);
        Ok(())
    }
}

/// Whether the UTF-8 form of a map entry is short enough for a prefix.
fn entry_fits(key: &str, value: &str) -> (r: bool)
    ensures
        r == (encode_utf8(entry_text((key@, value@))).len() <= max_len()),
{
    let key_len = key.as_bytes().len();
    let value_len = value.as_bytes().len();
    proof {
        lemma_entry_text_bytes((key@, value@));
    }
    let max = u32::MAX as usize;
    key_len < max && value_len < max - key_len
}

/// Whether every entry of a map is short enough for a prefix.
fn entries_fit(entries: &Vec<(String, String)>) -> (r: bool)
    ensures
        r == fits(ValueView::StringMap(entries_view(entries@))),
{
    let ghost all = entries_view(entries@);
    let mut i: usize = 0;
    while i < entries.len()
        invariant
            i <= entries.len(),
            all == entries_view(entries@),
            forall|k: int| 0 <= k < i ==> entry_fits_prefix(#[trigger] all[k]),
        decreases entries.len() - i,
    {
        let entry = &entries[i];
        assert(all[i as int] == (entry.0@, entry.1@));
        if !entry_fits(entry.0.as_str(), entry.1.as_str()) {
            assert(!entry_fits_prefix(all[i as int]));
            return false;
        }
        i += 1;
    }
    true
}

/// Whether the prefixes of every value of a list fit.
fn all_fit(items: &Vec<Value>) -> (r: bool)
    ensures
        r == all_fit_prefix(values_view(items@)),
    decreases items, 0nat,
{
    let ghost all = values_view(items@);
    let mut i: usize = 0;
    while i < items.len()
        invariant
            i <= items.len(),
            all == values_view(items@),
            forall|k: int| 0 <= k < i ==> fits(#[trigger] all[k]),
        decreases items.len() - i,
    {
        assert(all[i as int] == items@[i as int]@);
        if !value_fits(&items[i]) {
            return false;
        }
        i += 1;
    }
    true
}

/// Whether every length and every count in a value fits a prefix.
fn value_fits(value: &Value) -> (r: bool)
    ensures
        r == fits(value@),
    decreases value, 1nat,
{
    proof {
        if let Value::Sequence(items) = value {
            lemma_values_view(items@);
        }
    }
    match value {
        Value::Text(text) => text.as_str().as_bytes().len() <= u32::MAX as usize,
        Value::Bytes(bytes) => bytes.len() <= u32::MAX as usize,
        Value::Sequence(items) => items.len() <= u32::MAX as usize && all_fit(items),
        Value::Tuple(items) => all_fit(items),
        Value::StringMap(entries) => entries_fit(entries),
        _ => true,
    }
}

/// Frames the bytes of a value as a message: their length, then the bytes.
/// Bytes that are more than a length prefix can count give `Overflow`.
pub fn frame(body: &[u8]) -> (r: Result<Vec<u8>, Error>)
    ensures
        body@.len() <= max_len() ==> r is Ok && r->Ok_0@ == bytes_wire(body@),
        body@.len() > max_len() ==> r == Err::<Vec<u8>, Error>(Error::Overflow),
{
    let mut framed = Serializer::new(Vec::new());
    framed.serialize_bytes(body)?;
    Ok(framed.into_inner())
}

/// Encodes a value as a message: the length of its bytes, then the bytes.
/// A value that holds a length or a count of more than four bytes, or whose
/// bytes are more than a length prefix can count, gives `Overflow`.
pub fn to_vec(value: &Value) -> (r: Result<Vec<u8>, Error>)
    ensures
        encodable(value@) ==> r is Ok && r->Ok_0@ == message(value@),
        !encodable(value@) ==> r == Err::<Vec<u8>, Error>(Error::Overflow),
{
    let mut body = Serializer::new(Vec::new());
    body.serialize(value)?;
    frame(body.into_inner().as_slice())
}

} // verus!
