//! The two encodings that every value on the wire is built from:
//! little-endian integers and UTF-8 text.
//!
//! The integer functions are stated over `nat` and `int`; the calls into
//! `byteorder` and into `String::from_utf8` are the only code in this module
//! that Verus does not check.

use byteorder::{LittleEndian, ReadBytesExt, WriteBytesExt};
use vstd::prelude::*;
use vstd::utf8::{decode_utf8, valid_utf8};

verus! {

/// `256` to the power `n`: the number of values that `n` bytes can hold.
pub open spec fn pow256(n: nat) -> nat
    decreases n,
{
    if n == 0 {
        1
    } else {
        256 * pow256((n - 1) as nat)
    }
}

/// The number that `bytes` spell, least significant byte first.
pub open spec fn le_value(bytes: Seq<u8>) -> nat
    decreases bytes.len(),
{
    if bytes.len() == 0 {
        0
    } else {
        bytes[0] as nat + 256 * le_value(bytes.drop_first())
    }
}

/// The `width` low bytes of `value`, least significant byte first.
pub open spec fn le_bytes(value: nat, width: nat) -> Seq<u8>
    decreases width,
{
    if width == 0 {
        Seq::empty()
    } else {
        seq![(value % 256) as u8] + le_bytes(value / 256, (width - 1) as nat)
    }
}

/// The number that `bytes` spell in two's complement, least significant byte
/// first.
pub open spec fn le_signed(bytes: Seq<u8>) -> int {
    if 2 * le_value(bytes) >= pow256(bytes.len()) {
        le_value(bytes) - pow256(bytes.len())
    } else {
        le_value(bytes) as int
    }
}

/// The `width` bytes of `value` in two's complement, least significant byte
/// first.
pub open spec fn le_signed_bytes(value: int, width: nat) -> Seq<u8> {
    if value < 0 {
        le_bytes((value + pow256(width)) as nat, width)
    } else {
        le_bytes(value as nat, width)
    }
}

/// The values of `pow256` at the widths that the format uses.
pub proof fn lemma_pow256_widths()
    ensures
        pow256(0) == 1,
        pow256(1) == 0x100,
        pow256(2) == 0x1_0000,
        pow256(4) == 0x1_0000_0000,
        pow256(8) == 0x1_0000_0000_0000_0000,
{
    reveal_with_fuel(pow256, 9);
}

/// A single byte spells itself.
pub proof fn lemma_le_value_single(bytes: Seq<u8>)
    requires
        bytes.len() == 1,
    ensures
        le_value(bytes) == bytes[0],
{
    reveal_with_fuel(le_value, 2);
}

/// A little-endian number of `n` bytes is below `256` to the `n`.
pub proof fn lemma_le_value_bound(bytes: Seq<u8>)
    ensures
        le_value(bytes) < pow256(bytes.len()),
    decreases bytes.len(),
{
    if bytes.len() != 0 {
        lemma_le_value_bound(bytes.drop_first());
    }
}

/// `le_bytes` gives exactly `width` bytes.
pub proof fn lemma_le_bytes_len(value: nat, width: nat)
    ensures
        le_bytes(value, width).len() == width,
    decreases width,
{
    if width != 0 {
        lemma_le_bytes_len(value / 256, (width - 1) as nat);
    }
}

/// Reading back the bytes of a number that fits gives the number.
pub proof fn lemma_le_value_of_bytes(value: nat, width: nat)
    requires
        value < pow256(width),
    ensures
        le_value(le_bytes(value, width)) == value,
    decreases width,
{
    if width != 0 {
        let rest = le_bytes(value / 256, (width - 1) as nat);
        let all = le_bytes(value, width);
        lemma_le_value_of_bytes(value / 256, (width - 1) as nat);
        lemma_le_bytes_len(value / 256, (width - 1) as nat);
        assert(all.drop_first() =~= rest);
        assert(all[0] == (value % 256) as u8);
    }
}

/// Two's complement is read back as it was written, for every number that
/// `width` bytes can hold.
pub proof fn lemma_le_signed_of_bytes(value: int, width: nat)
    requires
        width > 0,
        -(pow256(width) as int) <= 2 * value < pow256(width),
    ensures
        le_signed_bytes(value, width).len() == width,
        le_signed(le_signed_bytes(value, width)) == value,
{
    if value < 0 {
        lemma_le_bytes_len((value + pow256(width)) as nat, width);
        lemma_le_value_of_bytes((value + pow256(width)) as nat, width);
    } else {
        lemma_le_bytes_len(value as nat, width);
        lemma_le_value_of_bytes(value as nat, width);
    }
}

/// `byteorder::ReadBytesExt::read_u8` on a byte slice: the first byte of
/// `source`, or `None` where `source` is empty.
#[verifier::external_body]
pub(crate) fn read_u8(source: &[u8]) -> (r: Option<u8>)
    ensures
        source@.len() < 1 ==> r is None,
        source@.len() >= 1 ==> r == Some(source@[0]),
{
    let mut reader = source;
    reader.read_u8().ok()
}

/// `byteorder::ReadBytesExt::read_i8` on a byte slice: the first byte of
/// `source` in two's complement, or `None` where `source` is empty.
#[verifier::external_body]
pub(crate) fn read_i8(source: &[u8]) -> (r: Option<i8>)
    ensures
        source@.len() < 1 ==> r is None,
        source@.len() >= 1 ==> r is Some && (r->0) as int == le_signed(source@.subrange(0, 1)),
{
    let mut reader = source;
    reader.read_i8().ok()
}

/// `byteorder::ReadBytesExt::read_u16::<LittleEndian>` on a byte slice: the
/// number in the first two bytes of `source`, or `None` where it is shorter.
#[verifier::external_body]
pub(crate) fn read_u16(source: &[u8]) -> (r: Option<u16>)
    ensures
        source@.len() < 2 ==> r is None,
        source@.len() >= 2 ==> r is Some && (r->0) as nat == le_value(source@.subrange(0, 2)),
{
    let mut reader = source;
    reader.read_u16::<LittleEndian>().ok()
}

/// `byteorder::ReadBytesExt::read_i16::<LittleEndian>` on a byte slice: the
/// two's complement number in the first two bytes of `source`, or `None`
/// where it is shorter.
#[verifier::external_body]
pub(crate) fn read_i16(source: &[u8]) -> (r: Option<i16>)
    ensures
        source@.len() < 2 ==> r is None,
        source@.len() >= 2 ==> r is Some && (r->0) as int == le_signed(source@.subrange(0, 2)),
{
    let mut reader = source;
    reader.read_i16::<LittleEndian>().ok()
}

/// `byteorder::ReadBytesExt::read_u32::<LittleEndian>` on a byte slice: the
/// number in the first four bytes of `source`, or `None` where it is shorter.
#[verifier::external_body]
pub(crate) fn read_u32(source: &[u8]) -> (r: Option<u32>)
    ensures
        source@.len() < 4 ==> r is None,
        source@.len() >= 4 ==> r is Some && (r->0) as nat == le_value(source@.subrange(0, 4)),
{
    let mut reader = source;
    reader.read_u32::<LittleEndian>().ok()
}

/// `byteorder::ReadBytesExt::read_i32::<LittleEndian>` on a byte slice: the
/// two's complement number in the first four bytes of `source`, or `None`
/// where it is shorter.
#[verifier::external_body]
pub(crate) fn read_i32(source: &[u8]) -> (r: Option<i32>)
    ensures
        source@.len() < 4 ==> r is None,
        source@.len() >= 4 ==> r is Some && (r->0) as int == le_signed(source@.subrange(0, 4)),
{
    let mut reader = source;
    reader.read_i32::<LittleEndian>().ok()
}

/// `byteorder::ReadBytesExt::read_u64::<LittleEndian>` on a byte slice: the
/// number in the first eight bytes of `source`, or `None` where it is
/// shorter.
#[verifier::external_body]
pub(crate) fn read_u64(source: &[u8]) -> (r: Option<u64>)
    ensures
        source@.len() < 8 ==> r is None,
        source@.len() >= 8 ==> r is Some && (r->0) as nat == le_value(source@.subrange(0, 8)),
{
    let mut reader = source;
    reader.read_u64::<LittleEndian>().ok()
}

/// `byteorder::ReadBytesExt::read_i64::<LittleEndian>` on a byte slice: the
/// two's complement number in the first eight bytes of `source`, or `None`
/// where it is shorter.
#[verifier::external_body]
pub(crate) fn read_i64(source: &[u8]) -> (r: Option<i64>)
    ensures
        source@.len() < 8 ==> r is None,
        source@.len() >= 8 ==> r is Some && (r->0) as int == le_signed(source@.subrange(0, 8)),
{
    let mut reader = source;
    reader.read_i64::<LittleEndian>().ok()
}

/// `byteorder::WriteBytesExt::write_u8` on a vector: `value` is appended.
#[verifier::external_body]
pub(crate) fn write_u8(sink: &mut Vec<u8>, value: u8)
    ensures
        final(sink)@ == old(sink)@.push(value),
{
    sink.write_u8(value).unwrap()
}

/// `byteorder::WriteBytesExt::write_i8` on a vector: the byte that holds
/// `value` in two's complement is appended.
#[verifier::external_body]
pub(crate) fn write_i8(sink: &mut Vec<u8>, value: i8)
    ensures
        final(sink)@ == old(sink)@ + le_signed_bytes(value as int, 1),
{
    sink.write_i8(value).unwrap()
}

/// `byteorder::WriteBytesExt::write_u16::<LittleEndian>` on a vector: the two
/// bytes of `value` are appended, least significant first.
#[verifier::external_body]
pub(crate) fn write_u16(sink: &mut Vec<u8>, value: u16)
    ensures
        final(sink)@ == old(sink)@ + le_bytes(value as nat, 2),
{
    sink.write_u16::<LittleEndian>(value).unwrap()
}

/// `byteorder::WriteBytesExt::write_i16::<LittleEndian>` on a vector: the two
/// bytes of `value` in two's complement are appended, least significant
/// first.
#[verifier::external_body]
pub(crate) fn write_i16(sink: &mut Vec<u8>, value: i16)
    ensures
        final(sink)@ == old(sink)@ + le_signed_bytes(value as int, 2),
{
    sink.write_i16::<LittleEndian>(value).unwrap()
}

/// `byteorder::WriteBytesExt::write_u32::<LittleEndian>` on a vector: the
/// four bytes of `value` are appended, least significant first.
#[verifier::external_body]
pub(crate) fn write_u32(sink: &mut Vec<u8>, value: u32)
    ensures
        final(sink)@ == old(sink)@ + le_bytes(value as nat, 4),
{
    sink.write_u32::<LittleEndian>(value).unwrap()
}

/// `byteorder::WriteBytesExt::write_i32::<LittleEndian>` on a vector: the
/// four bytes of `value` in two's complement are appended, least significant
/// first.
#[verifier::external_body]
pub(crate) fn write_i32(sink: &mut Vec<u8>, value: i32)
    ensures
        final(sink)@ == old(sink)@ + le_signed_bytes(value as int, 4),
{
    sink.write_i32::<LittleEndian>(value).unwrap()
}

/// `byteorder::WriteBytesExt::write_u64::<LittleEndian>` on a vector: the
/// eight bytes of `value` are appended, least significant first.
#[verifier::external_body]
pub(crate) fn write_u64(sink: &mut Vec<u8>, value: u64)
    ensures
        final(sink)@ == old(sink)@ + le_bytes(value as nat, 8),
{
    sink.write_u64::<LittleEndian>(value).unwrap()
}

/// `byteorder::WriteBytesExt::write_i64::<LittleEndian>` on a vector: the
/// eight bytes of `value` in two's complement are appended, least
/// significant first.
#[verifier::external_body]
pub(crate) fn write_i64(sink: &mut Vec<u8>, value: i64)
    ensures
        final(sink)@ == old(sink)@ + le_signed_bytes(value as int, 8),
{
    sink.write_i64::<LittleEndian>(value).unwrap()
}

/// `String::from_utf8`: the text that `bytes` encode, or `None` where they
/// are not valid UTF-8.
#[verifier::external_body]
pub(crate) fn string_from_utf8(bytes: Vec<u8>) -> (r: Option<String>)
    ensures
        !valid_utf8(bytes@) ==> r is None,
        valid_utf8(bytes@) ==> r is Some && (r->0)@ == decode_utf8(bytes@),
{
    String::from_utf8(bytes).ok()
}

} // verus!
