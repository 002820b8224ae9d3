//! Facts about UTF-8 that the map entries rest on: where a text is split at
//! its first `=`, its bytes are split at their first `0x3d`.

use vstd::prelude::*;
use vstd::utf8::{
    char_is_scalar, char_u32_cast, decode_utf8, encode_scalar, encode_utf8,
    encode_utf8_first_scalar, has_width_1_encoding, is_char_boundary, is_continuation_byte,
};

verus! {

/// The byte that stands for `=`.
pub const SEPARATOR: u8 = 0x3d;

/// The place of the first `=` in `text`, or the length of `text` where it
/// holds none.
pub open spec fn separator_index(text: Seq<char>) -> int
    decreases text.len(),
{
    if text.len() == 0 {
        0
    } else if text[0] == '=' {
        0
    } else {
        1 + separator_index(text.drop_first())
    }
}

/// `separator_index` names the first `=`: none stands before it.
pub proof fn lemma_separator_index(text: Seq<char>)
    ensures
        0 <= separator_index(text) <= text.len(),
        separator_index(text) < text.len() ==> text[separator_index(text)] == '=',
        forall|k: int| 0 <= k < separator_index(text) ==> text[k] != '=',
    decreases text.len(),
{
    if text.len() != 0 && text[0] != '=' {
        let rest = text.drop_first();
        lemma_separator_index(rest);
        assert forall|k: int| 0 <= k < separator_index(text) implies text[k] != '=' by {
            if k > 0 {
                assert(text[k] == rest[k - 1]);
            }
        }
    }
}

/// The UTF-8 form of two texts joined is their UTF-8 forms joined.
pub proof fn lemma_encode_concat(a: Seq<char>, b: Seq<char>)
    ensures
        encode_utf8(a + b) == encode_utf8(a) + encode_utf8(b),
    decreases a.len(),
{
    if a.len() == 0 {
        assert(a + b =~= b);
        assert(encode_utf8(a) =~= Seq::<u8>::empty());
        assert(encode_utf8(a) + encode_utf8(b) =~= encode_utf8(b));
    } else {
        lemma_encode_concat(a.drop_first(), b);
        assert((a + b).drop_first() =~= a.drop_first() + b);
        assert((a + b)[0] == a[0]);
        assert(encode_utf8(a + b) =~= encode_utf8(a) + encode_utf8(b));
    }
}

/// The UTF-8 form of one character.
pub open spec fn char_bytes(c: char) -> Seq<u8> {
    encode_scalar(c as u32)
}

/// In UTF-8 only `=` is written with the byte `0x3d`, and `=` is written
/// with that byte alone.
pub proof fn lemma_scalar_bytes(c: char)
    ensures
        char_bytes(c).len() >= 1,
        c == '=' ==> char_bytes(c) == seq![SEPARATOR],
        c != '=' ==> forall|k: int|
            0 <= k < char_bytes(c).len() ==> #[trigger] char_bytes(c)[k] != SEPARATOR,
{
    let s = c as u32;
    char_is_scalar(c);
    assert(forall|t: u8| (0xC0u8 | t) != 0x3du8 && (0xE0u8 | t) != 0x3du8 && (0xF0u8 | t) != 0x3du8
        && (0x80u8 | t) != 0x3du8) by (bit_vector);
    if has_width_1_encoding(s) {
        assert(s <= 0x7F ==> s & 0x7F == s) by (bit_vector);
        if c == '=' {
            assert(s == 0x3d);
            assert(encode_scalar(s) =~= seq![SEPARATOR]);
        } else {
            if s == 0x3d {
                char_u32_cast(c, s);
                char_u32_cast('=', 0x3du32);
            }
            assert(s != 0x3d);
        }
    } else {
        assert(c != '=');
    }
}

/// The text of a map entry: key and value with `=` between them.
pub open spec fn entry_text(entry: (Seq<char>, Seq<char>)) -> Seq<char> {
    entry.0 + seq!['='] + entry.1
}

/// The UTF-8 form of a map entry is that of its key, the byte `0x3d`, and
/// that of its value.
pub proof fn lemma_entry_text_bytes(entry: (Seq<char>, Seq<char>))
    ensures
        encode_utf8(entry_text(entry)) == encode_utf8(entry.0) + seq![SEPARATOR] + encode_utf8(
            entry.1,
        ),
{
    let mid = seq!['='];
    lemma_encode_concat(entry.0 + mid, entry.1);
    lemma_encode_concat(entry.0, mid);
    lemma_scalar_bytes('=');
    assert(mid.drop_first() =~= Seq::<char>::empty());
    assert(encode_utf8(mid.drop_first()) =~= Seq::<u8>::empty());
    assert(encode_utf8(mid) =~= char_bytes('=') + encode_utf8(mid.drop_first()));
    assert(encode_utf8(mid) =~= seq![SEPARATOR]);
}

/// The bytes of a text hold `0x3d` first where the text holds `=` first: at
/// the end of the UTF-8 form of what stands before.
pub proof fn lemma_separator_in_bytes(text: Seq<char>)
    ensures
        ({
            let at = separator_index(text);
            let bytes = encode_utf8(text);
            let split = encode_utf8(text.subrange(0, at)).len() as int;
            &&& 0 <= at <= text.len()
            &&& split <= bytes.len()
            &&& forall|k: int| 0 <= k < split ==> bytes[k] != SEPARATOR
            &&& at < text.len() ==> split < bytes.len() && bytes[split] == SEPARATOR
            &&& at == text.len() ==> split == bytes.len()
        }),
    decreases text.len(),
{
    let at = separator_index(text);
    let bytes = encode_utf8(text);
    lemma_separator_index(text);
    if text.len() == 0 {
        assert(text.subrange(0, at) =~= text);
    } else if text[0] == '=' {
        lemma_scalar_bytes(text[0]);
        assert(text.subrange(0, 0) =~= Seq::<char>::empty());
        assert(bytes[0] == SEPARATOR);
    } else {
        let rest = text.drop_first();
        let head = char_bytes(text[0]);
        lemma_separator_in_bytes(rest);
        lemma_separator_index(rest);
        lemma_scalar_bytes(text[0]);
        let front = text.subrange(0, at);
        assert(front.drop_first() =~= rest.subrange(0, at - 1));
        assert(front[0] == text[0]);
        assert(encode_utf8(front) =~= head + encode_utf8(rest.subrange(0, at - 1)));
        assert(bytes =~= head + encode_utf8(rest));
        let split = encode_utf8(front).len() as int;
        assert forall|k: int| 0 <= k < split implies bytes[k] != SEPARATOR by {
            if k >= head.len() {
                assert(bytes[k] == encode_utf8(rest)[k - head.len()]);
            } else {
                assert(bytes[k] == head[k]);
            }
        }
        if at < text.len() {
            assert(bytes[split] == encode_utf8(rest)[split - head.len()]);
        }
    }
}

/// What stands before the first `=` of a text and what stands after it, or
/// `None` where the text holds no `=`.
pub open spec fn split_entry(text: Seq<char>) -> Option<(Seq<char>, Seq<char>)> {
    let at = separator_index(text);
    if at >= text.len() {
        None
    } else {
        Some((text.subrange(0, at), text.subrange(at + 1, text.len() as int)))
    }
}


/// Key and value of an entry are shorter than the entry: its bytes are
/// theirs and one more.
pub proof fn lemma_split_lengths(text: Seq<char>)
    requires
        split_entry(text) is Some,
    ensures
        ({
            let parts = split_entry(text)->0;
            encode_utf8(text).len() == encode_utf8(parts.0).len() + 1 + encode_utf8(
                parts.1,
            ).len()
        }),
{
    let parts = split_entry(text)->0;
    lemma_separator_index(text);
    assert(text =~= entry_text(parts));
    lemma_entry_text_bytes(parts);
}

/// Texts with the same UTF-8 form are the same text.
pub proof fn lemma_same_text(a: Seq<char>, b: Seq<char>)
    requires
        encode_utf8(a) == encode_utf8(b),
    ensures
        a == b,
{
    broadcast use vstd::utf8::encode_utf8_decode_utf8;

    assert(decode_utf8(encode_utf8(a)) == a);
    assert(decode_utf8(encode_utf8(b)) == b);
}

/// The bytes of a text, cut at their first `0x3d`, are the bytes of the key
/// and, after one more byte, those of the value; and both cuts fall between
/// characters.
pub proof fn lemma_cut_at_separator(text: Seq<char>, at: int)
    requires
        0 <= at < encode_utf8(text).len(),
        encode_utf8(text)[at] == SEPARATOR,
        forall|k: int| 0 <= k < at ==> encode_utf8(text)[k] != SEPARATOR,
    ensures
        split_entry(text) is Some,
        ({
            let bytes = encode_utf8(text);
            let back = bytes.subrange(at, bytes.len() as int);
            let parts = split_entry(text)->0;
            &&& is_char_boundary(bytes, at)
            &&& bytes.subrange(0, at) == encode_utf8(parts.0)
            &&& is_char_boundary(back, 1)
            &&& back.subrange(1, back.len() as int) == encode_utf8(parts.1)
        }),
{
    broadcast use
        vstd::utf8::encode_utf8_valid_utf8,
        vstd::utf8::is_char_boundary_iff_not_is_continuation_byte,
        vstd::utf8::is_char_boundary_start_end_of_seq,
    ;

    let bytes = encode_utf8(text);
    let cut = separator_index(text);
    lemma_separator_in_bytes(text);
    lemma_separator_index(text);
    assert(at == encode_utf8(text.subrange(0, cut)).len());
    assert(!is_continuation_byte(bytes[at]));
    let key = text.subrange(0, cut);
    let rest = text.subrange(cut, text.len() as int);
    let value = text.subrange(cut + 1, text.len() as int);
    assert(text =~= key + rest);
    lemma_encode_concat(key, rest);
    assert(bytes.subrange(0, at) =~= encode_utf8(key));
    let back = bytes.subrange(at, bytes.len() as int);
    assert(back =~= encode_utf8(rest));
    assert(rest =~= entry_text((Seq::<char>::empty(), value)));
    lemma_entry_text_bytes((Seq::<char>::empty(), value));
    assert(encode_utf8(Seq::<char>::empty()) =~= Seq::<u8>::empty());
    assert(back =~= seq![SEPARATOR] + encode_utf8(value));
    if back.len() > 1 {
        encode_utf8_first_scalar(value);
        assert(back[1] == encode_utf8(value)[0]);
        assert(!is_continuation_byte(back[1]));
    }
    assert(back.subrange(1, back.len() as int) =~= encode_utf8(value));
}

} // verus!
