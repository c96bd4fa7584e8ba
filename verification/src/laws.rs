//! What holds of the operations for every text and every offset, stated over
//! the model that their contracts use.

use vstd::prelude::*;
use vstd::utf8::*;
use crate::model::{
    byte_offset, chars_after, chars_before, count_starts, is_start_byte, lemma_count_starts_encode,
    lemma_start_byte_ranges, replaced,
};

verus! {

/// Encoding distributes over concatenation: the encoding of two texts joined
/// is the two encodings joined.
pub proof fn lemma_encode_concat(a: Seq<char>, b: Seq<char>)
    ensures
        encode_utf8(a + b) == encode_utf8(a) + encode_utf8(b),
    decreases a.len(),
{
    if a.len() == 0 {
        assert(a + b =~= b);
        assert(encode_utf8(a) + encode_utf8(b) =~= encode_utf8(b));
    } else {
        assert((a + b).drop_first() =~= a.drop_first() + b);
        lemma_encode_concat(a.drop_first(), b);
        assert(encode_utf8(a + b) =~= encode_utf8(a) + encode_utf8(b));
    }
}

/// The two parts of a split, joined again, are the text that was split: as
/// characters and byte for byte.
pub proof fn lemma_split_rejoins(chars: Seq<char>, index: int)
    ensures
        chars_before(chars, index) + chars_after(chars, index) == chars,
        encode_utf8(chars_before(chars, index)) + encode_utf8(chars_after(chars, index))
            == encode_utf8(chars),
{
    assert(chars_before(chars, index) + chars_after(chars, index) =~= chars);
    lemma_encode_concat(chars_before(chars, index), chars_after(chars, index));
}

/// A split at offset 0 has an empty first part; a split at or past the number
/// of characters has an empty second part, and the whole text as its first.
pub proof fn lemma_split_clamps(chars: Seq<char>, index: int)
    ensures
        index <= 0 ==> chars_before(chars, index).len() == 0 && chars_after(chars, index) == chars,
        index >= chars.len() ==> chars_after(chars, index).len() == 0 && chars_before(chars, index)
            == chars,
{
    if index <= 0 {
        assert(chars_after(chars, index) =~= chars);
    }
    if index >= chars.len() {
        assert(chars_before(chars, index) =~= chars);
    }
}

/// The byte offset of every character offset lies on a code-point boundary of
/// the encoding: at its end, or at a start byte. The byte offset of the
/// character count, and of every offset past it, is the byte length.
pub proof fn lemma_byte_offset_is_boundary(chars: Seq<char>, index: int)
    ensures
        0 <= byte_offset(chars, index) <= encode_utf8(chars).len(),
        is_char_boundary(encode_utf8(chars), byte_offset(chars, index)),
        byte_offset(chars, index) < encode_utf8(chars).len() ==> is_start_byte(
            encode_utf8(chars)[byte_offset(chars, index)],
        ),
        index <= 0 ==> byte_offset(chars, index) == 0,
        index >= chars.len() ==> byte_offset(chars, index) == encode_utf8(chars).len(),
{
    let before = chars_before(chars, index);
    let after = chars_after(chars, index);
    let bytes = encode_utf8(chars);
    let pos = byte_offset(chars, index);
    lemma_split_rejoins(chars, index);
    lemma_split_clamps(chars, index);
    encode_utf8_valid_utf8(chars);
    assert(bytes.len() == encode_utf8(before).len() + encode_utf8(after).len());
    if after.len() == 0 {
        assert(pos == bytes.len());
        is_char_boundary_start_end_of_seq(bytes);
    } else {
        encode_utf8_first_scalar(after);
        assert(bytes[pos] == encode_utf8(after)[0]);
        lemma_start_byte_ranges(bytes[pos]);
        is_char_boundary_iff_not_is_continuation_byte(bytes, pos);
    }
}

/// Byte offsets grow with character offsets.
pub proof fn lemma_byte_offset_monotonic(chars: Seq<char>, i: int, j: int)
    requires
        i <= j,
    ensures
        byte_offset(chars, i) <= byte_offset(chars, j),
{
    let a = chars_before(chars, i);
    let b = chars_before(chars, j);
    assert(b =~= a + b.skip(a.len() as int));
    lemma_encode_concat(a, b.skip(a.len() as int));
}

/// The character count is the number of start bytes of the encoding; for text
/// of single-byte characters alone it is the byte length.
pub proof fn lemma_char_count(chars: Seq<char>)
    ensures
        chars.len() == count_starts(encode_utf8(chars)),
        is_ascii_chars(chars) ==> chars.len() == encode_utf8(chars).len(),
{
    lemma_count_starts_encode(chars);
    if is_ascii_chars(chars) {
        is_ascii_chars_encode_utf8(chars);
    }
}

/// Replacing no characters by the empty text changes nothing, at any offset.
pub proof fn lemma_replace_nothing(chars: Seq<char>, index: int)
    ensures
        replaced(chars, index, 0, Seq::<char>::empty()) == chars,
{
    assert(replaced(chars, index, 0, Seq::<char>::empty()) =~= chars);
}

/// With no characters removed, a replacement is an insertion at `index`; with
/// the empty text put in, it is a deletion; with a range that reaches the end
/// of the text, nothing of the text follows the new text.
pub proof fn lemma_replace_insert_delete(chars: Seq<char>, index: int, len: int, text: Seq<char>)
    requires
        0 <= index,
        0 <= len,
    ensures
        replaced(chars, index, 0, text) == chars_before(chars, index) + text + chars_after(
            chars,
            index,
        ),
        replaced(chars, index, len, Seq::<char>::empty()) == chars_before(chars, index)
            + chars_after(chars, index + len),
        index + len >= chars.len() ==> replaced(chars, index, len, text) == chars_before(
            chars,
            index,
        ) + text,
{
    assert(replaced(chars, index, len, Seq::<char>::empty()) =~= chars_before(chars, index)
        + chars_after(chars, index + len));
    if index + len >= chars.len() {
        assert(replaced(chars, index, len, text) =~= chars_before(chars, index) + text);
    }
}

} // verus!
