//! The mathematical model: text as a sequence of characters, its encoding as a
//! sequence of bytes, and the facts that tie code-point start bytes to
//! characters.

use vstd::prelude::*;
use vstd::utf8::*;

verus! {

/// A byte starts a new code point unless its two high-order bits are exactly
/// `10`, the mark of a continuation byte.
pub open spec fn is_start_byte(b: u8) -> bool {
    b & 0xC0 != 0x80
}

/// The number of code-point start bytes in `bytes`.
pub open spec fn count_starts(bytes: Seq<u8>) -> nat
    decreases bytes.len(),
{
    if bytes.len() == 0 {
        0
    } else {
        count_starts(bytes.drop_last()) + if is_start_byte(bytes.last()) {
            1nat
        } else {
            0nat
        }
    }
}

/// A character offset clamped to the number of characters `n`.
pub open spec fn clamp_index(index: int, n: int) -> int {
    if index < 0 {
        0
    } else if index < n {
        index
    } else {
        n
    }
}

/// The characters `[0, index)` of `chars`; all of them when `index` is at or
/// past the end.
pub open spec fn chars_before(chars: Seq<char>, index: int) -> Seq<char> {
    chars.take(clamp_index(index, chars.len() as int))
}

/// The characters of `chars` from `index` on; none when `index` is at or past
/// the end.
pub open spec fn chars_after(chars: Seq<char>, index: int) -> Seq<char> {
    chars.skip(clamp_index(index, chars.len() as int))
}

/// The byte offset at which character `index` of `chars` begins in the
/// encoding of `chars`: the encoded length of the characters before it.
pub open spec fn byte_offset(chars: Seq<char>, index: int) -> int {
    encode_utf8(chars_before(chars, index)).len() as int
}

/// `chars` with the characters `[index, index + len)` taken out and `text` put
/// in their place. Both ends of the range are clamped to the end of `chars`.
pub open spec fn replaced(chars: Seq<char>, index: int, len: int, text: Seq<char>) -> Seq<char> {
    chars_before(chars, index) + text + chars_after(chars, index + len)
}

/// A byte is a start byte exactly when it is not a continuation byte.
pub proof fn lemma_start_byte_ranges(b: u8)
    ensures
        is_start_byte(b) <==> !is_continuation_byte(b),
        is_start_byte(b) <==> (b < 0x80 || b >= 0xC0),
{
    assert((b & 0xC0 != 0x80) <==> (b < 0x80 || b >= 0xC0)) by (bit_vector);
}

/// Start bytes are counted part by part.
pub proof fn lemma_count_starts_concat(a: Seq<u8>, b: Seq<u8>)
    ensures
        count_starts(a + b) == count_starts(a) + count_starts(b),
    decreases b.len(),
{
    if b.len() == 0 {
        assert(a + b =~= a);
    } else {
        assert((a + b).drop_last() =~= a + b.drop_last());
        assert((a + b).last() == b.last());
        lemma_count_starts_concat(a, b.drop_last());
    }
}

/// A run of continuation bytes holds no start byte.
pub proof fn lemma_count_starts_continuations(bytes: Seq<u8>)
    requires
        forall|i: int| 0 <= i < bytes.len() ==> !is_start_byte(#[trigger] bytes[i]),
    ensures
        count_starts(bytes) == 0,
    decreases bytes.len(),
{
    if bytes.len() > 0 {
        lemma_count_starts_continuations(bytes.drop_last());
    }
}

/// The encoding of one scalar holds exactly one start byte: its first.
pub proof fn lemma_count_starts_first_scalar(bytes: Seq<u8>)
    requires
        valid_first_scalar(bytes),
    ensures
        count_starts(take_first_scalar(bytes)) == 1,
{
    let first = take_first_scalar(bytes);
    let head = first.take(1);
    let tail = first.skip(1);
    assert forall|i: int| 0 <= i < first.len() implies (is_start_byte(#[trigger] first[i]) <==> i
        == 0) by {
        lemma_start_byte_ranges(first[i]);
    }
    assert(first =~= head + tail);
    lemma_count_starts_concat(head, tail);
    lemma_count_starts_continuations(tail);
    assert(head.drop_last() =~= Seq::<u8>::empty());
    assert(count_starts(head.drop_last()) == 0);
    assert(head.last() == first[0]);
}

/// In well-formed UTF-8 the number of start bytes is the number of characters.
pub proof fn lemma_count_starts_is_char_count(bytes: Seq<u8>)
    requires
        valid_utf8(bytes),
    ensures
        count_starts(bytes) == decode_utf8(bytes).len(),
    decreases bytes.len(),
{
    if bytes.len() > 0 {
        let rest = pop_first_scalar(bytes);
        lemma_count_starts_first_scalar(bytes);
        lemma_count_starts_is_char_count(rest);
        assert(bytes =~= take_first_scalar(bytes) + rest);
        lemma_count_starts_concat(take_first_scalar(bytes), rest);
    }
}

/// The number of start bytes in the encoding of `chars` is `chars.len()`.
pub proof fn lemma_count_starts_encode(chars: Seq<char>)
    ensures
        count_starts(encode_utf8(chars)) == chars.len(),
{
    encode_utf8_valid_utf8(chars);
    encode_utf8_decode_utf8(chars);
    lemma_count_starts_is_char_count(encode_utf8(chars));
}

/// A byte position that is the end of the encoding, or at which a start byte
/// stands, cuts the encoding of `chars` into the encodings of two adjacent
/// parts of `chars`; the first part holds as many characters as there are
/// start bytes before the position.
pub proof fn lemma_start_position_splits(chars: Seq<char>, pos: int)
    requires
        0 <= pos <= encode_utf8(chars).len(),
        pos == encode_utf8(chars).len() || is_start_byte(encode_utf8(chars)[pos]),
    ensures
        is_char_boundary(encode_utf8(chars), pos),
        count_starts(encode_utf8(chars).subrange(0, pos)) <= chars.len(),
        encode_utf8(chars).subrange(0, pos) == encode_utf8(
            chars.take(count_starts(encode_utf8(chars).subrange(0, pos)) as int),
        ),
        encode_utf8(chars).subrange(pos, encode_utf8(chars).len() as int) == encode_utf8(
            chars.skip(count_starts(encode_utf8(chars).subrange(0, pos)) as int),
        ),
{
    let bytes = encode_utf8(chars);
    let pre = bytes.subrange(0, pos);
    let suf = bytes.subrange(pos, bytes.len() as int);
    encode_utf8_valid_utf8(chars);
    encode_utf8_decode_utf8(chars);
    if pos < bytes.len() {
        lemma_start_byte_ranges(bytes[pos]);
        is_char_boundary_iff_not_is_continuation_byte(bytes, pos);
    } else {
        is_char_boundary_start_end_of_seq(bytes);
    }
    valid_utf8_split(bytes, pos);
    decode_utf8_split(bytes, pos);
    lemma_count_starts_is_char_count(pre);
    let k = count_starts(pre) as int;
    assert(chars =~= decode_utf8(pre) + decode_utf8(suf));
    assert(chars.take(k) =~= decode_utf8(pre));
    assert(chars.skip(k) =~= decode_utf8(suf));
    decode_utf8_encode_utf8(pre);
    decode_utf8_encode_utf8(suf);
}

/// Skipping `len` characters of what follows character `index` leaves what
/// follows character `index + len`.
pub proof fn lemma_chars_after_twice(chars: Seq<char>, index: int, len: int)
    requires
        0 <= index,
        0 <= len,
    ensures
        chars_after(chars_after(chars, index), len) == chars_after(chars, index + len),
{
    assert(chars_after(chars_after(chars, index), len) =~= chars_after(chars, index + len));
}

} // verus!
