//! The boundary locator: from a character offset to a byte offset.

use vstd::prelude::*;
use vstd::string::StringSliceAdditionalSpecFns;
use vstd::utf8::*;
use crate::model::{
    byte_offset, chars_after, chars_before, clamp_index, count_starts, is_start_byte,
    lemma_count_starts_concat, lemma_count_starts_encode, lemma_start_position_splits,
};

verus! {

/// Whether `b` is the first byte of a code point.
pub fn starts_code_point(b: u8) -> (r: bool)
    ensures
        r == is_start_byte(b),
{
    b & 0xC0 != 0x80
}

/// The byte offset at which character `char_index` of `string` begins, or the
/// byte length of `string` when `char_index` is at or past its character
/// count.
///
/// One pass over the bytes: every byte advances the byte position, every start
/// byte advances the character count, and the scan stops at the start byte of
/// the character asked for.
pub fn byte_index(string: &str, char_index: usize) -> (offset: usize)
    ensures
        offset as int == byte_offset(string@, char_index as int),
        offset <= string.spec_bytes().len(),
        is_char_boundary(string.spec_bytes(), offset as int),
        count_starts(string.spec_bytes().subrange(0, offset as int)) == clamp_index(
            char_index as int,
            string@.len() as int,
        ),
        offset < string.spec_bytes().len() ==> is_start_byte(string.spec_bytes()[offset as int]),
        string.spec_bytes().subrange(0, offset as int) == encode_utf8(
            chars_before(string@, char_index as int),
        ),
        string.spec_bytes().subrange(offset as int, string.spec_bytes().len() as int)
            == encode_utf8(chars_after(string@, char_index as int)),
        char_index == 0 || string@.len() == 0 ==> offset == 0,
        char_index >= string@.len() ==> offset == string.spec_bytes().len(),
{
    let bytes = string.as_bytes();
    let mut bidx: usize = 0;
    let mut cidx: usize = 0;
    while bidx < bytes.len()
        invariant
            bidx <= bytes@.len(),
            cidx <= char_index,
            cidx == count_starts(bytes@.subrange(0, bidx as int)),
        ensures
            bidx <= bytes@.len(),
            cidx <= char_index,
            cidx == count_starts(bytes@.subrange(0, bidx as int)),
            bidx == bytes@.len() || (is_start_byte(bytes@[bidx as int]) && cidx == char_index),
        decreases bytes@.len() - bidx,
    {
        let starts = starts_code_point(bytes[bidx]);
        if starts && cidx == char_index {
            break ;
        }
        proof {
            assert(bytes@.subrange(0, bidx + 1).drop_last() =~= bytes@.subrange(0, bidx as int));
        }
        if starts {
            cidx += 1;
        }
        bidx += 1;
    }
    proof {
        let all = string.spec_bytes();
        let pre = all.subrange(0, bidx as int);
        let suf = all.subrange(bidx as int, all.len() as int);
        lemma_count_starts_encode(string@);
        assert(all =~= pre + suf);
        lemma_count_starts_concat(pre, suf);
        lemma_start_position_splits(string@, bidx as int);
    }
    bidx
}

} // verus!
