//! Length, split and replace, in units of characters.

use vstd::prelude::*;
use vstd::string::{is_ascii, StringExecFns, StringSliceAdditionalSpecFns};
use vstd::utf8::*;
use crate::locate::{byte_index, starts_code_point};
use crate::model::{
    byte_offset, chars_after, chars_before, count_starts, lemma_chars_after_twice,
    lemma_count_starts_encode, replaced,
};

verus! {

/// Character-indexed operations on encoded text.
///
/// Offsets and lengths count Unicode scalar values. An offset or a length that
/// reaches past the end of the text is clamped to the end; no operation fails.
pub trait CharFns {
    /// The text as the sequence of its characters.
    spec fn char_seq(&self) -> Seq<char>;

    /// The number of characters in the text.
    fn char_len(&self) -> (n: usize)
        ensures
            n == self.char_seq().len(),
    ;

    /// Splits the text at character offset `index` into the characters
    /// `[0, index)` and the rest.
    fn char_split(&self, index: usize) -> (parts: (&str, &str))
        ensures
            parts.0@ == chars_before(self.char_seq(), index as int),
            parts.1@ == chars_after(self.char_seq(), index as int),
            parts.0@ + parts.1@ == self.char_seq(),
            index == 0 ==> parts.0@.len() == 0,
            index >= self.char_seq().len() ==> parts.1@.len() == 0,
    ;

    /// Replaces the characters `[index, index + len)` by `text`, which is
    /// copied as it is, and returns the result as a new string.
    fn char_replace(&self, index: usize, len: usize, text: &str) -> (result: String)
        ensures
            result@ == replaced(self.char_seq(), index as int, len as int, text@),
            len == 0 && text@.len() == 0 ==> result@ == self.char_seq(),
    ;
}

impl CharFns for str {
    open spec fn char_seq(&self) -> Seq<char> {
        self@
    }

    /// A single counting pass over the bytes: one character per start byte.
    fn char_len(&self) -> (n: usize)
        ensures
            n == count_starts(self.spec_bytes()),
            is_ascii(self) ==> n == self.spec_bytes().len(),
    {
        let bytes = self.as_bytes();
        let mut count: usize = 0;
        let mut i: usize = 0;
        while i < bytes.len()
            invariant
                i <= bytes@.len(),
                count <= i,
                count == count_starts(bytes@.subrange(0, i as int)),
            decreases bytes@.len() - i,
        {
            proof {
                assert(bytes@.subrange(0, i + 1).drop_last() =~= bytes@.subrange(0, i as int));
            }
            if starts_code_point(bytes[i]) {
                count += 1;
            }
            i += 1;
        }
        proof {
            assert(bytes@.subrange(0, i as int) =~= bytes@);
            lemma_count_starts_encode(self@);
            if is_ascii(self) {
                is_ascii_chars_encode_utf8(self@);
            }
        }
        count
    }

    fn char_split(&self, index: usize) -> (parts: (&str, &str))
        ensures
            parts.0.spec_bytes() + parts.1.spec_bytes() == self.spec_bytes(),
            parts.0.spec_bytes().len() == byte_offset(self@, index as int),
    {
        let parts = self.split_at(byte_index(self, index));
        proof {
            encode_utf8_decode_utf8(parts.0@);
            encode_utf8_decode_utf8(parts.1@);
            encode_utf8_decode_utf8(chars_before(self@, index as int));
            encode_utf8_decode_utf8(chars_after(self@, index as int));
            assert(chars_before(self@, index as int) + chars_after(self@, index as int) =~= self@);
            assert(parts.0.spec_bytes() + parts.1.spec_bytes() =~= self.spec_bytes());
        }
        parts
    }

    fn char_replace(&self, index: usize, len: usize, text: &str) -> (result: String) {
        let (pre, remaining) = self.char_split(index);
        let (_, post) = remaining.char_split(len);
        let mut result = String::from_str(pre);
        result.append(text);
        result.append(post);
        proof {
            lemma_chars_after_twice(self@, index as int, len as int);
            if len == 0 && text@.len() == 0 {
                assert(result@ =~= self@);
            }
        }
        result
    }
}

} // verus!
