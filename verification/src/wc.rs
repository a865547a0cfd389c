//! Counting the bytes, lines, words and characters of a text.
use crate::lines::{is_white_space, lines_of, split_lines, words_in};
use crate::text::chars_of;
use vstd::prelude::*;

verus! {

/// The number of bytes.
pub fn count_bytes(bytes: &[u8]) -> (n: usize)
    ensures
        n == bytes@.len(),
{
    bytes.len()
}

/// The number of lines of `text`: a final line ending adds no empty line.
pub fn count_lines(text: &str) -> (n: usize)
    ensures
        n == lines_of(text@).len(),
{
    let cs = chars_of(text);
    let ls = split_lines(&cs);
    ls.len()
}

/// Whether `c` is white space (Unicode's White_Space property).
fn is_space(c: char) -> (b: bool)
    ensures
        b == is_white_space(c),
{
    let u = c as u32;
    (0x9 <= u && u <= 0xD) || u == 0x20 || u == 0x85 || u == 0xA0 || u == 0x1680 || (0x2000 <= u
        && u <= 0x200A) || u == 0x2028 || u == 0x2029 || u == 0x202F || u == 0x205F || u == 0x3000
}

/// The number of words of `text`: runs of characters that are not white space.
pub fn count_words(text: &str) -> (n: usize)
    ensures
        n == words_in(text@),
{
    let cs = chars_of(text);
    let len = cs.len();
    let mut n: usize = 0;
    let mut i: usize = 0;
    while i < len
        invariant
            len == cs@.len(),
            i <= len,
            n == words_in(cs@.take(i as int)),
            n <= i,
        decreases len - i,
    {
        proof {
            assert(cs@.take(i + 1).drop_last() =~= cs@.take(i as int));
        }
        let starts = !is_space(cs[i]) && (i == 0 || is_space(cs[i - 1]));
        if starts {
            n = n + 1;
        }
        i = i + 1;
    }
    proof {
        assert(cs@.take(len as int) =~= text@);
    }
    n
}

/// The number of characters of `text`.
pub fn count_chars(text: &str) -> (n: usize)
    ensures
        n == text@.len(),
{
    chars_of(text).len()
}

} // verus!
