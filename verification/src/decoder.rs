//! Huffman decoding: reading the header, rebuilding the tree from the frequencies and
//! walking the tree along the bits of the content.
use crate::bits::{bits_of_bytes, max_code_bits, msb0_bits};
use crate::header::{be_u32_at, read_entries, spec_read_header, HeaderError, SpecHeader};
use crate::text::{char_from_code, is_char_code, string_from_chars};
use crate::tree::{build_huffman_tree, create_pq, is_full, is_huffman_tree_for, map_total, HuffmanNode, TreeError};
use std::collections::HashMap;
use vstd::prelude::*;

verus! {

broadcast use vstd::std_specs::hash::group_hash_axioms;

/// The header of a compressed file, as read.
#[derive(Debug, PartialEq)]
pub struct Header {
    pub char_count: u32,
    pub total_char_count: u32,
    /// Frequencies keyed by character code point.
    pub freq_map: HashMap<u32, u32>,
    /// Where the content starts.
    pub offset_end: usize,
}

impl Header {
    /// What the header says, as a value of the model.
    pub open spec fn spec_header(&self) -> SpecHeader {
        SpecHeader {
            char_count: self.char_count,
            total_char_count: self.total_char_count,
            freq_map: self.freq_map@,
            offset_end: self.offset_end as int,
        }
    }
}

/// Why decoding failed.
#[derive(Debug, PartialEq, Eq, Clone, Copy)]
pub enum DecodeError {
    /// The header could not be read.
    Header(HeaderError),
    /// The tree could not be built.
    Tree(TreeError),
    /// A leaf without a character was reached.
    NoCharacterInLeaf,
    /// The bits lead to a child the tree does not have.
    TreeMismatch,
}

/// The end of decoding: a leaf reached last gives its character.
pub open spec fn finish(trav: HuffmanNode, out: Seq<char>) -> Result<Seq<char>, DecodeError> {
    if trav.spec_is_leaf() {
        match trav.character {
            Some(c) => Ok(out.push(c)),
            None => Err(DecodeError::NoCharacterInLeaf),
        }
    } else {
        Ok(out)
    }
}

/// Decoding from bit `i`, standing at `trav` with `count` characters emitted into `out`.
/// Before each bit: once `total` characters are out, decoding ends; a leaf emits its
/// character and decoding goes back to the root; then the bit picks the right child
/// (`true`) or the left one (`false`). When the bits run out, a leaf reached last is
/// emitted too.
pub open spec fn decode_run(
    root: HuffmanNode,
    bits: Seq<bool>,
    i: int,
    total: int,
    trav: HuffmanNode,
    count: int,
    out: Seq<char>,
) -> Result<Seq<char>, DecodeError>
    decreases bits.len() - i,
{
    if i < 0 || i >= bits.len() || count >= total {
        finish(trav, out)
    } else {
        let step: Result<(HuffmanNode, int, Seq<char>), DecodeError> = if trav.spec_is_leaf() {
            match trav.character {
                Some(c) => Ok((root, count + 1, out.push(c))),
                None => Err(DecodeError::NoCharacterInLeaf),
            }
        } else {
            Ok((trav, count, out))
        };
        match step {
            Err(e) => Err(e),
            Ok(st) => {
                let next = if bits[i] {
                    st.0.right_child
                } else {
                    st.0.left_child
                };
                match next {
                    None => Err(DecodeError::TreeMismatch),
                    Some(b) => decode_run(root, bits, i + 1, total, *b, st.1, st.2),
                }
            },
        }
    }
}

/// The text that the bits decode to with the tree, `total` characters expected.
pub open spec fn spec_decode_text(root: HuffmanNode, bits: Seq<bool>, total: int) -> Result<Seq<char>, DecodeError> {
    decode_run(root, bits, 0, total, root, 0, Seq::empty())
}

/// A decoding result as the library returns it matches one of the model.
pub open spec fn text_result_is(r: Result<String, DecodeError>, s: Result<Seq<char>, DecodeError>) -> bool {
    match r {
        Ok(t) => s matches Ok(u) && t@ == u,
        Err(e) => s == Err::<Seq<char>, DecodeError>(e),
    }
}

/// The content after a header at `offset_end` has no more bytes than `max_code_bits()`
/// bits fill, the most a bit-slice can be made over.
pub open spec fn content_fits(raw: Seq<u8>, offset_end: int) -> bool {
    raw.len() - offset_end <= (max_code_bits() + 7) / 8
}

/// The frequencies of a readable header add up to at most `u32::MAX` (the tree's inner
/// frequencies are sums of them, computed in `u32`), and the content after it has no more
/// bits than a bit-slice can hold.
pub open spec fn decodable(raw: Seq<u8>) -> bool {
    spec_read_header(raw) matches Ok(h) ==> map_total(h.freq_map) <= u32::MAX && content_fits(
        raw,
        h.offset_end,
    )
}

/// The big-endian `u32` at `off`.
fn be_u32(raw: &[u8], off: usize) -> (x: u32)
    requires
        off + 4 <= raw@.len(),
    ensures
        x == be_u32_at(raw@, off as int),
{
    (raw[off] as u32) * 0x100_0000 + (raw[off + 1] as u32) * 0x1_0000 + (raw[off + 2] as u32) * 0x100
        + (raw[off + 3] as u32)
}

proof fn lemma_read_entries_codes(raw: Seq<u8>, remaining: nat, off: int, m: Map<u32, u32>)
    requires
        m.dom().finite(),
        forall|k: u32| #[trigger] m.contains_key(k) ==> is_char_code(k),
    ensures
        read_entries(raw, remaining, off, m) matches Ok(res) ==> res.0.dom().finite() && forall|k: u32|
            #[trigger] res.0.contains_key(k) ==> is_char_code(k),
    decreases remaining,
{
    if remaining > 0 && off + 8 <= raw.len() && is_char_code(be_u32_at(raw, off)) {
        lemma_read_entries_codes(raw, (remaining - 1) as nat, off + 8, m.insert(be_u32_at(raw, off), be_u32_at(raw, off + 4)));
    }
}

/// Decompresses files written by the encoder. The paths are those of the files that the
/// program reads and writes; the library itself only computes.
#[derive(Clone)]
pub struct Decoder<'a> {
    input_file_path: Option<&'a str>,
    output_file_path: String,
}

impl<'a> Default for Decoder<'a> {
    fn default() -> (d: Self)
        ensures
            d.spec_input_file_path() is None,
            d.spec_output_file_path().len() == 0,
    {
        Decoder { input_file_path: None, output_file_path: String::new() }
    }
}

impl<'a> Decoder<'a> {
    /// The file to read, or `None` for standard input.
    pub closed spec fn spec_input_file_path(&self) -> Option<&'a str> {
        self.input_file_path
    }

    /// The file to write.
    pub closed spec fn spec_output_file_path(&self) -> Seq<char> {
        self.output_file_path@
    }

    /// A decoder for the given files.
    pub fn new(input_file_path: Option<&'a str>, output_file_path: String) -> (d: Self)
        ensures
            d.spec_input_file_path() == input_file_path,
            d.spec_output_file_path() == output_file_path@,
    {
        Decoder { input_file_path, output_file_path }
    }

    /// The file to read, or `None` for standard input.
    pub fn input_file_path(&self) -> (p: Option<&'a str>)
        ensures
            p == self.spec_input_file_path(),
    {
        self.input_file_path
    }

    /// The file to write.
    pub fn output_file_path(&self) -> (p: &str)
        ensures
            p@ == self.spec_output_file_path(),
    {
        self.output_file_path.as_str()
    }

    /// Reads the header at the start of `raw_bytes`.
    pub fn read_header(&mut self, raw_bytes: &[u8]) -> (r: Result<Header, HeaderError>)
        ensures
            *final(self) == *old(self),
            match spec_read_header(raw_bytes@) {
                Ok(h) => r matches Ok(hd) && hd.spec_header() == h,
                Err(e) => r == Err::<Header, HeaderError>(e),
            },
    {
        let mut freq_map: HashMap<u32, u32> = HashMap::new();
        let len = raw_bytes.len();
        if len < 4 {
            return Err(HeaderError::TooShort);
        }
        let char_count: u32 = be_u32(raw_bytes, 0);
        if len < 8 {
            return Err(HeaderError::MissingTotalCount);
        }
        let total_char_count: u32 = be_u32(raw_bytes, 4);
        let mut curr_offset: usize = 8;
        let mut i: u32 = 0;
        while i < char_count
            invariant
                len == raw_bytes@.len(),
                8 <= len,
                char_count == be_u32_at(raw_bytes@, 0),
                i <= char_count,
                curr_offset <= len,
                read_entries(raw_bytes@, char_count as nat, 8, Map::empty()) == read_entries(
                    raw_bytes@,
                    (char_count - i) as nat,
                    curr_offset as int,
                    freq_map@,
                ),
            decreases char_count - i,
        {
            if len - curr_offset < 4 {
                return Err(HeaderError::MissingChar);
            }
            let char_code: u32 = be_u32(raw_bytes, curr_offset);
            if char_from_code(char_code).is_none() {
                return Err(HeaderError::InvalidChar(char_code));
            }
            curr_offset = curr_offset + 4;
            if len - curr_offset < 4 {
                return Err(HeaderError::MissingFrequency);
            }
            let freq: u32 = be_u32(raw_bytes, curr_offset);
            freq_map.insert(char_code, freq);
            curr_offset = curr_offset + 4;
            i = i + 1;
        }
        Ok(Header { char_count, total_char_count, freq_map, offset_end: curr_offset })
    }

    /// Decodes the content (the bytes from `header.offset_end`) with the tree, expecting
    /// `header.total_char_count` characters.
    pub fn decode_text(&self, header: &Header, raw_bytes: &[u8], root: &HuffmanNode) -> (r: Result<String, DecodeError>)
        requires
            header.offset_end <= raw_bytes@.len(),
            content_fits(raw_bytes@, header.offset_end as int),
        ensures
            text_result_is(
                r,
                spec_decode_text(
                    *root,
                    msb0_bits(raw_bytes@.subrange(header.offset_end as int, raw_bytes@.len() as int)),
                    header.total_char_count as int,
                ),
            ),
    {
        let content_bytes = &raw_bytes[header.offset_end..raw_bytes.len()];
        let content_bits = bits_of_bytes(content_bytes);
        let ghost bits = content_bits@;
        let total = header.total_char_count;
        let mut text: Vec<char> = Vec::new();
        let mut char_count: u32 = 0;
        let mut trav_node: &HuffmanNode = root;
        let mut i: usize = 0;
        let n = content_bits.len();
        while i < n && char_count < total
            invariant
                n == bits.len(),
                bits == content_bits@,
                bits == msb0_bits(raw_bytes@.subrange(header.offset_end as int, raw_bytes@.len() as int)),
                total == header.total_char_count,
                i <= n,
                char_count <= total,
                spec_decode_text(*root, bits, total as int) == decode_run(
                    *root,
                    bits,
                    i as int,
                    total as int,
                    *trav_node,
                    char_count as int,
                    text@,
                ),
            decreases n - i,
        {
            let ghost trav0 = *trav_node;
            let ghost count0 = char_count as int;
            let ghost text0 = text@;
            let ghost run0 = decode_run(*root, bits, i as int, total as int, trav0, count0, text0);
            if trav_node.is_leaf() {
                match trav_node.character {
                    Some(c) => {
                        text.push(c);
                        char_count = char_count + 1;
                    },
                    None => {
                        assert(run0 == Err::<Seq<char>, DecodeError>(DecodeError::NoCharacterInLeaf));
                        return Err(DecodeError::NoCharacterInLeaf);
                    },
                }
                trav_node = root;
            }
            if content_bits[i] {
                trav_node = match &trav_node.right_child {
                    Some(next_node) => &**next_node,
                    None => {
                        assert(run0 == Err::<Seq<char>, DecodeError>(DecodeError::TreeMismatch));
                        return Err(DecodeError::TreeMismatch);
                    },
                };
            } else {
                trav_node = match &trav_node.left_child {
                    Some(next_node) => &**next_node,
                    None => {
                        assert(run0 == Err::<Seq<char>, DecodeError>(DecodeError::TreeMismatch));
                        return Err(DecodeError::TreeMismatch);
                    },
                };
            }
            i = i + 1;
        }
        if trav_node.is_leaf() {
            match trav_node.character {
                Some(c) => {
                    text.push(c);
                },
                None => {
                    return Err(DecodeError::NoCharacterInLeaf);
                },
            }
        }
        Ok(string_from_chars(text.as_slice()))
    }

    /// Decompresses a file: reads the header, rebuilds the Huffman tree from its
    /// frequencies, and decodes the content. Which tree comes out depends on the order in
    /// which equally frequent subtrees leave the queue and on the order of the frequency
    /// map, both left open; the text is the one that some tree the construction can give
    /// decodes the content to.
    pub fn decode(&mut self, raw_bytes: &[u8]) -> (r: Result<String, DecodeError>)
        requires
            decodable(raw_bytes@),
        ensures
            *final(self) == *old(self),
            match spec_read_header(raw_bytes@) {
                Err(e) => r == Err::<String, DecodeError>(DecodeError::Header(e)),
                Ok(h) => exists|t: HuffmanNode|
                    is_huffman_tree_for(t, h.freq_map) && #[trigger] text_result_is(
                        r,
                        spec_decode_text(
                            t,
                            msb0_bits(raw_bytes@.subrange(h.offset_end, raw_bytes@.len() as int)),
                            h.total_char_count as int,
                        ),
                    ),
            },
    {
        let header = match self.read_header(raw_bytes) {
            Ok(h) => h,
            Err(e) => {
                return Err(DecodeError::Header(e));
            },
        };
        proof {
            crate::header::lemma_read_entries_end(raw_bytes@, header.char_count as nat, 8, Map::empty());
            lemma_read_entries_codes(raw_bytes@, header.char_count as nat, 8, Map::empty());
        }
        let mut pq = create_pq(&header.freq_map);
        let ghost items = pq.items();
        proof {
            assert forall|j: int| 0 <= j < items.len() implies is_full(#[trigger] items[j]) by {
                assert(items[j].spec_is_leaf());
            }
            assert forall|j: int| 0 <= j < items.len() implies (#[trigger] items[j]).spec_is_leaf() && items[j].character is Some by {
                assert(items[j].spec_is_leaf());
            }
        }
        let tree = match build_huffman_tree(&mut pq) {
            Ok(t) => t,
            Err(e) => {
                return Err(DecodeError::Tree(e));
            },
        };
        let text = self.decode_text(&header, raw_bytes, &tree);
        proof {
            crate::tree::lemma_built_tree(items, header.freq_map@, tree);
            let h = spec_read_header(raw_bytes@)->Ok_0;
            assert(header.spec_header() == h);
            assert(h.offset_end == header.offset_end as int);
            assert(text_result_is(
                text,
                spec_decode_text(
                    tree,
                    msb0_bits(raw_bytes@.subrange(h.offset_end, raw_bytes@.len() as int)),
                    h.total_char_count as int,
                ),
            ));
        }
        text
    }

    /// Whether `decode` may be called on `raw_bytes`: the header cannot be read, or its
    /// frequencies add up to at most `u32::MAX` and the content fits in a bit-slice.
    pub fn can_decode(&mut self, raw_bytes: &[u8]) -> (ok: bool)
        ensures
            *final(self) == *old(self),
            ok == decodable(raw_bytes@),
    {
        let header = match self.read_header(raw_bytes) {
            Ok(h) => h,
            Err(_) => {
                return true;
            },
        };
        proof {
            lemma_read_entries_codes(raw_bytes@, header.char_count as nat, 8, Map::empty());
        }
        let ghost m = header.freq_map@;
        proof {
            assert forall|k: u32| #[trigger] m.contains_key(k) implies k < 0x110000 by {}
            crate::tree::lemma_bounded_set_len(m.dom(), 0x110000);
        }
        let mut sum: u64 = 0;
        let ghost mut seen: Seq<(u32, u32)> = Seq::empty();
        for kv in it: header.freq_map.iter()
            invariant
                m == header.freq_map@,
                m.dom().len() <= 0x110000,
                it.index() <= it.seq().len(),
                it.seq().len() == m.dom().len(),
                it.seq().no_duplicates(),
                forall|i: int| 0 <= i < it.seq().len() ==> #[trigger] m.contains_key(*it.seq()[i].0) && m[*it.seq()[i].0] == *it.seq()[i].1,
                seen.len() == it.index(),
                forall|i: int| 0 <= i < seen.len() ==> #[trigger] seen[i] == (*it.seq()[i].0, *it.seq()[i].1),
                seen.no_duplicates(),
                forall|i: int| 0 <= i < seen.len() ==> #[trigger] m.contains_key(seen[i].0) && m[seen[i].0] == seen[i].1,
                sum == crate::tree::pair_sum(seen),
                sum <= seen.len() * 0x1_0000_0000,
        {
            assert(kv == it.seq()[it.index() as int]);
            let (_key, val) = kv;
            sum = sum + *val as u64;
            proof {
                assert forall|i: int| 0 <= i < seen.len() implies #[trigger] seen[i] != (*kv.0, *val) by {
                    assert(it.seq()[i] != it.seq()[it.index() as int]);
                }
                let pair = (*kv.0, *val);
                assert(seen.push(pair).drop_last() =~= seen);
                seen = seen.push(pair);
            }
        }
        proof {
            crate::tree::lemma_pair_sum_map_total(seen, m);
            crate::header::lemma_read_entries_end(raw_bytes@, header.char_count as nat, 8, Map::empty());
        }
        let content_len = raw_bytes.len() - header.offset_end;
        let fits = content_len <= (usize::MAX / 8 + 7) / 8;
        sum <= 0xFFFF_FFFF && fits
    }
}

} // verus!
