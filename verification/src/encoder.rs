//! Huffman encoding: counting characters, building the code table from the tree,
//! writing the header and packing the codes of the text into bytes.
use crate::bits::{code_len, code_bits, code_clone, code_extend, code_into_bytes, code_new, code_push, max_code_bits, msb0_bits, Code};
use crate::header::{be_bytes, entries_bytes, header_bytes, lists_map};
use crate::tree::{leaves_for, build_huffman_tree, create_pq, is_full, is_huffman_tree_for, leaf_ms, leaves_in, map_total, lemma_map_total_remove, HuffmanNode, TreeError};
use vstd::multiset::Multiset;
use std::collections::HashMap;
use vstd::prelude::*;

verus! {

broadcast use vstd::std_specs::hash::group_hash_axioms;

/// The code points of a character sequence.
pub open spec fn codes_of(s: Seq<char>) -> Seq<u32> {
    s.map_values(|c: char| c as u32)
}

/// How often each character occurs, keyed by its code point.
pub open spec fn char_counts(s: Seq<char>) -> Map<u32, u32> {
    Map::new(
        |k: u32| codes_of(s).to_multiset().count(k) > 0,
        |k: u32| codes_of(s).to_multiset().count(k) as u32,
    )
}

/// No character occurs more than `u32::MAX` times, so that each count fits in a `u32`.
pub open spec fn counts_fit(s: Seq<char>) -> bool {
    forall|k: u32| #[trigger] codes_of(s).to_multiset().count(k) <= u32::MAX
}

/// The codes of the text fit in one bit-vector, whichever tree the construction gives for
/// its counts.
pub open spec fn codes_fit(s: Seq<char>) -> bool {
    forall|t: HuffmanNode|
        is_huffman_tree_for(t, char_counts(s)) ==> #[trigger] encode_bits(s, code_table(t)).len()
            <= max_code_bits()
}

/// The code table that walking the tree gives: going left appends `false`, going right
/// appends `true`; a node with a character records the code so far under the
/// character's code point (replacing an earlier record) and is not walked further.
pub open spec fn traverse_spec(n: HuffmanNode, code: Seq<bool>, t: Map<u32, Seq<bool>>) -> Map<u32, Seq<bool>>
    decreases n,
{
    match n.character {
        Some(c) => t.insert(c as u32, code),
        None => {
            let t1 = match n.left_child {
                Some(l) => traverse_spec(*l, code.push(false), t),
                None => t,
            };
            match n.right_child {
                Some(r) => traverse_spec(*r, code.push(true), t1),
                None => t1,
            }
        },
    }
}

/// The prefix-code table of a tree.
pub open spec fn code_table(n: HuffmanNode) -> Map<u32, Seq<bool>> {
    traverse_spec(n, Seq::empty(), Map::empty())
}

/// The bits of each code in a table of codes.
pub open spec fn table_bits(t: Map<u32, Code>) -> Map<u32, Seq<bool>> {
    Map::new(|k: u32| t.contains_key(k), |k: u32| code_bits(t[k]))
}

/// The length of the longest path from `n` down to a node with a character or no children.
pub open spec fn height(n: HuffmanNode) -> nat
    decreases n,
{
    match n.character {
        Some(_) => 0,
        None => {
            let l: nat = match n.left_child {
                Some(b) => 1 + height(*b),
                None => 0,
            };
            let r: nat = match n.right_child {
                Some(b) => 1 + height(*b),
                None => 0,
            };
            if l >= r {
                l
            } else {
                r
            }
        },
    }
}

/// The codes of the characters of `s`, one after the other.
pub open spec fn encode_bits(s: Seq<char>, t: Map<u32, Seq<bool>>) -> Seq<bool>
    decreases s.len(),
{
    if s.len() == 0 {
        Seq::empty()
    } else {
        encode_bits(s.drop_last(), t) + t[s.last() as u32]
    }
}

proof fn lemma_prefix_count(s: Seq<char>, j: int, k: u32)
    requires
        0 <= j <= s.len(),
    ensures
        codes_of(s.take(j)).to_multiset().count(k) <= codes_of(s).to_multiset().count(k),
    decreases s.len() - j,
{
    broadcast use vstd::seq_lib::group_to_multiset_ensures;
    if j == s.len() {
        assert(s.take(j) =~= s);
    } else {
        lemma_prefix_count(s, j + 1, k);
        assert(s.take(j + 1) =~= s.take(j).push(s[j]));
        assert(codes_of(s.take(j + 1)) =~= codes_of(s.take(j)).push(s[j] as u32));
    }
}

proof fn lemma_count_le_len(s: Seq<u32>, x: u32)
    ensures
        s.to_multiset().count(x) <= s.len(),
    decreases s.len(),
{
    broadcast use vstd::seq_lib::group_to_multiset_ensures;
    if s.len() == 0 {
        assert(s.to_multiset().len() == 0);
    } else {
        lemma_count_le_len(s.drop_last(), x);
        assert(s =~= s.drop_last().push(s.last()));
    }
}

/// Appends the four big-endian bytes of `x`.
fn push_be(bytes: &mut Vec<u8>, x: u32)
    ensures
        final(bytes)@ == old(bytes)@ + be_bytes(x),
{
    bytes.push((x / 0x100_0000) as u8);
    bytes.push(((x / 0x1_0000) % 0x100) as u8);
    bytes.push(((x / 0x100) % 0x100) as u8);
    bytes.push((x % 0x100) as u8);
    assert(final(bytes)@ =~= old(bytes)@ + be_bytes(x));
}

/// Compresses text with a Huffman code. The paths are those of the files that the
/// program reads and writes; the library itself only computes.
#[derive(Clone)]
pub struct Encoder<'a> {
    input_file_path: Option<&'a str>,
    output_file_path: String,
}

impl<'a> Default for Encoder<'a> {
    fn default() -> (e: Self)
        ensures
            e.spec_input_file_path() is None,
            e.spec_output_file_path().len() == 0,
    {
        Encoder { input_file_path: None, output_file_path: String::new() }
    }
}

impl<'a> Encoder<'a> {
    /// The file to read, or `None` for standard input.
    pub closed spec fn spec_input_file_path(&self) -> Option<&'a str> {
        self.input_file_path
    }

    /// The file to write.
    pub closed spec fn spec_output_file_path(&self) -> Seq<char> {
        self.output_file_path@
    }

    /// An encoder for the given files.
    pub fn new(input_file_path: Option<&'a str>, output_file_path: String) -> (e: Self)
        ensures
            e.spec_input_file_path() == input_file_path,
            e.spec_output_file_path() == output_file_path@,
    {
        Encoder { input_file_path, output_file_path }
    }

    /// The file to read, or `None` for standard input.
    pub fn input_file_path(&self) -> (p: Option<&'a str>)
        ensures
            p == self.spec_input_file_path(),
    {
        self.input_file_path
    }

    /// The file to write.
    pub fn output_file_path(&self) -> (p: &str)
        ensures
            p@ == self.spec_output_file_path(),
    {
        self.output_file_path.as_str()
    }

    /// Counts each character of `chars`, keyed by its code point.
    pub fn get_frequencies(&self, chars: &[char]) -> (freqs: HashMap<u32, u32>)
        requires
            counts_fit(chars@),
        ensures
            freqs@ == char_counts(chars@),
            map_total(freqs@) == chars@.len(),
    {
        let mut freq_map: HashMap<u32, u32> = HashMap::new();
        let n = chars.len();
        let mut i: usize = 0;
        proof {
            broadcast use vstd::seq_lib::group_to_multiset_ensures;
            assert(codes_of(chars@.take(0)) =~= Seq::<u32>::empty());
            assert(freq_map@ =~= char_counts(chars@.take(0)));
        }
        while i < n
            invariant
                n == chars@.len(),
                counts_fit(chars@),
                i <= n,
                freq_map@ == char_counts(chars@.take(i as int)),
                freq_map@.dom().finite(),
                map_total(freq_map@) == i,
            decreases n - i,
        {
            let key = chars[i] as u32;
            let ghost before = freq_map@;
            proof {
                broadcast use vstd::seq_lib::group_to_multiset_ensures;
                let s = chars@.take(i as int);
                let s1 = chars@.take(i + 1);
                assert(s1 =~= s.push(chars@[i as int]));
                assert(codes_of(s1) =~= codes_of(s).push(key));
                lemma_prefix_count(chars@, i + 1, key);
                assert(codes_of(s1).to_multiset().count(key) == codes_of(s).to_multiset().count(key) + 1);
                assert(codes_of(chars@).to_multiset().count(key) <= u32::MAX);
                lemma_count_le_len(codes_of(s), key);
            }
            let count: u32 = match freq_map.get(&key) {
                Some(c) => *c,
                None => 0,
            };
            freq_map.insert(key, count + 1);
            proof {
                broadcast use vstd::seq_lib::group_to_multiset_ensures;
                let s = chars@.take(i as int);
                let s1 = chars@.take(i + 1);
                assert(s1 =~= s.push(chars@[i as int]));
                assert(codes_of(s1) =~= codes_of(s).push(key));
                lemma_count_le_len(codes_of(s), key);
                assert(codes_of(s1).to_multiset() =~= codes_of(s).to_multiset().insert(key));
                assert forall|k: u32| #[trigger] freq_map@.contains_key(k) == char_counts(s1).contains_key(k) by {
                    lemma_count_le_len(codes_of(s), k);
                }
                assert forall|k: u32| #[trigger] freq_map@.contains_key(k) implies freq_map@[k] == char_counts(s1)[k] by {
                    lemma_count_le_len(codes_of(s), k);
                }
                assert(freq_map@ =~= char_counts(s1));
                if before.contains_key(key) {
                    lemma_map_total_remove(before, key);
                    lemma_map_total_remove(freq_map@, key);
                    assert(freq_map@.remove(key) =~= before.remove(key));
                } else {
                    lemma_map_total_remove(freq_map@, key);
                    assert(freq_map@.remove(key) =~= before);
                }
            }
            i = i + 1;
        }
        proof {
            assert(chars@.take(n as int) =~= chars@);
        }
        freq_map
    }

    /// Records under each character of the tree (by code point) the path to it,
    /// starting from `code`.
    fn traverse(&self, node: &HuffmanNode, code: Code, table: &mut HashMap<u32, Code>)
        requires
            code_bits(code).len() + height(*node) <= max_code_bits(),
        ensures
            table_bits(final(table)@) == traverse_spec(*node, code_bits(code), table_bits(old(table)@)),
        decreases *node,
    {
        if let Some(character) = node.character {
            let ghost cb = code_bits(code);
            table.insert(character as u32, code);
            proof {
                assert(table_bits(table@) =~= table_bits(old(table)@).insert(character as u32, cb));
            }
            return;
        }
        let ghost t0 = table_bits(table@);
        if let Some(left) = &node.left_child {
            let mut left_code = code_clone(&code);
            code_push(&mut left_code, false);
            self.traverse(&**left, left_code, table);
        }
        if let Some(right) = &node.right_child {
            let mut right_code = code_clone(&code);
            code_push(&mut right_code, true);
            self.traverse(&**right, right_code, table);
        }
    }

    /// The prefix-code table of the tree: for each character, the path to it.
    pub fn generate_prefix_code_table(&self, node: HuffmanNode) -> (table: HashMap<u32, Code>)
        requires
            height(node) <= max_code_bits(),
        ensures
            table_bits(table@) == code_table(node),
    {
        let mut table: HashMap<u32, Code> = HashMap::new();
        let code = code_new();
        proof {
            assert(table_bits(table@) =~= Map::<u32, Seq<bool>>::empty());
            assert(code_bits(code) =~= Seq::<bool>::empty());
        }
        self.traverse(&node, code, &mut table);
        table
    }

    /// The header: the number of entries, the total character count, then each entry of
    /// the table (in the order the map is walked) as code point and frequency.
    pub fn create_header(&self, total_char_count: u32, table: HashMap<u32, u32>) -> (bytes: Vec<u8>)
        ensures
            exists|e: Seq<(u32, u32)>|
                lists_map(e, table@) && bytes@ == header_bytes(table@.dom().len() as u32, total_char_count, e),
    {
        let mut bytes: Vec<u8> = Vec::new();
        let map_length: u32 = table.len() as u32;
        push_be(&mut bytes, map_length);
        push_be(&mut bytes, total_char_count);
        let ghost m = table@;
        let ghost mut seen: Seq<(u32, u32)> = Seq::empty();
        proof {
            assert(bytes@ =~= header_bytes(map_length, total_char_count, seen));
        }
        for kv in it: table.iter()
            invariant
                m == table@,
                map_length == m.dom().len() as u32,
                it.index() <= it.seq().len(),
                it.seq().len() == m.dom().len(),
                it.seq().no_duplicates(),
                forall|i: int| 0 <= i < it.seq().len() ==> #[trigger] m.contains_key(*it.seq()[i].0) && m[*it.seq()[i].0] == *it.seq()[i].1,
                seen.len() == it.index(),
                forall|i: int| 0 <= i < seen.len() ==> #[trigger] seen[i] == (*it.seq()[i].0, *it.seq()[i].1),
                seen.no_duplicates(),
                forall|i: int| 0 <= i < seen.len() ==> #[trigger] m.contains_key(seen[i].0) && m[seen[i].0] == seen[i].1,
                bytes@ == header_bytes(map_length, total_char_count, seen),
        {
            assert(kv == it.seq()[it.index() as int]);
            let (key, val) = kv;
            push_be(&mut bytes, *key);
            push_be(&mut bytes, *val);
            proof {
                assert forall|i: int| 0 <= i < seen.len() implies #[trigger] seen[i] != (*key, *val) by {
                    assert(it.seq()[i] != it.seq()[it.index() as int]);
                }
                let pair = (*key, *val);
                assert(seen.push(pair).drop_last() =~= seen);
                seen = seen.push(pair);
                assert(bytes@ =~= header_bytes(map_length, total_char_count, seen));
            }
        }
        proof {
            assert(seen.len() == m.dom().len());
            assert(lists_map(seen, m));
        }
        bytes
    }

    /// Compresses `chars`: counts the characters, builds the Huffman tree from the counts,
    /// derives the code table, and writes the header followed by the packed codes. Which
    /// tree comes out depends on the order in which equally frequent subtrees leave the
    /// queue and on the order of the frequency map, both left open; the result is the
    /// file for one of the trees the construction can give.
    pub fn encode(&self, chars: &[char]) -> (r: Result<Vec<u8>, TreeError>)
        requires
            chars@.len() <= u32::MAX,
            codes_fit(chars@),
        ensures
            r matches Ok(bytes) && exists|t: HuffmanNode, e: Seq<(u32, u32)>, content: Seq<u8>|
                {
                    &&& is_huffman_tree_for(t, char_counts(chars@))
                    &&& lists_map(e, char_counts(chars@))
                    &&& bytes@ == header_bytes(char_counts(chars@).dom().len() as u32, chars@.len() as u32, e)
                        + content
                    &&& packs(content, encode_bits(chars@, code_table(t)))
                },
    {
        proof {
            assert forall|k: u32| #[trigger] codes_of(chars@).to_multiset().count(k) <= u32::MAX by {
                lemma_count_le_len(codes_of(chars@), k);
            }
        }
        let freqs = self.get_frequencies(chars);
        let ghost m = freqs@;
        proof {
            assert forall|k: u32| #[trigger] m.contains_key(k) implies crate::text::is_char_code(k) && k < 0x110000 by {
                broadcast use vstd::seq_lib::group_to_multiset_ensures;
                assert(codes_of(chars@).contains(k));
                let i = codes_of(chars@).index_of(k);
                lemma_char_code(chars@[i]);
            }
            crate::tree::lemma_bounded_set_len(m.dom(), 0x110000);
        }
        let mut pq = create_pq(&freqs);
        let ghost items = pq.items();
        proof {
            assert forall|j: int| 0 <= j < items.len() implies is_full(#[trigger] items[j]) by {
                assert(items[j].spec_is_leaf());
            }
        }
        let tree = build_huffman_tree(&mut pq)?;
        proof {
            broadcast use vstd::multiset::group_multiset_axioms;
            assert forall|j: int| 0 <= j < items.len() implies (#[trigger] items[j]).character is Some by {
                assert(items[j].spec_is_leaf());
            }
            lemma_leaves_in_len(items);
            if items.len() >= 2 {
                lemma_full_height(tree);
            } else if items.len() == 1 {
                let l = items[0];
                assert(items.drop_last().len() == 0);
                assert(leaves_in(items.drop_last()) == Multiset::<(u32, u32)>::empty());
                assert(leaves_in(items) =~= leaf_ms(l));
                assert(leaf_ms(tree) =~= leaf_ms(l));
                assert(l.spec_is_leaf());
                assert(height(l) == 0);
                assert(height(tree) == 1);
            } else {
                assert(height(tree) == 0);
            }
            assert(height(tree) <= 0x110000);
        }
        let lookup_table = self.generate_prefix_code_table(tree);
        proof {
            let ct = code_table(tree);
            lemma_traverse_bounds(tree, Seq::empty(), Map::empty());
            lemma_traverse_keys(tree, Seq::empty(), Map::empty());
            assert forall|i: int| 0 <= i < chars@.len() implies ct.contains_key(#[trigger] chars@[i] as u32) && ct[chars@[i] as u32].len() <= height(tree) by {
                broadcast use vstd::seq_lib::group_to_multiset_ensures;
                let k = chars@[i] as u32;
                assert(codes_of(chars@)[i] == k);
                assert(codes_of(chars@).contains(k));
                assert(m.contains_key(k));
                assert(leaf_ms(tree).count((k, m[k])) > 0);
            }
            crate::tree::lemma_built_tree(items, m, tree);
            assert(encode_bits(chars@, ct).len() <= max_code_bits());
        }
        let bytes = self.build_encoded_bytes(chars, freqs, lookup_table);
        Ok(bytes)
    }

    /// Whether `encode` may be called on `chars`: the text has at most `u32::MAX`
    /// characters, and its length times the longest code its distinct characters can get
    /// is at most `max_code_bits()`, so that its codes fit whichever tree is built.
    pub fn can_encode(&self, chars: &[char]) -> (ok: bool)
        ensures
            ok == (chars@.len() <= u32::MAX && chars@.len() * depth_bound(char_counts(chars@).dom().len())
                <= max_code_bits()),
            ok ==> codes_fit(chars@),
    {
        let len = chars.len();
        if len > 0xFFFF_FFFF {
            return false;
        }
        proof {
            assert forall|k: u32| #[trigger] codes_of(chars@).to_multiset().count(k) <= u32::MAX by {
                lemma_count_le_len(codes_of(chars@), k);
            }
        }
        let freqs = self.get_frequencies(chars);
        let d = freqs.len();
        let w: usize = if d >= 2 {
            d - 1
        } else {
            1
        };
        let ok = match len.checked_mul(w) {
            Some(bits) => bits <= usize::MAX / 8,
            None => false,
        };
        proof {
            if ok {
                lemma_short_texts_fit(chars@);
            }
        }
        ok
    }

    /// The codes of the characters of `chars`, one after the other, packed into bytes
    /// most significant bit first. Every character must have a code.
    pub fn encode_text(&self, chars: &[char], table: HashMap<u32, Code>) -> (bytes: Vec<u8>)
        requires
            forall|i: int| 0 <= i < chars@.len() ==> table@.contains_key(#[trigger] chars@[i] as u32),
            encode_bits(chars@, table_bits(table@)).len() <= max_code_bits(),
        ensures
            packs(bytes@, encode_bits(chars@, table_bits(table@))),
    {
        let ghost t = table_bits(table@);
        let mut bits = code_new();
        let n = chars.len();
        proof {
            assert(chars@.take(0) =~= Seq::<char>::empty());
            assert(code_bits(bits) =~= encode_bits(chars@.take(0), t));
        }
        for i in 0..n
            invariant
                n == chars@.len(),
                t == table_bits(table@),
                forall|i: int| 0 <= i < chars@.len() ==> table@.contains_key(#[trigger] chars@[i] as u32),
                encode_bits(chars@, t).len() <= max_code_bits(),
                code_bits(bits) == encode_bits(chars@.take(i as int), t),
        {
            let key = chars[i] as u32;
            proof {
                assert(chars@.take(i + 1) =~= chars@.take(i as int).push(chars@[i as int]));
                assert(chars@.take(i + 1).drop_last() =~= chars@.take(i as int));
                lemma_encode_bits_prefix_len(chars@, t, i + 1);
            }
            match table.get(&key) {
                Some(code) => {
                    code_extend(&mut bits, code);
                },
                None => {
                    assert(table@.contains_key(chars@[i as int] as u32));
                },
            }
        }
        proof {
            assert(chars@.take(n as int) =~= chars@);
        }
        let nbits = code_len(&bits);
        let mut bytes = code_into_bytes(bits);
        clear_padding(&mut bytes, nbits);
        proof {
            let e = encode_bits(chars@, t);
            assert(msb0_bits(bytes@).take(nbits as int) =~= e);
        }
        bytes
    }

    /// The compressed file: the header for `freq_map` and `chars.len()` characters, then
    /// the packed codes of the text.
    pub fn build_encoded_bytes(
        &self,
        chars: &[char],
        freq_map: HashMap<u32, u32>,
        lookup_table: HashMap<u32, Code>,
    ) -> (bytes: Vec<u8>)
        requires
            forall|i: int| 0 <= i < chars@.len() ==> lookup_table@.contains_key(#[trigger] chars@[i] as u32),
            encode_bits(chars@, table_bits(lookup_table@)).len() <= max_code_bits(),
        ensures
            exists|e: Seq<(u32, u32)>, content: Seq<u8>|
                {
                    &&& lists_map(e, freq_map@)
                    &&& bytes@ == header_bytes(freq_map@.dom().len() as u32, chars@.len() as u32, e) + content
                    &&& packs(content, encode_bits(chars@, table_bits(lookup_table@)))
                },
    {
        let mut bytes: Vec<u8> = Vec::new();
        let header = self.create_header(chars.len() as u32, freq_map);
        let encoded_text = self.encode_text(chars, lookup_table);
        bytes.extend_from_slice(header.as_slice());
        bytes.extend_from_slice(encoded_text.as_slice());
        proof {
            assert(bytes@ =~= header@ + encoded_text@);
        }
        bytes
    }
}

/// `content` holds the bits, most significant bit first, in as few bytes as they need;
/// the unused low bits of the last byte are zero.
pub open spec fn packs(content: Seq<u8>, bits: Seq<bool>) -> bool {
    &&& content.len() == (bits.len() + 7) / 8
    &&& msb0_bits(content).take(bits.len() as int) == bits
    &&& forall|i: int| bits.len() <= i < msb0_bits(content).len() ==> !#[trigger] msb0_bits(content)[i]
}

/// Keeping the `r` high bits of a byte keeps those bits and clears the others.
proof fn lemma_mask_bit(b: u8, r: u32, k: u8)
    by (bit_vector)
    requires
        1 <= r <= 7,
        k < 8,
    ensures
        ((((b & (0xFFu8 << ((8 - r) as u32))) >> ((7 - k) as u8)) & 1u8) == 1u8) == (k < r && ((b >> ((7
            - k) as u8)) & 1u8) == 1u8),
{
}

/// Clears the bits of the last byte past the first `n` bits.
fn clear_padding(bytes: &mut Vec<u8>, n: usize)
    requires
        old(bytes)@.len() == (n + 7) / 8,
    ensures
        final(bytes)@.len() == old(bytes)@.len(),
        forall|i: int| 0 <= i < n ==> #[trigger] msb0_bits(final(bytes)@)[i] == msb0_bits(old(bytes)@)[i],
        forall|i: int| n <= i < msb0_bits(final(bytes)@).len() ==> !#[trigger] msb0_bits(final(bytes)@)[i],
{
    let r = (n % 8) as u32;
    if r == 0 {
        return;
    }
    let last = bytes.len() - 1;
    let b = bytes[last];
    let nb = b & (0xFFu8 << (8 - r));
    bytes.set(last, nb);
    proof {
        let o = old(bytes)@;
        let f = bytes@;
        assert(last == n / 8);
        assert forall|i: int| 0 <= i < f.len() * 8 implies (#[trigger] msb0_bits(f)[i]) == (if i < n {
            msb0_bits(o)[i]
        } else {
            false
        }) by {
            if i / 8 < last {
                assert(f[i / 8] == o[i / 8]);
            } else {
                assert(i / 8 == last);
                let k = (i % 8) as u8;
                lemma_mask_bit(b, r, k);
                assert(i < n <==> (k as int) < r);
            }
        }
    }
}

proof fn lemma_encode_bits_prefix_len(s: Seq<char>, t: Map<u32, Seq<bool>>, i: int)
    requires
        0 <= i <= s.len(),
    ensures
        encode_bits(s.take(i), t).len() <= encode_bits(s, t).len(),
    decreases s.len() - i,
{
    if i < s.len() {
        lemma_encode_bits_prefix_len(s, t, i + 1);
        assert(s.take(i + 1).drop_last() =~= s.take(i));
    } else {
        assert(s.take(i) =~= s);
    }
}

/// Every character's code point is a Unicode scalar value.
pub(crate) proof fn lemma_char_code(c: char)
    ensures
        crate::text::is_char_code(c as u32),
{
}

/// The walk gives each entry it adds a code at most `height(n)` bits longer than `code`,
/// and keeps every key it was given.
proof fn lemma_traverse_bounds(n: HuffmanNode, code: Seq<bool>, t: Map<u32, Seq<bool>>)
    ensures
        forall|k: u32| #[trigger] t.contains_key(k) ==> traverse_spec(n, code, t).contains_key(k),
        forall|k: u32| #[trigger] traverse_spec(n, code, t).contains_key(k) ==> (t.contains_key(k)
            && traverse_spec(n, code, t)[k] == t[k]) || traverse_spec(n, code, t)[k].len() <= code.len() + height(n),
    decreases n,
{
    match n.character {
        Some(c) => {
            let r = t.insert(c as u32, code);
            assert(traverse_spec(n, code, t) == r);
            assert(height(n) == 0);
            assert forall|k: u32| #[trigger] traverse_spec(n, code, t).contains_key(k) implies (t.contains_key(k)
                && traverse_spec(n, code, t)[k] == t[k]) || traverse_spec(n, code, t)[k].len() <= code.len() + height(n) by {
                if k == c as u32 {
                    assert(r[k] == code);
                } else {
                    assert(r[k] == t[k]);
                }
            }
        },
        None => {
            let t1 = match n.left_child {
                Some(l) => traverse_spec(*l, code.push(false), t),
                None => t,
            };
            if let Some(l) = n.left_child {
                lemma_traverse_bounds(*l, code.push(false), t);
                assert(height(n) >= 1 + height(*l));
            }
            let r = match n.right_child {
                Some(rc) => traverse_spec(*rc, code.push(true), t1),
                None => t1,
            };
            if let Some(rc) = n.right_child {
                lemma_traverse_bounds(*rc, code.push(true), t1);
                assert(height(n) >= 1 + height(*rc));
            }
            assert(traverse_spec(n, code, t) == r);
            assert forall|k: u32| #[trigger] traverse_spec(n, code, t).contains_key(k) implies (t.contains_key(k)
                && traverse_spec(n, code, t)[k] == t[k]) || traverse_spec(n, code, t)[k].len() <= code.len() + height(n) by {
                assert(r.contains_key(k));
                if t1.contains_key(k) && r[k] == t1[k] {
                    assert(t1.contains_key(k));
                } else {
                }
            }
        },
    }
}

/// Every character of the tree gets an entry.
proof fn lemma_traverse_keys(n: HuffmanNode, code: Seq<bool>, t: Map<u32, Seq<bool>>)
    ensures
        forall|p: (u32, u32)| #[trigger] leaf_ms(n).count(p) > 0 ==> traverse_spec(n, code, t).contains_key(p.0),
    decreases n,
{
    broadcast use vstd::multiset::group_multiset_axioms;
    match n.character {
        Some(c) => {},
        None => {
            let t1 = match n.left_child {
                Some(l) => traverse_spec(*l, code.push(false), t),
                None => t,
            };
            let r = match n.right_child {
                Some(rc) => traverse_spec(*rc, code.push(true), t1),
                None => t1,
            };
            assert(traverse_spec(n, code, t) == r);
            if let Some(l) = n.left_child {
                lemma_traverse_keys(*l, code.push(false), t);
            }
            if let Some(rc) = n.right_child {
                lemma_traverse_keys(*rc, code.push(true), t1);
                lemma_traverse_bounds(*rc, code.push(true), t1);
            }
            assert forall|p: (u32, u32)| #[trigger] leaf_ms(n).count(p) > 0 implies r.contains_key(p.0) by {
                let lm = match n.left_child {
                    Some(b) => leaf_ms(*b),
                    None => Multiset::empty(),
                };
                let rm = match n.right_child {
                    Some(b) => leaf_ms(*b),
                    None => Multiset::empty(),
                };
                assert(leaf_ms(n) == lm.add(rm));
                if lm.count(p) > 0 {
                    assert(t1.contains_key(p.0));
                }
            }
        },
    }
}

/// A full tree is shallower than it has leaves.
proof fn lemma_full_height(n: HuffmanNode)
    requires
        is_full(n),
    ensures
        height(n) + 1 <= leaf_ms(n).len(),
    decreases n,
{
    broadcast use vstd::multiset::group_multiset_axioms;
    match n.character {
        Some(c) => {},
        None => {
            let l = *n.left_child->0;
            let r = *n.right_child->0;
            lemma_full_height(l);
            lemma_full_height(r);
            assert(leaf_ms(n) == leaf_ms(l).add(leaf_ms(r)));
        },
    }
}

/// Leaves with characters contribute one pair each.
proof fn lemma_leaves_in_len(s: Seq<HuffmanNode>)
    requires
        forall|j: int| 0 <= j < s.len() ==> (#[trigger] s[j]).character is Some,
    ensures
        leaves_in(s).len() == s.len(),
    decreases s.len(),
{
    broadcast use vstd::multiset::group_multiset_axioms;
    if s.len() > 0 {
        lemma_leaves_in_len(s.drop_last());
        assert(s.last().character is Some);
    }
}

/// A text of `s.len()` characters whose codes are at most `w` bits long encodes to at most
/// `s.len() * w` bits.
proof fn lemma_encode_bits_len(s: Seq<char>, t: Map<u32, Seq<bool>>, w: nat)
    requires
        forall|i: int| 0 <= i < s.len() ==> t.contains_key(#[trigger] s[i] as u32) && t[s[i] as u32].len() <= w,
    ensures
        encode_bits(s, t).len() <= s.len() * w,
    decreases s.len(),
{
    if s.len() > 0 {
        lemma_encode_bits_len(s.drop_last(), t, w);
        assert(t[s[s.len() - 1] as u32].len() <= w);
        assert((s.len() - 1) * w + w == s.len() * w) by (nonlinear_arith);
    }
}

/// The longest code a tree for `d` distinct characters can give: a single character
/// gets a code of one bit, and a full tree over `d` leaves is at most `d - 1` deep.
pub open spec fn depth_bound(d: nat) -> nat {
    if d >= 2 {
        (d - 1) as nat
    } else {
        1
    }
}

/// A text whose length times the longest code its distinct characters can get is at most
/// `max_code_bits()` fits: whichever tree the construction gives, its codes fit in one
/// bit-vector.
pub proof fn lemma_short_texts_fit(s: Seq<char>)
    requires
        s.len() * depth_bound(char_counts(s).dom().len()) <= max_code_bits(),
    ensures
        codes_fit(s),
{
    broadcast use vstd::multiset::group_multiset_axioms;
    let m = char_counts(s);
    assert forall|k: u32| #[trigger] m.contains_key(k) implies k < 0x110000 by {
        broadcast use vstd::seq_lib::group_to_multiset_ensures;
        assert(codes_of(s).contains(k));
        let i = codes_of(s).index_of(k);
        lemma_char_code(s[i]);
    }
    assert(m.dom() =~= codes_of(s).to_multiset().dom()) by {
        broadcast use vstd::seq_lib::group_to_multiset_ensures;
    }
    crate::tree::lemma_bounded_set_len(m.dom(), 0x110000);
    assert forall|t: HuffmanNode| is_huffman_tree_for(t, m) implies #[trigger] encode_bits(s, code_table(t)).len()
        <= max_code_bits() by {
        let ct = code_table(t);
        if m.dom().len() >= 2 {
            let items = choose|items: Seq<HuffmanNode>| leaves_for(items, m) && #[trigger] crate::tree::greedy_result(items, t);
            lemma_leaves_in_len(items);
            assert(leaf_ms(t) =~= leaves_in(items));
            lemma_full_height(t);
        } else if m.dom().len() == 1 {
            let l = *t.left_child->0;
            assert(height(l) == 0);
            assert(height(t) == 1);
        } else {
            assert(height(t) == 0);
        }
        let w = depth_bound(m.dom().len());
        assert(height(t) <= w);
        lemma_traverse_bounds(t, Seq::empty(), Map::empty());
        lemma_traverse_keys(t, Seq::empty(), Map::empty());
        assert forall|i: int| 0 <= i < s.len() implies ct.contains_key(#[trigger] s[i] as u32) && ct[s[i] as u32].len() <= height(t) by {
            broadcast use vstd::seq_lib::group_to_multiset_ensures;
            let k = s[i] as u32;
            assert(codes_of(s)[i] == k);
            assert(codes_of(s).contains(k));
            assert(m.contains_key(k));
            assert(leaf_ms(t).count((k, m[k])) > 0);
        }
        lemma_encode_bits_len(s, ct, height(t));
        assert(s.len() * height(t) <= s.len() * w) by (nonlinear_arith)
            requires
                height(t) <= w,
        ;
    }
}

/// The counts of a text add up to its length.
pub(crate) proof fn lemma_counts_total(s: Seq<char>)
    requires
        s.len() <= u32::MAX,
    ensures
        char_counts(s).dom().finite(),
        map_total(char_counts(s)) == s.len(),
    decreases s.len(),
{
    broadcast use vstd::seq_lib::group_to_multiset_ensures;
    broadcast use vstd::multiset::group_multiset_axioms;
    let m = char_counts(s);
    assert(m.dom() =~= codes_of(s).to_multiset().dom());
    if s.len() == 0 {
        assert(codes_of(s) =~= Seq::<u32>::empty());
        assert(m.dom() =~= Set::<u32>::empty());
    } else {
        let p = s.drop_last();
        lemma_counts_total(p);
        let mp = char_counts(p);
        let k = s.last() as u32;
        assert(codes_of(s) =~= codes_of(p).push(k));
        assert(codes_of(s).to_multiset() =~= codes_of(p).to_multiset().insert(k));
        lemma_count_le_len(codes_of(p), k);
        assert forall|x: u32| x != k implies #[trigger] m.contains_key(x) == mp.contains_key(x) by {}
        assert(m.contains_key(k));
        assert(m[k] == mp.get(k).unwrap_or(0) + 1) by {
            if !mp.contains_key(k) {
                assert(codes_of(p).to_multiset().count(k) == 0);
            }
        }
        lemma_map_total_remove(m, k);
        if mp.contains_key(k) {
            lemma_map_total_remove(mp, k);
            assert forall|x: u32| #[trigger] m.remove(k).contains_key(x) implies m.remove(k)[x] == mp.remove(k)[x] by {
                lemma_count_le_len(codes_of(p), x);
                lemma_count_le_len(codes_of(s), x);
            }
            assert(m.remove(k) =~= mp.remove(k));
        } else {
            assert forall|x: u32| #[trigger] m.remove(k).contains_key(x) implies m.remove(k)[x] == mp[x] by {
                lemma_count_le_len(codes_of(p), x);
                lemma_count_le_len(codes_of(s), x);
            }
            assert(m.remove(k) =~= mp);
        }
    }
}

} // verus!
