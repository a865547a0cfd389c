//! What decoding undoes: decoding the codes of a text with the tree that gave the codes
//! gives the text back, unless the bits that pad the last byte lead from the root
//! straight to a leaf.
use crate::bits::msb0_bits;
use crate::decoder::{decodable, decode_run, finish, spec_decode_text, DecodeError};
use crate::encoder::{char_counts, code_table, codes_of, encode_bits, packs, traverse_spec};
use crate::header::{header_bytes, lists_map, spec_read_header};
use crate::tree::{is_full, is_huffman_tree_for, leaf_ms, pairs_match, HuffmanNode};
use vstd::multiset::Multiset;
use vstd::prelude::*;

verus! {

broadcast use vstd::multiset::group_multiset_axioms;

/// The child that the bit picks: `true` the right one, `false` the left one.
pub open spec fn child(n: HuffmanNode, bit: bool) -> Option<Box<HuffmanNode>> {
    if bit {
        n.right_child
    } else {
        n.left_child
    }
}

/// Following the bits of `q` from `n` passes only nodes without a character and ends at a
/// leaf whose character has the code point `k`.
pub open spec fn reaches(n: HuffmanNode, q: Seq<bool>, k: u32) -> bool
    decreases q.len(),
{
    if q.len() == 0 {
        n.character matches Some(c) && c as u32 == k && n.spec_is_leaf()
    } else {
        n.character is None && match child(n, q[0]) {
            Some(b) => reaches(*b, q.drop_first(), k),
            None => false,
        }
    }
}

/// The node that following the bits of `q` from `n` ends at.
pub open spec fn walk(n: HuffmanNode, q: Seq<bool>) -> HuffmanNode
    decreases q.len(),
{
    if q.len() == 0 {
        n
    } else {
        match child(n, q[0]) {
            Some(b) => walk(*b, q.drop_first()),
            None => n,
        }
    }
}

/// A tree in which nodes with a character are leaves and nodes without one have a child.
pub open spec fn is_code_tree(n: HuffmanNode) -> bool
    decreases n,
{
    match n.character {
        Some(_) => n.spec_is_leaf(),
        None => {
            &&& !n.spec_is_leaf()
            &&& (match n.left_child {
                Some(b) => is_code_tree(*b),
                None => true,
            })
            &&& (match n.right_child {
                Some(b) => is_code_tree(*b),
                None => true,
            })
        },
    }
}

/// No character code occurs twice among the pairs.
pub open spec fn keys_distinct(ms: Multiset<(u32, u32)>) -> bool {
    forall|p: (u32, u32), q: (u32, u32)|
        #![trigger ms.count(p), ms.count(q)]
        ms.count(p) > 0 && ms.count(q) > 0 && p.0 == q.0 ==> p == q && ms.count(p) == 1
}

/// The character code `k` occurs among the tree's leaves.
pub open spec fn has_key(n: HuffmanNode, k: u32) -> bool {
    exists|f: u32| #[trigger] leaf_ms(n).count((k, f)) > 0
}

proof fn lemma_children_ms(n: HuffmanNode)
    requires
        n.character is None,
    ensures
        leaf_ms(n) == (match n.left_child {
            Some(b) => leaf_ms(*b),
            None => Multiset::empty(),
        }).add(match n.right_child {
            Some(b) => leaf_ms(*b),
            None => Multiset::empty(),
        }),
{
}

/// Entries of characters not in the tree are left as they were.
proof fn lemma_traverse_other_keys(n: HuffmanNode, code: Seq<bool>, t: Map<u32, Seq<bool>>, k: u32)
    requires
        !has_key(n, k),
    ensures
        traverse_spec(n, code, t).contains_key(k) == t.contains_key(k),
        t.contains_key(k) ==> traverse_spec(n, code, t)[k] == t[k],
    decreases n,
{
    match n.character {
        Some(c) => {
            assert(leaf_ms(n).count((c as u32, n.frequency)) > 0);
        },
        None => {
            lemma_children_ms(n);
            let t1 = match n.left_child {
                Some(l) => traverse_spec(*l, code.push(false), t),
                None => t,
            };
            if let Some(l) = n.left_child {
                if has_key(*l, k) {
                    let f = choose|f: u32| #[trigger] leaf_ms(*l).count((k, f)) > 0;
                    assert(leaf_ms(n).count((k, f)) > 0);
                }
                lemma_traverse_other_keys(*l, code.push(false), t, k);
            }
            if let Some(r) = n.right_child {
                if has_key(*r, k) {
                    let f = choose|f: u32| #[trigger] leaf_ms(*r).count((k, f)) > 0;
                    assert(leaf_ms(n).count((k, f)) > 0);
                }
                lemma_traverse_other_keys(*r, code.push(true), t1, k);
            }
        },
    }
}

/// In a code tree with distinct characters, the table entry of a character of the tree is
/// the code so far followed by a path that reaches the character.
proof fn lemma_traverse_path(n: HuffmanNode, code: Seq<bool>, t: Map<u32, Seq<bool>>, k: u32)
    requires
        is_code_tree(n),
        keys_distinct(leaf_ms(n)),
        has_key(n, k),
    ensures
        traverse_spec(n, code, t).contains_key(k),
        traverse_spec(n, code, t)[k].len() >= code.len(),
        traverse_spec(n, code, t)[k].take(code.len() as int) == code,
        reaches(n, traverse_spec(n, code, t)[k].skip(code.len() as int), k),
    decreases n,
{
    let f = choose|f: u32| #[trigger] leaf_ms(n).count((k, f)) > 0;
    match n.character {
        Some(c) => {
            assert(leaf_ms(n) == Multiset::singleton((c as u32, n.frequency)));
            assert(c as u32 == k);
            let v = traverse_spec(n, code, t)[k];
            assert(v == code);
            assert(v.skip(code.len() as int) =~= Seq::<bool>::empty());
            assert(v.take(code.len() as int) =~= code);
        },
        None => {
            lemma_children_ms(n);
            let lm = match n.left_child {
                Some(b) => leaf_ms(*b),
                None => Multiset::empty(),
            };
            let rm = match n.right_child {
                Some(b) => leaf_ms(*b),
                None => Multiset::empty(),
            };
            let t1 = match n.left_child {
                Some(l) => traverse_spec(*l, code.push(false), t),
                None => t,
            };
            let res = traverse_spec(n, code, t);
            assert(res == match n.right_child {
                Some(r) => traverse_spec(*r, code.push(true), t1),
                None => t1,
            });
            if let Some(l) = n.left_child {
                assert(keys_distinct(leaf_ms(*l))) by {
                    assert forall|p: (u32, u32), q: (u32, u32)|
                        leaf_ms(*l).count(p) > 0 && leaf_ms(*l).count(q) > 0 && p.0 == q.0 implies p == q
                            && leaf_ms(*l).count(p) == 1 by {
                        assert(leaf_ms(n).count(p) > 0 && leaf_ms(n).count(q) > 0);
                    }
                }
            }
            if let Some(r) = n.right_child {
                assert(keys_distinct(leaf_ms(*r))) by {
                    assert forall|p: (u32, u32), q: (u32, u32)|
                        leaf_ms(*r).count(p) > 0 && leaf_ms(*r).count(q) > 0 && p.0 == q.0 implies p == q
                            && leaf_ms(*r).count(p) == 1 by {
                        assert(leaf_ms(n).count(p) > 0 && leaf_ms(n).count(q) > 0);
                    }
                }
            }
            if rm.count((k, f)) > 0 {
                let r = *n.right_child->0;
                assert(has_key(r, k));
                lemma_traverse_path(r, code.push(true), t1, k);
                let v = res[k];
                let q = v.skip(code.len() as int);
                assert(v.take(code.len() + 1 as int) == code.push(true));
                assert(v.take(code.len() as int) =~= code) by {
                    assert(v.take(code.len() as int) =~= v.take(code.len() + 1 as int).take(code.len() as int));
                }
                assert(q[0] == true) by {
                    assert(v.take(code.len() + 1 as int)[code.len() as int] == true);
                }
                assert(q.drop_first() =~= v.skip(code.len() + 1 as int));
                assert(child(n, q[0]) == n.right_child);
            } else {
                assert(lm.count((k, f)) > 0);
                let l = *n.left_child->0;
                assert(has_key(l, k));
                lemma_traverse_path(l, code.push(false), t, k);
                if let Some(r) = n.right_child {
                    if has_key(*r, k) {
                        let g = choose|g: u32| #[trigger] leaf_ms(*r).count((k, g)) > 0;
                        assert(leaf_ms(n).count((k, g)) > 0);
                        assert(leaf_ms(n).count((k, f)) > 0);
                        assert((k, g) == (k, f));
                        assert(leaf_ms(n).count((k, f)) >= 2);
                    }
                    lemma_traverse_other_keys(*r, code.push(true), t1, k);
                }
                let v = res[k];
                assert(v == t1[k]);
                let q = v.skip(code.len() as int);
                assert(v.take(code.len() + 1 as int) == code.push(false));
                assert(v.take(code.len() as int) =~= code) by {
                    assert(v.take(code.len() as int) =~= v.take(code.len() + 1 as int).take(code.len() as int));
                }
                assert(q[0] == false) by {
                    assert(v.take(code.len() + 1 as int)[code.len() as int] == false);
                }
                assert(q.drop_first() =~= v.skip(code.len() + 1 as int));
                assert(child(n, q[0]) == n.left_child);
            }
        },
    }
}

/// Following a path that reaches `k`, bit by bit from bit `i`, moves decoding to the leaf
/// at its end without emitting anything.
proof fn lemma_walk(
    root: HuffmanNode,
    bits: Seq<bool>,
    i: int,
    total: int,
    n: HuffmanNode,
    q: Seq<bool>,
    k: u32,
    count: int,
    out: Seq<char>,
)
    requires
        reaches(n, q, k),
        q.len() >= 1,
        0 <= i,
        i + q.len() <= bits.len(),
        bits.subrange(i, i + q.len()) == q,
        count < total,
    ensures
        decode_run(root, bits, i, total, n, count, out) == decode_run(root, bits, i + q.len(), total, walk(n, q), count, out),
        reaches(walk(n, q), Seq::<bool>::empty(), k),
    decreases q.len(),
{
    assert(bits[i] == q[0]) by {
        assert(bits.subrange(i, i + q.len())[0] == bits[i]);
    }
    let b = *child(n, q[0])->0;
    assert(!n.spec_is_leaf());
    assert(decode_run(root, bits, i, total, n, count, out) == decode_run(root, bits, i + 1, total, b, count, out));
    if q.len() == 1 {
        assert(q.drop_first() =~= Seq::<bool>::empty());
        assert(walk(n, q) == walk(b, q.drop_first()));
    } else {
        let q2 = q.drop_first();
        assert(bits.subrange(i + 1, i + 1 + q2.len()) =~= q2) by {
            assert forall|j: int| 0 <= j < q2.len() implies bits.subrange(i + 1, i + 1 + q2.len())[j] == q2[j] by {
                assert(bits.subrange(i, i + q.len())[j + 1] == q[j + 1]);
            }
        }
        lemma_walk(root, bits, i + 1, total, b, q2, k, count, out);
        assert(walk(n, q) == walk(b, q2));
    }
}

/// The codes of the first `j` characters begin the codes of the whole text.
proof fn lemma_encode_prefix(s: Seq<char>, t: Map<u32, Seq<bool>>, j: int)
    requires
        0 <= j <= s.len(),
    ensures
        encode_bits(s.take(j), t).len() <= encode_bits(s, t).len(),
        encode_bits(s, t).subrange(0, encode_bits(s.take(j), t).len() as int) == encode_bits(s.take(j), t),
    decreases s.len() - j,
{
    if j < s.len() {
        lemma_encode_prefix(s, t, j + 1);
        let a = encode_bits(s.take(j), t);
        let b = encode_bits(s.take(j + 1), t);
        assert(s.take(j + 1).drop_last() =~= s.take(j));
        assert(b == a + t[s[j] as u32]);
        assert(encode_bits(s, t).subrange(0, a.len() as int) =~= b.subrange(0, a.len() as int));
        assert(b.subrange(0, a.len() as int) =~= a);
    } else {
        assert(s.take(j) =~= s);
        assert(encode_bits(s, t).subrange(0, encode_bits(s, t).len() as int) =~= encode_bits(s, t));
    }
}

/// The requirements on a tree and a text under which decoding undoes encoding.
pub open spec fn codes_text(root: HuffmanNode, chars: Seq<char>) -> bool {
    &&& is_code_tree(root)
    &&& root.character is None
    &&& keys_distinct(leaf_ms(root))
    &&& forall|i: int| 0 <= i < chars.len() ==> has_key(root, #[trigger] chars[i] as u32)
}

/// The code of a character of the tree is a non-empty path from the root to its leaf.
proof fn lemma_code_of(root: HuffmanNode, c: char)
    requires
        is_code_tree(root),
        root.character is None,
        keys_distinct(leaf_ms(root)),
        has_key(root, c as u32),
    ensures
        code_table(root).contains_key(c as u32),
        code_table(root)[c as u32].len() >= 1,
        reaches(root, code_table(root)[c as u32], c as u32),
        walk(root, code_table(root)[c as u32]).spec_is_leaf(),
        walk(root, code_table(root)[c as u32]).character == Some(c),
{
    let k = c as u32;
    lemma_traverse_path(root, Seq::empty(), Map::empty(), k);
    let v = code_table(root)[k];
    assert(v.skip(0) =~= v);
    lemma_reaches_walk(root, v, k);
    lemma_char_code_injective(walk(root, v).character->0, c);
}

/// Different characters have different code points.
pub(crate) proof fn lemma_char_code_injective(a: char, b: char)
    requires
        a as u32 == b as u32,
    ensures
        a == b,
{
    assert(a as u32 == a as int);
    assert(b as u32 == b as int);
}

proof fn lemma_reaches_walk(n: HuffmanNode, q: Seq<bool>, k: u32)
    requires
        reaches(n, q, k),
    ensures
        walk(n, q).spec_is_leaf(),
        walk(n, q).character matches Some(c) && c as u32 == k,
    decreases q.len(),
{
    if q.len() > 0 {
        let b = *child(n, q[0])->0;
        lemma_reaches_walk(b, q.drop_first(), k);
    }
}

/// After the codes of the first `j` characters, decoding stands at the leaf of character
/// `j - 1` with the characters before it emitted.
proof fn lemma_decode_prefix(root: HuffmanNode, chars: Seq<char>, pad: Seq<bool>, j: int)
    requires
        codes_text(root, chars),
        1 <= j <= chars.len(),
    ensures
        ({
            let t = code_table(root);
            let bits = encode_bits(chars, t) + pad;
            spec_decode_text(root, bits, chars.len() as int) == decode_run(
                root,
                bits,
                encode_bits(chars.take(j), t).len() as int,
                chars.len() as int,
                walk(root, t[chars[j - 1] as u32]),
                j - 1,
                chars.take(j - 1),
            )
        }),
    decreases j,
{
    let t = code_table(root);
    let b = encode_bits(chars, t);
    let bits = b + pad;
    let n = chars.len() as int;
    let c = chars[j - 1];
    lemma_code_of(root, c);
    let q = t[c as u32];
    let pj = encode_bits(chars.take(j), t).len() as int;
    let pj1 = encode_bits(chars.take(j - 1), t).len() as int;
    lemma_encode_prefix(chars, t, j);
    assert(chars.take(j).drop_last() =~= chars.take(j - 1));
    assert(chars.take(j).last() == c);
    assert(encode_bits(chars.take(j), t) == encode_bits(chars.take(j - 1), t) + q);
    assert(bits.subrange(pj1, pj) =~= q) by {
        assert forall|x: int| 0 <= x < q.len() implies bits.subrange(pj1, pj)[x] == q[x] by {
            assert(b.subrange(0, pj)[pj1 + x] == encode_bits(chars.take(j), t)[pj1 + x]);
        }
    }
    if j == 1 {
        assert(chars.take(0) =~= Seq::<char>::empty());
        assert(encode_bits(chars.take(0), t) =~= Seq::<bool>::empty());
        lemma_walk(root, bits, 0, n, root, q, c as u32, 0, Seq::empty());
    } else {
        lemma_decode_prefix(root, chars, pad, j - 1);
        let prev = chars[j - 2];
        lemma_code_of(root, prev);
        let leaf = walk(root, t[prev as u32]);
        assert(bits[pj1] == q[0]) by {
            assert(bits.subrange(pj1, pj)[0] == bits[pj1]);
        }
        assert(chars.take(j - 2).push(prev) =~= chars.take(j - 1));
        assert(decode_run(root, bits, pj1, n, leaf, j - 2, chars.take(j - 2)) == decode_run(
            root,
            bits,
            pj1,
            n,
            root,
            j - 1,
            chars.take(j - 1),
        ));
        lemma_walk(root, bits, pj1, n, root, q, c as u32, j - 1, chars.take(j - 1));
    }
}

/// Decoding the codes of a non-empty text with the tree that gave the codes, expecting as
/// many characters as the text has, gives the text back, whatever bits follow the codes,
/// unless the first of them leads from the root to a leaf or to no child.
pub proof fn lemma_decode_inverts_encode(root: HuffmanNode, chars: Seq<char>, pad: Seq<bool>)
    requires
        codes_text(root, chars),
        chars.len() >= 1,
        pad.len() == 0 || (child(root, pad[0]) matches Some(b) && !(*b).spec_is_leaf()),
    ensures
        spec_decode_text(root, encode_bits(chars, code_table(root)) + pad, chars.len() as int) == Ok::<
            Seq<char>,
            DecodeError,
        >(chars),
{
    let t = code_table(root);
    let b = encode_bits(chars, t);
    let bits = b + pad;
    let n = chars.len() as int;
    lemma_decode_prefix(root, chars, pad, n);
    assert(chars.take(n) =~= chars);
    let last = chars[n - 1];
    lemma_code_of(root, last);
    let leaf = walk(root, t[last as u32]);
    assert(chars.take(n - 1).push(last) =~= chars);
    if pad.len() == 0 {
        assert(bits =~= b);
    } else {
        assert(bits[b.len() as int] == pad[0]);
        let ch = *child(root, pad[0])->0;
        assert(decode_run(root, bits, b.len() as int, n, leaf, n - 1, chars.take(n - 1)) == decode_run(
            root,
            bits,
            b.len() + 1 as int,
            n,
            ch,
            n,
            chars,
        ));
    }
}

proof fn lemma_full_code_tree(n: HuffmanNode)
    requires
        is_full(n),
    ensures
        is_code_tree(n),
    decreases n,
{
    if n.character is None {
        lemma_full_code_tree(*n.left_child->0);
        lemma_full_code_tree(*n.right_child->0);
    }
}

/// Decoding undoes encoding with a Huffman tree: for a tree that the construction gives
/// for a frequency table, the codes of a non-empty text of the table's characters decode
/// back to the text, whatever bits pad them, unless the first padding bit leads from the
/// root straight to a leaf.
pub proof fn lemma_huffman_round_trip(t: HuffmanNode, m: Map<u32, u32>, chars: Seq<char>, pad: Seq<bool>)
    requires
        m.dom().finite(),
        is_huffman_tree_for(t, m),
        chars.len() >= 1,
        forall|i: int| 0 <= i < chars.len() ==> m.contains_key(#[trigger] chars[i] as u32),
        pad.len() == 0 || (child(t, pad[0]) matches Some(b) && !(*b).spec_is_leaf()),
    ensures
        spec_decode_text(t, encode_bits(chars, code_table(t)) + pad, chars.len() as int) == Ok::<
            Seq<char>,
            DecodeError,
        >(chars),
{
    let k0 = chars[0] as u32;
    assert(m.contains_key(k0));
    assert(m.dom().len() >= 1) by {
        if m.dom().len() == 0 {
            assert(m.dom().contains(k0));
        }
    }
    assert(leaf_ms(t).count((k0, m[k0])) == 1);
    if m.dom().len() == 1 {
        let l = *t.left_child->0;
        assert(is_code_tree(l));
        assert(!t.spec_is_leaf());
    } else {
        lemma_full_code_tree(t);
    }
    assert forall|p: (u32, u32), q: (u32, u32)|
        #![trigger leaf_ms(t).count(p), leaf_ms(t).count(q)]
        leaf_ms(t).count(p) > 0 && leaf_ms(t).count(q) > 0 && p.0 == q.0 implies p == q && leaf_ms(t).count(p) == 1 by {
    }
    assert forall|i: int| 0 <= i < chars.len() implies has_key(t, #[trigger] chars[i] as u32) by {
        let k = chars[i] as u32;
        assert(m.contains_key(k));
        assert(leaf_ms(t).count((k, m[k])) == 1);
    }
    lemma_decode_inverts_encode(t, chars, pad);
}

/// A file written for a non-empty text with a Huffman tree for the text's counts (as
/// `Encoder::encode` writes it) can be given to `Decoder::decode`; it reads back with the
/// text's counts and length in its header, and its content decodes with that same tree
/// back to the text, unless the first bit that pads the last byte leads from the root
/// straight to a leaf.
pub proof fn lemma_file_round_trip(chars: Seq<char>, t: HuffmanNode, e: Seq<(u32, u32)>, content: Seq<u8>)
    requires
        1 <= chars.len() <= u32::MAX,
        is_huffman_tree_for(t, char_counts(chars)),
        encode_bits(chars, code_table(t)).len() <= crate::bits::max_code_bits(),
        lists_map(e, char_counts(chars)),
        packs(content, encode_bits(chars, code_table(t))),
        ({
            let n = encode_bits(chars, code_table(t)).len();
            n < msb0_bits(content).len() ==> (child(t, msb0_bits(content)[n as int]) matches Some(b)
                && !(*b).spec_is_leaf())
        }),
    ensures
        ({
            let bytes = header_bytes(char_counts(chars).dom().len() as u32, chars.len() as u32, e) + content;
            &&& decodable(bytes)
            &&& spec_read_header(bytes) matches Ok(h)
            &&& h.freq_map == char_counts(chars)
            &&& h.total_char_count == chars.len()
            &&& spec_decode_text(t, msb0_bits(bytes.subrange(h.offset_end, bytes.len() as int)), h.total_char_count as int)
                == Ok::<Seq<char>, DecodeError>(chars)
        }),
{
    let m = char_counts(chars);
    assert(m.dom() =~= codes_of(chars).to_multiset().dom());
    assert forall|k: u32| #[trigger] m.contains_key(k) implies crate::text::is_char_code(k) && k < 0x110000 by {
        broadcast use vstd::seq_lib::group_to_multiset_ensures;
        assert(codes_of(chars).contains(k));
        let i = codes_of(chars).index_of(k);
        crate::encoder::lemma_char_code(chars[i]);
    }
    crate::tree::lemma_bounded_set_len(m.dom(), 0x110000);
    let total = chars.len() as u32;
    crate::header::lemma_header_round_trip(m, e, total, content);
    crate::header::lemma_entries_bytes_len(e);
    let bytes = header_bytes(e.len() as u32, total, e) + content;
    let off = (8 + 8 * e.len()) as int;
    assert(bytes.subrange(off, bytes.len() as int) =~= content);
    let bits = encode_bits(chars, code_table(t));
    let pad = msb0_bits(content).skip(bits.len() as int);
    assert(msb0_bits(content) =~= bits + pad);
    assert forall|i: int| 0 <= i < chars.len() implies m.contains_key(#[trigger] chars[i] as u32) by {
        broadcast use vstd::seq_lib::group_to_multiset_ensures;
        assert(codes_of(chars)[i] == chars[i] as u32);
        assert(codes_of(chars).contains(chars[i] as u32));
    }
    if pad.len() > 0 {
        assert(pad[0] == msb0_bits(content)[bits.len() as int]);
    }
    lemma_huffman_round_trip(t, m, chars, pad);
    crate::encoder::lemma_counts_total(chars);
    vstd::arithmetic::div_mod::lemma_div_is_ordered(
        (bits.len() + 7) as int,
        crate::bits::max_code_bits() + 7,
        8,
    );
}

} // verus!
