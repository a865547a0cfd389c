//! When no frequencies tie, the greedy construction has one outcome: whichever order the
//! leaves of a frequency table are queued in, and however the queue would break ties, the
//! tree is the same, so the decoder rebuilds the encoder's tree.
use crate::bits::{max_code_bits, msb0_bits};
use crate::decoder::{spec_decode_text, DecodeError};
use crate::encoder::{char_counts, code_table, encode_bits, packs};
use crate::header::{header_bytes, lists_map, spec_read_header};
use crate::roundtrip::child;
use crate::tree::{
    greedy_result, greedy_run, is_huffman_tree_for, leaf_ms, leaves_for, leaves_in, least_at, merged,
    pairs_match, HuffmanNode,
};
use vstd::multiset::Multiset;
use vstd::prelude::*;

verus! {

broadcast use vstd::seq_lib::group_to_multiset_ensures, vstd::multiset::group_multiset_axioms;

/// No two subtrees of `s` have the same frequency.
pub open spec fn distinct_freqs(s: Seq<HuffmanNode>) -> bool {
    forall|i: int, j: int|
        0 <= i < s.len() && 0 <= j < s.len() && i != j ==> s[i].frequency != s[j].frequency
}

/// At no step of greedy merging from `s` do two waiting subtrees have the same frequency.
pub open spec fn no_ties(s: Seq<HuffmanNode>) -> bool
    decreases s.len(),
{
    if s.len() <= 1 {
        true
    } else {
        let i = choose|i: int| least_at(s, i);
        let r = s.remove(i);
        let j = choose|j: int| least_at(r, j);
        distinct_freqs(s) && if least_at(s, i) && least_at(r, j) {
            no_ties(r.remove(j).push(merged(s[i], r[j])))
        } else {
            false
        }
    }
}

/// The frequency table is untied: greedy merging of its leaves, in some order, never
/// meets two subtrees of the same frequency.
pub open spec fn untied(m: Map<u32, u32>) -> bool {
    exists|s: Seq<HuffmanNode>| leaves_for(s, m) && #[trigger] no_ties(s)
}

proof fn lemma_least_of_same(s1: Seq<HuffmanNode>, s2: Seq<HuffmanNode>, i: int) -> (i2: int)
    requires
        s1.to_multiset() == s2.to_multiset(),
        least_at(s1, i),
    ensures
        least_at(s2, i2),
        s2[i2] == s1[i],
{
    assert(s1.to_multiset().count(s1[i]) > 0);
    assert(s2.contains(s1[i]));
    let i2 = s2.index_of(s1[i]);
    assert forall|k: int| 0 <= k < s2.len() implies s2[i2].frequency <= #[trigger] s2[k].frequency by {
        assert(s2.to_multiset().count(s2[k]) > 0);
        assert(s1.contains(s2[k]));
        let k1 = s1.index_of(s2[k]);
        assert(s1[i].frequency <= s1[k1].frequency);
    }
    i2
}

/// Greedy merging does not depend on the order of the subtrees.
proof fn lemma_greedy_perm(s1: Seq<HuffmanNode>, s2: Seq<HuffmanNode>, p1: Seq<(int, int)>, t: HuffmanNode)
    requires
        s1.to_multiset() == s2.to_multiset(),
        greedy_run(s1, p1) == Some(t),
    ensures
        greedy_result(s2, t),
    decreases p1.len(),
{
    assert(s1.len() == s2.len()) by {
        vstd::seq_lib::to_multiset_len(s1);
        vstd::seq_lib::to_multiset_len(s2);
    }
    if p1.len() == 0 {
        assert(s1.len() == 1);
        assert(s1.to_multiset().count(s1[0]) > 0);
        assert(s2.contains(s1[0]));
        let k = s2.index_of(s1[0]);
        assert(k == 0);
        assert(greedy_run(s2, Seq::empty()) == Some(t));
    } else {
        let (i, j) = p1[0];
        let r1 = s1.remove(i);
        let i2 = lemma_least_of_same(s1, s2, i);
        let r2 = s2.remove(i2);
        assert(r1.to_multiset() == s1.to_multiset().remove(s1[i]));
        assert(r2.to_multiset() == s2.to_multiset().remove(s2[i2]));
        let j2 = lemma_least_of_same(r1, r2, j);
        let n1 = r1.remove(j).push(merged(s1[i], r1[j]));
        let n2 = r2.remove(j2).push(merged(s2[i2], r2[j2]));
        assert(r1.remove(j).to_multiset() == r1.to_multiset().remove(r1[j]));
        assert(r2.remove(j2).to_multiset() == r2.to_multiset().remove(r2[j2]));
        assert(n1.to_multiset() =~= n2.to_multiset());
        assert(greedy_run(s1, p1) == greedy_run(n1, p1.drop_first()));
        lemma_greedy_perm(n1, n2, p1.drop_first(), t);
        let p2 = choose|p: Seq<(int, int)>| #[trigger] greedy_run(n2, p) == Some(t);
        crate::tree::lemma_greedy_step(s2, i2, j2, p2);
        assert(greedy_run(s2, seq![(i2, j2)] + p2) == Some(t));
    }
}

proof fn lemma_distinct_least(s: Seq<HuffmanNode>, i: int, k: int)
    requires
        distinct_freqs(s),
        least_at(s, i),
        least_at(s, k),
    ensures
        i == k,
{
    assert(s[i].frequency <= s[k].frequency);
    assert(s[k].frequency <= s[i].frequency);
}

/// Without ties, greedy merging has one outcome.
proof fn lemma_untied_unique(s: Seq<HuffmanNode>, p1: Seq<(int, int)>, p2: Seq<(int, int)>, t1: HuffmanNode, t2: HuffmanNode)
    requires
        no_ties(s),
        greedy_run(s, p1) == Some(t1),
        greedy_run(s, p2) == Some(t2),
    ensures
        t1 == t2,
    decreases p1.len(),
{
    if p1.len() == 0 {
        assert(s.len() == 1);
        if p2.len() > 0 {
            assert(greedy_run(s, p2) is None);
        }
    } else {
        assert(s.len() >= 2);
        if p2.len() == 0 {
            assert(greedy_run(s, p2) is None);
        }
        let (i, j) = p1[0];
        let (i2, j2) = p2[0];
        let i0 = choose|i: int| least_at(s, i);
        let r = s.remove(i);
        assert(distinct_freqs(s));
        lemma_distinct_least(s, i, i2);
        lemma_distinct_least(s, i, i0);
        assert(distinct_freqs(r)) by {
            assert forall|a: int, b: int| 0 <= a < r.len() && 0 <= b < r.len() && a != b implies r[a].frequency
                != r[b].frequency by {
                let a0 = if a < i { a } else { a + 1 };
                let b0 = if b < i { b } else { b + 1 };
                assert(r[a] == s[a0] && r[b] == s[b0]);
            }
        }
        let j0 = choose|j: int| least_at(r, j);
        lemma_distinct_least(r, j, j2);
        lemma_distinct_least(r, j, j0);
        let n = r.remove(j).push(merged(s[i], r[j]));
        assert(no_ties(n));
        lemma_untied_unique(n, p1.drop_first(), p2.drop_first(), t1, t2);
    }
}

/// The (code point, frequency) pair of a leaf.
spec fn leaf_key(n: HuffmanNode) -> (u32, u32) {
    (n.character->0 as u32, n.frequency)
}

/// A leaf carrying a character.
spec fn char_leaf(n: HuffmanNode) -> bool {
    n.spec_is_leaf() && n.character is Some
}

proof fn lemma_leaf_key_injective(a: HuffmanNode, b: HuffmanNode)
    requires
        char_leaf(a),
        char_leaf(b),
        leaf_key(a) == leaf_key(b),
    ensures
        a == b,
{
    crate::roundtrip::lemma_char_code_injective(a.character->0, b.character->0);
}

proof fn lemma_leaves_count(s: Seq<HuffmanNode>, x: HuffmanNode)
    requires
        forall|j: int| 0 <= j < s.len() ==> char_leaf(#[trigger] s[j]),
        char_leaf(x),
    ensures
        s.to_multiset().count(x) == leaves_in(s).count(leaf_key(x)),
    decreases s.len(),
{
    if s.len() > 0 {
        let s0 = s.drop_last();
        lemma_leaves_count(s0, x);
        assert(s0.push(s.last()) =~= s);
        let l = s.last();
        assert(char_leaf(l));
        assert(leaf_ms(l) == Multiset::singleton(leaf_key(l)));
        if leaf_key(l) == leaf_key(x) {
            lemma_leaf_key_injective(l, x);
        }
    }
}

/// Two listings of the leaves of one table hold the same leaves.
proof fn lemma_leaves_same(s1: Seq<HuffmanNode>, s2: Seq<HuffmanNode>, m: Map<u32, u32>)
    requires
        leaves_for(s1, m),
        leaves_for(s2, m),
    ensures
        s1.to_multiset() == s2.to_multiset(),
{
    assert(leaves_in(s1) =~= leaves_in(s2));
    assert forall|x: HuffmanNode| #[trigger] s1.to_multiset().count(x) == s2.to_multiset().count(x) by {
        if char_leaf(x) {
            lemma_leaves_count(s1, x);
            lemma_leaves_count(s2, x);
        } else {
            if s1.to_multiset().count(x) > 0 {
                assert(s1.contains(x));
                let k = s1.index_of(x);
                assert(char_leaf(s1[k]));
            }
            if s2.to_multiset().count(x) > 0 {
                assert(s2.contains(x));
                let k = s2.index_of(x);
                assert(char_leaf(s2[k]));
            }
        }
    }
    assert(s1.to_multiset() =~= s2.to_multiset());
}

/// When the frequency table is untied, it has one Huffman tree: the decoder rebuilds from a
/// header exactly the tree the encoder built for the same counts.
pub proof fn lemma_untied_tree_unique(m: Map<u32, u32>, t1: HuffmanNode, t2: HuffmanNode)
    requires
        untied(m),
        is_huffman_tree_for(t1, m),
        is_huffman_tree_for(t2, m),
    ensures
        t1 == t2,
{
    let s = choose|s: Seq<HuffmanNode>| leaves_for(s, m) && #[trigger] no_ties(s);
    if m.dom().len() >= 2 {
        let s1 = choose|s1: Seq<HuffmanNode>| leaves_for(s1, m) && #[trigger] greedy_result(s1, t1);
        let s2 = choose|s2: Seq<HuffmanNode>| leaves_for(s2, m) && #[trigger] greedy_result(s2, t2);
        lemma_leaves_same(s1, s, m);
        lemma_leaves_same(s2, s, m);
        let p1 = choose|p: Seq<(int, int)>| #[trigger] greedy_run(s1, p) == Some(t1);
        let p2 = choose|p: Seq<(int, int)>| #[trigger] greedy_run(s2, p) == Some(t2);
        lemma_greedy_perm(s1, s, p1, t1);
        lemma_greedy_perm(s2, s, p2, t2);
        let q1 = choose|p: Seq<(int, int)>| #[trigger] greedy_run(s, p) == Some(t1);
        let q2 = choose|p: Seq<(int, int)>| #[trigger] greedy_run(s, p) == Some(t2);
        lemma_untied_unique(s, q1, q2, t1, t2);
    } else if m.dom().len() == 1 {
        let l1 = *t1.left_child->0;
        let l2 = *t2.left_child->0;
        assert(leaf_ms(t1) =~= leaf_ms(l1));
        assert(leaf_ms(t2) =~= leaf_ms(l2));
        assert(leaf_ms(l1) == Multiset::singleton(leaf_key(l1)));
        assert(leaf_ms(l2) == Multiset::singleton(leaf_key(l2)));
        assert(leaf_ms(t1).count(leaf_key(l1)) == 1);
        assert(m.contains_key(leaf_key(l1).0) && m[leaf_key(l1).0] == leaf_key(l1).1);
        assert(leaf_ms(t2).count(leaf_key(l1)) == 1);
        lemma_leaf_key_injective(l1, l2);
        assert(t1 =~= t2);
    }
}

/// Decoding undoes encoding when no frequencies tie: a file written for a non-empty text
/// with a Huffman tree for its counts (as `Encoder::encode` writes it) decodes back to the
/// text with every Huffman tree for the counts its header holds, so with the one
/// `Decoder::decode` builds, unless the first bit that pads the last byte leads from the
/// root straight to a leaf.
pub proof fn lemma_untied_file_round_trip(chars: Seq<char>, t: HuffmanNode, e: Seq<(u32, u32)>, content: Seq<u8>)
    requires
        1 <= chars.len() <= u32::MAX,
        untied(char_counts(chars)),
        is_huffman_tree_for(t, char_counts(chars)),
        encode_bits(chars, code_table(t)).len() <= max_code_bits(),
        lists_map(e, char_counts(chars)),
        packs(content, encode_bits(chars, code_table(t))),
        ({
            let n = encode_bits(chars, code_table(t)).len();
            n < msb0_bits(content).len() ==> (child(t, msb0_bits(content)[n as int]) matches Some(b)
                && !(*b).spec_is_leaf())
        }),
    ensures
        ({
            let bytes = header_bytes(char_counts(chars).dom().len() as u32, chars.len() as u32, e) + content;
            &&& spec_read_header(bytes) matches Ok(h)
            &&& forall|t2: HuffmanNode|
                #[trigger] is_huffman_tree_for(t2, h.freq_map) ==> spec_decode_text(
                    t2,
                    msb0_bits(bytes.subrange(h.offset_end, bytes.len() as int)),
                    h.total_char_count as int,
                ) == Ok::<Seq<char>, DecodeError>(chars)
        }),
{
    crate::roundtrip::lemma_file_round_trip(chars, t, e, content);
    let bytes = header_bytes(char_counts(chars).dom().len() as u32, chars.len() as u32, e) + content;
    let h = spec_read_header(bytes)->Ok_0;
    assert forall|t2: HuffmanNode| #[trigger] is_huffman_tree_for(t2, h.freq_map) implies spec_decode_text(
        t2,
        msb0_bits(bytes.subrange(h.offset_end, bytes.len() as int)),
        h.total_char_count as int,
    ) == Ok::<Seq<char>, DecodeError>(chars) by {
        lemma_untied_tree_unique(char_counts(chars), t, t2);
    }
}

} // verus!
