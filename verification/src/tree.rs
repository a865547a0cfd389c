//! Huffman trees: the node type, the queue of subtrees ordered by frequency, and the
//! greedy construction that merges the two least frequent subtrees until one is left.
use crate::queue::{queue_entries, queue_len, queue_new, queue_pop, queue_push};
use crate::text::{char_from_code, is_char_code};
use priority_queue::PriorityQueue;
use std::cmp::Reverse;
use std::collections::HashMap;
use vstd::multiset::Multiset;
use vstd::prelude::*;

verus! {

broadcast use vstd::std_specs::hash::group_hash_axioms, vstd::multiset::group_multiset_axioms;

/// A node of a Huffman tree. A leaf carries a character and its frequency; an inner
/// node carries the sum of its children's frequencies.
#[derive(Debug, Hash, PartialEq, Eq)]
pub struct HuffmanNode {
    pub character: Option<char>,
    pub frequency: u32,
    pub left_child: Option<Box<HuffmanNode>>,
    pub right_child: Option<Box<HuffmanNode>>,
}

/// The node with no character, no frequency and no children.
pub open spec fn empty_node() -> HuffmanNode {
    HuffmanNode { character: None, frequency: 0, left_child: None, right_child: None }
}

impl Default for HuffmanNode {
    fn default() -> (n: Self)
        ensures
            n == empty_node(),
    {
        HuffmanNode { character: None, frequency: 0, left_child: None, right_child: None }
    }
}

impl HuffmanNode {
    /// The node has no children.
    pub open spec fn spec_is_leaf(self) -> bool {
        self.left_child is None && self.right_child is None
    }

    /// A node is a leaf when it has no children.
    pub fn is_leaf(&self) -> (b: bool)
        ensures
            b == self.spec_is_leaf(),
    {
        self.left_child.is_none() && self.right_child.is_none()
    }
}

/// A leaf that carries `c` with frequency `f`.
pub open spec fn leaf_node(c: char, f: u32) -> HuffmanNode {
    HuffmanNode { character: Some(c), frequency: f, left_child: None, right_child: None }
}

/// The (character code, frequency) pairs of the tree's character-carrying nodes; a
/// node with a character is not looked into further.
pub open spec fn leaf_ms(n: HuffmanNode) -> Multiset<(u32, u32)>
    decreases n,
{
    match n.character {
        Some(c) => Multiset::singleton((c as u32, n.frequency)),
        None => {
            let l = match n.left_child {
                Some(b) => leaf_ms(*b),
                None => Multiset::empty(),
            };
            let r = match n.right_child {
                Some(b) => leaf_ms(*b),
                None => Multiset::empty(),
            };
            l.add(r)
        },
    }
}

/// A full tree: leaves carry a character, inner nodes carry none, have both children,
/// and their frequency is the sum of the children's.
pub open spec fn is_full(n: HuffmanNode) -> bool
    decreases n,
{
    match n.character {
        Some(_) => n.spec_is_leaf(),
        None => match n.left_child {
            Some(l) => match n.right_child {
                Some(r) => is_full(*l) && is_full(*r) && n.frequency == l.frequency + r.frequency,
                None => false,
            },
            None => false,
        },
    }
}

/// The leaves of all trees of a sequence.
pub open spec fn leaves_in(s: Seq<HuffmanNode>) -> Multiset<(u32, u32)>
    decreases s.len(),
{
    if s.len() == 0 {
        Multiset::empty()
    } else {
        leaves_in(s.drop_last()).add(leaf_ms(s.last()))
    }
}

/// The sum of the root frequencies of a sequence of trees.
pub open spec fn freq_sum(s: Seq<HuffmanNode>) -> int
    decreases s.len(),
{
    if s.len() == 0 {
        0
    } else {
        freq_sum(s.drop_last()) + s.last().frequency
    }
}

/// The sum of a map's values.
pub open spec fn map_total(m: Map<u32, u32>) -> int
    decreases m.dom().len(),
    when m.dom().finite()
{
    if m.dom().len() == 0 {
        0
    } else {
        let k = m.dom().choose();
        m[k] + map_total(m.remove(k))
    }
}

/// A multiset of (code, frequency) pairs holds exactly the pairs of a map, once each.
pub open spec fn pairs_match(ms: Multiset<(u32, u32)>, m: Map<u32, u32>) -> bool {
    forall|p: (u32, u32)|
        #[trigger] ms.count(p) == (if m.contains_key(p.0) && m[p.0] == p.1 {
            1nat
        } else {
            0nat
        })
}

/// The subtree that merging `a` (left) and `b` (right) gives.
pub open spec fn merged(a: HuffmanNode, b: HuffmanNode) -> HuffmanNode {
    HuffmanNode {
        character: None,
        frequency: (a.frequency + b.frequency) as u32,
        left_child: Some(Box::new(a)),
        right_child: Some(Box::new(b)),
    }
}

/// Position `i` of `s` holds a least frequent subtree.
pub open spec fn least_at(s: Seq<HuffmanNode>, i: int) -> bool {
    &&& 0 <= i < s.len()
    &&& forall|j: int| 0 <= j < s.len() ==> s[i].frequency <= #[trigger] s[j].frequency
}

/// Merging subtrees of `s` as `picks` says: each pick names a least frequent subtree and
/// then a least frequent one of the rest, which are merged (the first on the left); the
/// run ends with the tree that is left once the picks are used up, or with `None` where a
/// pick is not of least frequent subtrees or the picks do not end with a single tree.
pub open spec fn greedy_run(s: Seq<HuffmanNode>, picks: Seq<(int, int)>) -> Option<HuffmanNode>
    decreases picks.len(),
{
    if picks.len() == 0 {
        if s.len() == 1 {
            Some(s[0])
        } else {
            None
        }
    } else {
        let (i, j) = picks[0];
        if s.len() >= 2 && least_at(s, i) && least_at(s.remove(i), j) {
            greedy_run(s.remove(i).remove(j).push(merged(s[i], s.remove(i)[j])), picks.drop_first())
        } else {
            None
        }
    }
}

/// `t` is a tree that merging the two least frequent subtrees of `s` (the first one taken
/// as the left child), over and over until one is left, can end with, whichever of equally
/// frequent subtrees is taken first.
pub open spec fn greedy_result(s: Seq<HuffmanNode>, t: HuffmanNode) -> bool {
    exists|picks: Seq<(int, int)>| #[trigger] greedy_run(s, picks) == Some(t)
}

/// Picks made first and picks made after them run as one run.
pub(crate) proof fn lemma_greedy_step(s: Seq<HuffmanNode>, i: int, j: int, rest: Seq<(int, int)>)
    requires
        s.len() >= 2,
        least_at(s, i),
        least_at(s.remove(i), j),
    ensures
        greedy_run(s, seq![(i, j)] + rest) == greedy_run(
            s.remove(i).remove(j).push(merged(s[i], s.remove(i)[j])),
            rest,
        ),
{
    let p = seq![(i, j)] + rest;
    assert(p[0] == (i, j));
    assert(p.drop_first() =~= rest);
}

/// The leaves of a frequency table (keyed by character code), one per entry, in some order.
pub open spec fn leaves_for(s: Seq<HuffmanNode>, m: Map<u32, u32>) -> bool {
    &&& s.len() == m.dom().len()
    &&& pairs_match(leaves_in(s), m)
    &&& forall|j: int| 0 <= j < s.len() ==> (#[trigger] s[j]).spec_is_leaf() && s[j].character is Some
}

/// A tree that the construction gives for the frequency table `m` (keyed by character
/// code): the empty node for no characters; a root above a single leaf for one; for more,
/// a full tree whose leaves are exactly the table's entries, which greedy merging of the
/// table's leaves ends with.
pub open spec fn is_huffman_tree_for(t: HuffmanNode, m: Map<u32, u32>) -> bool {
    if m.dom().len() == 0 {
        t == empty_node()
    } else if m.dom().len() == 1 {
        &&& t.character is None
        &&& t.right_child is None
        &&& t.left_child matches Some(l) && (*l).character is Some && (*l).spec_is_leaf()
            && t.frequency == (*l).frequency
        &&& pairs_match(leaf_ms(t), m)
    } else {
        &&& is_full(t)
        &&& t.character is None
        &&& pairs_match(leaf_ms(t), m)
        &&& t.frequency == map_total(m)
        &&& exists|s: Seq<HuffmanNode>| leaves_for(s, m) && #[trigger] greedy_result(s, t)
    }
}

/// A map's total is any one of its values plus the total of the rest.
pub proof fn lemma_map_total_remove(m: Map<u32, u32>, k: u32)
    requires
        m.dom().finite(),
        m.contains_key(k),
    ensures
        map_total(m) == m[k] + map_total(m.remove(k)),
    decreases m.dom().len(),
{
    let j = m.dom().choose();
    if j != k {
        assert(m.remove(j).dom() =~= m.dom().remove(j));
        assert(m.remove(k).dom() =~= m.dom().remove(k));
        lemma_map_total_remove(m.remove(j), k);
        lemma_map_total_remove(m.remove(k), j);
        assert(m.remove(j).remove(k) =~= m.remove(k).remove(j));
    }
}

proof fn lemma_leaves_in_remove(s: Seq<HuffmanNode>, i: int)
    requires
        0 <= i < s.len(),
    ensures
        leaves_in(s) == leaves_in(s.remove(i)).add(leaf_ms(s[i])),
        freq_sum(s) == freq_sum(s.remove(i)) + s[i].frequency,
    decreases s.len(),
{
    if i == s.len() - 1 {
        assert(s.remove(i) =~= s.drop_last());
    } else {
        lemma_leaves_in_remove(s.drop_last(), i);
        assert(s.remove(i).drop_last() =~= s.drop_last().remove(i));
        assert(s.remove(i).last() == s.last());
        assert(leaves_in(s) =~= leaves_in(s.remove(i)).add(leaf_ms(s[i])));
    }
}

proof fn lemma_freq_sum_nonneg(s: Seq<HuffmanNode>)
    ensures
        freq_sum(s) >= 0,
    decreases s.len(),
{
    if s.len() > 0 {
        lemma_freq_sum_nonneg(s.drop_last());
    }
}

/// Subtrees waiting to be merged, each kept under a node number in `nodes`, with the
/// priority queue ordering the numbers by frequency.
pub struct HuffmanQueue {
    queue: PriorityQueue<usize, Reverse<u32>>,
    nodes: Vec<HuffmanNode>,
    live: Ghost<Seq<usize>>,
}

impl HuffmanQueue {
    /// The queued subtrees. Their order carries no meaning: the queue hands out one of
    /// least frequency, and which one among equals is left open.
    pub closed spec fn items(self) -> Seq<HuffmanNode> {
        self.live@.map_values(|k: usize| self.nodes@[k as int])
    }

    /// The queue's own consistency, which every operation keeps.
    pub closed spec fn wf(self) -> bool {
        &&& self.live@.no_duplicates()
        &&& queue_entries(self.queue).dom().finite()
        &&& forall|k: usize| #[trigger] queue_entries(self.queue).contains_key(k) <==> self.live@.contains(k)
        &&& forall|j: int|
            0 <= j < self.live@.len() ==> {
                let k = #[trigger] self.live@[j];
                &&& k < self.nodes@.len()
                &&& queue_entries(self.queue)[k] == self.nodes@[k as int].frequency
            }
    }

    /// An empty queue.
    pub fn new() -> (q: Self)
        ensures
            q.wf(),
            q.items().len() == 0,
    {
        let q = HuffmanQueue { queue: queue_new(), nodes: Vec::new(), live: Ghost(Seq::empty()) };
        assert(q.items() =~= Seq::<HuffmanNode>::empty());
        q
    }

    /// The number of queued subtrees.
    pub fn len(&self) -> (n: usize)
        requires
            self.wf(),
        ensures
            n == self.items().len(),
    {
        proof {
            self.live@.unique_seq_to_set();
            assert(self.live@.to_set() =~= queue_entries(self.queue).dom());
        }
        queue_len(&self.queue)
    }

    /// Whether no subtree is queued.
    pub fn is_empty(&self) -> (b: bool)
        requires
            self.wf(),
        ensures
            b == (self.items().len() == 0),
    {
        self.len() == 0
    }

    /// Queues a subtree under its own frequency.
    pub fn push(&mut self, node: HuffmanNode)
        requires
            old(self).wf(),
        ensures
            final(self).wf(),
            final(self).items() == old(self).items().push(node),
    {
        let ghost old_items = self.items();
        let k = self.nodes.len();
        let f = node.frequency;
        self.nodes.push(node);
        assert(!self.live@.contains(k)) by {
            if self.live@.contains(k) {
                let j = self.live@.index_of(k);
                assert(self.live@[j] == k);
            }
        }
        queue_push(&mut self.queue, k, f);
        self.live = Ghost(self.live@.push(k));
        proof {
            assert forall|j: int| 0 <= j < old_items.len() implies #[trigger] self.items()[j] == old_items[j] by {
                assert(self.live@[j] == old(self).live@[j]);
            }
            assert(self.items() =~= old_items.push(node));
            assert forall|kk: usize| #[trigger] queue_entries(self.queue).contains_key(kk) <==> self.live@.contains(kk) by {
                if kk == k {
                    assert(self.live@[self.live@.len() - 1] == k);
                }
                if self.live@.contains(kk) && kk != k {
                    let jj = self.live@.index_of(kk);
                    assert(old(self).live@[jj] == kk);
                }
                if old(self).live@.contains(kk) {
                    let jj = old(self).live@.index_of(kk);
                    assert(self.live@[jj] == kk);
                }
            }
            assert forall|j: int| 0 <= j < self.live@.len() implies {
                let kk = #[trigger] self.live@[j];
                &&& kk < self.nodes@.len()
                &&& queue_entries(self.queue)[kk] == self.nodes@[kk as int].frequency
            } by {
                if j < old(self).live@.len() {
                    assert(self.live@[j] == old(self).live@[j]);
                }
            }
        }
    }

    /// Takes out a subtree of least frequency, with that frequency; `None` when empty.
    pub fn pop(&mut self) -> (popped: Option<(HuffmanNode, u32)>)
        requires
            old(self).wf(),
        ensures
            final(self).wf(),
            popped is None <==> old(self).items().len() == 0,
            popped is None ==> final(self).items() == old(self).items(),
            popped matches Some(e) ==> {
                &&& e.1 == e.0.frequency
                &&& exists|i: int|
                    0 <= i < old(self).items().len() && old(self).items()[i] == e.0
                        && final(self).items() == old(self).items().remove(i)
                &&& forall|j: int|
                    0 <= j < old(self).items().len() ==> e.1 <= #[trigger] old(self).items()[j].frequency
            },
    {
        let ghost old_items = self.items();
        match queue_pop(&mut self.queue) {
            None => {
                proof {
                    if self.live@.len() > 0 {
                        assert(queue_entries(old(self).queue).contains_key(self.live@[0]));
                    }
                }
                None
            },
            Some((k, f)) => {
                let ghost i = self.live@.index_of(k);
                let mut taken = HuffmanNode { character: None, frequency: 0, left_child: None, right_child: None };
                std::mem::swap(&mut taken, &mut self.nodes[k]);
                let ghost old_live = self.live@;
                self.live = Ghost(old_live.remove(i));
                proof {
                    assert(old_items[i] == taken);
                    assert forall|j: int| 0 <= j < self.live@.len() implies #[trigger] self.items()[j] == old_items.remove(i)[j] by {
                        let kk = self.live@[j];
                        if j < i {
                            assert(kk == old_live[j]);
                        } else {
                            assert(kk == old_live[j + 1]);
                        }
                        assert(kk != k);
                    }
                    assert(self.items() =~= old_items.remove(i));
                    assert forall|j: int| 0 <= j < old_items.len() implies f <= #[trigger] old_items[j].frequency by {
                        assert(queue_entries(old(self).queue).contains_key(old_live[j]));
                    }
                    assert forall|kk: usize| #[trigger] queue_entries(self.queue).contains_key(kk) <==> self.live@.contains(kk) by {
                        if self.live@.contains(kk) {
                            let jj = self.live@.index_of(kk);
                            if jj < i {
                                assert(old_live[jj] == kk);
                            } else {
                                assert(old_live[jj + 1] == kk);
                            }
                        }
                        if queue_entries(self.queue).contains_key(kk) {
                            assert(old_live.contains(kk));
                            let jj = old_live.index_of(kk);
                            if jj < i {
                                assert(self.live@[jj] == kk);
                            } else {
                                assert(self.live@[jj - 1] == kk);
                            }
                        }
                    }
                    assert forall|j: int| 0 <= j < self.live@.len() implies {
                        let kk = #[trigger] self.live@[j];
                        &&& kk < self.nodes@.len()
                        &&& queue_entries(self.queue)[kk] == self.nodes@[kk as int].frequency
                    } by {
                        let kk = self.live@[j];
                        if j < i {
                            assert(kk == old_live[j]);
                        } else {
                            assert(kk == old_live[j + 1]);
                        }
                    }
                }
                Some((taken, f))
            },
        }
    }
}

proof fn lemma_removed_full(s: Seq<HuffmanNode>, i: int, i2: int)
    requires
        0 <= i < s.len(),
        0 <= i2 < s.len() - 1,
        forall|j: int| 0 <= j < s.len() ==> is_full(#[trigger] s[j]),
    ensures
        forall|j: int| 0 <= j < s.len() - 2 ==> is_full(#[trigger] s.remove(i).remove(i2)[j]),
{
    assert forall|j: int| 0 <= j < s.len() - 2 implies is_full(#[trigger] s.remove(i).remove(i2)[j]) by {
        let j1 = if j < i2 { j } else { j + 1 };
        assert(s.remove(i).remove(i2)[j] == s.remove(i)[j1]);
        let j0 = if j1 < i { j1 } else { j1 + 1 };
        assert(s.remove(i)[j1] == s[j0]);
    }
}

/// Why no tree could be built.
#[derive(Debug, PartialEq, Eq, Clone, Copy)]
pub enum TreeError {
    /// The queue was empty where a subtree was expected.
    EmptyQueue,
}

/// The sum of the second components of a sequence of pairs.
pub open spec fn pair_sum(v: Seq<(u32, u32)>) -> int
    decreases v.len(),
{
    if v.len() == 0 {
        0
    } else {
        pair_sum(v.drop_last()) + v.last().1
    }
}

/// A sequence that lists each entry of a map once sums to the map's total.
pub(crate) proof fn lemma_pair_sum_map_total(v: Seq<(u32, u32)>, m: Map<u32, u32>)
    requires
        m.dom().finite(),
        v.len() == m.dom().len(),
        v.no_duplicates(),
        forall|i: int| 0 <= i < v.len() ==> #[trigger] m.contains_key(v[i].0) && m[v[i].0] == v[i].1,
    ensures
        pair_sum(v) == map_total(m),
    decreases v.len(),
{
    if v.len() == 0 {
        assert(m.dom().len() == 0);
    } else {
        let last = v.last();
        let k = last.0;
        assert(m.contains_key(v[v.len() - 1].0));
        lemma_map_total_remove(m, k);
        let m2 = m.remove(k);
        let v2 = v.drop_last();
        assert forall|i: int| 0 <= i < v2.len() implies #[trigger] m2.contains_key(v2[i].0) && m2[v2[i].0] == v2[i].1 by {
            assert(v2[i] == v[i]);
            assert(m.contains_key(v[i].0));
            if v2[i].0 == k {
                assert(v[i] == v[v.len() - 1]);
            }
        }
        assert(m2.dom() =~= m.dom().remove(k));
        lemma_pair_sum_map_total(v2, m2);
    }
}

/// A queue holding one leaf for every entry of the frequency table (keyed by character code).
pub fn create_pq(freqs: &HashMap<u32, u32>) -> (q: HuffmanQueue)
    requires
        forall|k: u32| #[trigger] freqs@.contains_key(k) ==> is_char_code(k),
    ensures
        q.wf(),
        q.items().len() == freqs@.dom().len(),
        pairs_match(leaves_in(q.items()), freqs@),
        freq_sum(q.items()) == map_total(freqs@),
        forall|j: int| 0 <= j < q.items().len() ==> {
            &&& #[trigger] q.items()[j].spec_is_leaf()
            &&& q.items()[j].character matches Some(c) && freqs@.contains_key(c as u32)
                && freqs@[c as u32] == q.items()[j].frequency
        },
{
    let mut q = HuffmanQueue::new();
    let ghost m = freqs@;
    let ghost mut seen: Seq<(u32, u32)> = Seq::empty();
    proof {
        broadcast use vstd::seq_lib::group_to_multiset_ensures;
        assert(seen.to_multiset() =~= Multiset::empty());
        assert(q.items().len() == 0);
    }
    for kv in it: freqs.iter()
        invariant
            q.wf(),
            m == freqs@,
            forall|k: u32| #[trigger] m.contains_key(k) ==> is_char_code(k),
            it.index() <= it.seq().len(),
            it.seq().len() == m.dom().len(),
            it.seq().no_duplicates(),
            forall|i: int| 0 <= i < it.seq().len() ==> #[trigger] m.contains_key(*it.seq()[i].0) && m[*it.seq()[i].0] == *it.seq()[i].1,
            q.items().len() == it.index(),
            seen.len() == it.index(),
            seen.no_duplicates(),
            forall|i: int| 0 <= i < seen.len() ==> #[trigger] m.contains_key(seen[i].0) && m[seen[i].0] == seen[i].1,
            freq_sum(q.items()) == pair_sum(seen),
            leaves_in(q.items()) == seen.to_multiset(),
            forall|i: int| 0 <= i < seen.len() ==> #[trigger] seen[i] == (*it.seq()[i].0, *it.seq()[i].1),
            forall|j: int| 0 <= j < q.items().len() ==> #[trigger] q.items()[j] == leaf_node(
                q.items()[j].character->0, *it.seq()[j].1) && q.items()[j].character is Some
                && q.items()[j].character->0 as u32 == *it.seq()[j].0,
    {
        assert(kv == it.seq()[it.index() as int]);
        let (key, val) = kv;
        assert(m.contains_key(*it.seq()[it.index() as int].0));
        let ghost items_before = q.items();
        if let Some(c) = char_from_code(*key) {
            let leaf = HuffmanNode { character: Some(c), frequency: *val, left_child: None, right_child: None };
            assert(leaf_ms(leaf) == Multiset::singleton((*key, *val)));
            q.push(leaf);
            assert(q.items().drop_last() =~= items_before);
        } else {
            assert(is_char_code(*key));
        }
        proof {
            broadcast use vstd::seq_lib::group_to_multiset_ensures;
            assert forall|i: int| 0 <= i < seen.len() implies #[trigger] seen[i] != (*key, *val) by {
                assert(it.seq()[i] != it.seq()[it.index() as int]);
            }
            let ghost pair = (*key, *val);
            assert(seen.push(pair).drop_last() =~= seen);
            seen = seen.push(pair);
        }
    }
    proof {
        broadcast use vstd::seq_lib::group_to_multiset_ensures;
        assert(seen.len() == m.dom().len());
        lemma_pair_sum_map_total(seen, m);
        seen.lemma_multiset_has_no_duplicates();
        assert forall|p: (u32, u32)| #[trigger] leaves_in(q.items()).count(p) == (if m.contains_key(p.0) && m[p.0] == p.1 {
            1nat
        } else {
            0nat
        }) by {
            if m.contains_key(p.0) && m[p.0] == p.1 {
                assert(seen.contains(p)) by {
                    if !seen.contains(p) {
                        lemma_unlisted_key(seen, m, p.0);
                    }
                }
            } else {
                if seen.contains(p) {
                    let i = seen.index_of(p);
                    assert(m.contains_key(seen[i].0));
                }
            }
        }
    }
    q
}

/// A duplicate-free list of a map's entries, as long as the map, lists every key.
proof fn lemma_unlisted_key(v: Seq<(u32, u32)>, m: Map<u32, u32>, k: u32)
    requires
        m.dom().finite(),
        v.len() == m.dom().len(),
        v.no_duplicates(),
        forall|i: int| 0 <= i < v.len() ==> #[trigger] m.contains_key(v[i].0) && m[v[i].0] == v[i].1,
        m.contains_key(k),
    ensures
        v.contains((k, m[k])),
{
    if !v.contains((k, m[k])) {
        let keys = v.map_values(|p: (u32, u32)| p.0);
        assert forall|i: int, j: int| 0 <= i < keys.len() && 0 <= j < keys.len() && i != j implies keys[i] != keys[j] by {
            assert(m.contains_key(v[i].0));
            assert(m.contains_key(v[j].0));
        }
        assert(keys.no_duplicates());
        keys.unique_seq_to_set();
        assert(keys.to_set().subset_of(m.dom().remove(k))) by {
            assert forall|x: u32| keys.to_set().contains(x) implies m.dom().remove(k).contains(x) by {
                let i = keys.index_of(x);
                assert(m.contains_key(v[i].0));
                if x == k {
                    assert(v[i] == (k, m[k]));
                }
            }
        }
        vstd::set_lib::lemma_len_subset(keys.to_set(), m.dom().remove(k));
    }
}

/// Every subtree of the sequence is full.
pub open spec fn all_full(s: Seq<HuffmanNode>) -> bool {
    forall|j: int| 0 <= j < s.len() ==> is_full(#[trigger] s[j])
}

/// Builds the Huffman tree from the queued subtrees by merging the two least frequent
/// ones (the first popped becomes the left child) until one is left. An empty queue gives
/// the empty node; a single subtree is put under a root as its left child.
#[verifier::spinoff_prover]
pub fn build_huffman_tree(pq: &mut HuffmanQueue) -> (r: Result<HuffmanNode, TreeError>)
    requires
        old(pq).wf(),
        freq_sum(old(pq).items()) <= u32::MAX,
    ensures
        final(pq).wf(),
        final(pq).items().len() == 0,
        old(pq).items().len() == 0 ==> r == Ok::<HuffmanNode, TreeError>(empty_node()),
        old(pq).items().len() == 1 ==> r == Ok::<HuffmanNode, TreeError>(
            HuffmanNode {
                character: None,
                frequency: old(pq).items()[0].frequency,
                left_child: Some(Box::new(old(pq).items()[0])),
                right_child: None,
            },
        ),
        old(pq).items().len() >= 2 ==> (r matches Ok(t) && {
            &&& all_full(old(pq).items()) ==> is_full(t)
            &&& t.character is None
            &&& leaf_ms(t) == leaves_in(old(pq).items())
            &&& t.frequency == freq_sum(old(pq).items())
            &&& greedy_result(old(pq).items(), t)
        }),
{
    if pq.is_empty() {
        return Ok(HuffmanNode::default());
    }
    if pq.len() == 1 {
        let child = match pq.pop() {
            Some((child, _)) => child,
            None => {
                return Err(TreeError::EmptyQueue);
            },
        };
        proof {
            assert(old(pq).items().remove(0).len() == 0);
        }
        let parent = HuffmanNode {
            character: None,
            frequency: child.frequency,
            left_child: Some(Box::new(child)),
            right_child: None,
        };
        return Ok(parent);
    }
    let ghost ms0 = leaves_in(pq.items());
    let ghost sum0 = freq_sum(pq.items());
    let ghost init = pq.items();
    let ghost mut picks: Seq<(int, int)> = Seq::empty();
    proof {
        assert forall|rest: Seq<(int, int)>| #[trigger] greedy_run(init, picks + rest) == greedy_run(pq.items(), rest) by {
            assert(picks + rest =~= rest);
        }
    }
    while pq.len() >= 2
        invariant
            pq.wf(),
            init == old(pq).items(),
            forall|rest: Seq<(int, int)>| #[trigger] greedy_run(init, picks + rest) == greedy_run(pq.items(), rest),
            pq.items().len() >= 1,
            pq.items().len() >= 2 || pq.items()[0].character is None,
            leaves_in(pq.items()) == ms0,
            freq_sum(pq.items()) == sum0,
            sum0 <= u32::MAX,
            all_full(init) ==> all_full(pq.items()),
        ensures
            pq.wf(),
            pq.items().len() == 1,
            pq.items()[0].character is None,
            leaves_in(pq.items()) == ms0,
            freq_sum(pq.items()) == sum0,
            all_full(init) ==> is_full(pq.items()[0]),
            forall|rest: Seq<(int, int)>| #[trigger] greedy_run(init, picks + rest) == greedy_run(pq.items(), rest),
        decreases pq.items().len(),
    {
        let ghost s0 = pq.items();
        let left = match pq.pop() {
            Some((left, _)) => left,
            None => {
                break;
            },
        };
        let ghost s1 = pq.items();
        let right = match pq.pop() {
            Some((right, _)) => right,
            None => {
                break;
            },
        };
        let ghost s2 = pq.items();
        proof {
            let i = choose|i: int| 0 <= i < s0.len() && s0[i] == left && s1 == s0.remove(i);
            let i2 = choose|i: int| 0 <= i < s1.len() && s1[i] == right && s2 == s1.remove(i);
            lemma_leaves_in_remove(s0, i);
            lemma_leaves_in_remove(s1, i2);
            lemma_freq_sum_nonneg(s2);
        }
        let parent_freq = left.frequency + right.frequency;
        let parent: HuffmanNode = HuffmanNode {
            character: None,
            frequency: parent_freq,
            left_child: Some(Box::new(left)),
            right_child: Some(Box::new(right)),
        };
        proof {
            assert(leaf_ms(parent) == leaf_ms(left).add(leaf_ms(right)));
        }
        pq.push(parent);
        proof {
            let s3 = pq.items();
            let i = choose|i: int| 0 <= i < s0.len() && s0[i] == left && s1 == s0.remove(i);
            let i2 = choose|i: int| 0 <= i < s1.len() && s1[i] == right && s2 == s1.remove(i);
            assert(s3 =~= s0.remove(i).remove(i2).push(merged(s0[i], s0.remove(i)[i2])));
            assert(least_at(s0, i));
            assert(least_at(s0.remove(i), i2));
            let p0 = picks;
            assert forall|rest: Seq<(int, int)>| #[trigger] greedy_run(init, p0.push((i, i2)) + rest) == greedy_run(s3, rest) by {
                assert(p0.push((i, i2)) + rest =~= p0 + (seq![(i, i2)] + rest));
                lemma_greedy_step(s0, i, i2, rest);
            }
            picks = p0.push((i, i2));
            assert(s3.drop_last() =~= s2);
            assert(leaves_in(s3) =~= leaves_in(s2).add(leaf_ms(parent)));
            assert(leaves_in(s3) =~= ms0);
            if all_full(init) {
                assert(is_full(s0[i]));
                assert(is_full(s1[i2]));
                lemma_removed_full(s0, i, i2);
                assert forall|j: int| 0 <= j < s3.len() implies is_full(#[trigger] s3[j]) by {
                    if j < s2.len() {
                        assert(s3[j] == s2[j]);
                    }
                }
            }
        }
    }
    let ghost before = pq.items();
    let root = match pq.pop() {
        Some((root, _)) => root,
        None => {
            return Err(TreeError::EmptyQueue);
        },
    };
    proof {
        assert(root == before[0]);
        assert(before.drop_last().len() == 0);
        assert(leaves_in(before.drop_last()) == Multiset::<(u32, u32)>::empty());
        assert(freq_sum(before.drop_last()) == 0);
        assert(before.last() == root);
        assert(leaves_in(before) =~= leaf_ms(root));
        assert(pq.items().len() == 0);
        assert(picks + Seq::<(int, int)>::empty() =~= picks);
        assert(greedy_run(init, picks + Seq::<(int, int)>::empty()) == greedy_run(before, Seq::empty()));
        assert(greedy_run(init, picks) == Some(root));
    }
    Ok(root)
}

/// The tree that the construction gives from the leaves of a frequency table is a
/// Huffman tree for the table.
pub proof fn lemma_built_tree(items: Seq<HuffmanNode>, m: Map<u32, u32>, t: HuffmanNode)
    requires
        items.len() == m.dom().len(),
        pairs_match(leaves_in(items), m),
        freq_sum(items) == map_total(m),
        forall|j: int| 0 <= j < items.len() ==> (#[trigger] items[j]).spec_is_leaf() && items[j].character is Some,
        items.len() == 0 ==> t == empty_node(),
        items.len() == 1 ==> t == (HuffmanNode {
            character: None,
            frequency: items[0].frequency,
            left_child: Some(Box::new(items[0])),
            right_child: None,
        }),
        items.len() >= 2 ==> is_full(t) && t.character is None && leaf_ms(t) == leaves_in(items) && t.frequency == freq_sum(items)
            && greedy_result(items, t),
    ensures
        is_huffman_tree_for(t, m),
{
    if items.len() >= 2 {
        assert(leaves_for(items, m));
    }
    if items.len() == 1 {
        let l = items[0];
        assert(l.spec_is_leaf() && l.character is Some);
        assert(items.drop_last().len() == 0);
        assert(leaves_in(items.drop_last()) == Multiset::<(u32, u32)>::empty());
        assert(leaves_in(items) =~= leaf_ms(l));
        assert(leaf_ms(t) =~= leaf_ms(l));
    }
}

/// A set of numbers below `n` has at most `n` elements.
pub(crate) proof fn lemma_bounded_set_len(s: Set<u32>, n: u32)
    requires
        s.finite(),
        forall|k: u32| #[trigger] s.contains(k) ==> k < n,
    ensures
        s.len() <= n,
    decreases n,
{
    if n > 0 {
        let s2 = s.remove((n - 1) as u32);
        lemma_bounded_set_len(s2, (n - 1) as u32);
        if s.contains((n - 1) as u32) {
            assert(s.len() == s2.len() + 1);
        } else {
            assert(s2 =~= s);
        }
    } else {
        if s.len() > 0 {
            let k = s.choose();
            assert(s.contains(k));
        }
    }
}

} // verus!
