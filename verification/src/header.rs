//! The header of a compressed file: the number of distinct characters, the total number
//! of characters, then for each character its code and its frequency, every number a
//! big-endian `u32`.
use crate::text::is_char_code;
use vstd::prelude::*;

verus! {

/// The four big-endian bytes of `x`.
pub open spec fn be_bytes(x: u32) -> Seq<u8> {
    seq![
        (x / 0x100_0000) as u8,
        ((x / 0x1_0000) % 0x100) as u8,
        ((x / 0x100) % 0x100) as u8,
        (x % 0x100) as u8,
    ]
}

/// The big-endian `u32` held in the four bytes of `b` from `off`.
pub open spec fn be_u32_at(b: Seq<u8>, off: int) -> u32 {
    (b[off] as int * 0x100_0000 + b[off + 1] as int * 0x1_0000 + b[off + 2] as int * 0x100
        + b[off + 3] as int) as u32
}

/// The bytes of the (code, frequency) entries, in order.
pub open spec fn entries_bytes(e: Seq<(u32, u32)>) -> Seq<u8>
    decreases e.len(),
{
    if e.len() == 0 {
        Seq::empty()
    } else {
        entries_bytes(e.drop_last()) + be_bytes(e.last().0) + be_bytes(e.last().1)
    }
}

/// A header: the entry count, the total character count, then the entries.
pub open spec fn header_bytes(count: u32, total: u32, e: Seq<(u32, u32)>) -> Seq<u8> {
    be_bytes(count) + be_bytes(total) + entries_bytes(e)
}

/// `e` lists the entries of `m`, each once.
pub open spec fn lists_map(e: Seq<(u32, u32)>, m: Map<u32, u32>) -> bool {
    &&& e.len() == m.dom().len()
    &&& e.no_duplicates()
    &&& forall|i: int| 0 <= i < e.len() ==> #[trigger] m.contains_key(e[i].0) && m[e[i].0] == e[i].1
}

/// Why a header could not be read.
#[derive(Debug, PartialEq, Eq, Clone, Copy)]
pub enum HeaderError {
    /// Fewer than four bytes: no character count.
    TooShort,
    /// Fewer than eight bytes: no total character count.
    MissingTotalCount,
    /// The bytes end before an entry's character.
    MissingChar,
    /// An entry's character code is not a Unicode scalar value.
    InvalidChar(u32),
    /// The bytes end before an entry's frequency.
    MissingFrequency,
}

/// What a header says.
pub struct SpecHeader {
    pub char_count: u32,
    pub total_char_count: u32,
    pub freq_map: Map<u32, u32>,
    pub offset_end: int,
}

/// Reads `remaining` entries from `off`, adding each to `m` (a later entry for the same
/// character replaces an earlier one); gives the map and the offset past the entries.
pub open spec fn read_entries(raw: Seq<u8>, remaining: nat, off: int, m: Map<u32, u32>) -> Result<
    (Map<u32, u32>, int),
    HeaderError,
>
    decreases remaining,
{
    if remaining == 0 {
        Ok((m, off))
    } else if off + 4 > raw.len() {
        Err(HeaderError::MissingChar)
    } else if !is_char_code(be_u32_at(raw, off)) {
        Err(HeaderError::InvalidChar(be_u32_at(raw, off)))
    } else if off + 8 > raw.len() {
        Err(HeaderError::MissingFrequency)
    } else {
        read_entries(
            raw,
            (remaining - 1) as nat,
            off + 8,
            m.insert(be_u32_at(raw, off), be_u32_at(raw, off + 4)),
        )
    }
}

/// The header at the start of `raw`.
pub open spec fn spec_read_header(raw: Seq<u8>) -> Result<SpecHeader, HeaderError> {
    if raw.len() < 4 {
        Err(HeaderError::TooShort)
    } else if raw.len() < 8 {
        Err(HeaderError::MissingTotalCount)
    } else {
        match read_entries(raw, be_u32_at(raw, 0) as nat, 8, Map::empty()) {
            Ok((m, off)) => Ok(
                SpecHeader {
                    char_count: be_u32_at(raw, 0),
                    total_char_count: be_u32_at(raw, 4),
                    freq_map: m,
                    offset_end: off,
                },
            ),
            Err(e) => Err(e),
        }
    }
}

/// Reading back the four bytes of a number gives the number.
pub proof fn lemma_be_round_trip(x: u32, rest: Seq<u8>, pre: Seq<u8>)
    ensures
        be_u32_at(pre + be_bytes(x) + rest, pre.len() as int) == x,
{
    let b = pre + be_bytes(x) + rest;
    let o = pre.len() as int;
    assert(b[o] == (x / 0x100_0000) as u8);
    assert(b[o + 1] == ((x / 0x1_0000) % 0x100) as u8);
    assert(b[o + 2] == ((x / 0x100) % 0x100) as u8);
    assert(b[o + 3] == (x % 0x100) as u8);
    assert((x / 0x100_0000) * 0x100_0000 + ((x / 0x1_0000) % 0x100) * 0x1_0000 + ((x / 0x100) % 0x100)
        * 0x100 + x % 0x100 == x) by (nonlinear_arith);
}

pub(crate) proof fn lemma_entries_bytes_len(e: Seq<(u32, u32)>)
    ensures
        entries_bytes(e).len() == 8 * e.len(),
    decreases e.len(),
{
    if e.len() > 0 {
        lemma_entries_bytes_len(e.drop_last());
    }
}

/// Reading the entries of `e` written after `pre`, starting from the map `m0`, inserts
/// them in order.
proof fn lemma_read_entries(pre: Seq<u8>, e: Seq<(u32, u32)>, rest: Seq<u8>, k: nat, m0: Map<u32, u32>)
    requires
        k <= e.len(),
        forall|i: int| 0 <= i < e.len() ==> is_char_code(#[trigger] e[i].0),
    ensures
        read_entries(pre + entries_bytes(e) + rest, k, pre.len() + 8 * (e.len() - k), m0)
            == Ok::<(Map<u32, u32>, int), HeaderError>((insert_all(m0, e.subrange(e.len() - k, e.len() as int)), (pre.len() + 8 * e.len()) as int)),
    decreases k,
{
    lemma_entries_bytes_len(e);
    if k > 0 {
        let j = e.len() - k;
        let b = pre + entries_bytes(e) + rest;
        let off = pre.len() + 8 * j;
        // the entry j sits at `off`
        let front = e.subrange(0, j + 1);
        let back = e.subrange(j + 1, e.len() as int);
        lemma_entries_bytes_split(front, back);
        assert(e =~= front + back);
        lemma_entries_bytes_len(front.drop_last());
        assert(front.drop_last() =~= e.subrange(0, j));
        let pre2 = pre + entries_bytes(front.drop_last());
        assert(b =~= pre2 + be_bytes(e[j].0) + (be_bytes(e[j].1) + entries_bytes(back) + rest));
        lemma_be_round_trip(e[j].0, be_bytes(e[j].1) + entries_bytes(back) + rest, pre2);
        assert(b =~= (pre2 + be_bytes(e[j].0)) + be_bytes(e[j].1) + (entries_bytes(back) + rest));
        lemma_be_round_trip(e[j].1, entries_bytes(back) + rest, pre2 + be_bytes(e[j].0));
        assert(is_char_code(e[j].0));
        lemma_read_entries(pre, e, rest, (k - 1) as nat, m0.insert(e[j].0, e[j].1));
        assert(insert_all(m0.insert(e[j].0, e[j].1), e.subrange(j + 1, e.len() as int))
            == insert_all(m0, e.subrange(j, e.len() as int))) by {
            assert(e.subrange(j, e.len() as int).first() == e[j]);
            assert(e.subrange(j, e.len() as int).drop_first() =~= e.subrange(j + 1, e.len() as int));
        }
    } else {
        assert(e.subrange(e.len() as int, e.len() as int) =~= Seq::<(u32, u32)>::empty());
    }
}

/// Inserts the entries of `e` into `m`, first to last.
pub open spec fn insert_all(m: Map<u32, u32>, e: Seq<(u32, u32)>) -> Map<u32, u32>
    decreases e.len(),
{
    if e.len() == 0 {
        m
    } else {
        insert_all(m.insert(e.first().0, e.first().1), e.drop_first())
    }
}

proof fn lemma_entries_bytes_split(a: Seq<(u32, u32)>, b: Seq<(u32, u32)>)
    ensures
        entries_bytes(a + b) == entries_bytes(a) + entries_bytes(b),
    decreases b.len(),
{
    if b.len() == 0 {
        assert(a + b =~= a);
        assert(entries_bytes(a) + entries_bytes(b) =~= entries_bytes(a));
    } else {
        lemma_entries_bytes_split(a, b.drop_last());
        assert((a + b).drop_last() =~= a + b.drop_last());
        assert(entries_bytes(a + b) =~= entries_bytes(a) + entries_bytes(b));
    }
}

proof fn lemma_insert_all_lists(m: Map<u32, u32>, e: Seq<(u32, u32)>)
    requires
        m.dom().finite(),
        lists_map(e, m),
    ensures
        insert_all(Map::empty(), e) == m,
{
    assert forall|i: int, j: int| 0 <= i < e.len() && 0 <= j < e.len() && i != j implies e[i].0 != e[j].0 by {
        assert(m.contains_key(e[i].0));
        assert(m.contains_key(e[j].0));
    }
    lemma_insert_all_pointwise(Map::empty(), e);
    assert forall|k: u32| #[trigger] m.contains_key(k) implies exists|i: int| 0 <= i < e.len() && e[i].0 == k by {
        let keys = e.map_values(|p: (u32, u32)| p.0);
        if !(exists|i: int| 0 <= i < e.len() && e[i].0 == k) {
            assert forall|i: int, j: int| 0 <= i < keys.len() && 0 <= j < keys.len() && i != j implies keys[i] != keys[j] by {}
            assert(keys.no_duplicates());
            keys.unique_seq_to_set();
            assert(keys.to_set().subset_of(m.dom().remove(k))) by {
                assert forall|x: u32| keys.to_set().contains(x) implies m.dom().remove(k).contains(x) by {
                    let i = keys.index_of(x);
                    assert(m.contains_key(e[i].0));
                }
            }
            vstd::set_lib::lemma_len_subset(keys.to_set(), m.dom().remove(k));
        }
    }
    let r = insert_all(Map::empty(), e);
    assert forall|k: u32| #[trigger] r.contains_key(k) == m.contains_key(k) by {
        if r.contains_key(k) {
            let i = choose|i: int| 0 <= i < e.len() && e[i].0 == k;
            assert(m.contains_key(e[i].0));
        }
    }
    assert forall|k: u32| #[trigger] m.contains_key(k) implies r[k] == m[k] by {
        let i = choose|i: int| 0 <= i < e.len() && e[i].0 == k;
        assert(m.contains_key(e[i].0));
    }
    assert(r =~= m);
}

/// Inserting entries with distinct keys: each key of `e` maps to its value, other keys
/// keep what `m0` had.
proof fn lemma_insert_all_pointwise(m0: Map<u32, u32>, e: Seq<(u32, u32)>)
    requires
        forall|i: int, j: int| 0 <= i < e.len() && 0 <= j < e.len() && i != j ==> e[i].0 != e[j].0,
    ensures
        forall|k: u32| #[trigger] insert_all(m0, e).contains_key(k) == (m0.contains_key(k) || exists|i: int| 0 <= i < e.len() && e[i].0 == k),
        forall|i: int| 0 <= i < e.len() ==> insert_all(m0, e)[#[trigger] e[i].0] == e[i].1,
        forall|k: u32| m0.contains_key(k) && !(exists|i: int| 0 <= i < e.len() && e[i].0 == k) ==> #[trigger] insert_all(m0, e)[k] == m0[k],
    decreases e.len(),
{
    if e.len() > 0 {
        let m1 = m0.insert(e.first().0, e.first().1);
        let t = e.drop_first();
        assert forall|i: int, j: int| 0 <= i < t.len() && 0 <= j < t.len() && i != j implies t[i].0 != t[j].0 by {
            assert(t[i] == e[i + 1]);
            assert(t[j] == e[j + 1]);
        }
        lemma_insert_all_pointwise(m1, t);
        assert(insert_all(m0, e) == insert_all(m1, t));
        assert forall|k: u32| #[trigger] insert_all(m0, e).contains_key(k) == (m0.contains_key(k) || exists|i: int| 0 <= i < e.len() && e[i].0 == k) by {
            if exists|i: int| 0 <= i < t.len() && t[i].0 == k {
                let i = choose|i: int| 0 <= i < t.len() && t[i].0 == k;
                assert(e[i + 1].0 == k);
            }
            if exists|i: int| 0 <= i < e.len() && e[i].0 == k {
                let i = choose|i: int| 0 <= i < e.len() && e[i].0 == k;
                if i > 0 {
                    assert(t[i - 1].0 == k);
                }
            }
        }
        assert forall|i: int| 0 <= i < e.len() implies insert_all(m0, e)[#[trigger] e[i].0] == e[i].1 by {
            if i > 0 {
                assert(t[i - 1] == e[i]);
            } else {
                assert forall|j: int| 0 <= j < t.len() implies t[j].0 != e[0].0 by {
                    assert(t[j] == e[j + 1]);
                }
                assert(!(exists|j: int| 0 <= j < t.len() && t[j].0 == e[0].0));
                assert(m1.contains_key(e[0].0));
                assert(insert_all(m1, t)[e[0].0] == m1[e[0].0]);
            }
        }
        assert forall|k: u32| m0.contains_key(k) && !(exists|i: int| 0 <= i < e.len() && e[i].0 == k) implies insert_all(m0, e)[k] == m0[k] by {
            assert(k != e[0].0);
            assert(m1.contains_key(k) && m1[k] == m0[k]);
            if exists|i: int| 0 <= i < t.len() && t[i].0 == k {
                let i = choose|i: int| 0 <= i < t.len() && t[i].0 == k;
                assert(e[i + 1].0 == k);
            }
            assert(insert_all(m1, t)[k] == m1[k]);
        }
    }
}

/// Reading back a header written for the entries `e` (each character listed once, each a
/// Unicode scalar value) gives the count, the total, the entries as a map, and the offset
/// just past them, whatever follows the header.
pub proof fn lemma_header_round_trip(m: Map<u32, u32>, e: Seq<(u32, u32)>, total: u32, rest: Seq<u8>)
    requires
        m.dom().finite(),
        lists_map(e, m),
        e.len() <= u32::MAX,
        forall|k: u32| #[trigger] m.contains_key(k) ==> is_char_code(k),
    ensures
        spec_read_header(header_bytes(e.len() as u32, total, e) + rest) matches Ok(h) && h.char_count
            == e.len() && h.total_char_count == total && h.freq_map == m && h.offset_end == 8 + 8
            * e.len(),
{
    let n = e.len() as u32;
    let b = header_bytes(n, total, e) + rest;
    lemma_entries_bytes_len(e);
    assert(b =~= Seq::<u8>::empty() + be_bytes(n) + (be_bytes(total) + entries_bytes(e) + rest));
    lemma_be_round_trip(n, be_bytes(total) + entries_bytes(e) + rest, Seq::<u8>::empty());
    assert(b =~= be_bytes(n) + be_bytes(total) + (entries_bytes(e) + rest));
    lemma_be_round_trip(total, entries_bytes(e) + rest, be_bytes(n));
    assert forall|i: int| 0 <= i < e.len() implies is_char_code(#[trigger] e[i].0) by {
        assert(m.contains_key(e[i].0));
    }
    let pre = be_bytes(n) + be_bytes(total);
    assert(b =~= pre + entries_bytes(e) + rest);
    lemma_read_entries(pre, e, rest, e.len() as nat, Map::empty());
    assert(e.subrange(0, e.len() as int) =~= e);
    lemma_insert_all_lists(m, e);
}

/// Reading entries ends no further than the bytes go.
pub proof fn lemma_read_entries_end(raw: Seq<u8>, remaining: nat, off: int, m: Map<u32, u32>)
    requires
        0 <= off <= raw.len(),
    ensures
        read_entries(raw, remaining, off, m) matches Ok(res) ==> off <= res.1 <= raw.len(),
    decreases remaining,
{
    if remaining > 0 && off + 8 <= raw.len() && is_char_code(be_u32_at(raw, off)) {
        lemma_read_entries_end(raw, (remaining - 1) as nat, off + 8, m.insert(be_u32_at(raw, off), be_u32_at(raw, off + 4)));
    }
}

} // verus!
