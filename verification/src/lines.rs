//! Lines of a text and fields of a line, over sequences of characters. A text's lines end
//! at `\n`, and a `\r` just before that `\n` belongs to the line ending; the last line's
//! ending may be left out. A line's fields are what lies between the (leftmost,
//! non-overlapping) occurrences of a delimiter; an empty delimiter stands between any two
//! characters and at both ends.
use vstd::prelude::*;

verus! {

/// The position of the first `c` in `s` at or after `i`, or the length of `s` where there
/// is none.
pub open spec fn find_char(s: Seq<char>, c: char, i: int) -> int
    decreases s.len() - i,
{
    if i < 0 || i >= s.len() {
        s.len() as int
    } else if s[i] == c {
        i
    } else {
        find_char(s, c, i + 1)
    }
}

/// A line without the `\r` that ends it, if one does.
pub open spec fn strip_cr(x: Seq<char>) -> Seq<char> {
    if x.len() > 0 && x.last() == '\r' {
        x.drop_last()
    } else {
        x
    }
}

/// The lines of a text.
pub open spec fn lines_of(s: Seq<char>) -> Seq<Seq<char>>
    decreases s.len(),
{
    if s.len() == 0 {
        Seq::empty()
    } else {
        let i = find_char(s, '\n', 0);
        if 0 <= i && i < s.len() {
            seq![strip_cr(s.take(i))] + lines_of(s.skip(i + 1))
        } else {
            seq![s]
        }
    }
}

/// `d` occurs in `s` at position `i`.
pub open spec fn match_at(s: Seq<char>, d: Seq<char>, i: int) -> bool {
    &&& 0 <= i
    &&& i + d.len() <= s.len()
    &&& forall|k: int| 0 <= k < d.len() ==> #[trigger] s[i + k] == d[k]
}

/// The position of the first occurrence of `d` in `s` at or after `i`, or -1.
pub open spec fn find_match(s: Seq<char>, d: Seq<char>, i: int) -> int
    decreases s.len() - i,
{
    if i < 0 || i + d.len() > s.len() {
        -1
    } else if match_at(s, d, i) {
        i
    } else {
        find_match(s, d, i + 1)
    }
}

/// The fields of `s` between the occurrences of `d`.
pub open spec fn split_on(s: Seq<char>, d: Seq<char>) -> Seq<Seq<char>>
    decreases s.len(),
{
    if d.len() == 0 {
        seq![Seq::<char>::empty()] + Seq::new(s.len(), |k: int| seq![s[k]]) + seq![
            Seq::<char>::empty(),
        ]
    } else {
        let i = find_match(s, d, 0);
        if 0 <= i && i + d.len() <= s.len() {
            seq![s.take(i)] + split_on(s.skip(i + d.len()), d)
        } else {
            seq![s]
        }
    }
}

/// Whether a character is white space as Unicode's White_Space property says.
pub open spec fn is_white_space(c: char) -> bool {
    let u = c as u32;
    (0x9 <= u && u <= 0xD) || u == 0x20 || u == 0x85 || u == 0xA0 || u == 0x1680 || (0x2000 <= u
        && u <= 0x200A) || u == 0x2028 || u == 0x2029 || u == 0x202F || u == 0x205F || u == 0x3000
}

/// How many words (maximal runs of characters that are not white space) `s` holds.
pub open spec fn words_in(s: Seq<char>) -> nat
    decreases s.len(),
{
    if s.len() == 0 {
        0
    } else {
        let starts = !is_white_space(s.last()) && (s.len() == 1 || is_white_space(s[s.len() - 2]));
        words_in(s.drop_last()) + if starts {
            1nat
        } else {
            0nat
        }
    }
}

/// The pieces of `cs` between the given bounds.
pub open spec fn pieces(cs: Seq<char>, bounds: Seq<(usize, usize)>) -> Seq<Seq<char>> {
    Seq::new(bounds.len(), |k: int| cs.subrange(bounds[k].0 as int, bounds[k].1 as int))
}

/// Every pair of bounds lies within `lo..hi`, in order.
pub open spec fn bounds_within(bounds: Seq<(usize, usize)>, lo: int, hi: int) -> bool {
    forall|k: int|
        0 <= k < bounds.len() ==> lo <= #[trigger] bounds[k].0 <= bounds[k].1 <= hi
}

proof fn lemma_find_char(s: Seq<char>, c: char, i: int)
    requires
        0 <= i <= s.len(),
    ensures
        i <= find_char(s, c, i) <= s.len(),
        find_char(s, c, i) < s.len() ==> s[find_char(s, c, i)] == c,
        forall|k: int| i <= k < find_char(s, c, i) ==> s[k] != c,
    decreases s.len() - i,
{
    if i < s.len() && s[i] != c {
        lemma_find_char(s, c, i + 1);
    }
}

proof fn lemma_find_match(s: Seq<char>, d: Seq<char>, i: int)
    requires
        0 <= i,
    ensures
        find_match(s, d, i) == -1 || (i <= find_match(s, d, i) && match_at(s, d, find_match(s, d, i))),
        forall|k: int| i <= k && (find_match(s, d, i) == -1 || k < find_match(s, d, i)) ==> !match_at(s, d, k),
    decreases s.len() - i,
{
    if i + d.len() <= s.len() && !match_at(s, d, i) {
        lemma_find_match(s, d, i + 1);
    }
}

/// Whether `d` occurs in `cs` at `j` without running past `hi`.
fn match_here(cs: &Vec<char>, j: usize, hi: usize, d: &Vec<char>) -> (r: bool)
    requires
        j <= hi <= cs@.len(),
    ensures
        r == (j + d@.len() <= hi && forall|k: int| 0 <= k < d@.len() ==> cs@[j + k] == d@[k]),
{
    let dl = d.len();
    if dl > hi - j {
        return false;
    }
    let mut k: usize = 0;
    while k < dl
        invariant
            dl == d@.len(),
            j + dl <= hi <= cs@.len(),
            k <= dl,
            forall|m: int| 0 <= m < k ==> cs@[j + m] == d@[m],
        decreases dl - k,
    {
        if cs[j + k] != d[k] {
            return false;
        }
        k = k + 1;
    }
    true
}

/// The bounds of the lines of `cs`.
pub fn split_lines(cs: &Vec<char>) -> (v: Vec<(usize, usize)>)
    ensures
        pieces(cs@, v@) == lines_of(cs@),
        bounds_within(v@, 0, cs@.len() as int),
{
    let n = cs.len();
    let mut v: Vec<(usize, usize)> = Vec::new();
    let mut st: usize = 0;
    let mut i: usize = 0;
    proof {
        assert(cs@.skip(0) =~= cs@);
        assert(pieces(cs@, v@) + lines_of(cs@) =~= lines_of(cs@));
    }
    while i < n
        invariant
            n == cs@.len(),
            st <= i <= n,
            forall|k: int| st <= k < i ==> cs@[k] != '\n',
            lines_of(cs@) == pieces(cs@, v@) + lines_of(cs@.skip(st as int)),
            bounds_within(v@, 0, st as int),
        decreases n - i,
    {
        if cs[i] == '\n' {
            let ghost u = cs@.skip(st as int);
            let ghost m = (i - st) as int;
            proof {
                lemma_find_char(u, '\n', 0);
                assert(u[m] == '\n');
                assert forall|k: int| 0 <= k < m implies u[k] != '\n' by {
                    assert(u[k] == cs@[st + k]);
                }
                assert(find_char(u, '\n', 0) == m);
                assert(u.skip(m + 1) =~= cs@.skip(i + 1));
            }
            let end = if i > st && cs[i - 1] == '\r' {
                i - 1
            } else {
                i
            };
            proof {
                assert(strip_cr(u.take(m)) =~= cs@.subrange(st as int, end as int));
            }
            let ghost before = pieces(cs@, v@);
            v.push((st, end));
            proof {
                assert(pieces(cs@, v@) =~= before.push(cs@.subrange(st as int, end as int)));
                assert(lines_of(u) == seq![strip_cr(u.take(m))] + lines_of(cs@.skip(i + 1)));
                assert(lines_of(cs@) =~= pieces(cs@, v@) + lines_of(cs@.skip(i + 1)));
            }
            st = i + 1;
        }
        i = i + 1;
    }
    let ghost u = cs@.skip(st as int);
    if st < n {
        proof {
            lemma_find_char(u, '\n', 0);
            assert forall|k: int| 0 <= k < u.len() implies u[k] != '\n' by {
                assert(u[k] == cs@[st + k]);
            }
            assert(lines_of(u) == seq![u]);
            assert(u =~= cs@.subrange(st as int, n as int));
        }
        let ghost before = pieces(cs@, v@);
        v.push((st, n));
        proof {
            assert(pieces(cs@, v@) =~= before.push(cs@.subrange(st as int, n as int)));
            assert(lines_of(cs@) =~= pieces(cs@, v@));
        }
    } else {
        proof {
            assert(u.len() == 0);
            assert(lines_of(cs@) =~= pieces(cs@, v@));
        }
    }
    v
}

/// The bounds of the fields of the line `cs[lo..hi]` between the occurrences of `d`.
pub fn split_fields(cs: &Vec<char>, lo: usize, hi: usize, d: &Vec<char>) -> (v: Vec<(usize, usize)>)
    requires
        lo <= hi <= cs@.len(),
    ensures
        pieces(cs@, v@) == split_on(cs@.subrange(lo as int, hi as int), d@),
        bounds_within(v@, lo as int, hi as int),
{
    let dl = d.len();
    let ghost line = cs@.subrange(lo as int, hi as int);
    let mut v: Vec<(usize, usize)> = Vec::new();
    if dl == 0 {
        v.push((lo, lo));
        let mut k: usize = lo;
        while k < hi
            invariant
                lo <= k <= hi <= cs@.len(),
                v@.len() == k - lo + 1,
                v@[0] == (lo, lo),
                forall|m: int| 1 <= m < v@.len() ==> #[trigger] v@[m] == ((lo + m - 1) as usize, (lo + m) as usize),
            decreases hi - k,
        {
            v.push((k, k + 1));
            k = k + 1;
        }
        v.push((hi, hi));
        proof {
            let w = split_on(line, d@);
            assert(w.len() == v@.len());
            assert forall|m: int| 0 <= m < w.len() implies pieces(cs@, v@)[m] == w[m] by {
                if m == 0 {
                    assert(pieces(cs@, v@)[m] =~= Seq::<char>::empty());
                } else if m == w.len() - 1 {
                    assert(pieces(cs@, v@)[m] =~= Seq::<char>::empty());
                } else {
                    assert(pieces(cs@, v@)[m] =~= seq![line[m - 1]]);
                }
            }
            assert(pieces(cs@, v@) =~= w);
        }
        return v;
    }
    let mut st: usize = lo;
    let mut j: usize = lo;
    while j <= hi && dl <= hi - j
        invariant
            dl == d@.len(),
            dl > 0,
            lo <= st <= j <= hi <= cs@.len(),
            line == cs@.subrange(lo as int, hi as int),
            forall|k: int| 0 <= k < j - st ==> !match_at(cs@.subrange(st as int, hi as int), d@, k),
            split_on(line, d@) == pieces(cs@, v@) + split_on(cs@.subrange(st as int, hi as int), d@),
            bounds_within(v@, lo as int, st as int),
        decreases hi - j,
    {
        let ghost u = cs@.subrange(st as int, hi as int);
        let ghost m = (j - st) as int;
        let here = match_here(cs, j, hi, d);
        proof {
            assert(here == match_at(u, d@, m)) by {
                if here {
                    assert forall|k: int| 0 <= k < d@.len() implies #[trigger] u[m + k] == d@[k] by {
                        assert(u[m + k] == cs@[j + k]);
                    }
                }
                if match_at(u, d@, m) {
                    assert forall|k: int| 0 <= k < d@.len() implies cs@[j + k] == d@[k] by {
                        assert(u[m + k] == cs@[j + k]);
                    }
                }
            }
        }
        if here {
            proof {
                lemma_find_match(u, d@, 0);
                assert(find_match(u, d@, 0) == m);
                assert(u.skip(m + dl) =~= cs@.subrange(j + dl, hi as int));
                assert(u.take(m) =~= cs@.subrange(st as int, j as int));
            }
            let ghost before = pieces(cs@, v@);
            v.push((st, j));
            proof {
                assert(pieces(cs@, v@) =~= before.push(cs@.subrange(st as int, j as int)));
                assert(split_on(u, d@) == seq![u.take(m)] + split_on(u.skip(m + dl), d@));
                assert(split_on(line, d@) =~= pieces(cs@, v@) + split_on(
                    cs@.subrange(j + dl, hi as int),
                    d@,
                ));
            }
            st = j + dl;
            j = st;
        } else {
            j = j + 1;
        }
    }
    let ghost u = cs@.subrange(st as int, hi as int);
    proof {
        lemma_find_match(u, d@, 0);
        if find_match(u, d@, 0) != -1 {
            let f = find_match(u, d@, 0);
            assert(match_at(u, d@, f));
            assert(f + dl <= u.len());
            assert(f < j - st);
            assert(false);
        }
        assert(split_on(u, d@) == seq![u]);
    }
    let ghost before = pieces(cs@, v@);
    v.push((st, hi));
    proof {
        assert(pieces(cs@, v@) =~= before.push(u));
        assert(split_on(line, d@) =~= pieces(cs@, v@));
    }
    v
}

proof fn lemma_find_char_push(s: Seq<char>, c: char, i: int)
    requires
        0 <= i <= s.len(),
    ensures
        find_char(s.push(c), c, i) == find_char(s, c, i),
    decreases s.len() - i,
{
    if i < s.len() && s[i] != c {
        assert(s.push(c)[i] == s[i]);
        lemma_find_char_push(s, c, i + 1);
    } else if i < s.len() {
        assert(s.push(c)[i] == s[i]);
    } else {
        assert(s.push(c)[i] == c);
    }
}

/// A line ending after the last line adds no line: a text that does not end with `\n` has
/// as many lines as the text with `\n` added.
pub proof fn lemma_final_newline_adds_no_line(s: Seq<char>)
    requires
        s.len() > 0,
        s.last() != '\n',
    ensures
        lines_of(s.push('\n')).len() == lines_of(s).len(),
    decreases s.len(),
{
    let t = s.push('\n');
    lemma_find_char_push(s, '\n', 0);
    lemma_find_char(s, '\n', 0);
    let i = find_char(s, '\n', 0);
    if i < s.len() {
        let u = s.skip(i + 1);
        assert(t.take(i) =~= s.take(i));
        assert(t.skip(i + 1) =~= u.push('\n'));
        assert(i != s.len() - 1);
        assert(u.last() == s.last());
        lemma_final_newline_adds_no_line(u);
        assert(lines_of(t) == seq![strip_cr(t.take(i))] + lines_of(t.skip(i + 1)));
        assert(lines_of(s) == seq![strip_cr(s.take(i))] + lines_of(u));
    } else {
        assert(t.skip(i + 1) =~= Seq::<char>::empty());
        assert(lines_of(t) == seq![strip_cr(t.take(i))] + lines_of(t.skip(i + 1)));
        assert(lines_of(s) == seq![s]);
    }
}

} // verus!
