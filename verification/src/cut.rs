//! Cutting fields out of the lines of a text.
use crate::lines::{bounds_within, lines_of, pieces, split_fields, split_lines, split_on};
use crate::text::chars_of;
use vstd::prelude::*;

verus! {

/// Why cutting failed.
#[derive(Debug, PartialEq, Eq)]
pub enum CutError {
    /// A field number is 0; field numbers start at 1.
    FieldZero,
    /// A line has fewer fields than a field number asks for.
    MissingField,
}

/// Some line of `ls` has fewer fields than some number in `cols` asks for.
pub open spec fn field_missing(ls: Seq<Seq<char>>, cols: Seq<usize>, d: Seq<char>) -> bool {
    exists|i: int, j: int|
        #![trigger split_on(ls[i], d), cols[j]]
        0 <= i < ls.len() && 0 <= j < cols.len() && cols[j] > split_on(ls[i], d).len()
}

/// The rows that cutting `cols` out of the lines `ls` gives.
pub open spec fn rows_are(rows: Seq<Seq<Seq<char>>>, ls: Seq<Seq<char>>, cols: Seq<usize>, d: Seq<char>) -> bool {
    &&& rows.len() == ls.len()
    &&& forall|i: int|
        0 <= i < ls.len() ==> (#[trigger] rows[i]).len() == cols.len() && forall|j: int|
            0 <= j < cols.len() ==> rows[i][j] == split_on(ls[i], d)[cols[j] - 1]
}

/// The rows as sequences of characters.
pub open spec fn rows_view<'a>(v: Seq<Vec<&'a str>>) -> Seq<Seq<Seq<char>>> {
    Seq::new(v.len(), |i: int| Seq::new(v[i]@.len(), |j: int| v[i]@[j]@))
}

/// For each line of `text`, the fields numbered by `cols` (from 1) between the occurrences
/// of `delimiter`, in the order of `cols`. A field number of 0 is refused; so is a field
/// number that a line has no field for.
pub fn parse_lines<'a>(cols: &[usize], text: &'a str, delimiter: &'a str) -> (r: Result<
    Vec<Vec<&'a str>>,
    CutError,
>)
    ensures
        cols@.contains(0usize) ==> r == Err::<Vec<Vec<&'a str>>, CutError>(CutError::FieldZero),
        !cols@.contains(0usize) && field_missing(lines_of(text@), cols@, delimiter@) ==> r == Err::<
            Vec<Vec<&'a str>>,
            CutError,
        >(CutError::MissingField),
        !cols@.contains(0usize) && !field_missing(lines_of(text@), cols@, delimiter@) ==> (r matches Ok(
            v,
        ) && rows_are(rows_view(v@), lines_of(text@), cols@, delimiter@)),
{
    let nc = cols.len();
    let mut c: usize = 0;
    while c < nc
        invariant
            nc == cols@.len(),
            c <= nc,
            forall|k: int| 0 <= k < c ==> cols@[k] != 0,
        decreases nc - c,
    {
        if cols[c] == 0 {
            proof {
                assert(cols@[c as int] == 0usize);
            }
            return Err(CutError::FieldZero);
        }
        c = c + 1;
    }
    let cs = chars_of(text);
    let ds = chars_of(delimiter);
    let ls = split_lines(&cs);
    let ghost lines = lines_of(text@);
    let mut rows: Vec<Vec<&'a str>> = Vec::new();
    let mut i: usize = 0;
    while i < ls.len()
        invariant
            nc == cols@.len(),
            forall|k: int| 0 <= k < nc ==> cols@[k] != 0,
            !cols@.contains(0usize),
            cs@ == text@,
            ds@ == delimiter@,
            lines == lines_of(text@),
            pieces(cs@, ls@) == lines,
            bounds_within(ls@, 0, cs@.len() as int),
            i <= ls@.len(),
            rows@.len() == i,
            forall|a: int, b: int|
                #![trigger split_on(lines[a], ds@), cols@[b]]
                0 <= a < i && 0 <= b < nc ==> cols@[b] <= split_on(lines[a], ds@).len(),
            forall|a: int|
                0 <= a < i ==> (#[trigger] rows_view(rows@)[a]).len() == nc && forall|b: int|
                    0 <= b < nc ==> rows_view(rows@)[a][b] == split_on(lines[a], ds@)[cols@[b] - 1],
        decreases ls@.len() - i,
    {
        let (lo, hi) = ls[i];
        proof {
            assert(lines[i as int] == cs@.subrange(lo as int, hi as int));
        }
        let fs = split_fields(&cs, lo, hi, &ds);
        let ghost fields = split_on(lines[i as int], ds@);
        let mut row: Vec<&'a str> = Vec::new();
        let mut j: usize = 0;
        while j < nc
            invariant
                nc == cols@.len(),
                forall|k: int| 0 <= k < nc ==> cols@[k] != 0,
                cs@ == text@,
                ds@ == delimiter@,
                lines == lines_of(text@),
                i < lines.len(),
                fields == split_on(lines[i as int], ds@),
                pieces(cs@, fs@) == fields,
                bounds_within(fs@, lo as int, hi as int),
                hi <= cs@.len(),
                j <= nc,
                row@.len() == j,
                forall|b: int| 0 <= b < j ==> cols@[b] <= fields.len(),
                forall|b: int| 0 <= b < j ==> (#[trigger] row@[b])@ == fields[cols@[b] - 1],
            decreases nc - j,
        {
            let col = cols[j];
            if col > fs.len() {
                proof {
                    assert(cols@[j as int] > split_on(lines[i as int], ds@).len());
                    assert(field_missing(lines_of(text@), cols@, delimiter@));
                }
                return Err(CutError::MissingField);
            }
            let (a, b) = fs[col - 1];
            proof {
                assert(0 <= col - 1 < fs@.len());
                assert(fs@[col - 1] == (a, b));
            }
            let word = text.substring_char(a, b);
            proof {
                assert(word@ == fields[cols@[j as int] - 1]);
            }
            row.push(word);
            j = j + 1;
        }
        let ghost before = rows@;
        rows.push(row);
        proof {
            assert(rows@ == before.push(row));
            assert forall|a: int|
                0 <= a <= i implies (#[trigger] rows_view(rows@)[a]).len() == nc && forall|b: int|
                0 <= b < nc ==> rows_view(rows@)[a][b] == split_on(lines[a], ds@)[cols@[b] - 1] by {
                if a < i {
                    assert(rows@[a] == before[a]);
                    assert(rows_view(rows@)[a] == rows_view(before)[a]);
                } else {
                    assert(rows@[a] == row);
                }
            }
        }
        i = i + 1;
    }
    proof {
        assert(lines.len() == ls@.len());
        if field_missing(lines_of(text@), cols@, delimiter@) {
            let (a, b) = choose|a: int, b: int|
                #![trigger split_on(lines[a], delimiter@), cols@[b]]
                0 <= a < lines.len() && 0 <= b < cols@.len() && cols@[b] > split_on(lines[a], delimiter@).len();
            assert(cols@[b] <= split_on(lines[a], ds@).len());
        }
    }
    Ok(rows)
}

} // verus!
