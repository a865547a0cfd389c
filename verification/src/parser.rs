//! The JSON parser: turns tokens into a value. It reads one value from where it stands
//! and does not look at what follows it. Inside an object and an array it goes on while
//! a comma follows, and then steps over one more token without looking at it.
use crate::lexer::{clone_token, strip_leading_zeros, strip_zeros, token_text, tokens_view, SpecToken, Token};
use vstd::prelude::*;

verus! {

/// A JSON value. A number is kept as the digits it was written with; an object keeps its
/// members in the order their keys first appeared, each key once. Two values are equal
/// (`==`, see `same_json`) when they mean the same: numbers by their value, objects by
/// their members whatever their order.
#[derive(Debug)]
pub enum JsonValue {
    Null,
    Bool(bool),
    Number(String),
    String(String),
    Array(Vec<JsonValue>),
    Object(Vec<(String, JsonValue)>),
}

/// A JSON value with its text as sequences of characters.
pub enum SpecJson {
    Null,
    Bool(bool),
    Number(Seq<char>),
    Str(Seq<char>),
    Array(Seq<SpecJson>),
    Object(Seq<(Seq<char>, SpecJson)>),
}

/// A value with its strings as sequences of characters.
pub open spec fn json_view(j: JsonValue) -> SpecJson
    decreases j,
{
    match j {
        JsonValue::Null => SpecJson::Null,
        JsonValue::Bool(b) => SpecJson::Bool(b),
        JsonValue::Number(s) => SpecJson::Number(s@),
        JsonValue::String(s) => SpecJson::Str(s@),
        JsonValue::Array(v) => SpecJson::Array(
            Seq::new(
                v@.len(),
                |i: int|
                    if 0 <= i < v@.len() {
                        json_view(v@[i])
                    } else {
                        SpecJson::Null
                    },
            ),
        ),
        JsonValue::Object(v) => SpecJson::Object(
            Seq::new(
                v@.len(),
                |i: int|
                    if 0 <= i < v@.len() {
                        (v@[i].0@, json_view(v@[i].1))
                    } else {
                        (Seq::empty(), SpecJson::Null)
                    },
            ),
        ),
    }
}

/// Two values mean the same: numbers with the same value (the same digits once leading
/// zeros are dropped), the same strings and booleans, arrays with equal elements in the
/// same order, and objects of as many members, each member of the first matched by a
/// member of the second with the same key and an equal value, whatever their order.
pub open spec fn same_json(a: SpecJson, b: SpecJson) -> bool
    decreases a, 0nat,
{
    match a {
        SpecJson::Null => b is Null,
        SpecJson::Bool(x) => match b {
            SpecJson::Bool(y) => x == y,
            _ => false,
        },
        SpecJson::Number(d) => match b {
            SpecJson::Number(e) => strip_zeros(d) == strip_zeros(e),
            _ => false,
        },
        SpecJson::Str(x) => match b {
            SpecJson::Str(y) => x == y,
            _ => false,
        },
        SpecJson::Array(xs) => match b {
            SpecJson::Array(ys) => same_list(xs, ys),
            _ => false,
        },
        SpecJson::Object(ms) => match b {
            SpecJson::Object(ns) => ms.len() == ns.len() && all_found(ms, ns),
            _ => false,
        },
    }
}

/// Two sequences of values of the same length whose elements mean the same, in order.
pub open spec fn same_list(xs: Seq<SpecJson>, ys: Seq<SpecJson>) -> bool
    decreases xs, 0nat,
{
    if xs.len() == 0 {
        ys.len() == 0
    } else {
        let n = xs.len() - 1;
        ys.len() == xs.len() && same_list(xs.subrange(0, n), ys.subrange(0, n)) && same_json(
            xs[n],
            ys[n],
        )
    }
}

/// Each member of `ms` is matched in `ns` by a member with the same key and an equal value.
pub open spec fn all_found(ms: Seq<(Seq<char>, SpecJson)>, ns: Seq<(Seq<char>, SpecJson)>) -> bool
    decreases ms, 0nat,
{
    if ms.len() == 0 {
        true
    } else {
        let n = ms.len() - 1;
        all_found(ms.subrange(0, n), ns) && found_in(ms[n], ns)
    }
}

/// Some member of `ns` has the key of `m` and a value equal to its value.
pub open spec fn found_in(m: (Seq<char>, SpecJson), ns: Seq<(Seq<char>, SpecJson)>) -> bool
    decreases m, ns.len(),
{
    if ns.len() == 0 {
        false
    } else {
        let k = ns.len() - 1;
        found_in(m, ns.subrange(0, k)) || (ns[k].0 == m.0 && same_json(m.1, ns[k].1))
    }
}

proof fn lemma_same_list_prefix(xs: Seq<SpecJson>, ys: Seq<SpecJson>, k: int)
    requires
        same_list(xs, ys),
        0 <= k <= xs.len(),
    ensures
        same_list(xs.subrange(0, k), ys.subrange(0, k)),
    decreases xs.len(),
{
    if k < xs.len() {
        let n = xs.len() - 1;
        lemma_same_list_prefix(xs.subrange(0, n), ys.subrange(0, n), k);
        assert(xs.subrange(0, n).subrange(0, k) =~= xs.subrange(0, k));
        assert(ys.subrange(0, n).subrange(0, k) =~= ys.subrange(0, k));
    } else {
        assert(xs.subrange(0, k) =~= xs);
        assert(ys.subrange(0, k) =~= ys);
    }
}

proof fn lemma_all_found_each(ms: Seq<(Seq<char>, SpecJson)>, ns: Seq<(Seq<char>, SpecJson)>, i: int)
    requires
        all_found(ms, ns),
        0 <= i < ms.len(),
    ensures
        found_in(ms[i], ns),
    decreases ms.len(),
{
    let n = ms.len() - 1;
    if i < n {
        lemma_all_found_each(ms.subrange(0, n), ns, i);
        assert(ms.subrange(0, n)[i] == ms[i]);
    }
}

/// Whether two values mean the same, as `same_json` says.
fn json_eq(a: &JsonValue, b: &JsonValue) -> (r: bool)
    ensures
        r == same_json(json_view(*a), json_view(*b)),
    decreases a,
{
    match a {
        JsonValue::Null => match b {
            JsonValue::Null => true,
            _ => false,
        },
        JsonValue::Bool(x) => match b {
            JsonValue::Bool(y) => *x == *y,
            _ => false,
        },
        JsonValue::Number(d) => match b {
            JsonValue::Number(e) => {
                let x = strip_leading_zeros(d);
                let y = strip_leading_zeros(e);
                x == y
            },
            _ => false,
        },
        JsonValue::String(x) => match b {
            JsonValue::String(y) => *x == *y,
            _ => false,
        },
        JsonValue::Array(xs) => match b {
            JsonValue::Array(ys) => {
                proof {
                    lemma_array_view(*xs);
                    lemma_array_view(*ys);
                }
                let n = xs.len();
                if n != ys.len() {
                    return false;
                }
                let ghost ex = elements_view(xs@);
                let ghost ey = elements_view(ys@);
                let mut i: usize = 0;
                proof {
                    assert(ex.subrange(0, 0) =~= Seq::<SpecJson>::empty());
                    assert(ey.subrange(0, 0) =~= Seq::<SpecJson>::empty());
                }
                while i < n
                    invariant
                        n == xs@.len(),
                        n == ys@.len(),
                        ex == elements_view(xs@),
                        ey == elements_view(ys@),
                        *a == JsonValue::Array(*xs),
                        json_view(*a) == SpecJson::Array(ex),
                        json_view(*b) == SpecJson::Array(ey),
                        i <= n,
                        same_list(ex.subrange(0, i as int), ey.subrange(0, i as int)),
                    decreases n - i,
                {
                    proof {
                        assert(decreases_to!(*a => xs@[i as int]));
                    }
                    let same = json_eq(&xs[i], &ys[i]);
                    proof {
                        assert(ex[i as int] == json_view(xs@[i as int]));
                        assert(ey[i as int] == json_view(ys@[i as int]));
                        assert(ex.subrange(0, i + 1).subrange(0, i as int) =~= ex.subrange(0, i as int));
                        assert(ey.subrange(0, i + 1).subrange(0, i as int) =~= ey.subrange(0, i as int));
                    }
                    if !same {
                        proof {
                            if same_list(ex, ey) {
                                lemma_same_list_prefix(ex, ey, i + 1);
                            }
                        }
                        return false;
                    }
                    i = i + 1;
                }
                proof {
                    assert(ex.subrange(0, n as int) =~= ex);
                    assert(ey.subrange(0, n as int) =~= ey);
                }
                true
            },
            _ => false,
        },
        JsonValue::Object(ms) => match b {
            JsonValue::Object(ns) => {
                proof {
                    lemma_object_view(*ms);
                    lemma_object_view(*ns);
                }
                let n = ms.len();
                if n != ns.len() {
                    return false;
                }
                let ghost mv = members_view(ms@);
                let ghost nv = members_view(ns@);
                let mut i: usize = 0;
                while i < n
                    invariant
                        n == ms@.len(),
                        n == ns@.len(),
                        mv == members_view(ms@),
                        nv == members_view(ns@),
                        *a == JsonValue::Object(*ms),
                        json_view(*a) == SpecJson::Object(mv),
                        json_view(*b) == SpecJson::Object(nv),
                        i <= n,
                        all_found(mv.subrange(0, i as int), nv),
                    decreases n - i,
                {
                    proof {
                        assert(decreases_to!(*a => ms@[i as int]));
                        assert(decreases_to!(*a => ms@[i as int].1));
                        assert(mv[i as int] == (ms@[i as int].0@, json_view(ms@[i as int].1)));
                    }
                    let ghost m = mv[i as int];
                    let mut found = false;
                    let mut j: usize = 0;
                    while j < n
                        invariant
                            n == ms@.len(),
                            n == ns@.len(),
                            mv == members_view(ms@),
                            nv == members_view(ns@),
                            *a == JsonValue::Object(*ms),
                            decreases_to!(*a => ms@[i as int].1),
                            i < n,
                            m == mv[i as int],
                            m == (ms@[i as int].0@, json_view(ms@[i as int].1)),
                            j <= n,
                            found == found_in(m, nv.subrange(0, j as int)),
                        decreases n - j,
                    {
                        proof {
                            assert(nv[j as int] == (ns@[j as int].0@, json_view(ns@[j as int].1)));
                            assert(nv.subrange(0, j + 1).subrange(0, j as int) =~= nv.subrange(0, j as int));
                            assert(nv.subrange(0, j + 1)[j as int] == nv[j as int]);
                        }
                        if !found && ms[i].0 == ns[j].0 {
                            let same = json_eq(&ms[i].1, &ns[j].1);
                            found = same;
                        }
                        j = j + 1;
                    }
                    proof {
                        assert(nv.subrange(0, n as int) =~= nv);
                        assert(mv.subrange(0, i + 1).subrange(0, i as int) =~= mv.subrange(0, i as int));
                        assert(mv.subrange(0, i + 1)[i as int] == m);
                    }
                    if !found {
                        proof {
                            if all_found(mv, nv) {
                                lemma_all_found_each(mv, nv, i as int);
                            }
                        }
                        return false;
                    }
                    i = i + 1;
                }
                proof {
                    assert(mv.subrange(0, n as int) =~= mv);
                }
                true
            },
            _ => false,
        },
    }
}

impl PartialEq for JsonValue {
    fn eq(&self, other: &Self) -> (r: bool) {
        json_eq(self, other)
    }
}

impl vstd::std_specs::cmp::PartialEqSpecImpl for JsonValue {
    open spec fn obeys_eq_spec() -> bool {
        true
    }

    open spec fn eq_spec(&self, other: &JsonValue) -> bool {
        same_json(json_view(*self), json_view(*other))
    }
}

/// Why parsing failed.
#[derive(Debug, PartialEq)]
pub enum ParseError {
    /// A token was expected, the tokens had ended.
    UnexpectedEnd,
    /// Another token was found than the one expected.
    UnexpectedToken { found: Token, expected: Token },
    /// A token that starts no value.
    InvalidJson,
    /// An object's first member does not start with a string key.
    UnexpectedTokenInObject,
    /// An object is opened at the last token.
    UnexpectedEndOfJson,
}

/// A parse error with its tokens viewed.
pub enum SpecParseError {
    UnexpectedEnd,
    UnexpectedToken(SpecToken, SpecToken),
    InvalidJson,
    UnexpectedTokenInObject,
    UnexpectedEndOfJson,
}

impl View for ParseError {
    type V = SpecParseError;

    open spec fn view(&self) -> SpecParseError {
        match self {
            ParseError::UnexpectedEnd => SpecParseError::UnexpectedEnd,
            ParseError::UnexpectedToken { found, expected } => SpecParseError::UnexpectedToken(found@, expected@),
            ParseError::InvalidJson => SpecParseError::InvalidJson,
            ParseError::UnexpectedTokenInObject => SpecParseError::UnexpectedTokenInObject,
            ParseError::UnexpectedEndOfJson => SpecParseError::UnexpectedEndOfJson,
        }
    }
}

/// What parsing from a position gives: a value and the position after it, an error and
/// the position where it arose, or the need to read a token past the last one (where
/// reading would index out of bounds).
pub enum Parsed {
    Value(SpecJson, int),
    Fail(SpecParseError, int),
    OutOfTokens,
}

/// How many tokens are left from `p`.
pub open spec fn rest(t: Seq<SpecToken>, p: int) -> nat {
    if 0 <= p < t.len() {
        (t.len() - p) as nat
    } else {
        0
    }
}

/// An object's members with `(k, v)` added: a key already there gets the new value in
/// its place, a new key comes last.
pub open spec fn obj_insert(acc: Seq<(Seq<char>, SpecJson)>, k: Seq<char>, v: SpecJson) -> Seq<(Seq<char>, SpecJson)> {
    if exists|i: int| 0 <= i < acc.len() && acc[i].0 == k {
        let i = choose|i: int| 0 <= i < acc.len() && acc[i].0 == k;
        acc.update(i, (k, v))
    } else {
        acc.push((k, v))
    }
}

/// Parsing a value at `p`.
pub open spec fn parse_value_at(t: Seq<SpecToken>, p: int) -> Parsed
    decreases rest(t, p), 2nat,
{
    if p < 0 || p >= t.len() {
        Parsed::OutOfTokens
    } else {
        match t[p] {
            SpecToken::LeftBrace => parse_object_at(t, p),
            SpecToken::LeftBracket => parse_array_at(t, p),
            SpecToken::Number(d) => Parsed::Value(SpecJson::Number(d), p + 1),
            SpecToken::Bool(b) => Parsed::Value(SpecJson::Bool(b), p + 1),
            SpecToken::Null => Parsed::Value(SpecJson::Null, p + 1),
            SpecToken::Str(s) => Parsed::Value(SpecJson::Str(s), p + 1),
            _ => Parsed::Fail(SpecParseError::InvalidJson, p),
        }
    }
}

/// Parsing `: value` at `p`.
pub open spec fn parse_pair_at(t: Seq<SpecToken>, p: int) -> Parsed
    decreases rest(t, p), 3nat,
{
    if p < 0 || p >= t.len() {
        Parsed::Fail(SpecParseError::UnexpectedEnd, p)
    } else if t[p] is Colon {
        parse_value_at(t, p + 1)
    } else {
        Parsed::Fail(SpecParseError::UnexpectedToken(t[p], SpecToken::Colon), p)
    }
}

/// Parsing an object whose `{` is at `p`.
pub open spec fn parse_object_at(t: Seq<SpecToken>, p: int) -> Parsed
    decreases rest(t, p), 1nat,
{
    if p < 0 || p >= t.len() {
        Parsed::OutOfTokens
    } else if p + 1 >= t.len() {
        Parsed::Fail(SpecParseError::UnexpectedEndOfJson, p + 1)
    } else {
        match t[p + 1] {
            SpecToken::RightBrace => Parsed::Value(SpecJson::Object(Seq::empty()), p + 2),
            SpecToken::Str(k) => match parse_pair_at(t, p + 2) {
                Parsed::Value(v, r) => if r > p {
                    parse_members(t, r, obj_insert(Seq::empty(), k, v))
                } else {
                    Parsed::OutOfTokens
                },
                other => other,
            },
            _ => Parsed::Fail(SpecParseError::UnexpectedTokenInObject, p + 1),
        }
    }
}

/// The rest of an object from `r`, with the members so far: while a comma follows, the
/// token after it is written out as the key and `: value` follows; then one token is
/// stepped over.
pub open spec fn parse_members(t: Seq<SpecToken>, r: int, acc: Seq<(Seq<char>, SpecJson)>) -> Parsed
    decreases rest(t, r), 0nat,
{
    if 0 <= r < t.len() && t[r] is Comma {
        if r + 1 >= t.len() {
            Parsed::OutOfTokens
        } else {
            match parse_pair_at(t, r + 2) {
                Parsed::Value(v, s) => if s > r {
                    parse_members(t, s, obj_insert(acc, token_text(t[r + 1]), v))
                } else {
                    Parsed::OutOfTokens
                },
                other => other,
            }
        }
    } else {
        Parsed::Value(SpecJson::Object(acc), r + 1)
    }
}

/// Parsing an array whose `[` is at `p`.
pub open spec fn parse_array_at(t: Seq<SpecToken>, p: int) -> Parsed
    decreases rest(t, p), 1nat,
{
    if p < 0 || p >= t.len() {
        Parsed::OutOfTokens
    } else if p + 1 < t.len() && t[p + 1] is RightBracket {
        Parsed::Value(SpecJson::Array(Seq::empty()), p + 2)
    } else {
        match parse_value_at(t, p + 1) {
            Parsed::Value(v, r) => if r > p {
                parse_elements(t, r, seq![v])
            } else {
                Parsed::OutOfTokens
            },
            other => other,
        }
    }
}

/// The rest of an array from `r`, with the elements so far: while a comma follows, a value
/// follows it; then one token is stepped over.
pub open spec fn parse_elements(t: Seq<SpecToken>, r: int, acc: Seq<SpecJson>) -> Parsed
    decreases rest(t, r), 0nat,
{
    if 0 <= r < t.len() && t[r] is Comma {
        match parse_value_at(t, r + 1) {
            Parsed::Value(v, s) => if s > r {
                parse_elements(t, s, acc.push(v))
            } else {
                Parsed::OutOfTokens
            },
            other => other,
        }
    } else {
        Parsed::Value(SpecJson::Array(acc), r + 1)
    }
}

/// The members of an object, viewed.
pub open spec fn members_view(v: Seq<(String, JsonValue)>) -> Seq<(Seq<char>, SpecJson)> {
    Seq::new(v.len(), |i: int| (v[i].0@, json_view(v[i].1)))
}

/// The elements of an array, viewed.
pub open spec fn elements_view(v: Seq<JsonValue>) -> Seq<SpecJson> {
    Seq::new(v.len(), |i: int| json_view(v[i]))
}

/// No key occurs twice.
pub open spec fn keys_unique(m: Seq<(Seq<char>, SpecJson)>) -> bool {
    forall|i: int, j: int| 0 <= i < m.len() && 0 <= j < m.len() && i != j ==> m[i].0 != m[j].0
}

/// Every object in `j`, at any depth, names each key once.
pub open spec fn well_keyed(j: SpecJson) -> bool
    decreases j,
{
    match j {
        SpecJson::Array(a) => forall|i: int| 0 <= i < a.len() ==> well_keyed(#[trigger] a[i]),
        SpecJson::Object(m) => keys_unique(m) && forall|i: int|
            0 <= i < m.len() ==> well_keyed(#[trigger] m[i].1),
        _ => true,
    }
}

/// Members whose keys differ and whose values are well keyed.
pub open spec fn members_well_keyed(m: Seq<(Seq<char>, SpecJson)>) -> bool {
    keys_unique(m) && forall|i: int| 0 <= i < m.len() ==> well_keyed(#[trigger] m[i].1)
}

proof fn lemma_obj_insert_well_keyed(acc: Seq<(Seq<char>, SpecJson)>, k: Seq<char>, v: SpecJson)
    requires
        members_well_keyed(acc),
        well_keyed(v),
    ensures
        members_well_keyed(obj_insert(acc, k, v)),
{
    if exists|i: int| 0 <= i < acc.len() && acc[i].0 == k {
        let i = choose|i: int| 0 <= i < acc.len() && acc[i].0 == k;
        let r = acc.update(i, (k, v));
        assert forall|a: int| 0 <= a < r.len() implies #[trigger] r[a].0 == acc[a].0 by {}
        assert forall|a: int| 0 <= a < r.len() implies well_keyed(#[trigger] r[a].1) by {
            if a != i {
                assert(r[a] == acc[a]);
            }
        }
    } else {
        let r = acc.push((k, v));
        assert forall|a: int, b: int| 0 <= a < r.len() && 0 <= b < r.len() && a != b implies r[a].0 != r[b].0 by {
            if a < acc.len() && b < acc.len() {
                assert(r[a] == acc[a] && r[b] == acc[b]);
            } else if a < acc.len() {
                assert(r[a] == acc[a]);
            } else {
                assert(r[b] == acc[b]);
            }
        }
        assert forall|a: int| 0 <= a < r.len() implies well_keyed(#[trigger] r[a].1) by {
            if a < acc.len() {
                assert(r[a] == acc[a]);
            }
        }
    }
}

proof fn lemma_value_well_keyed(t: Seq<SpecToken>, p: int)
    ensures
        parse_value_at(t, p) matches Parsed::Value(v, _) ==> well_keyed(v),
    decreases rest(t, p), 2nat,
{
    if 0 <= p < t.len() {
        match t[p] {
            SpecToken::LeftBrace => lemma_object_well_keyed(t, p),
            SpecToken::LeftBracket => lemma_array_well_keyed(t, p),
            _ => {},
        }
    }
}

proof fn lemma_pair_well_keyed(t: Seq<SpecToken>, p: int)
    ensures
        parse_pair_at(t, p) matches Parsed::Value(v, _) ==> well_keyed(v),
    decreases rest(t, p), 3nat,
{
    if 0 <= p < t.len() && t[p] is Colon {
        lemma_value_well_keyed(t, p + 1);
    }
}

proof fn lemma_object_well_keyed(t: Seq<SpecToken>, p: int)
    ensures
        parse_object_at(t, p) matches Parsed::Value(v, _) ==> well_keyed(v),
    decreases rest(t, p), 1nat,
{
    if 0 <= p && p + 1 < t.len() {
        match t[p + 1] {
            SpecToken::Str(k) => {
                lemma_pair_well_keyed(t, p + 2);
                match parse_pair_at(t, p + 2) {
                    Parsed::Value(v, r) => if r > p {
                        assert(members_well_keyed(Seq::empty()));
                        lemma_obj_insert_well_keyed(Seq::empty(), k, v);
                        lemma_members_well_keyed(t, r, obj_insert(Seq::empty(), k, v));
                    },
                    _ => {},
                }
            },
            SpecToken::RightBrace => {
                assert(members_well_keyed(Seq::empty()));
            },
            _ => {},
        }
    }
}

proof fn lemma_members_well_keyed(t: Seq<SpecToken>, r: int, acc: Seq<(Seq<char>, SpecJson)>)
    requires
        members_well_keyed(acc),
    ensures
        parse_members(t, r, acc) matches Parsed::Value(v, _) ==> well_keyed(v),
    decreases rest(t, r), 0nat,
{
    if 0 <= r < t.len() && t[r] is Comma && r + 1 < t.len() {
        lemma_pair_well_keyed(t, r + 2);
        match parse_pair_at(t, r + 2) {
            Parsed::Value(v, s) => if s > r {
                lemma_obj_insert_well_keyed(acc, token_text(t[r + 1]), v);
                lemma_members_well_keyed(t, s, obj_insert(acc, token_text(t[r + 1]), v));
            },
            _ => {},
        }
    }
}

proof fn lemma_array_well_keyed(t: Seq<SpecToken>, p: int)
    ensures
        parse_array_at(t, p) matches Parsed::Value(v, _) ==> well_keyed(v),
    decreases rest(t, p), 1nat,
{
    if 0 <= p < t.len() && !(p + 1 < t.len() && t[p + 1] is RightBracket) {
        lemma_value_well_keyed(t, p + 1);
        match parse_value_at(t, p + 1) {
            Parsed::Value(v, r) => if r > p {
                lemma_elements_well_keyed(t, r, seq![v]);
            },
            _ => {},
        }
    }
}

proof fn lemma_elements_well_keyed(t: Seq<SpecToken>, r: int, acc: Seq<SpecJson>)
    requires
        forall|i: int| 0 <= i < acc.len() ==> well_keyed(#[trigger] acc[i]),
    ensures
        parse_elements(t, r, acc) matches Parsed::Value(v, _) ==> well_keyed(v),
    decreases rest(t, r), 0nat,
{
    if 0 <= r < t.len() && t[r] is Comma {
        lemma_value_well_keyed(t, r + 1);
        match parse_value_at(t, r + 1) {
            Parsed::Value(v, s) => if s > r {
                let acc2 = acc.push(v);
                assert forall|i: int| 0 <= i < acc2.len() implies well_keyed(#[trigger] acc2[i]) by {
                    if i < acc.len() {
                        assert(acc2[i] == acc[i]);
                    }
                }
                lemma_elements_well_keyed(t, s, acc2);
            },
            _ => {},
        }
    }
}

/// Every value the parser gives back has each key of each of its objects once, at any
/// depth: a key written again replaces the value in the place where it first stood.
pub proof fn lemma_parsed_keys_unique(t: Seq<SpecToken>, p: int)
    ensures
        parse_value_at(t, p) matches Parsed::Value(v, _) ==> well_keyed(v),
{
    lemma_value_well_keyed(t, p);
}

proof fn lemma_object_view(v: Vec<(String, JsonValue)>)
    ensures
        json_view(JsonValue::Object(v)) == SpecJson::Object(members_view(v@)),
{
    let s = json_view(JsonValue::Object(v))->Object_0;
    assert(s.len() == v@.len());
    assert forall|i: int| 0 <= i < s.len() implies s[i] == members_view(v@)[i] by {}
    assert(s =~= members_view(v@));
}

proof fn lemma_array_view(v: Vec<JsonValue>)
    ensures
        json_view(JsonValue::Array(v)) == SpecJson::Array(elements_view(v@)),
{
    let s = json_view(JsonValue::Array(v))->Array_0;
    assert(s.len() == v@.len());
    assert forall|i: int| 0 <= i < s.len() implies s[i] == elements_view(v@)[i] by {}
    assert(s =~= elements_view(v@));
}

/// Adds a member to an object as `obj_insert` says.
fn insert_member(map: &mut Vec<(String, JsonValue)>, key: String, value: JsonValue)
    requires
        keys_unique(members_view(old(map)@)),
    ensures
        keys_unique(members_view(final(map)@)),
        members_view(final(map)@) == obj_insert(members_view(old(map)@), key@, json_view(value)),
{
    let ghost m0 = members_view(map@);
    let ghost kv = key@;
    let ghost vv = json_view(value);
    let n = map.len();
    let mut i: usize = 0;
    while i < n
        invariant
            n == map@.len(),
            map@ == old(map)@,
            kv == key@,
            vv == json_view(value),
            keys_unique(m0),
            m0 == members_view(map@),
            i <= n,
            forall|j: int| 0 <= j < i ==> map@[j].0@ != key@,
        decreases n - i,
    {
        if map[i].0 == key {
            proof {
                assert(map@[i as int].0@ == key@);
                assert(m0[i as int] == (map@[i as int].0@, json_view(map@[i as int].1)));
                assert(m0[i as int].0 == key@);
                assert(key@ == kv);
                assert(m0[i as int].0 == kv);
                let c = choose|c: int| 0 <= c < m0.len() && m0[c].0 == kv;
                assert(c == i);
            }
            map.set(i, (key, value));
            proof {
                assert(members_view(map@) =~= m0.update(i as int, (kv, vv)));
                assert(m0.update(i as int, (kv, vv))[i as int].0 == m0[i as int].0);
                assert forall|a: int| 0 <= a < m0.len() implies #[trigger] m0.update(i as int, (kv, vv))[a].0 == m0[a].0 by {}
            }
            return;
        }
        i = i + 1;
    }
    map.push((key, value));
    proof {
        assert forall|c: int| 0 <= c < m0.len() implies m0[c].0 != kv by {
            assert(m0[c].0 == map@[c].0@);
        }
        assert(!(exists|c: int| 0 <= c < m0.len() && m0[c].0 == kv));
        assert(members_view(map@) =~= m0.push((kv, vv)));
    }
}

/// Whether a token is a comma.
fn is_comma(t: &Token) -> (b: bool)
    ensures
        b == (t@ is Comma),
{
    match t {
        Token::Comma => true,
        _ => false,
    }
}

/// Whether two tokens are the same.
fn same_token(a: &Token, b: &Token) -> (r: bool)
    ensures
        r == (a@ == b@),
{
    match a {
        Token::LeftBrace => match b {
            Token::LeftBrace => true,
            _ => false,
        },
        Token::RightBrace => match b {
            Token::RightBrace => true,
            _ => false,
        },
        Token::LeftBracket => match b {
            Token::LeftBracket => true,
            _ => false,
        },
        Token::RightBracket => match b {
            Token::RightBracket => true,
            _ => false,
        },
        Token::Colon => match b {
            Token::Colon => true,
            _ => false,
        },
        Token::Comma => match b {
            Token::Comma => true,
            _ => false,
        },
        Token::String(x) => match b {
            Token::String(y) => *x == *y,
            _ => false,
        },
        Token::Number(x) => match b {
            Token::Number(y) => *x == *y,
            _ => false,
        },
        Token::Bool(x) => match b {
            Token::Bool(y) => *x == *y,
            _ => false,
        },
        Token::Null => match b {
            Token::Null => true,
            _ => false,
        },
    }
}

/// The outcome of one parsing step.
enum Step {
    Done(JsonValue),
    Failed(ParseError),
    OutOfTokens,
}

/// A step's outcome and the position after it agree with the model.
spec fn step_is(st: Step, o: Parsed, pos: int) -> bool {
    match o {
        Parsed::Value(v, q) => st matches Step::Done(j) && json_view(j) == v && pos == q,
        Parsed::Fail(e, q) => st matches Step::Failed(err) && err@ == e && pos == q,
        Parsed::OutOfTokens => st is OutOfTokens,
    }
}

/// Parses JSON tokens.
pub struct Parser {
    pos: usize,
    pub input: Vec<Token>,
}

impl Parser {
    /// Where parsing stands.
    pub closed spec fn position(&self) -> int {
        self.pos as int
    }

    /// The tokens being parsed.
    pub closed spec fn spec_input(&self) -> Seq<SpecToken> {
        tokens_view(self.input@)
    }

    /// A parser at the first of `input`.
    pub fn new(input: Vec<Token>) -> (p: Self)
        ensures
            p.spec_input() == tokens_view(input@),
            p.position() == 0,
    {
        Self { pos: 0, input }
    }

    /// Steps over the token at `pos` if it is `token`.
    fn expected(&mut self, token: Token) -> (r: Result<bool, ParseError>)
        requires
            old(self).pos < usize::MAX,
        ensures
            final(self).input == old(self).input,
            old(self).pos >= old(self).input@.len() ==> (r matches Err(e) && e is UnexpectedEnd
                && final(self).pos == old(self).pos),
            old(self).pos < old(self).input@.len() && old(self).input@[old(self).pos as int]@ == token@
                ==> r == Ok::<bool, ParseError>(true) && final(self).pos == old(self).pos + 1,
            old(self).pos < old(self).input@.len() && old(self).input@[old(self).pos as int]@ != token@
                ==> (r matches Err(e) && e@ == SpecParseError::UnexpectedToken(
                old(self).input@[old(self).pos as int]@,
                token@,
            ) && final(self).pos == old(self).pos),
    {
        let len = self.input.len();
        if self.pos >= len {
            return Err(ParseError::UnexpectedEnd);
        }
        let ghost t = tokens_view(self.input@);
        assert(t[self.pos as int] == self.input@[self.pos as int]@);
        if same_token(&self.input[self.pos], &token) {
            self.pos = self.pos + 1;
            Ok(true)
        } else {
            let found = clone_token(&self.input[self.pos]);
            Err(ParseError::UnexpectedToken { found, expected: token })
        }
    }

    fn advance(&mut self)
        requires
            old(self).pos < usize::MAX,
        ensures
            final(self).pos == old(self).pos + 1,
            final(self).input == old(self).input,
    {
        self.pos = self.pos + 1;
    }

    /// Parses a value at the current position.
    fn parse_value(&mut self) -> (r: Step)
        requires
            old(self).input@.len() < usize::MAX / 2,
        ensures
            final(self).input == old(self).input,
            step_is(r, parse_value_at(tokens_view(old(self).input@), old(self).pos as int), final(self).pos as int),
            r !is OutOfTokens ==> old(self).pos < old(self).input@.len() && final(self).pos <= 2 * old(self).input@.len()
                - old(self).pos,
            r is Done ==> final(self).pos > old(self).pos,
        decreases rest(tokens_view(self.input@), self.pos as int), 2nat,
    {
        let len = self.input.len();
        if self.pos >= len {
            return Step::OutOfTokens;
        }
        let ghost t = tokens_view(self.input@);
        assert(t[self.pos as int] == self.input@[self.pos as int]@);
        let token = clone_token(&self.input[self.pos]);
        match token {
            Token::LeftBrace => self.parse_object(),
            Token::LeftBracket => self.parse_array(),
            Token::Number(n) => {
                self.advance();
                Step::Done(JsonValue::Number(n))
            },
            Token::Bool(b) => {
                self.advance();
                Step::Done(JsonValue::Bool(b))
            },
            Token::Null => {
                self.advance();
                Step::Done(JsonValue::Null)
            },
            Token::String(s) => {
                self.advance();
                Step::Done(JsonValue::String(s))
            },
            _ => Step::Failed(ParseError::InvalidJson),
        }
    }

    /// Parses `: value` at the current position.
    fn parse_pair(&mut self) -> (r: Step)
        requires
            old(self).input@.len() < usize::MAX / 2,
            old(self).pos <= old(self).input@.len(),
        ensures
            final(self).input == old(self).input,
            step_is(r, parse_pair_at(tokens_view(old(self).input@), old(self).pos as int), final(self).pos as int),
            r !is OutOfTokens ==> final(self).pos <= old(self).pos || final(self).pos <= 2 * old(self).input@.len()
                - old(self).pos - 1,
            r is Done ==> final(self).pos > old(self).pos,
        decreases rest(tokens_view(self.input@), self.pos as int), 3nat,
    {
        let len = self.input.len();
        let ghost t = tokens_view(self.input@);
        if self.pos < len {
            assert(t[self.pos as int] == self.input@[self.pos as int]@);
        }
        match self.expected(Token::Colon) {
            Ok(_) => {},
            Err(e) => {
                return Step::Failed(e);
            },
        }
        self.parse_value()
    }

    /// Parses an object whose `{` is at the current position.
    fn parse_object(&mut self) -> (r: Step)
        requires
            old(self).input@.len() < usize::MAX / 2,
            old(self).pos < old(self).input@.len(),
        ensures
            final(self).input == old(self).input,
            step_is(r, parse_object_at(tokens_view(old(self).input@), old(self).pos as int), final(self).pos as int),
            r !is OutOfTokens ==> final(self).pos <= 2 * old(self).input@.len() - old(self).pos,
            r is Done ==> final(self).pos > old(self).pos,
        decreases rest(tokens_view(self.input@), self.pos as int), 1nat,
    {
        let len = self.input.len();
        let ghost t = tokens_view(self.input@);
        let ghost p = self.pos as int;
        self.advance();
        if self.pos >= len {
            return Step::Failed(ParseError::UnexpectedEndOfJson);
        }
        assert(t[self.pos as int] == self.input@[self.pos as int]@);
        let token = clone_token(&self.input[self.pos]);
        match token {
            Token::RightBrace => {
                self.advance();
                let map: Vec<(String, JsonValue)> = Vec::new();
                proof {
                    lemma_object_view(map);
                    assert(members_view(map@) =~= Seq::empty());
                }
                Step::Done(JsonValue::Object(map))
            },
            Token::String(key) => {
                self.advance();
                let value = match self.parse_pair() {
                    Step::Done(v) => v,
                    Step::Failed(e) => {
                        return Step::Failed(e);
                    },
                    Step::OutOfTokens => {
                        return Step::OutOfTokens;
                    },
                };
                let mut map: Vec<(String, JsonValue)> = Vec::new();
                proof {
                    assert(members_view(map@) =~= Seq::empty());
                }
                insert_member(&mut map, key, value);
                while self.pos < len && is_comma(&self.input[self.pos])
                    invariant
                        len == self.input@.len(),
                        len < usize::MAX / 2,
                        self.input == old(self).input,
                        t == tokens_view(self.input@),
                        0 <= p < len,
                        p == old(self).pos,
                        parse_object_at(t, p) == parse_members(t, self.pos as int, members_view(map@)),
                        keys_unique(members_view(map@)),
                        p < self.pos <= 2 * len - p - 1,
                    decreases 2 * len - self.pos,
                {
                    let ghost r = self.pos as int;
                    assert(t[r] == self.input@[r]@);
                    self.advance();
                    if self.pos >= len {
                        return Step::OutOfTokens;
                    }
                    assert(t[r + 1] == self.input@[r + 1]@);
                    let key = self.input[self.pos].to_text();
                    self.advance();
                    let value = match self.parse_pair() {
                        Step::Done(v) => v,
                        Step::Failed(e) => {
                            return Step::Failed(e);
                        },
                        Step::OutOfTokens => {
                            return Step::OutOfTokens;
                        },
                    };
                    insert_member(&mut map, key, value);
                }
                self.advance();
                proof {
                    lemma_object_view(map);
                }
                Step::Done(JsonValue::Object(map))
            },
            _ => Step::Failed(ParseError::UnexpectedTokenInObject),
        }
    }

    /// Parses an array whose `[` is at the current position.
    fn parse_array(&mut self) -> (r: Step)
        requires
            old(self).input@.len() < usize::MAX / 2,
            old(self).pos < old(self).input@.len(),
        ensures
            final(self).input == old(self).input,
            step_is(r, parse_array_at(tokens_view(old(self).input@), old(self).pos as int), final(self).pos as int),
            r !is OutOfTokens ==> final(self).pos <= 2 * old(self).input@.len() - old(self).pos,
            r is Done ==> final(self).pos > old(self).pos,
        decreases rest(tokens_view(self.input@), self.pos as int), 1nat,
    {
        let len = self.input.len();
        let ghost t = tokens_view(self.input@);
        let ghost p = self.pos as int;
        let mut res_array: Vec<JsonValue> = Vec::new();
        self.advance();
        if self.pos < len {
            assert(t[self.pos as int] == self.input@[self.pos as int]@);
            if matches!(self.input[self.pos], Token::RightBracket) {
                self.advance();
                proof {
                    lemma_array_view(res_array);
                    assert(elements_view(res_array@) =~= Seq::empty());
                }
                return Step::Done(JsonValue::Array(res_array));
            }
        }
        let val = match self.parse_value() {
            Step::Done(v) => v,
            Step::Failed(e) => {
                return Step::Failed(e);
            },
            Step::OutOfTokens => {
                return Step::OutOfTokens;
            },
        };
        res_array.push(val);
        proof {
            assert(elements_view(res_array@) =~= seq![json_view(val)]);
        }
        while self.pos < len && is_comma(&self.input[self.pos])
            invariant
                len == self.input@.len(),
                len < usize::MAX / 2,
                self.input == old(self).input,
                t == tokens_view(self.input@),
                t.len() == len,
                0 <= p < len,
                p == old(self).pos,
                parse_array_at(t, p) == parse_elements(t, self.pos as int, elements_view(res_array@)),
                p < self.pos <= 2 * len - p - 1,
            decreases 2 * len - self.pos,
        {
            let ghost r = self.pos as int;
            assert(t[r] == self.input@[r]@);
            self.advance();
            let val = match self.parse_value() {
                Step::Done(v) => v,
                Step::Failed(e) => {
                    return Step::Failed(e);
                },
                Step::OutOfTokens => {
                    return Step::OutOfTokens;
                },
            };
            let ghost before = elements_view(res_array@);
            res_array.push(val);
            proof {
                assert(elements_view(res_array@) =~= before.push(json_view(val)));
            }
        }
        self.advance();
        proof {
            lemma_array_view(res_array);
        }
        Step::Done(JsonValue::Array(res_array))
    }

    /// Parses one value from the current position. Where parsing would read a token past
    /// the last one, it is not to be called (see `try_parse`).
    pub fn parse(&mut self) -> (r: Result<JsonValue, ParseError>)
        requires
            old(self).spec_input().len() < usize::MAX / 2,
            !(parse_value_at(old(self).spec_input(), old(self).position()) is OutOfTokens),
        ensures
            final(self).spec_input() == old(self).spec_input(),
            match parse_value_at(old(self).spec_input(), old(self).position()) {
                Parsed::Value(v, q) => r matches Ok(j) && json_view(j) == v && final(self).position() == q,
                Parsed::Fail(e, q) => r matches Err(err) && err@ == e && final(self).position() == q,
                Parsed::OutOfTokens => false,
            },
    {
        match self.parse_value() {
            Step::Done(v) => Ok(v),
            Step::Failed(e) => Err(e),
            Step::OutOfTokens => Err(ParseError::UnexpectedEnd),
        }
    }

    /// Parses one value from the current position, or gives `None` where parsing would
    /// read a token past the last one.
    pub fn try_parse(&mut self) -> (r: Option<Result<JsonValue, ParseError>>)
        requires
            old(self).spec_input().len() < usize::MAX / 2,
        ensures
            final(self).spec_input() == old(self).spec_input(),
            match parse_value_at(old(self).spec_input(), old(self).position()) {
                Parsed::Value(v, q) => r matches Some(Ok(j)) && json_view(j) == v && final(self).position() == q,
                Parsed::Fail(e, q) => r matches Some(Err(err)) && err@ == e && final(self).position() == q,
                Parsed::OutOfTokens => r is None,
            },
    {
        match self.parse_value() {
            Step::Done(v) => Some(Ok(v)),
            Step::Failed(e) => Some(Err(e)),
            Step::OutOfTokens => None,
        }
    }
}

/// The position after a value, member list or element list lies past where parsing began.
proof fn lemma_members_advance(t: Seq<SpecToken>, r: int, acc: Seq<(Seq<char>, SpecJson)>)
    ensures
        parse_members(t, r, acc) matches Parsed::Value(_, q) ==> q > r,
    decreases rest(t, r),
{
    if 0 <= r < t.len() && t[r] is Comma && r + 1 < t.len() {
        match parse_pair_at(t, r + 2) {
            Parsed::Value(v, s) => if s > r {
                lemma_members_advance(t, s, obj_insert(acc, token_text(t[r + 1]), v));
            },
            _ => {},
        }
    }
}

proof fn lemma_elements_advance(t: Seq<SpecToken>, r: int, acc: Seq<SpecJson>)
    ensures
        parse_elements(t, r, acc) matches Parsed::Value(_, q) ==> q > r,
    decreases rest(t, r),
{
    if 0 <= r < t.len() && t[r] is Comma {
        match parse_value_at(t, r + 1) {
            Parsed::Value(v, s) => if s > r {
                lemma_elements_advance(t, s, acc.push(v));
            },
            _ => {},
        }
    }
}

/// A value ends past the token it starts at.
pub proof fn lemma_value_advances(t: Seq<SpecToken>, p: int)
    ensures
        parse_value_at(t, p) matches Parsed::Value(_, q) ==> q > p,
{
    if 0 <= p < t.len() {
        match t[p] {
            SpecToken::LeftBrace => {
                if p + 1 < t.len() {
                    match t[p + 1] {
                        SpecToken::Str(k) => match parse_pair_at(t, p + 2) {
                            Parsed::Value(v, r) => if r > p {
                                lemma_members_advance(t, r, obj_insert(Seq::empty(), k, v));
                            },
                            _ => {},
                        },
                        _ => {},
                    }
                }
            },
            SpecToken::LeftBracket => {
                if !(p + 1 < t.len() && t[p + 1] is RightBracket) {
                    match parse_value_at(t, p + 1) {
                        Parsed::Value(v, r) => if r > p {
                            lemma_elements_advance(t, r, seq![v]);
                        },
                        _ => {},
                    }
                }
            },
            _ => {},
        }
    }
}

#[verifier::spinoff_prover]
#[verifier::rlimit(30)]
proof fn lemma_elements_in_order(t: Seq<SpecToken>, rs: Seq<int>, ws: Seq<SpecJson>, k: int, acc: Seq<SpecJson>)
    requires
        rs.len() == ws.len(),
        0 <= k < ws.len(),
        forall|i: int|
            k <= i < ws.len() - 1 ==> 0 <= #[trigger] rs[i] < t.len() && t[rs[i]] is Comma && parse_value_at(
                t,
                rs[i] + 1,
            ) == Parsed::Value(ws[i + 1], rs[i + 1]),
        !(0 <= rs[ws.len() - 1] < t.len() && t[rs[ws.len() - 1]] is Comma),
    ensures
        parse_elements(t, rs[k], acc) == Parsed::Value(SpecJson::Array(acc + ws.subrange(k + 1, ws.len() as int)), rs[ws.len() - 1] + 1),
    decreases ws.len() - k,
{
    let n = ws.len() as int;
    if k == n - 1 {
        assert(acc + ws.subrange(k + 1, n) =~= acc);
    } else {
        let r = rs[k];
        let s = rs[k + 1];
        assert(0 <= r < t.len() && t[r] is Comma);
        assert(parse_value_at(t, r + 1) == Parsed::Value(ws[k + 1], s));
        lemma_value_advances(t, r + 1);
        assert(parse_elements(t, r, acc) == parse_elements(t, s, acc.push(ws[k + 1])));
        lemma_elements_in_order(t, rs, ws, k + 1, acc.push(ws[k + 1]));
        assert(acc.push(ws[k + 1]) + ws.subrange(k + 2, n) =~= acc + ws.subrange(k + 1, n));
    }
}

/// An array keeps its elements in the order written: where the tokens from `p` are `[`,
/// a value `ws[0]` ending at `rs[0]`, and then, for each further element, a comma at
/// `rs[i]` followed by a value `ws[i + 1]` ending at `rs[i + 1]`, with no comma after the
/// last value, parsing at `p` gives the array of exactly those values, in that order, and
/// ends one token past the last value.
pub proof fn lemma_array_elements_in_order(t: Seq<SpecToken>, p: int, rs: Seq<int>, ws: Seq<SpecJson>)
    requires
        0 <= p < t.len(),
        t[p] is LeftBracket,
        ws.len() >= 1,
        rs.len() == ws.len(),
        !(p + 1 < t.len() && t[p + 1] is RightBracket),
        parse_value_at(t, p + 1) == Parsed::Value(ws[0], rs[0]),
        forall|i: int|
            0 <= i < ws.len() - 1 ==> 0 <= #[trigger] rs[i] < t.len() && t[rs[i]] is Comma && parse_value_at(
                t,
                rs[i] + 1,
            ) == Parsed::Value(ws[i + 1], rs[i + 1]),
        !(0 <= rs[ws.len() - 1] < t.len() && t[rs[ws.len() - 1]] is Comma),
    ensures
        parse_value_at(t, p) == Parsed::Value(SpecJson::Array(ws), rs[ws.len() - 1] + 1),
{
    lemma_value_advances(t, p + 1);
    lemma_elements_in_order(t, rs, ws, 0, seq![ws[0]]);
    assert(seq![ws[0]] + ws.subrange(1, ws.len() as int) =~= ws);
}

} // verus!
