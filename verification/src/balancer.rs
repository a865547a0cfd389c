//! The decisions of a load balancer: which backend takes the next request (in turn, round
//! the active backends), the address a request is forwarded to, and how health checks move
//! backends between the active and the inactive list. Sending requests and probing
//! backends is left to the caller, which hands back what it saw.
use vstd::multiset::Multiset;
use vstd::prelude::*;
use vstd::string::StringExecFns;

verus! {

/// Why no backend could be chosen.
#[derive(Debug, PartialEq, Eq)]
pub enum BalanceError {
    /// The active list is empty.
    NoBackends,
}

/// Addresses as sequences of characters.
pub open spec fn addrs(v: Seq<String>) -> Seq<Seq<char>> {
    Seq::new(v.len(), |i: int| v[i]@)
}

/// The elements of `s` whose probe result in `p` is `want`, in order.
pub open spec fn select(s: Seq<Seq<char>>, p: Seq<bool>, want: bool) -> Seq<Seq<char>>
    decreases s.len(),
{
    if s.len() == 0 {
        Seq::empty()
    } else {
        let r = select(s.drop_last(), p.take(s.len() - 1), want);
        if p[s.len() - 1] == want {
            r.push(s.last())
        } else {
            r
        }
    }
}

/// The elements of `s` that `d` does not hold, in order.
pub open spec fn without(s: Seq<Seq<char>>, d: Seq<Seq<char>>) -> Seq<Seq<char>>
    decreases s.len(),
{
    if s.len() == 0 {
        Seq::empty()
    } else {
        let r = without(s.drop_last(), d);
        if d.contains(s.last()) {
            r
        } else {
            r.push(s.last())
        }
    }
}

/// No address occurs twice.
pub open spec fn no_dups(s: Seq<Seq<char>>) -> bool {
    forall|i: int, j: int| 0 <= i < s.len() && 0 <= j < s.len() && i != j ==> s[i] != s[j]
}

/// No address is in both.
pub open spec fn disjoint(a: Seq<Seq<char>>, b: Seq<Seq<char>>) -> bool {
    forall|x: Seq<char>| !(a.contains(x) && b.contains(x))
}

/// The turn after `i` among `len` backends.
pub open spec fn next_turn(i: int, len: int) -> int {
    if i + 1 >= len {
        0
    } else {
        i + 1
    }
}

/// The address a request is forwarded to: `http://`, the backend, the path and, where the
/// request has one, `?` and the query.
pub open spec fn url_of(addr: Seq<char>, path: Seq<char>, query: Option<Seq<char>>) -> Seq<char> {
    let base = seq!['h', 't', 't', 'p', ':', '/', '/'] + addr + path;
    match query {
        Some(q) => base + seq!['?'] + q,
        None => base,
    }
}

/// The backends and whose turn it is.
pub struct Balancer {
    /// Backends that take requests.
    pub active: Vec<String>,
    /// Backends that failed a health check.
    pub inactive: Vec<String>,
    /// The index in `active` of the backend whose turn is next.
    pub next: usize,
}

impl Balancer {
    /// All the given backends active, the first one's turn next.
    pub fn new(backends: Vec<String>) -> (b: Self)
        ensures
            b.active@ == backends@,
            b.inactive@.len() == 0,
            b.next == 0,
    {
        Balancer { active: backends, inactive: Vec::new(), next: 0 }
    }

    /// Chooses the backend whose turn it is (the first one, where the turn has run past the
    /// end of the list) and gives its address and the number of active backends.
    pub fn pick(&mut self) -> (r: Result<(String, usize), BalanceError>)
        ensures
            final(self).active == old(self).active,
            final(self).inactive == old(self).inactive,
            old(self).active@.len() == 0 ==> r == Err::<(String, usize), BalanceError>(
                BalanceError::NoBackends,
            ) && final(self).next == old(self).next,
            old(self).active@.len() > 0 ==> {
                &&& final(self).next == if old(self).next >= old(self).active@.len() {
                    0
                } else {
                    old(self).next
                }
                &&& r matches Ok((addr, len)) && addr@ == old(self).active@[final(self).next as int]@
                    && len == old(self).active@.len()
            },
    {
        let len = self.active.len();
        if len == 0 {
            return Err(BalanceError::NoBackends);
        }
        if self.next >= len {
            self.next = 0;
        }
        let addr = self.active[self.next].clone();
        Ok((addr, len))
    }

    /// Passes the turn on after a request was answered; `len` is the number of active
    /// backends when the backend was chosen.
    pub fn advance(&mut self, len: usize)
        requires
            old(self).next < usize::MAX,
        ensures
            final(self).active == old(self).active,
            final(self).inactive == old(self).inactive,
            final(self).next == next_turn(old(self).next as int, len as int),
    {
        self.next = self.next + 1;
        if self.next >= len {
            self.next = 0;
        }
    }

    /// Moves the backends that failed a health check from the active to the inactive list:
    /// the active list keeps, in order, those `unhealthy` does not name; they are added at
    /// the end of the inactive list.
    pub fn retire(&mut self, unhealthy: Vec<String>)
        ensures
            addrs(final(self).active@) == without(addrs(old(self).active@), addrs(unhealthy@)),
            addrs(final(self).inactive@) == addrs(old(self).inactive@) + addrs(unhealthy@),
            final(self).next == old(self).next,
    {
        let kept = keep_absent(&self.active, &unhealthy);
        self.active = kept;
        append_all(&mut self.inactive, unhealthy);
    }

    /// Moves the backends that passed a health check from the inactive to the active list:
    /// the inactive list keeps, in order, those `healthy` does not name; they are added at
    /// the end of the active list.
    pub fn restore(&mut self, healthy: Vec<String>)
        ensures
            addrs(final(self).inactive@) == without(addrs(old(self).inactive@), addrs(healthy@)),
            addrs(final(self).active@) == addrs(old(self).active@) + addrs(healthy@),
            final(self).next == old(self).next,
    {
        let kept = keep_absent(&self.inactive, &healthy);
        self.inactive = kept;
        append_all(&mut self.active, healthy);
    }
}

/// Whether `list` holds `s`.
fn holds(list: &Vec<String>, s: &String) -> (b: bool)
    ensures
        b == addrs(list@).contains(s@),
{
    let n = list.len();
    let mut i: usize = 0;
    while i < n
        invariant
            n == list@.len(),
            i <= n,
            forall|k: int| 0 <= k < i ==> list@[k]@ != s@,
        decreases n - i,
    {
        if list[i] == *s {
            proof {
                assert(addrs(list@)[i as int] == s@);
            }
            return true;
        }
        i = i + 1;
    }
    proof {
        if addrs(list@).contains(s@) {
            let k = choose|k: int| 0 <= k < addrs(list@).len() && addrs(list@)[k] == s@;
            assert(list@[k]@ == s@);
        }
    }
    false
}

/// The elements of `list` that `drop` does not hold, in order.
fn keep_absent(list: &Vec<String>, drop: &Vec<String>) -> (r: Vec<String>)
    ensures
        addrs(r@) == without(addrs(list@), addrs(drop@)),
{
    let n = list.len();
    let mut r: Vec<String> = Vec::new();
    let mut i: usize = 0;
    while i < n
        invariant
            n == list@.len(),
            i <= n,
            addrs(r@) == without(addrs(list@.take(i as int)), addrs(drop@)),
        decreases n - i,
    {
        proof {
            assert(addrs(list@.take(i + 1)).drop_last() =~= addrs(list@.take(i as int)));
            assert(addrs(list@.take(i + 1)).last() == list@[i as int]@);
        }
        let s = list[i].clone();
        if !holds(drop, &s) {
            let ghost before = r@;
            r.push(s);
            proof {
                assert(addrs(r@) =~= addrs(before).push(list@[i as int]@));
            }
        }
        i = i + 1;
    }
    proof {
        assert(list@.take(n as int) =~= list@);
    }
    r
}

/// Adds `more` at the end of `list`.
fn append_all(list: &mut Vec<String>, more: Vec<String>)
    ensures
        addrs(final(list)@) == addrs(old(list)@) + addrs(more@),
{
    let n = more.len();
    let mut i: usize = 0;
    while i < n
        invariant
            n == more@.len(),
            i <= n,
            addrs(list@) == addrs(old(list)@) + addrs(more@.take(i as int)),
        decreases n - i,
    {
        let ghost before = list@;
        list.push(more[i].clone());
        proof {
            assert(addrs(list@) =~= addrs(before).push(more@[i as int]@));
            assert(addrs(more@.take(i + 1)) =~= addrs(more@.take(i as int)).push(more@[i as int]@));
        }
        i = i + 1;
    }
    proof {
        assert(more@.take(n as int) =~= more@);
    }
}

/// The backends of `backends` whose probe in `passed` came out as `want`, in order.
fn select_by(backends: &Vec<String>, passed: &Vec<bool>, want: bool) -> (r: Vec<String>)
    requires
        passed@.len() == backends@.len(),
    ensures
        addrs(r@) == select(addrs(backends@), passed@, want),
{
    let n = backends.len();
    let mut r: Vec<String> = Vec::new();
    let mut i: usize = 0;
    while i < n
        invariant
            n == backends@.len(),
            n == passed@.len(),
            i <= n,
            addrs(r@) == select(addrs(backends@.take(i as int)), passed@.take(i as int), want),
        decreases n - i,
    {
        proof {
            let s = addrs(backends@.take(i + 1));
            assert(s.drop_last() =~= addrs(backends@.take(i as int)));
            assert(passed@.take(i + 1).take(i as int) =~= passed@.take(i as int));
            assert(s.last() == backends@[i as int]@);
        }
        if passed[i] == want {
            let ghost before = r@;
            r.push(backends[i].clone());
            proof {
                assert(addrs(r@) =~= addrs(before).push(backends@[i as int]@));
            }
        }
        i = i + 1;
    }
    proof {
        assert(backends@.take(n as int) =~= backends@);
        assert(passed@.take(n as int) =~= passed@);
    }
    r
}

/// The backends whose health check failed (`passed[i]` is false), in order.
pub fn failing(backends: &Vec<String>, passed: &Vec<bool>) -> (r: Vec<String>)
    requires
        passed@.len() == backends@.len(),
    ensures
        addrs(r@) == select(addrs(backends@), passed@, false),
{
    select_by(backends, passed, false)
}

/// The backends whose health check passed (`passed[i]` is true), in order.
pub fn passing(backends: &Vec<String>, passed: &Vec<bool>) -> (r: Vec<String>)
    requires
        passed@.len() == backends@.len(),
    ensures
        addrs(r@) == select(addrs(backends@), passed@, true),
{
    select_by(backends, passed, true)
}

/// The address a request for `path` (with `query`, if any) is forwarded to on the backend
/// at `addr`.
pub fn backend_url(addr: &str, path: &str, query: Option<&str>) -> (url: String)
    ensures
        url@ == url_of(
            addr@,
            path@,
            match query {
                Some(q) => Some(q@),
                None => None,
            },
        ),
{
    let mut url = String::new();
    url.append("http://");
    url.append(addr);
    url.append(path);
    match query {
        Some(q) => {
            url.append("?");
            url.append(q);
        },
        None => {},
    }
    proof {
        reveal_strlit("http://");
        reveal_strlit("?");
        assert("http://"@ =~= seq!['h', 't', 't', 'p', ':', '/', '/']);
        assert("?"@ =~= seq!['?']);
    }
    url
}


proof fn lemma_push_contains(r: Seq<Seq<char>>, y: Seq<char>)
    ensures
        forall|x: Seq<char>| #[trigger] r.push(y).contains(x) <==> r.contains(x) || x == y,
{
    assert forall|x: Seq<char>| #[trigger] r.push(y).contains(x) <==> r.contains(x) || x == y by {
        if r.push(y).contains(x) {
            let k = choose|k: int| 0 <= k < r.len() + 1 && r.push(y)[k] == x;
            if k < r.len() {
                assert(r[k] == x);
            }
        }
        if r.contains(x) {
            let k = choose|k: int| 0 <= k < r.len() && r[k] == x;
            assert(r.push(y)[k] == x);
        }
        if x == y {
            assert(r.push(y)[r.len() as int] == x);
        }
    }
}

proof fn lemma_concat_contains(a: Seq<Seq<char>>, b: Seq<Seq<char>>)
    ensures
        forall|x: Seq<char>| #[trigger] (a + b).contains(x) <==> a.contains(x) || b.contains(x),
{
    assert forall|x: Seq<char>| #[trigger] (a + b).contains(x) <==> a.contains(x) || b.contains(x) by {
        if (a + b).contains(x) {
            let k = choose|k: int| 0 <= k < a.len() + b.len() && (a + b)[k] == x;
            if k < a.len() {
                assert(a[k] == x);
            } else {
                assert(b[k - a.len()] == x);
            }
        }
        if a.contains(x) {
            let k = choose|k: int| 0 <= k < a.len() && a[k] == x;
            assert((a + b)[k] == x);
        }
        if b.contains(x) {
            let k = choose|k: int| 0 <= k < b.len() && b[k] == x;
            assert((a + b)[a.len() + k] == x);
        }
    }
}

proof fn lemma_push_no_dups(r: Seq<Seq<char>>, y: Seq<char>)
    requires
        no_dups(r),
        !r.contains(y),
    ensures
        no_dups(r.push(y)),
{
    assert forall|i: int, j: int|
        0 <= i < r.len() + 1 && 0 <= j < r.len() + 1 && i != j implies r.push(y)[i] != r.push(y)[j] by {
        if i < r.len() && j < r.len() {
        } else if i < r.len() {
            assert(r[i] == r.push(y)[i]);
        } else {
            assert(r[j] == r.push(y)[j]);
        }
    }
}

proof fn lemma_select(s: Seq<Seq<char>>, p: Seq<bool>, want: bool)
    requires
        p.len() == s.len(),
    ensures
        forall|x: Seq<char>|
            #[trigger] select(s, p, want).contains(x) <==> exists|i: int|
                0 <= i < s.len() && p[i] == want && s[i] == x,
        no_dups(s) ==> no_dups(select(s, p, want)),
    decreases s.len(),
{
    if s.len() > 0 {
        let n = s.len() - 1;
        let s0 = s.drop_last();
        let p0 = p.take(n);
        lemma_select(s0, p0, want);
        let r = select(s0, p0, want);
        lemma_push_contains(r, s.last());
        assert forall|x: Seq<char>|
            #[trigger] select(s, p, want).contains(x) <==> exists|i: int|
                0 <= i < s.len() && p[i] == want && s[i] == x by {
            if select(s, p, want).contains(x) {
                if r.contains(x) {
                    let i = choose|i: int| 0 <= i < s0.len() && p0[i] == want && s0[i] == x;
                    assert(p[i] == want && s[i] == x);
                } else {
                    assert(p[n] == want && s[n] == x);
                }
            }
            if exists|i: int| 0 <= i < s.len() && p[i] == want && s[i] == x {
                let i = choose|i: int| 0 <= i < s.len() && p[i] == want && s[i] == x;
                if i < n {
                    assert(p0[i] == want && s0[i] == x);
                    assert(r.contains(x));
                }
            }
        }
        if no_dups(s) {
            assert(no_dups(s0));
            if p[n] == want {
                if r.contains(s.last()) {
                    let i = choose|i: int| 0 <= i < s0.len() && p0[i] == want && s0[i] == s.last();
                    assert(s[i] == s[n]);
                }
                lemma_push_no_dups(r, s.last());
            }
        }
    }
}

proof fn lemma_without(s: Seq<Seq<char>>, d: Seq<Seq<char>>)
    ensures
        forall|x: Seq<char>| #[trigger] without(s, d).contains(x) <==> s.contains(x) && !d.contains(x),
        no_dups(s) ==> no_dups(without(s, d)),
    decreases s.len(),
{
    if s.len() > 0 {
        let n = s.len() - 1;
        let s0 = s.drop_last();
        lemma_without(s0, d);
        let r = without(s0, d);
        lemma_push_contains(r, s.last());
        lemma_push_contains(s0, s.last());
        assert(s0.push(s.last()) =~= s);
        if no_dups(s) {
            assert(no_dups(s0));
            if !d.contains(s.last()) {
                if r.contains(s.last()) {
                    let i = choose|i: int| 0 <= i < s0.len() && s0[i] == s.last();
                    assert(s[i] == s[n]);
                }
                lemma_push_no_dups(r, s.last());
            }
        }
    }
}

/// Whose turn comes after `i` among `len` backends: the next one, and the first one after
/// the last, so that requests go round the backends in order.
pub proof fn lemma_turns_go_round(i: int, len: int)
    requires
        0 <= i < len,
    ensures
        next_turn(i, len) == (i + 1) % len,
{
    if i + 1 < len {
        vstd::arithmetic::div_mod::lemma_small_mod((i + 1) as nat, len as nat);
    } else {
        vstd::arithmetic::div_mod::lemma_mod_self_0(len);
    }
}

/// A health check moves the backends whose probe came out as `want` from the list `from`
/// (the active list where failures are moved, the inactive one where passes are) to the
/// end of the list `to`. Where no address is twice in the lists, every backend stays in
/// exactly one list afterwards: none is lost or added, the probed ones are in `to` exactly
/// when their probe came out as `want`, and the rest stay in `from`.
pub proof fn lemma_health_check_keeps_each_backend_once(
    from: Seq<Seq<char>>,
    to: Seq<Seq<char>>,
    probe: Seq<bool>,
    want: bool,
)
    requires
        no_dups(from),
        no_dups(to),
        disjoint(from, to),
        probe.len() == from.len(),
    ensures
        ({
            let moved = select(from, probe, want);
            let left = without(from, moved);
            let gained = to + moved;
            &&& no_dups(left)
            &&& no_dups(gained)
            &&& disjoint(left, gained)
            &&& forall|x: Seq<char>|
                (left.contains(x) || gained.contains(x)) <==> (from.contains(x) || to.contains(x))
            &&& forall|i: int|
                0 <= i < from.len() ==> (probe[i] == want <==> gained.contains(#[trigger] from[i]))
                    && (probe[i] == want <==> !left.contains(from[i]))
        }),
{
    let moved = select(from, probe, want);
    let left = without(from, moved);
    let gained = to + moved;
    lemma_select(from, probe, want);
    lemma_without(from, moved);
    lemma_concat_contains(to, moved);
    assert forall|x: Seq<char>| moved.contains(x) implies from.contains(x) by {
        let i = choose|i: int| 0 <= i < from.len() && probe[i] == want && from[i] == x;
        assert(from[i] == x);
    }
    assert forall|i: int, j: int|
        0 <= i < gained.len() && 0 <= j < gained.len() && i != j implies gained[i] != gained[j] by {
        if i < to.len() && j < to.len() {
        } else if i >= to.len() && j >= to.len() {
            assert(moved[i - to.len()] == gained[i]);
            assert(moved[j - to.len()] == gained[j]);
        } else if i < to.len() {
            assert(to.contains(gained[i]));
            assert(moved.contains(gained[j]));
        } else {
            assert(to.contains(gained[j]));
            assert(moved.contains(gained[i]));
        }
    }
    assert forall|i: int|
        0 <= i < from.len() implies (probe[i] == want <==> gained.contains(#[trigger] from[i])) && (
        probe[i] == want <==> !left.contains(from[i])) by {
        assert(from.contains(from[i]));
        if moved.contains(from[i]) {
            let j = choose|j: int| 0 <= j < from.len() && probe[j] == want && from[j] == from[i];
            assert(j == i);
        }
    }
}

proof fn lemma_without_select(s: Seq<Seq<char>>, p: Seq<bool>, want: bool, d: Seq<Seq<char>>)
    requires
        no_dups(s),
        p.len() == s.len(),
        forall|i: int| 0 <= i < s.len() ==> d.contains(#[trigger] s[i]) == (p[i] == want),
    ensures
        without(s, d) == select(s, p, !want),
    decreases s.len(),
{
    if s.len() > 0 {
        let n = s.len() - 1;
        let s0 = s.drop_last();
        let p0 = p.take(n);
        assert forall|i: int| 0 <= i < s0.len() implies d.contains(#[trigger] s0[i]) == (p0[i] == want) by {
            assert(s0[i] == s[i]);
        }
        lemma_without_select(s0, p0, want, d);
        assert(d.contains(s[n]) == (p[n] == want));
    }
}

proof fn lemma_select_split(s: Seq<Seq<char>>, p: Seq<bool>)
    requires
        p.len() == s.len(),
    ensures
        select(s, p, true).to_multiset().add(select(s, p, false).to_multiset()) == s.to_multiset(),
    decreases s.len(),
{
    broadcast use vstd::seq_lib::group_to_multiset_ensures;
    if s.len() == 0 {
        assert(select(s, p, true).to_multiset() =~= Multiset::empty());
        assert(select(s, p, false).to_multiset() =~= Multiset::empty());
        assert(s.to_multiset() =~= Multiset::empty());
    } else {
        let n = s.len() - 1;
        lemma_select_split(s.drop_last(), p.take(n));
        assert(s.drop_last().push(s.last()) =~= s);
        assert(select(s, p, true).to_multiset().add(select(s, p, false).to_multiset()) =~= s.to_multiset());
    }
}

/// The probed ones that the probe results pick are in the selection exactly when their
/// result is `want`.
proof fn lemma_select_members(s: Seq<Seq<char>>, p: Seq<bool>, want: bool)
    requires
        no_dups(s),
        p.len() == s.len(),
    ensures
        forall|i: int| 0 <= i < s.len() ==> select(s, p, want).contains(#[trigger] s[i]) == (p[i] == want),
{
    lemma_select(s, p, want);
    assert forall|i: int| 0 <= i < s.len() implies select(s, p, want).contains(#[trigger] s[i]) == (p[i] == want) by {
        if select(s, p, want).contains(s[i]) {
            let j = choose|j: int| 0 <= j < s.len() && p[j] == want && s[j] == s[i];
            assert(j == i);
        }
    }
}

/// One round of health checks: the active backends are probed and those that fail are
/// retired; then the inactive ones (those retired now coming last) are probed and those
/// that pass are restored. Where no address is twice in the lists, the active list ends
/// as the active backends that passed the first probe followed by the inactive ones that
/// passed the second, the inactive list as those that failed the second probe, and the
/// two lists together hold the same backends as before, each in exactly one of them.
pub proof fn lemma_health_check_round(
    active: Seq<Seq<char>>,
    inactive: Seq<Seq<char>>,
    first: Seq<bool>,
    second: Seq<bool>,
)
    requires
        no_dups(active),
        no_dups(inactive),
        disjoint(active, inactive),
        first.len() == active.len(),
        second.len() == inactive.len() + select(active, first, false).len(),
    ensures
        ({
            let unhealthy = select(active, first, false);
            let active1 = without(active, unhealthy);
            let inactive1 = inactive + unhealthy;
            let healthy = select(inactive1, second, true);
            let active2 = active1 + healthy;
            let inactive2 = without(inactive1, healthy);
            &&& active2 == select(active, first, true) + select(inactive1, second, true)
            &&& inactive2 == select(inactive1, second, false)
            &&& (active2 + inactive2).to_multiset() == (active + inactive).to_multiset()
            &&& no_dups(active2)
            &&& no_dups(inactive2)
            &&& disjoint(active2, inactive2)
        }),
{
    broadcast use vstd::seq_lib::lemma_multiset_commutative;
    let unhealthy = select(active, first, false);
    let active1 = without(active, unhealthy);
    let inactive1 = inactive + unhealthy;
    let healthy = select(inactive1, second, true);
    let active2 = active1 + healthy;
    let inactive2 = without(inactive1, healthy);
    lemma_health_check_keeps_each_backend_once(active, inactive, first, false);
    lemma_health_check_keeps_each_backend_once(inactive1, active1, second, true);
    lemma_select_members(active, first, false);
    lemma_without_select(active, first, false, unhealthy);
    lemma_select_members(inactive1, second, true);
    lemma_without_select(inactive1, second, true, healthy);
    lemma_select_split(active, first);
    lemma_select_split(inactive1, second);
    let a_t = select(active, first, true);
    let h_t = select(inactive1, second, true);
    let h_f = select(inactive1, second, false);
    assert((active2 + inactive2).to_multiset() =~= a_t.to_multiset().add(h_t.to_multiset()).add(
        h_f.to_multiset(),
    ));
    assert((active + inactive).to_multiset() =~= a_t.to_multiset().add(unhealthy.to_multiset()).add(
        inactive.to_multiset(),
    ));
    assert(inactive1.to_multiset() =~= inactive.to_multiset().add(unhealthy.to_multiset()));
    assert(a_t.to_multiset().add(h_t.to_multiset()).add(h_f.to_multiset()) =~= a_t.to_multiset().add(
        inactive1.to_multiset(),
    )) by {
        broadcast use vstd::multiset::group_multiset_axioms;
    }
    assert(a_t.to_multiset().add(inactive1.to_multiset()) =~= a_t.to_multiset().add(
        unhealthy.to_multiset(),
    ).add(inactive.to_multiset())) by {
        broadcast use vstd::multiset::group_multiset_axioms;
    }
}

/// The forwarded address is built in parts: `http://`, then the backend, then the path,
/// then, where the request has a query, `?` and the query, whatever the path is.
pub proof fn lemma_url_parts(addr: Seq<char>, path: Seq<char>, q: Seq<char>)
    ensures
        url_of(Seq::empty(), Seq::empty(), None) == seq!['h', 't', 't', 'p', ':', '/', '/'],
        url_of(addr, Seq::empty(), None) == url_of(Seq::empty(), Seq::empty(), None) + addr,
        url_of(addr, path, None) == url_of(addr, Seq::empty(), None) + path,
        url_of(addr, path, Some(q)) == url_of(addr, path, None) + seq!['?'] + q,
        url_of(addr, path, Some(q)).len() == 7 + addr.len() + path.len() + 1 + q.len(),
{
    let h = seq!['h', 't', 't', 'p', ':', '/', '/'];
    assert(h + Seq::<char>::empty() + Seq::<char>::empty() =~= h);
    assert(h + addr + Seq::<char>::empty() =~= h + addr);
}

} // verus!
