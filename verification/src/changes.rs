//! Route changes between two scans of a project: routes are grouped by
//! structural identity, identities are visited in sorted order, and within a
//! group old and new routes are paired off in order.

use vstd::prelude::*;
use crate::text::{str_eq, views};
use crate::route::{RouteEntry, RouteView, DiffResult, route_views, structural_id_of, aligned_names, has_sid, compare_routes};

verus! {

/// Strict lexicographic order on character sequences, by code point: the
/// order `String`'s `Ord` gives, since UTF-8 preserves code point order.
pub open spec fn lex_lt(a: Seq<char>, b: Seq<char>) -> bool
    decreases a.len(),
{
    if a.len() == 0 {
        b.len() > 0
    } else if b.len() == 0 {
        false
    } else if a[0] != b[0] {
        (a[0] as int) < (b[0] as int)
    } else {
        lex_lt(a.skip(1), b.skip(1))
    }
}

pub proof fn lemma_lex_irreflexive(a: Seq<char>)
    ensures
        !lex_lt(a, a),
    decreases a.len(),
{
    if a.len() > 0 {
        lemma_lex_irreflexive(a.skip(1));
    }
}

pub proof fn lemma_lex_asymmetric(a: Seq<char>, b: Seq<char>)
    requires
        lex_lt(a, b),
    ensures
        !lex_lt(b, a),
    decreases a.len(),
{
    if a.len() > 0 && b.len() > 0 && a[0] == b[0] {
        lemma_lex_asymmetric(a.skip(1), b.skip(1));
    }
}

pub proof fn lemma_lex_transitive(a: Seq<char>, b: Seq<char>, c: Seq<char>)
    requires
        lex_lt(a, b),
        lex_lt(b, c),
    ensures
        lex_lt(a, c),
    decreases a.len(),
{
    if a.len() > 0 && b.len() > 0 && c.len() > 0 && a[0] == b[0] && b[0] == c[0] {
        lemma_lex_transitive(a.skip(1), b.skip(1), c.skip(1));
    }
}

pub proof fn lemma_lex_total(a: Seq<char>, b: Seq<char>)
    requires
        a != b,
    ensures
        lex_lt(a, b) || lex_lt(b, a),
    decreases a.len(),
{
    if a.len() == 0 {
        if b.len() == 0 {
            assert(a =~= b);
        }
    } else if b.len() > 0 && a[0] == b[0] {
        if a.skip(1) == b.skip(1) {
            assert(a =~= seq![a[0]] + a.skip(1));
            assert(b =~= seq![b[0]] + b.skip(1));
        }
        lemma_lex_total(a.skip(1), b.skip(1));
    }
}

/// Whether `a` comes before `b` in code point order.
pub fn str_lt(a: &str, b: &str) -> (r: bool)
    ensures
        r == lex_lt(a@, b@),
{
    let n = a.unicode_len();
    let m = b.unicode_len();
    let mut i: usize = 0;
    assert(a@.skip(0) =~= a@);
    assert(b@.skip(0) =~= b@);
    loop
        invariant
            n == a@.len(),
            m == b@.len(),
            i <= n,
            i <= m,
            lex_lt(a@, b@) == lex_lt(a@.skip(i as int), b@.skip(i as int)),
        decreases n - i,
    {
        if i == n || i == m {
            return i == n && i < m;
        }
        let x = a.get_char(i);
        let y = b.get_char(i);
        proof {
            assert(a@.skip(i as int)[0] == x);
            assert(b@.skip(i as int)[0] == y);
            assert(a@.skip(i as int).skip(1) =~= a@.skip(i + 1));
            assert(b@.skip(i as int).skip(1) =~= b@.skip(i + 1));
        }
        if x != y {
            return x < y;
        }
        i = i + 1;
    }
}

/// Strictly increasing in code point order.
pub open spec fn strictly_sorted(s: Seq<Seq<char>>) -> bool {
    forall|i: int, j: int| 0 <= i < j < s.len() ==> lex_lt(#[trigger] s[i], #[trigger] s[j])
}

/// Two strictly sorted sequences with the same elements are equal.
pub proof fn lemma_sorted_unique(s: Seq<Seq<char>>, t: Seq<Seq<char>>)
    requires
        strictly_sorted(s),
        strictly_sorted(t),
        forall|x: Seq<char>| s.contains(x) <==> t.contains(x),
    ensures
        s == t,
    decreases s.len(),
{
    if s.len() == 0 {
        if t.len() > 0 {
            assert(t.contains(t[0]));
        }
        assert(s =~= t);
    } else {
        assert(s.contains(s[0]));
        if t.len() == 0 {
            assert(false);
        }
        assert(t.contains(t[0]));
        let j = choose|j: int| 0 <= j < t.len() && t[j] == s[0];
        let i = choose|i: int| 0 <= i < s.len() && s[i] == t[0];
        if s[0] != t[0] {
            assert(i > 0 && j > 0);
            assert(lex_lt(s[0], s[i]));
            assert(lex_lt(t[0], t[j]));
            lemma_lex_asymmetric(s[0], t[0]);
        }
        let s1 = s.skip(1);
        let t1 = t.skip(1);
        assert forall|x: Seq<char>| s1.contains(x) <==> t1.contains(x) by {
            if s1.contains(x) {
                let k = choose|k: int| 0 <= k < s1.len() && s1[k] == x;
                assert(s[k + 1] == x);
                assert(lex_lt(s[0], s[k + 1]));
                lemma_lex_irreflexive(x);
                assert(s.contains(x));
                let l = choose|l: int| 0 <= l < t.len() && t[l] == x;
                assert(l != 0);
                assert(t1[l - 1] == x);
            }
            if t1.contains(x) {
                let k = choose|k: int| 0 <= k < t1.len() && t1[k] == x;
                assert(t[k + 1] == x);
                assert(lex_lt(t[0], t[k + 1]));
                lemma_lex_irreflexive(x);
                assert(t.contains(x));
                let l = choose|l: int| 0 <= l < s.len() && s[l] == x;
                assert(l != 0);
                assert(s1[l - 1] == x);
            }
        }
        assert(strictly_sorted(s1)) by {
            assert forall|a: int, b: int| 0 <= a < b < s1.len() implies lex_lt(#[trigger] s1[a], #[trigger] s1[b]) by {
                assert(s1[a] == s[a + 1] && s1[b] == s[b + 1]);
            }
        }
        assert(strictly_sorted(t1)) by {
            assert forall|a: int, b: int| 0 <= a < b < t1.len() implies lex_lt(#[trigger] t1[a], #[trigger] t1[b]) by {
                assert(t1[a] == t[a + 1] && t1[b] == t[b + 1]);
            }
        }
        lemma_sorted_unique(s1, t1);
        assert(s =~= seq![s[0]] + s1);
        assert(t =~= seq![t[0]] + t1);
    }
}

/// Adds `k` to a strictly sorted vector of strings, where it is missing.
fn insert_sorted(keys: &mut Vec<String>, k: String)
    requires
        strictly_sorted(views(old(keys)@)),
    ensures
        strictly_sorted(views(final(keys)@)),
        forall|x: Seq<char>| #[trigger] views(final(keys)@).contains(x) <==> (views(old(keys)@).contains(x) || x == k@),
{
    let ghost kv = views(keys@);
    let n = keys.len();
    let mut p: usize = 0;
    loop
        invariant
            n == keys@.len(),
            kv == views(keys@),
            keys@ == old(keys)@,
            strictly_sorted(kv),
            p <= n,
            forall|j: int| 0 <= j < p ==> lex_lt(#[trigger] kv[j], k@),
        ensures
            n == keys@.len(),
            kv == views(keys@),
            keys@ == old(keys)@,
            p <= n,
            forall|j: int| 0 <= j < p ==> lex_lt(#[trigger] kv[j], k@),
            p < n ==> !lex_lt(kv[p as int], k@),
        decreases n - p,
    {
        if p == n {
            break;
        }
        assert(kv[p as int] == keys@[p as int]@);
        if !str_lt(keys[p].as_str(), k.as_str()) {
            break;
        }
        p = p + 1;
    }
    if p < n && str_eq(keys[p].as_str(), k.as_str()) {
        proof {
            assert(kv[p as int] == k@);
            assert forall|x: Seq<char>| kv.contains(x) <==> (kv.contains(x) || x == k@) by {
                if x == k@ {
                    assert(kv[p as int] == x);
                }
            }
        }
        return;
    }
    proof {
        if p < n {
            assert(kv[p as int] == keys@[p as int]@);
            assert(!lex_lt(kv[p as int], k@));
            lemma_lex_total(kv[p as int], k@);
            assert(lex_lt(k@, kv[p as int]));
        }
    }
    let ghost kk = k@;
    keys.insert(p, k);
    proof {
        let nv = views(keys@);
        assert(nv =~= kv.insert(p as int, kk));
        assert forall|i: int, j: int| 0 <= i < j < nv.len() implies lex_lt(#[trigger] nv[i], #[trigger] nv[j]) by {
            if j < p {
                assert(nv[i] == kv[i] && nv[j] == kv[j]);
            } else if j == p {
                assert(nv[i] == kv[i]);
            } else if i == p {
                assert(nv[j] == kv[j - 1]);
                if j - 1 > p {
                    assert(lex_lt(kv[p as int], kv[j - 1]));
                    lemma_lex_transitive(kk, kv[p as int], kv[j - 1]);
                }
            } else if i < p {
                assert(nv[i] == kv[i] && nv[j] == kv[j - 1]);
                assert(lex_lt(kv[i], kk));
                assert(lex_lt(kk, kv[p as int]));
                lemma_lex_transitive(kv[i], kk, kv[p as int]);
                if j - 1 > p {
                    lemma_lex_transitive(kv[i], kv[p as int], kv[j - 1]);
                }
            } else {
                assert(nv[i] == kv[i - 1] && nv[j] == kv[j - 1]);
            }
        }
        assert forall|x: Seq<char>| nv.contains(x) <==> (kv.contains(x) || x == kk) by {
            if nv.contains(x) {
                let q = choose|q: int| 0 <= q < nv.len() && nv[q] == x;
                if q < p {
                    assert(kv[q] == x);
                } else if q > p {
                    assert(kv[q - 1] == x);
                }
            }
            if kv.contains(x) {
                let q = choose|q: int| 0 <= q < kv.len() && kv[q] == x;
                if q < p {
                    assert(nv[q] == x);
                } else {
                    assert(nv[q + 1] == x);
                }
            }
            if x == kk {
                assert(nv[p as int] == x);
            }
        }
    }
}

/// Some route of `routes` has structural identity `k`.
pub open spec fn has_id(routes: Seq<RouteView>, k: Seq<char>) -> bool {
    exists|j: int| 0 <= j < routes.len() && #[trigger] structural_id_of(routes[j].segments) == k
}

/// The keys of a diff: strictly sorted, holding exactly the identities
/// present in the old or the new routes.
pub open spec fn is_id_keys(s: Seq<Seq<char>>, old: Seq<RouteView>, new: Seq<RouteView>) -> bool {
    &&& strictly_sorted(s)
    &&& forall|x: Seq<char>| s.contains(x) <==> (has_id(old, x) || has_id(new, x))
}

/// The structural identities of the old and new routes, sorted.
pub open spec fn id_keys(old: Seq<RouteView>, new: Seq<RouteView>) -> Seq<Seq<char>> {
    choose|s: Seq<Seq<char>>| is_id_keys(s, old, new)
}

/// Inserts the identities of `routes` into sorted `keys`.
fn insert_ids(keys: &mut Vec<String>, routes: &Vec<RouteEntry>)
    requires
        strictly_sorted(views(old(keys)@)),
    ensures
        strictly_sorted(views(final(keys)@)),
        forall|x: Seq<char>| #[trigger] views(final(keys)@).contains(x) <==> (views(old(keys)@).contains(x) || has_id(route_views(routes@), x)),
{
    let ghost start = views(keys@);
    let ghost rv = route_views(routes@);
    let n = routes.len();
    let mut i: usize = 0;
    while i < n
        invariant
            n == routes@.len(),
            rv == route_views(routes@),
            i <= n,
            strictly_sorted(views(keys@)),
            forall|x: Seq<char>| #[trigger] views(keys@).contains(x) <==> (start.contains(x) || has_id(rv.take(i as int), x)),
        decreases n - i,
    {
        let id = routes[i].structural_id();
        let ghost before = views(keys@);
        let ghost idv = id@;
        insert_sorted(keys, id);
        proof {
            assert forall|x: Seq<char>| has_id(rv.take(i + 1), x) <==> (has_id(rv.take(i as int), x) || x == idv) by {
                let t1 = rv.take(i + 1);
                let t0 = rv.take(i as int);
                if has_id(t1, x) {
                    let j = choose|j: int| 0 <= j < t1.len() && #[trigger] structural_id_of(t1[j].segments) == x;
                    if j < i {
                        assert(t0[j] == t1[j]);
                    } else {
                        assert(t1[j] == routes@[i as int]@);
                    }
                }
                if has_id(t0, x) {
                    let j = choose|j: int| 0 <= j < t0.len() && #[trigger] structural_id_of(t0[j].segments) == x;
                    assert(t1[j] == t0[j]);
                }
                if x == idv {
                    assert(t1[i as int] == routes@[i as int]@);
                    assert(structural_id_of(t1[i as int].segments) == x);
                }
            }
            assert forall|x: Seq<char>| #[trigger] views(keys@).contains(x) <==> (start.contains(x) || has_id(rv.take(i + 1), x)) by {
                assert(views(keys@).contains(x) <==> (before.contains(x) || x == idv));
                assert(before.contains(x) <==> (start.contains(x) || has_id(rv.take(i as int), x)));
            }
        }
        i = i + 1;
    }
    assert(rv.take(n as int) =~= rv);
}

/// The structural identities of the old and the new routes, each once, in
/// code point order.
pub fn sorted_ids(old_routes: &Vec<RouteEntry>, new_routes: &Vec<RouteEntry>) -> (r: Vec<String>)
    ensures
        views(r@) == id_keys(route_views(old_routes@), route_views(new_routes@)),
{
    let mut keys: Vec<String> = Vec::new();
    assert(views(keys@) =~= Seq::<Seq<char>>::empty());
    insert_ids(&mut keys, old_routes);
    let ghost mid = views(keys@);
    insert_ids(&mut keys, new_routes);
    proof {
        let s = views(keys@);
        let ov = route_views(old_routes@);
        let nv = route_views(new_routes@);
        assert forall|x: Seq<char>| #[trigger] s.contains(x) <==> (has_id(ov, x) || has_id(nv, x)) by {
            assert(s.contains(x) <==> (mid.contains(x) || has_id(nv, x)));
            assert(mid.contains(x) <==> (Seq::<Seq<char>>::empty().contains(x) || has_id(ov, x)));
        }
        assert(is_id_keys(s, ov, nv));
        let c = id_keys(ov, nv);
        assert(is_id_keys(c, ov, nv));
        lemma_sorted_unique(s, c);
    }
    keys
}

} // verus!

verus! {

/// One change between the routes of an old and a new scan. Each names the
/// old route, except an addition, which names the new one.
#[derive(Debug)]
pub enum RouteChange {
    Added { route: RouteEntry },
    Removed { route: RouteEntry },
    ParamNamesChanged { route: RouteEntry, old_names: Vec<String>, new_names: Vec<String> },
    MethodChanged { route: RouteEntry, new_method: String },
}

/// The mathematical content of a change.
pub enum ChangeView {
    Added(RouteView),
    Removed(RouteView),
    ParamNamesChanged(RouteView, Seq<Seq<char>>, Seq<Seq<char>>),
    MethodChanged(RouteView, Seq<char>),
}

impl View for RouteChange {
    type V = ChangeView;

    open spec fn view(&self) -> ChangeView {
        match self {
            RouteChange::Added { route } => ChangeView::Added(route@),
            RouteChange::Removed { route } => ChangeView::Removed(route@),
            RouteChange::ParamNamesChanged { route, old_names, new_names } => ChangeView::ParamNamesChanged(
                route@,
                views(old_names@),
                views(new_names@),
            ),
            RouteChange::MethodChanged { route, new_method } => ChangeView::MethodChanged(route@, new_method@),
        }
    }
}

pub open spec fn change_views(s: Seq<RouteChange>) -> Seq<ChangeView> {
    s.map_values(|c: RouteChange| c@)
}

/// What pairing an old route with a new one of the same identity reports:
/// a method change first, else a change of aligned parameter names.
pub open spec fn pair_change(o: RouteView, n: RouteView) -> Seq<ChangeView> {
    if o.method != n.method {
        seq![ChangeView::MethodChanged(o, n.method)]
    } else if aligned_names(o.segments, n.segments) != aligned_names(n.segments, o.segments) {
        seq![ChangeView::ParamNamesChanged(o, aligned_names(o.segments, n.segments), aligned_names(n.segments, o.segments))]
    } else {
        Seq::empty()
    }
}

/// The reports of the first `k` pairs.
pub open spec fn paired_changes(o: Seq<RouteView>, n: Seq<RouteView>, k: nat) -> Seq<ChangeView>
    decreases k,
{
    if k == 0 {
        Seq::empty()
    } else {
        paired_changes(o, n, (k - 1) as nat) + pair_change(o[k - 1], n[k - 1])
    }
}

pub open spec fn pair_count(o: Seq<RouteView>, n: Seq<RouteView>) -> nat {
    if o.len() < n.len() {
        o.len()
    } else {
        n.len()
    }
}

pub open spec fn removed_view(r: RouteView) -> ChangeView {
    ChangeView::Removed(r)
}

pub open spec fn added_view(r: RouteView) -> ChangeView {
    ChangeView::Added(r)
}

/// The changes within one identity: the i-th old route is paired with the
/// i-th new one; old routes left over are removed, new ones left over added.
pub open spec fn group_changes_of(o: Seq<RouteView>, n: Seq<RouteView>) -> Seq<ChangeView> {
    let m = pair_count(o, n);
    paired_changes(o, n, m) + o.skip(m as int).map_values(|r: RouteView| removed_view(r)) + n.skip(
        m as int,
    ).map_values(|r: RouteView| added_view(r))
}

/// The changes of the identities in `keys`, in that order.
pub open spec fn changes_over(keys: Seq<Seq<char>>, old: Seq<RouteView>, new: Seq<RouteView>) -> Seq<ChangeView>
    decreases keys.len(),
{
    if keys.len() == 0 {
        Seq::empty()
    } else {
        changes_over(keys.drop_last(), old, new) + group_changes_of(
            old.filter(has_sid(keys.last())),
            new.filter(has_sid(keys.last())),
        )
    }
}

/// All changes from `old` to `new`, identity by identity in sorted order.
pub open spec fn spec_route_changes(old: Seq<RouteView>, new: Seq<RouteView>) -> Seq<ChangeView> {
    changes_over(id_keys(old, new), old, new)
}

/// The routes of identity `id`, copied, in their order.
pub fn routes_with_id(routes: &Vec<RouteEntry>, id: &str) -> (r: Vec<RouteEntry>)
    ensures
        route_views(r@) == route_views(routes@).filter(has_sid(id@)),
{
    let ghost rv = route_views(routes@);
    let mut out: Vec<RouteEntry> = Vec::new();
    let n = routes.len();
    let mut i: usize = 0;
    while i < n
        invariant
            n == routes@.len(),
            rv == route_views(routes@),
            i <= n,
            route_views(out@) == rv.take(i as int).filter(has_sid(id@)),
        decreases n - i,
    {
        let ghost before = route_views(out@);
        proof {
            reveal_with_fuel(Seq::filter, 1);
            assert(rv.take(i + 1).drop_last() =~= rv.take(i as int));
            assert(rv.take(i + 1).last() == routes@[i as int]@);
        }
        let sid = routes[i].structural_id();
        if str_eq(sid.as_str(), id) {
            let c = routes[i].copy();
            out.push(c);
            assert(route_views(out@) =~= before.push(routes@[i as int]@));
        }
        i = i + 1;
    }
    assert(rv.take(n as int) =~= rv);
    out
}

/// Appends the changes within one identity (see `group_changes_of`).
fn push_group_changes(olds: &Vec<RouteEntry>, news: &Vec<RouteEntry>, out: &mut Vec<RouteChange>)
    ensures
        change_views(final(out)@) == change_views(old(out)@) + group_changes_of(route_views(olds@), route_views(news@)),
{
    let ghost ov = route_views(olds@);
    let ghost nv = route_views(news@);
    let ghost base = change_views(out@);
    let m = if olds.len() < news.len() {
        olds.len()
    } else {
        news.len()
    };
    let mut i: usize = 0;
    while i < m
        invariant
            ov == route_views(olds@),
            nv == route_views(news@),
            m == pair_count(ov, nv),
            i <= m,
            change_views(out@) == base + paired_changes(ov, nv, i as nat),
        decreases m - i,
    {
        let ghost before = change_views(out@);
        let c = compare_routes(&olds[i], &news[i]);
        proof {
            assert(ov[i as int] == olds@[i as int]@);
            assert(nv[i as int] == news@[i as int]@);
        }
        match c {
            DiffResult::MethodChanged { old_method, new_method } => {
                let ch = RouteChange::MethodChanged { route: olds[i].copy(), new_method };
                out.push(ch);
                assert(change_views(out@) =~= before + pair_change(ov[i as int], nv[i as int]));
            },
            DiffResult::ParamNamesChanged { old_names, new_names } => {
                let ch = RouteChange::ParamNamesChanged { route: olds[i].copy(), old_names, new_names };
                out.push(ch);
                assert(change_views(out@) =~= before + pair_change(ov[i as int], nv[i as int]));
            },
            _ => {
                assert(pair_change(ov[i as int], nv[i as int]) =~= Seq::<ChangeView>::empty());
                assert(change_views(out@) =~= before + pair_change(ov[i as int], nv[i as int]));
            },
        }
        i = i + 1;
    }
    let ghost paired = change_views(out@);
    let mut j: usize = m;
    while j < olds.len()
        invariant
            ov == route_views(olds@),
            m == pair_count(ov, nv),
            m <= j <= olds@.len(),
            change_views(out@) == paired + ov.skip(m as int).take(j - m).map_values(|r: RouteView| removed_view(r)),
        decreases olds@.len() - j,
    {
        let ghost before = change_views(out@);
        out.push(RouteChange::Removed { route: olds[j].copy() });
        assert(change_views(out@) =~= before.push(removed_view(olds@[j as int]@)));
        assert(ov.skip(m as int).take(j + 1 - m) =~= ov.skip(m as int).take(j - m).push(olds@[j as int]@));
        assert(ov.skip(m as int).take(j + 1 - m).map_values(|r: RouteView| removed_view(r)) =~= ov.skip(
            m as int,
        ).take(j - m).map_values(|r: RouteView| removed_view(r)).push(removed_view(olds@[j as int]@)));
        assert(change_views(out@) =~= paired + ov.skip(m as int).take(j + 1 - m).map_values(
            |r: RouteView| removed_view(r),
        ));
        j = j + 1;
    }
    assert(ov.skip(m as int).take(olds@.len() - m) =~= ov.skip(m as int));
    let ghost removed = change_views(out@);
    let mut k: usize = m;
    while k < news.len()
        invariant
            nv == route_views(news@),
            m == pair_count(ov, nv),
            m <= k <= news@.len(),
            change_views(out@) == removed + nv.skip(m as int).take(k - m).map_values(|r: RouteView| added_view(r)),
        decreases news@.len() - k,
    {
        let ghost before = change_views(out@);
        out.push(RouteChange::Added { route: news[k].copy() });
        assert(change_views(out@) =~= before.push(added_view(news@[k as int]@)));
        assert(nv.skip(m as int).take(k + 1 - m) =~= nv.skip(m as int).take(k - m).push(news@[k as int]@));
        assert(nv.skip(m as int).take(k + 1 - m).map_values(|r: RouteView| added_view(r)) =~= nv.skip(
            m as int,
        ).take(k - m).map_values(|r: RouteView| added_view(r)).push(added_view(news@[k as int]@)));
        assert(change_views(out@) =~= removed + nv.skip(m as int).take(k + 1 - m).map_values(
            |r: RouteView| added_view(r),
        ));
        k = k + 1;
    }
    assert(nv.skip(m as int).take(news@.len() - m) =~= nv.skip(m as int));
    assert(change_views(out@) =~= base + group_changes_of(ov, nv));
}

/// The changes from the old routes to the new ones: identities in sorted
/// order, and within one identity the pairing of `group_changes_of`.
pub fn route_changes(old_routes: &Vec<RouteEntry>, new_routes: &Vec<RouteEntry>) -> (r: Vec<RouteChange>)
    ensures
        change_views(r@) == spec_route_changes(route_views(old_routes@), route_views(new_routes@)),
{
    let ghost ov = route_views(old_routes@);
    let ghost nv = route_views(new_routes@);
    let keys = sorted_ids(old_routes, new_routes);
    let ghost kv = views(keys@);
    let mut out: Vec<RouteChange> = Vec::new();
    let n = keys.len();
    let mut i: usize = 0;
    assert(change_views(out@) =~= changes_over(kv.take(0), ov, nv));
    while i < n
        invariant
            n == keys@.len(),
            kv == views(keys@),
            ov == route_views(old_routes@),
            nv == route_views(new_routes@),
            i <= n,
            change_views(out@) == changes_over(kv.take(i as int), ov, nv),
        decreases n - i,
    {
        let og = routes_with_id(old_routes, keys[i].as_str());
        let ng = routes_with_id(new_routes, keys[i].as_str());
        push_group_changes(&og, &ng, &mut out);
        proof {
            assert(kv.take(i + 1).drop_last() =~= kv.take(i as int));
            assert(kv.take(i + 1).last() == keys@[i as int]@);
        }
        i = i + 1;
    }
    assert(kv.take(n as int) =~= kv);
    out
}

proof fn lemma_paired_self(o: Seq<RouteView>, k: nat)
    requires
        k <= o.len(),
    ensures
        paired_changes(o, o, k) == Seq::<ChangeView>::empty(),
    decreases k,
{
    if k > 0 {
        lemma_paired_self(o, (k - 1) as nat);
        assert(pair_change(o[k - 1], o[k - 1]) =~= Seq::<ChangeView>::empty());
        assert(paired_changes(o, o, k) =~= Seq::<ChangeView>::empty());
    }
}

proof fn lemma_changes_over_self(keys: Seq<Seq<char>>, routes: Seq<RouteView>)
    ensures
        changes_over(keys, routes, routes) == Seq::<ChangeView>::empty(),
    decreases keys.len(),
{
    if keys.len() > 0 {
        lemma_changes_over_self(keys.drop_last(), routes);
        let g = routes.filter(has_sid(keys.last()));
        lemma_paired_self(g, g.len());
        assert(g.skip(g.len() as int) =~= Seq::<RouteView>::empty());
        assert(group_changes_of(g, g) =~= Seq::<ChangeView>::empty());
        assert(changes_over(keys, routes, routes) =~= Seq::<ChangeView>::empty());
    }
}

/// Comparing a scan with itself reports no change.
pub proof fn law_no_changes_against_itself(routes: Seq<RouteView>)
    ensures
        spec_route_changes(routes, routes) == Seq::<ChangeView>::empty(),
{
    lemma_changes_over_self(id_keys(routes, routes), routes);
}

/// The names in code point order, each once: the order suggestion files
/// are merged in.
pub fn sorted_names(names: &Vec<String>) -> (r: Vec<String>)
    ensures
        strictly_sorted(views(r@)),
        forall|x: Seq<char>| #[trigger] views(r@).contains(x) <==> views(names@).contains(x),
{
    let mut out: Vec<String> = Vec::new();
    let ghost nv = views(names@);
    let n = names.len();
    let mut i: usize = 0;
    assert(views(out@) =~= Seq::<Seq<char>>::empty());
    while i < n
        invariant
            n == names@.len(),
            nv == views(names@),
            i <= n,
            strictly_sorted(views(out@)),
            forall|x: Seq<char>| #[trigger] views(out@).contains(x) <==> nv.take(i as int).contains(x),
        decreases n - i,
    {
        let ghost before = views(out@);
        let ghost k = names@[i as int]@;
        insert_sorted(&mut out, names[i].clone());
        proof {
            assert forall|x: Seq<char>| #[trigger] views(out@).contains(x) <==> nv.take(i + 1).contains(x) by {
                assert(views(out@).contains(x) <==> (before.contains(x) || x == k));
                assert(nv.take(i + 1) =~= nv.take(i as int).push(k));
                let t1 = nv.take(i + 1);
                let t0 = nv.take(i as int);
                if t1.contains(x) {
                    let q = choose|q: int| 0 <= q < t1.len() && #[trigger] t1[q] == x;
                    if q < i {
                        assert(t0[q] == x);
                    }
                }
                if t0.contains(x) {
                    let q = choose|q: int| 0 <= q < t0.len() && #[trigger] t0[q] == x;
                    assert(t1[q] == x);
                }
                if x == k {
                    assert(t1[i as int] == x);
                }
            }
        }
        i = i + 1;
    }
    assert(nv.take(n as int) =~= nv);
    out
}

} // verus!
