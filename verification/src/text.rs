//! Character-level string helpers with exact contracts over `Seq<char>`.

use vstd::prelude::*;

verus! {

/// Whether two strings hold the same characters.
pub fn str_eq(a: &str, b: &str) -> (r: bool)
    ensures
        r == (a@ == b@),
{
    let n = a.unicode_len();
    let m = b.unicode_len();
    if n != m {
        return false;
    }
    let mut i: usize = 0;
    while i < n
        invariant
            n == a@.len(),
            m == b@.len(),
            n == m,
            i <= n,
            forall|j: int| 0 <= j < i ==> a@[j] == b@[j],
        decreases n - i,
    {
        if a.get_char(i) != b.get_char(i) {
            return false;
        }
        i = i + 1;
    }
    assert(a@ =~= b@);
    true
}

} // verus!

verus! {

/// `parts` joined with `sep` between consecutive parts.
pub open spec fn join(parts: Seq<Seq<char>>, sep: Seq<char>) -> Seq<char>
    decreases parts.len(),
{
    if parts.len() == 0 {
        Seq::empty()
    } else if parts.len() == 1 {
        parts[0]
    } else {
        join(parts.drop_last(), sep) + sep + parts.last()
    }
}

/// The character views of a vector of strings.
pub open spec fn views(v: Seq<String>) -> Seq<Seq<char>> {
    v.map_values(|s: String| s@)
}

/// Whether two vectors of strings hold the same strings in the same order.
pub fn strings_eq(a: &Vec<String>, b: &Vec<String>) -> (r: bool)
    ensures
        r == (views(a@) == views(b@)),
{
    if a.len() != b.len() {
        return false;
    }
    let n = a.len();
    let mut i: usize = 0;
    while i < n
        invariant
            n == a@.len(),
            n == b@.len(),
            i <= n,
            forall|j: int| 0 <= j < i ==> a@[j]@ == b@[j]@,
        decreases n - i,
    {
        if !str_eq(a[i].as_str(), b[i].as_str()) {
            assert(views(a@)[i as int] != views(b@)[i as int]);
            return false;
        }
        i = i + 1;
    }
    assert(views(a@) =~= views(b@));
    true
}

} // verus!

verus! {

/// A copy of an optional string.
pub fn copy_opt(s: &Option<String>) -> (r: Option<String>)
    ensures
        r == *s,
{
    match s {
        Some(v) => Some(v.clone()),
        None => None,
    }
}

} // verus!

verus! {

/// The character view of an optional string.
pub open spec fn opt_view(o: Option<String>) -> Option<Seq<char>> {
    match o {
        Some(s) => Some(s@),
        None => None,
    }
}

} // verus!

verus! {

/// `str::split` on a character, as a left fold over the characters:
/// the pieces closed so far and the piece still open.
pub open spec fn split_acc(s: Seq<char>, sep: char) -> (Seq<Seq<char>>, Seq<char>)
    decreases s.len(),
{
    if s.len() == 0 {
        (Seq::empty(), Seq::empty())
    } else {
        let (done, cur) = split_acc(s.drop_last(), sep);
        if s.last() == sep {
            (done.push(cur), Seq::empty())
        } else {
            (done, cur.push(s.last()))
        }
    }
}

/// The pieces of `s` between occurrences of `sep`, as `str::split(sep)` yields them.
pub open spec fn split(s: Seq<char>, sep: char) -> Seq<Seq<char>> {
    split_acc(s, sep).0.push(split_acc(s, sep).1)
}

pub open spec fn nonempty(p: Seq<char>) -> bool {
    p.len() > 0
}

/// The non-empty pieces of `s` between occurrences of `sep`.
pub open spec fn nonempty_pieces(s: Seq<char>, sep: char) -> Seq<Seq<char>> {
    split(s, sep).filter(|p: Seq<char>| nonempty(p))
}

/// The open piece of a split is the text after the last separator.
pub proof fn lemma_split_acc_cur(s: Seq<char>, sep: char, start: int)
    requires
        0 <= start <= s.len(),
        forall|k: int| start <= k < s.len() ==> s[k] != sep,
        start == 0 || s[start - 1] == sep,
    ensures
        split_acc(s, sep).1 == s.subrange(start, s.len() as int),
    decreases s.len(),
{
    if s.len() == 0 {
        assert(s.subrange(start, 0) =~= Seq::<char>::empty());
    } else if start == s.len() {
        assert(s.subrange(start, s.len() as int) =~= Seq::<char>::empty());
    } else {
        lemma_split_acc_cur(s.drop_last(), sep, start);
        assert(s.subrange(start, s.len() as int) =~= s.drop_last().subrange(start, s.len() - 1).push(
            s.last(),
        ));
    }
}

/// The pieces joined with `sep` before each one: `/a/b` for `a` and `b`.
pub open spec fn prefixed(texts: Seq<Seq<char>>, sep: char) -> Seq<char>
    decreases texts.len(),
{
    if texts.len() == 0 {
        Seq::empty()
    } else {
        prefixed(texts.drop_last(), sep).push(sep) + texts.last()
    }
}

/// Text free of the separator extends the open piece of a split.
proof fn lemma_split_acc_append_free(s: Seq<char>, q: Seq<char>, sep: char)
    requires
        free_of(q, sep),
    ensures
        split_acc(s + q, sep) == (split_acc(s, sep).0, split_acc(s, sep).1 + q),
    decreases q.len(),
{
    if q.len() == 0 {
        assert(s + q =~= s);
        assert(split_acc(s, sep).1 + q =~= split_acc(s, sep).1);
    } else {
        lemma_split_acc_append_free(s, q.drop_last(), sep);
        assert((s + q).drop_last() =~= s + q.drop_last());
        assert((s + q).last() == q.last());
        assert(split_acc(s, sep).1 + q =~= (split_acc(s, sep).1 + q.drop_last()).push(q.last()));
    }
}

/// Text free of the separator splits into itself alone.
pub proof fn lemma_split_free(q: Seq<char>, sep: char)
    requires
        free_of(q, sep),
    ensures
        split(q, sep) == seq![q],
{
    lemma_split_acc_append_free(Seq::empty(), q, sep);
    assert(Seq::<char>::empty() + q =~= q);
    assert(split_acc(Seq::<char>::empty(), sep).1 + q =~= q);
    assert(split(q, sep) =~= seq![q]);
}

/// Closed pieces of a split stay closed as text is appended.
proof fn lemma_split_acc_grows(s: Seq<char>, q: Seq<char>, sep: char)
    ensures
        split_acc(s, sep).0.len() <= split_acc(s + q, sep).0.len(),
        forall|i: int| 0 <= i < split_acc(s, sep).0.len() ==> #[trigger] split_acc(s + q, sep).0[i] == split_acc(s, sep).0[i],
    decreases q.len(),
{
    if q.len() == 0 {
        assert(s + q =~= s);
    } else {
        lemma_split_acc_grows(s, q.drop_last(), sep);
        assert((s + q).drop_last() =~= s + q.drop_last());
    }
}

/// The first piece of a split is the text before the first separator.
pub proof fn lemma_split_first_piece(first: Seq<char>, rest: Seq<char>, sep: char)
    requires
        free_of(first, sep),
    ensures
        split(first.push(sep) + rest, sep)[0] == first,
{
    lemma_split_acc_append_free(Seq::empty(), first, sep);
    assert(Seq::<char>::empty() + first =~= first);
    assert(split_acc(Seq::<char>::empty(), sep).1 + first =~= first);
    let a = first.push(sep);
    assert(a.drop_last() =~= first);
    assert(split_acc(a, sep).0 =~= seq![first]);
    lemma_split_acc_grows(a, rest, sep);
}

/// One piece, prefixed.
pub proof fn lemma_prefixed_one(p: Seq<char>, sep: char)
    ensures
        prefixed(seq![p], sep) == seq![sep] + p,
{
    let t = seq![p];
    assert(t.drop_last() =~= Seq::<Seq<char>>::empty());
    assert(t.last() == p);
    assert(prefixed(Seq::<Seq<char>>::empty(), sep) == Seq::<char>::empty());
    assert(Seq::<char>::empty().push(sep) =~= seq![sep]);
}

proof fn lemma_split_prefixed(texts: Seq<Seq<char>>, sep: char)
    requires
        forall|i: int| 0 <= i < texts.len() ==> free_of(#[trigger] texts[i], sep),
    ensures
        split(prefixed(texts, sep), sep) == seq![Seq::<char>::empty()] + texts,
    decreases texts.len(),
{
    if texts.len() == 0 {
        assert(split(Seq::<char>::empty(), sep) =~= seq![Seq::<char>::empty()]);
        assert(seq![Seq::<char>::empty()] + texts =~= seq![Seq::<char>::empty()]);
    } else {
        let d = texts.drop_last();
        assert forall|i: int| 0 <= i < d.len() implies free_of(#[trigger] d[i], sep) by {
            assert(d[i] == texts[i]);
        }
        lemma_split_prefixed(d, sep);
        let pd = prefixed(d, sep);
        let a = pd.push(sep);
        assert(a.drop_last() =~= pd);
        assert(free_of(texts[texts.len() - 1], sep));
        lemma_split_acc_append_free(a, texts.last(), sep);
        assert(split_acc(a, sep).1 + texts.last() =~= texts.last());
        assert(seq![Seq::<char>::empty()] + texts =~= (seq![Seq::<char>::empty()] + d).push(texts.last()));
    }
}

proof fn lemma_filter_push_nonempty(s: Seq<Seq<char>>, x: Seq<char>)
    requires
        x.len() > 0,
    ensures
        s.push(x).filter(|p: Seq<char>| nonempty(p)) == s.filter(|p: Seq<char>| nonempty(p)).push(x),
{
    reveal_with_fuel(Seq::filter, 1);
    assert(s.push(x).drop_last() =~= s);
}

pub open spec fn all_nonempty(texts: Seq<Seq<char>>) -> bool {
    forall|i: int| 0 <= i < texts.len() ==> #[trigger] nonempty(texts[i])
}

proof fn lemma_filter_all_nonempty(texts: Seq<Seq<char>>)
    requires
        all_nonempty(texts),
    ensures
        texts.filter(|p: Seq<char>| nonempty(p)) == texts,
    decreases texts.len(),
{
    if texts.len() == 0 {
        reveal_with_fuel(Seq::filter, 1);
        assert(texts.filter(|p: Seq<char>| nonempty(p)) =~= texts);
    } else {
        let d = texts.drop_last();
        assert(all_nonempty(d)) by {
            assert forall|i: int| 0 <= i < d.len() implies #[trigger] nonempty(d[i]) by {
                assert(d[i] == texts[i]);
            }
        }
        lemma_filter_all_nonempty(d);
        assert(nonempty(texts[texts.len() - 1]));
        lemma_filter_push_nonempty(d, texts.last());
        assert(d.push(texts.last()) =~= texts);
    }
}

proof fn lemma_filter_leading_empty(texts: Seq<Seq<char>>)
    requires
        all_nonempty(texts),
    ensures
        (seq![Seq::<char>::empty()] + texts).filter(|p: Seq<char>| nonempty(p)) == texts,
{
    texts.lemma_filter_prepend(Seq::<char>::empty(), |p: Seq<char>| nonempty(p));
    lemma_filter_all_nonempty(texts);
    assert(Seq::<Seq<char>>::empty() + texts =~= texts);
}

/// The non-empty pieces of a `prefixed` text are the pieces it was made of,
/// when each is non-empty and free of the separator.
pub proof fn lemma_pieces_of_prefixed(texts: Seq<Seq<char>>, sep: char)
    requires
        forall|i: int| 0 <= i < texts.len() ==> #[trigger] texts[i].len() > 0 && free_of(texts[i], sep),
    ensures
        nonempty_pieces(prefixed(texts, sep), sep) == texts,
{
    lemma_split_prefixed(texts, sep);
    assert(all_nonempty(texts)) by {
        assert forall|i: int| 0 <= i < texts.len() implies #[trigger] nonempty(texts[i]) by {
            assert(texts[i].len() > 0);
        }
    }
    lemma_filter_leading_empty(texts);
}

/// The non-empty pieces of `s` between occurrences of `sep`, in order.
pub fn split_nonempty(s: &str, sep: char) -> (r: Vec<String>)
    ensures
        views(r@) == nonempty_pieces(s@, sep),
{
    let n = s.unicode_len();
    let mut out: Vec<String> = Vec::new();
    let mut start: usize = 0;
    let mut i: usize = 0;
    while i < n
        invariant
            n == s@.len(),
            start <= i <= n,
            forall|k: int| start <= k < i ==> s@[k] != sep,
            start == 0 || s@[start - 1] == sep,
            views(out@) == split_acc(s@.take(i as int), sep).0.filter(|p: Seq<char>| nonempty(p)),
        decreases n - i,
    {
        let c = s.get_char(i);
        let ghost pre = s@.take(i as int);
        let ghost post = s@.take(i + 1);
        proof {
            assert(post.drop_last() =~= pre);
            assert(post.last() == c);
            lemma_split_acc_cur(pre, sep, start as int);
            assert(pre.subrange(start as int, i as int) =~= s@.subrange(start as int, i as int));
        }
        if c == sep {
            let piece = s.substring_char(start, i);
            let ghost old_out = out@;
            proof {
                reveal_with_fuel(Seq::filter, 1);
                let d = split_acc(pre, sep).0;
                let cur = split_acc(pre, sep).1;
                assert(split_acc(post, sep).0 == d.push(cur));
                assert(d.push(cur).drop_last() =~= d);
            }
            if start < i {
                out.push(String::from_str(piece));
                assert(views(out@) =~= views(old_out).push(piece@));
            }
            start = i + 1;
        } else {
            proof {
                assert(split_acc(post, sep).0 == split_acc(pre, sep).0);
            }
        }
        i = i + 1;
    }
    let ghost all = s@.take(n as int);
    proof {
        assert(all =~= s@);
        lemma_split_acc_cur(s@, sep, start as int);
        reveal_with_fuel(Seq::filter, 1);
        let d = split_acc(s@, sep).0;
        let cur = split_acc(s@, sep).1;
        assert(split(s@, sep).drop_last() =~= d);
        assert(split(s@, sep).last() == cur);
    }
    if start < n {
        let piece = s.substring_char(start, n);
        let ghost old_out = out@;
        out.push(String::from_str(piece));
        assert(views(out@) =~= views(old_out).push(piece@));
    }
    out
}

/// The pieces of `s` between occurrences of `sep`, empty ones included.
pub fn split_all(s: &str, sep: char) -> (r: Vec<String>)
    ensures
        views(r@) == split(s@, sep),
{
    let n = s.unicode_len();
    let mut out: Vec<String> = Vec::new();
    let mut start: usize = 0;
    let mut i: usize = 0;
    while i < n
        invariant
            n == s@.len(),
            start <= i <= n,
            forall|k: int| start <= k < i ==> s@[k] != sep,
            start == 0 || s@[start - 1] == sep,
            views(out@) == split_acc(s@.take(i as int), sep).0,
        decreases n - i,
    {
        let c = s.get_char(i);
        let ghost pre = s@.take(i as int);
        let ghost post = s@.take(i + 1);
        proof {
            assert(post.drop_last() =~= pre);
            assert(post.last() == c);
            lemma_split_acc_cur(pre, sep, start as int);
            assert(pre.subrange(start as int, i as int) =~= s@.subrange(start as int, i as int));
        }
        if c == sep {
            let piece = s.substring_char(start, i);
            let ghost old_out = out@;
            out.push(String::from_str(piece));
            assert(views(out@) =~= views(old_out).push(piece@));
            start = i + 1;
        } else {
            proof {
                assert(split_acc(post, sep).0 == split_acc(pre, sep).0);
            }
        }
        i = i + 1;
    }
    proof {
        assert(s@.take(n as int) =~= s@);
        lemma_split_acc_cur(s@, sep, start as int);
    }
    let piece = s.substring_char(start, n);
    let ghost old_out = out@;
    out.push(String::from_str(piece));
    assert(views(out@) =~= views(old_out).push(piece@));
    out
}

} // verus!

verus! {

/// Closed pieces are never reopened: those of a prefix stay a prefix.
pub proof fn lemma_split_done_prefix(s: Seq<char>, sep: char, m: int)
    requires
        0 <= m <= s.len(),
    ensures
        split_acc(s.take(m), sep).0.len() <= split_acc(s, sep).0.len(),
        forall|j: int|
            0 <= j < split_acc(s.take(m), sep).0.len() ==> #[trigger] split_acc(s.take(m), sep).0[j]
                == split_acc(s, sep).0[j],
    decreases s.len(),
{
    if m == s.len() {
        assert(s.take(m) =~= s);
    } else {
        lemma_split_done_prefix(s.drop_last(), sep, m);
        assert(s.drop_last().take(m) =~= s.take(m));
    }
}

/// The first piece of a split is the text before the first separator.
pub proof fn lemma_split_first(s: Seq<char>, sep: char, k: int)
    requires
        0 <= k <= s.len(),
        forall|j: int| 0 <= j < k ==> s[j] != sep,
        k == s.len() || s[k] == sep,
    ensures
        split(s, sep)[0] == s.take(k),
{
    if k == s.len() {
        lemma_split_acc_cur(s, sep, 0);
        lemma_split_no_sep(s, sep);
        assert(s.subrange(0, s.len() as int) =~= s.take(k));
    } else {
        let t = s.take(k);
        let t1 = s.take(k + 1);
        lemma_split_no_sep(t, sep);
        lemma_split_acc_cur(t, sep, 0);
        assert(t.subrange(0, k) =~= t);
        assert(t1.drop_last() =~= t);
        assert(t1.last() == sep);
        assert(split_acc(t1, sep).0 =~= seq![t]);
        lemma_split_done_prefix(s, sep, k + 1);
        assert(split_acc(t1, sep).0[0] == split_acc(s, sep).0[0]);
        let d = split_acc(s, sep).0;
        assert(split(s, sep)[0] == d[0]);
    }
}

/// Without a separator nothing is closed.
pub proof fn lemma_split_no_sep(s: Seq<char>, sep: char)
    requires
        forall|j: int| 0 <= j < s.len() ==> s[j] != sep,
    ensures
        split_acc(s, sep).0.len() == 0,
    decreases s.len(),
{
    if s.len() > 0 {
        lemma_split_no_sep(s.drop_last(), sep);
    }
}

/// The index of the first `c` in `s`, if any.
pub fn find_char(s: &str, c: char) -> (r: Option<usize>)
    ensures
        match r {
            Some(k) => k < s@.len() && s@[k as int] == c && forall|j: int| 0 <= j < k ==> s@[j] != c,
            None => forall|j: int| 0 <= j < s@.len() ==> s@[j] != c,
        },
{
    let n = s.unicode_len();
    let mut i: usize = 0;
    while i < n
        invariant
            n == s@.len(),
            i <= n,
            forall|j: int| 0 <= j < i ==> s@[j] != c,
        decreases n - i,
    {
        if s.get_char(i) == c {
            return Some(i);
        }
        i = i + 1;
    }
    None
}

/// The text of `s` before the first `c`: `s.split(c).next()`.
pub fn before_char(s: &str, c: char) -> (r: String)
    ensures
        r@ == split(s@, c)[0],
{
    match find_char(s, c) {
        Some(k) => {
            proof {
                lemma_split_first(s@, c, k as int);
            }
            let p = s.substring_char(0, k);
            assert(p@ =~= s@.take(k as int));
            String::from_str(p)
        },
        None => {
            proof {
                lemma_split_first(s@, c, s@.len() as int);
            }
            assert(s@.take(s@.len() as int) =~= s@);
            String::from_str(s)
        },
    }
}

} // verus!

verus! {

/// The index of the first element satisfying `p`, or -1.
pub open spec fn first_index<A>(s: Seq<A>, p: spec_fn(A) -> bool) -> int
    decreases s.len(),
{
    if s.len() == 0 {
        -1
    } else {
        let k = first_index(s.drop_last(), p);
        if k >= 0 {
            k
        } else if p(s.last()) {
            s.len() - 1
        } else {
            -1
        }
    }
}

pub proof fn lemma_first_index<A>(s: Seq<A>, p: spec_fn(A) -> bool)
    ensures
        first_index(s, p) >= 0 ==> ({
            let k = first_index(s, p);
            &&& k < s.len()
            &&& p(s[k])
            &&& forall|j: int| 0 <= j < k ==> !p(#[trigger] s[j])
        }),
        first_index(s, p) < 0 ==> (first_index(s, p) == -1 && forall|j: int|
            0 <= j < s.len() ==> !p(#[trigger] s[j])),
    decreases s.len(),
{
    if s.len() > 0 {
        lemma_first_index(s.drop_last(), p);
        let k = first_index(s.drop_last(), p);
        if k >= 0 {
            assert forall|j: int| 0 <= j < k implies !p(#[trigger] s[j]) by {
                assert(s[j] == s.drop_last()[j]);
            }
            assert(s[k] == s.drop_last()[k]);
        } else {
            assert forall|j: int| 0 <= j < s.len() - 1 implies !p(#[trigger] s[j]) by {
                assert(s[j] == s.drop_last()[j]);
            }
        }
    }
}

/// A first index is determined by where `p` first holds.
pub proof fn lemma_first_index_at<A>(s: Seq<A>, p: spec_fn(A) -> bool, k: int)
    requires
        0 <= k < s.len(),
        p(s[k]),
        forall|j: int| 0 <= j < k ==> !p(#[trigger] s[j]),
    ensures
        first_index(s, p) == k,
{
    lemma_first_index(s, p);
    let f = first_index(s, p);
    if f >= 0 && f < k {
        assert(!p(s[f]));
    }
    if f > k {
        assert(!p(s[k]));
    }
}

/// Whether a pair's key is `k`.
pub open spec fn key_is(k: Seq<char>) -> spec_fn((Seq<char>, Seq<char>)) -> bool {
    |p: (Seq<char>, Seq<char>)| p.0 == k
}

/// The value of the first pair whose key is `k`.
pub open spec fn lookup(kvs: Seq<(Seq<char>, Seq<char>)>, k: Seq<char>) -> Option<Seq<char>> {
    let i = first_index(kvs, key_is(k));
    if i >= 0 {
        Some(kvs[i].1)
    } else {
        None
    }
}

/// No two pairs share a key, as in a map.
pub open spec fn distinct_keys<V>(kvs: Seq<(Seq<char>, V)>) -> bool {
    forall|i: int, j: int| #![trigger kvs[i], kvs[j]] 0 <= i < j < kvs.len() ==> kvs[i].0 != kvs[j].0
}

pub open spec fn pair_views(kvs: Seq<(String, String)>) -> Seq<(Seq<char>, Seq<char>)> {
    kvs.map_values(|p: (String, String)| (p.0@, p.1@))
}

/// The value of the first pair whose key is `k`.
pub fn lookup_value<'a>(kvs: &'a Vec<(String, String)>, k: &str) -> (r: Option<&'a String>)
    ensures
        match r {
            Some(v) => lookup(pair_views(kvs@), k@) == Some(v@),
            None => lookup(pair_views(kvs@), k@) is None,
        },
{
    let ghost pv = pair_views(kvs@);
    let ghost p = key_is(k@);
    let n = kvs.len();
    let mut i: usize = 0;
    while i < n
        invariant
            n == kvs@.len(),
            pv == pair_views(kvs@),
            p == key_is(k@),
            i <= n,
            forall|j: int| 0 <= j < i ==> !p(#[trigger] pv[j]),
        decreases n - i,
    {
        assert(pv[i as int] == (kvs@[i as int].0@, kvs@[i as int].1@));
        if str_eq(kvs[i].0.as_str(), k) {
            proof {
                lemma_first_index_at(pv, p, i as int);
            }
            return Some(&kvs[i].1);
        }
        i = i + 1;
    }
    proof {
        lemma_first_index(pv, p);
        if first_index(pv, p) >= 0 {
            assert(!p(pv[first_index(pv, p)]));
        }
    }
    None
}

} // verus!

verus! {

/// Unicode `White_Space`, as `char::is_whitespace` decides it.
pub open spec fn is_ws(c: char) -> bool {
    ('\u{9}' <= c && c <= '\u{d}') || c == ' ' || c == '\u{85}' || c == '\u{a0}' || c == '\u{1680}'
        || ('\u{2000}' <= c && c <= '\u{200a}') || c == '\u{2028}' || c == '\u{2029}' || c == '\u{202f}'
        || c == '\u{205f}' || c == '\u{3000}'
}

pub fn is_whitespace(c: char) -> (r: bool)
    ensures
        r == is_ws(c),
{
    ('\u{9}' <= c && c <= '\u{d}') || c == ' ' || c == '\u{85}' || c == '\u{a0}' || c == '\u{1680}'
        || ('\u{2000}' <= c && c <= '\u{200a}') || c == '\u{2028}' || c == '\u{2029}' || c == '\u{202f}'
        || c == '\u{205f}' || c == '\u{3000}'
}

/// `s` without leading whitespace.
pub open spec fn trim_start(s: Seq<char>) -> Seq<char>
    decreases s.len(),
{
    if s.len() > 0 && is_ws(s[0]) {
        trim_start(s.skip(1))
    } else {
        s
    }
}

/// `s` without trailing whitespace.
pub open spec fn trim_end(s: Seq<char>) -> Seq<char>
    decreases s.len(),
{
    if s.len() > 0 && is_ws(s.last()) {
        trim_end(s.drop_last())
    } else {
        s
    }
}

/// `s` without leading and trailing whitespace (`str::trim`).
pub open spec fn trim(s: Seq<char>) -> Seq<char> {
    trim_end(trim_start(s))
}

proof fn lemma_trim_start(s: Seq<char>, a: int)
    requires
        0 <= a <= s.len(),
        forall|j: int| 0 <= j < a ==> is_ws(#[trigger] s[j]),
        a == s.len() || !is_ws(s[a]),
    ensures
        trim_start(s) == s.subrange(a, s.len() as int),
    decreases a,
{
    if a == 0 {
        assert(s.subrange(0, s.len() as int) =~= s);
    } else {
        assert(is_ws(s[0]));
        let t = s.skip(1);
        assert forall|j: int| 0 <= j < a - 1 implies is_ws(#[trigger] t[j]) by {
            assert(t[j] == s[j + 1]);
        }
        lemma_trim_start(t, a - 1);
        assert(t.subrange(a - 1, t.len() as int) =~= s.subrange(a, s.len() as int));
    }
}

proof fn lemma_trim_end(s: Seq<char>, b: int)
    requires
        0 <= b <= s.len(),
        forall|j: int| b <= j < s.len() ==> is_ws(#[trigger] s[j]),
        b == 0 || !is_ws(s[b - 1]),
    ensures
        trim_end(s) == s.subrange(0, b),
    decreases s.len() - b,
{
    if b == s.len() {
        if s.len() > 0 {
            assert(!is_ws(s.last()));
        }
        assert(s.subrange(0, b) =~= s);
    } else {
        assert(is_ws(s.last()));
        let t = s.drop_last();
        assert forall|j: int| b <= j < t.len() implies is_ws(#[trigger] t[j]) by {
            assert(t[j] == s[j]);
        }
        lemma_trim_end(t, b);
        assert(t.subrange(0, b) =~= s.subrange(0, b));
    }
}

/// `s` without leading and trailing whitespace.
pub fn trim_str(s: &str) -> (r: &str)
    ensures
        r@ == trim(s@),
{
    let n = s.unicode_len();
    let mut a: usize = 0;
    while a < n && is_whitespace(s.get_char(a))
        invariant
            n == s@.len(),
            a <= n,
            forall|j: int| 0 <= j < a ==> is_ws(#[trigger] s@[j]),
        decreases n - a,
    {
        a = a + 1;
    }
    let mut b: usize = n;
    while b > a && is_whitespace(s.get_char(b - 1))
        invariant
            n == s@.len(),
            a <= b <= n,
            forall|j: int| b <= j < n ==> is_ws(#[trigger] s@[j]),
        decreases b - a,
    {
        b = b - 1;
    }
    proof {
        lemma_trim_start(s@, a as int);
        let mid = s@.subrange(a as int, n as int);
        assert forall|j: int| (b - a) <= j < mid.len() implies is_ws(#[trigger] mid[j]) by {
            assert(mid[j] == s@[j + a]);
        }
        if b > a {
            assert(mid[b - a - 1] == s@[b - 1]);
        }
        lemma_trim_end(mid, (b - a) as int);
        assert(mid.subrange(0, (b - a) as int) =~= s@.subrange(a as int, b as int));
    }
    s.substring_char(a, b)
}

/// `s` does not hold `c`.
pub open spec fn free_of(s: Seq<char>, c: char) -> bool {
    forall|j: int| 0 <= j < s.len() ==> s[j] != c
}

/// `s` is empty or begins and ends with a non-whitespace character.
pub open spec fn trimmed(s: Seq<char>) -> bool {
    s.len() == 0 || (!is_ws(s[0]) && !is_ws(s.last()))
}

proof fn lemma_trim_start_props(s: Seq<char>, c: char)
    ensures
        trim_start(s).len() == 0 || !is_ws(trim_start(s)[0]),
        free_of(s, c) ==> free_of(trim_start(s), c),
    decreases s.len(),
{
    if s.len() > 0 && is_ws(s[0]) {
        lemma_trim_start_props(s.skip(1), c);
        if free_of(s, c) {
            assert forall|j: int| 0 <= j < s.skip(1).len() implies s.skip(1)[j] != c by {
                assert(s.skip(1)[j] == s[j + 1]);
            }
        }
    }
}

proof fn lemma_trim_end_props(s: Seq<char>)
    ensures
        trim_end(s).len() == 0 || !is_ws(trim_end(s).last()),
        trim_end(s).len() <= s.len(),
        forall|i: int| 0 <= i < trim_end(s).len() ==> #[trigger] trim_end(s)[i] == s[i],
    decreases s.len(),
{
    if s.len() > 0 && is_ws(s.last()) {
        lemma_trim_end_props(s.drop_last());
        assert forall|i: int| 0 <= i < trim_end(s).len() implies #[trigger] trim_end(s)[i] == s[i] by {
            assert(trim_end(s)[i] == s.drop_last()[i]);
        }
    }
}

/// What `trim` leaves is trimmed, and holds no character its input lacks.
pub proof fn lemma_trim_result(s: Seq<char>, c: char)
    ensures
        trimmed(trim(s)),
        free_of(s, c) ==> free_of(trim(s), c),
{
    let u = trim_start(s);
    lemma_trim_start_props(s, c);
    lemma_trim_end_props(u);
    let w = trim_end(u);
    if w.len() > 0 {
        assert(w[0] == u[0]);
    }
    if free_of(s, c) {
        assert forall|j: int| 0 <= j < w.len() implies w[j] != c by {
            assert(w[j] == u[j]);
        }
    }
}

/// A trimmed string is left as it is by `trim`.
pub proof fn lemma_trim_trimmed(s: Seq<char>)
    requires
        trimmed(s),
    ensures
        trim(s) == s,
{
}

/// Appending text without the separator only extends the open piece.
pub proof fn lemma_split_append_free(x: Seq<char>, y: Seq<char>, sep: char)
    requires
        free_of(y, sep),
    ensures
        split_acc(x + y, sep) == (split_acc(x, sep).0, split_acc(x, sep).1 + y),
    decreases y.len(),
{
    if y.len() == 0 {
        assert(x + y =~= x);
        assert(split_acc(x, sep).1 + y =~= split_acc(x, sep).1);
    } else {
        let y0 = y.drop_last();
        lemma_split_append_free(x, y0, sep);
        assert((x + y).drop_last() =~= x + y0);
        assert((x + y).last() == y.last());
        assert(split_acc(x, sep).1 + y =~= (split_acc(x, sep).1 + y0).push(y.last()));
    }
}

/// The pieces of a split hold neither the separator nor any character the
/// text lacks.
pub proof fn lemma_split_pieces_free(s: Seq<char>, sep: char, c: char)
    requires
        c == sep || free_of(s, c),
    ensures
        free_of(split_acc(s, sep).1, c),
        forall|i: int| 0 <= i < split_acc(s, sep).0.len() ==> free_of(#[trigger] split_acc(s, sep).0[i], c),
    decreases s.len(),
{
    if s.len() > 0 {
        let t = s.drop_last();
        if c != sep {
            assert forall|j: int| 0 <= j < t.len() implies t[j] != c by {
                assert(t[j] == s[j]);
            }
        }
        lemma_split_pieces_free(t, sep, c);
        let d = split_acc(t, sep).0;
        let cur = split_acc(t, sep).1;
        if s.last() == sep {
            assert forall|i: int| 0 <= i < d.push(cur).len() implies free_of(#[trigger] d.push(cur)[i], c) by {
                if i < d.len() {
                    assert(d.push(cur)[i] == d[i]);
                }
            }
        } else {
            assert(s.last() == s[s.len() - 1]);
            assert forall|j: int| 0 <= j < cur.push(s.last()).len() implies cur.push(s.last())[j] != c by {
                if j < cur.len() {
                    assert(cur.push(s.last())[j] == cur[j]);
                }
            }
        }
    }
}

/// `s[k..]` starts with `p`.
pub open spec fn occurs_at(s: Seq<char>, p: Seq<char>, k: int) -> bool {
    0 <= k && k + p.len() <= s.len() && s.subrange(k, k + p.len()) == p
}

/// Whether `s` starts with `p`.
pub fn starts_with(s: &str, p: &str) -> (r: bool)
    ensures
        r == occurs_at(s@, p@, 0),
{
    let n = s.unicode_len();
    let m = p.unicode_len();
    if m > n {
        return false;
    }
    let head = s.substring_char(0, m);
    str_eq(head, p)
}

/// Whether `s` ends with `p`.
pub fn ends_with(s: &str, p: &str) -> (r: bool)
    ensures
        r == (p@.len() <= s@.len() && occurs_at(s@, p@, s@.len() - p@.len())),
{
    let n = s.unicode_len();
    let m = p.unicode_len();
    if m > n {
        return false;
    }
    let tail = s.substring_char(n - m, n);
    str_eq(tail, p)
}

/// The first position where `p` occurs in `s`.
pub fn find_str(s: &str, p: &str) -> (r: Option<usize>)
    ensures
        match r {
            Some(k) => occurs_at(s@, p@, k as int) && forall|j: int| 0 <= j < k ==> !occurs_at(s@, p@, j),
            None => forall|j: int| 0 <= j <= s@.len() ==> !occurs_at(s@, p@, j),
        },
{
    let n = s.unicode_len();
    let m = p.unicode_len();
    if m > n {
        return None;
    }
    let mut k: usize = 0;
    loop
        invariant
            n == s@.len(),
            m == p@.len(),
            m <= n,
            k <= n - m,
            forall|j: int| 0 <= j < k ==> !occurs_at(s@, p@, j),
        decreases n - m - k,
    {
        let w = s.substring_char(k, k + m);
        if str_eq(w, p) {
            return Some(k);
        }
        if k == n - m {
            return None;
        }
        k = k + 1;
    }
}

/// Whether `p` occurs somewhere in `s`.
pub fn contains_str(s: &str, p: &str) -> (r: bool)
    ensures
        r == exists|j: int| occurs_at(s@, p@, j),
{
    match find_str(s, p) {
        Some(k) => true,
        None => {
            assert forall|j: int| !occurs_at(s@, p@, j) by {
                if 0 <= j <= s@.len() {
                } else {
                }
            }
            false
        },
    }
}

} // verus!

verus! {

pub open spec fn strip_cr(p: Seq<char>) -> Seq<char> {
    if p.len() > 0 && p.last() == '\r' {
        p.drop_last()
    } else {
        p
    }
}

/// The lines of `s`, as `str::lines` yields them: split at `\n`, a `\r`
/// before a `\n` dropped, and no empty line after a final line ending.
pub open spec fn lines(s: Seq<char>) -> Seq<Seq<char>> {
    let pieces = split(s, '\n');
    let terminated = pieces.drop_last().map_values(|p: Seq<char>| strip_cr(p));
    if pieces.last().len() == 0 {
        terminated
    } else {
        terminated.push(pieces.last())
    }
}

/// The lines of `s` (see `lines`).
pub fn lines_of(s: &str) -> (r: Vec<String>)
    ensures
        views(r@) == lines(s@),
{
    let n = s.unicode_len();
    let mut out: Vec<String> = Vec::new();
    let mut start: usize = 0;
    let mut i: usize = 0;
    while i < n
        invariant
            n == s@.len(),
            start <= i <= n,
            forall|k: int| start <= k < i ==> s@[k] != '\n',
            start == 0 || s@[start - 1] == '\n',
            views(out@) == split_acc(s@.take(i as int), '\n').0.map_values(|p: Seq<char>| strip_cr(p)),
        decreases n - i,
    {
        let c = s.get_char(i);
        let ghost pre = s@.take(i as int);
        let ghost post = s@.take(i + 1);
        proof {
            assert(post.drop_last() =~= pre);
            assert(post.last() == c);
            lemma_split_acc_cur(pre, '\n', start as int);
            assert(pre.subrange(start as int, i as int) =~= s@.subrange(start as int, i as int));
        }
        if c == '\n' {
            let mut end = i;
            if i > start && s.get_char(i - 1) == '\r' {
                end = i - 1;
            }
            let piece = s.substring_char(start, end);
            let ghost old_out = out@;
            out.push(String::from_str(piece));
            proof {
                let d = split_acc(pre, '\n').0;
                let cur = split_acc(pre, '\n').1;
                assert(split_acc(post, '\n').0 == d.push(cur));
                assert(cur =~= s@.subrange(start as int, i as int));
                if i > start && s@[i - 1] == '\r' {
                    assert(cur.last() == '\r');
                    assert(piece@ =~= cur.drop_last());
                } else {
                    assert(piece@ =~= cur);
                }
                assert(piece@ == strip_cr(cur));
                assert(views(out@) =~= views(old_out).push(piece@));
                assert(d.push(cur).map_values(|p: Seq<char>| strip_cr(p)) =~= d.map_values(|p: Seq<char>| strip_cr(p)).push(strip_cr(cur)));
            }
            start = i + 1;
        } else {
            proof {
                assert(split_acc(post, '\n').0 == split_acc(pre, '\n').0);
            }
        }
        i = i + 1;
    }
    proof {
        assert(s@.take(n as int) =~= s@);
        lemma_split_acc_cur(s@, '\n', start as int);
        let d = split_acc(s@, '\n').0;
        let cur = split_acc(s@, '\n').1;
        assert(split(s@, '\n').drop_last() =~= d);
        assert(split(s@, '\n').last() == cur);
    }
    if start < n {
        let piece = s.substring_char(start, n);
        let ghost old_out = out@;
        out.push(String::from_str(piece));
        assert(views(out@) =~= views(old_out).push(piece@));
    }
    out
}

} // verus!

verus! {

/// Where `p` first occurs in `s`, or -1.
pub open spec fn find_spec(s: Seq<char>, p: Seq<char>) -> int {
    if exists|k: int| occurs_at(s, p, k) {
        choose|k: int| occurs_at(s, p, k) && forall|j: int| 0 <= j < k ==> !occurs_at(s, p, j)
    } else {
        -1
    }
}

proof fn lemma_find_spec(s: Seq<char>, p: Seq<char>, k: int)
    requires
        occurs_at(s, p, k),
        forall|j: int| 0 <= j < k ==> !occurs_at(s, p, j),
    ensures
        find_spec(s, p) == k,
{
    let c = choose|c: int| occurs_at(s, p, c) && forall|j: int| 0 <= j < c ==> !occurs_at(s, p, j);
    assert(occurs_at(s, p, c));
    if c < k {
        assert(!occurs_at(s, p, c));
    }
    if k < c {
        assert(!occurs_at(s, p, k));
    }
}

/// Where `p` first occurs in `s` (see `find_spec`).
pub fn find(s: &str, p: &str) -> (r: Option<usize>)
    ensures
        match r {
            Some(k) => find_spec(s@, p@) == k as int && k + p@.len() <= s@.len(),
            None => find_spec(s@, p@) == -1,
        },
{
    match find_str(s, p) {
        Some(k) => {
            proof {
                lemma_find_spec(s@, p@, k as int);
            }
            Some(k)
        },
        None => {
            assert(!exists|k: int| occurs_at(s@, p@, k));
            None
        },
    }
}

} // verus!
