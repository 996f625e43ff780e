//! The repository registry: project visibility, the visibility manager's
//! choices, and the GitHub coordinates read from a Git remote.

use vstd::prelude::*;
use crate::text::{str_eq, split, split_acc, occurs_at, contains_str, ends_with, opt_view, trim, trim_str,
    lemma_split_acc_cur, lemma_split_no_sep, first_index, lemma_first_index, lemma_first_index_at};
use crate::prompt::{eq_ignore_case, eq_ignore_case_str, unsigned_text, parse_usize, decimal, decimal_string};

verus! {

/// The visibility a project gets when toggled: `private` if it is public
/// (as a project without a visibility is), `public` otherwise.
pub open spec fn spec_toggled(current: Option<Seq<char>>) -> Seq<char> {
    let cur = match current {
        Some(v) => v,
        None => "public"@,
    };
    if cur == "public"@ {
        "private"@
    } else {
        "public"@
    }
}

/// The visibility after a toggle (see `spec_toggled`).
pub fn toggled_visibility(current: &Option<String>) -> (r: String)
    ensures
        r@ == spec_toggled(opt_view(*current)),
{
    let public = match current {
        Some(v) => str_eq(v.as_str(), "public"),
        None => true,
    };
    if public {
        String::from_str("private")
    } else {
        String::from_str("public")
    }
}

/// Whether a registry entry's name is `name`.
pub open spec fn name_is(name: Seq<char>) -> spec_fn(Option<Seq<char>>) -> bool {
    |n: Option<Seq<char>>| n == Some(name)
}

pub open spec fn name_views(names: Seq<Option<String>>) -> Seq<Option<Seq<char>>> {
    names.map_values(|n: Option<String>| opt_view(n))
}

/// The position of the first registry entry named `name`, given each
/// entry's name, if any.
pub fn find_named(names: &Vec<Option<String>>, name: &str) -> (r: Option<usize>)
    ensures
        match r {
            Some(i) => first_index(name_views(names@), name_is(name@)) == i as int,
            None => first_index(name_views(names@), name_is(name@)) == -1,
        },
{
    let ghost nv = name_views(names@);
    let ghost p = name_is(name@);
    let n = names.len();
    let mut i: usize = 0;
    while i < n
        invariant
            n == names@.len(),
            nv == name_views(names@),
            p == name_is(name@),
            i <= n,
            forall|j: int| 0 <= j < i ==> !p(#[trigger] nv[j]),
        decreases n - i,
    {
        assert(nv[i as int] == opt_view(names@[i as int]));
        let hit = match &names[i] {
            Some(s) => str_eq(s.as_str(), name),
            None => false,
        };
        if hit {
            proof {
                lemma_first_index_at(nv, p, i as int);
            }
            return Some(i);
        }
        i = i + 1;
    }
    proof {
        lemma_first_index(nv, p);
        if first_index(nv, p) >= 0 {
            assert(!p(nv[first_index(nv, p)]));
        }
    }
    None
}

/// What a choice in the visibility manager selects.
#[derive(Debug, PartialEq, Eq, Structural, Clone, Copy)]
pub enum VisibilityChoice {
    LockAll,
    UnlockAll,
    ToggleByName,
    Back,
    Toggle(usize),
    OutOfRange,
    Invalid,
}

/// Whether the trimmed input is `c`, up to ASCII case.
pub open spec fn typed(input: Seq<char>, c: Seq<char>) -> bool {
    eq_ignore_case(trim(input), c)
}

/// The visibility manager: `a` locks all, `b` unlocks all, `c` toggles a
/// named project, `q` goes back; a number `n` toggles the `n`-th of
/// `count` projects (position `n - 1`), out of range otherwise.
pub open spec fn spec_visibility_choice(input: Seq<char>, count: nat) -> VisibilityChoice {
    if typed(input, "a"@) {
        VisibilityChoice::LockAll
    } else if typed(input, "b"@) {
        VisibilityChoice::UnlockAll
    } else if typed(input, "c"@) {
        VisibilityChoice::ToggleByName
    } else if typed(input, "q"@) {
        VisibilityChoice::Back
    } else {
        match unsigned_text(trim(input)) {
            Some(n) => if n > usize::MAX {
                VisibilityChoice::Invalid
            } else if 1 <= n <= count {
                VisibilityChoice::Toggle((n - 1) as usize)
            } else {
                VisibilityChoice::OutOfRange
            },
            None => VisibilityChoice::Invalid,
        }
    }
}

/// What a choice in the visibility manager selects (see `spec_visibility_choice`).
pub fn visibility_choice(input: &str, count: usize) -> (r: VisibilityChoice)
    ensures
        r == spec_visibility_choice(input@, count as nat),
{
    let t = trim_str(input);
    if eq_ignore_case_str(t, "a") {
        VisibilityChoice::LockAll
    } else if eq_ignore_case_str(t, "b") {
        VisibilityChoice::UnlockAll
    } else if eq_ignore_case_str(t, "c") {
        VisibilityChoice::ToggleByName
    } else if eq_ignore_case_str(t, "q") {
        VisibilityChoice::Back
    } else {
        match parse_usize(t) {
            Some(n) => if n >= 1 && n <= count {
                VisibilityChoice::Toggle(n - 1)
            } else {
                VisibilityChoice::OutOfRange
            },
            None => VisibilityChoice::Invalid,
        }
    }
}

/// One line of the visibility manager's listing: the 1-based position, a
/// lock or globe, the name (`unnamed` without one) and the visibility
/// (`public` without one).
pub open spec fn spec_listing_line(index: nat, name: Option<Seq<char>>, visibility: Option<Seq<char>>) -> Seq<char> {
    let n = match name {
        Some(s) => s,
        None => "unnamed"@,
    };
    let v = match visibility {
        Some(s) => s,
        None => "public"@,
    };
    let icon = if v == "private"@ {
        "🔒"@
    } else {
        "🌍"@
    };
    "  ["@ + decimal(index + 1) + "] "@ + icon + " "@ + n + " - "@ + v
}

/// One line of the visibility manager's listing (see `spec_listing_line`).
pub fn listing_line(index: usize, name: &Option<String>, visibility: &Option<String>) -> (r: String)
    requires
        index < usize::MAX,
    ensures
        r@ == spec_listing_line(index as nat, opt_view(*name), opt_view(*visibility)),
{
    let n: &str = match name {
        Some(s) => s.as_str(),
        None => "unnamed",
    };
    let v: &str = match visibility {
        Some(s) => s.as_str(),
        None => "public",
    };
    let mut out = String::from_str("  [");
    let pos = decimal_string((index + 1) as u64);
    out.append(pos.as_str());
    out.append("] ");
    if str_eq(v, "private") {
        out.append("🔒");
    } else {
        out.append("🌍");
    }
    out.append(" ");
    out.append(n);
    out.append(" - ");
    out.append(v);
    out
}

/// `s` without its trailing `c` characters.
pub open spec fn strip_trailing(s: Seq<char>, c: char) -> Seq<char>
    decreases s.len(),
{
    if s.len() > 0 && s.last() == c {
        strip_trailing(s.drop_last(), c)
    } else {
        s
    }
}

/// `s` without a final `.git`.
pub open spec fn without_git(s: Seq<char>) -> Seq<char> {
    if 4 <= s.len() && occurs_at(s, ".git"@, s.len() - 4) {
        s.take(s.len() - 4)
    } else {
        s
    }
}

/// The GitHub owner and repository of a remote URL: for a URL naming
/// `github.com`, split at `/` after dropping trailing slashes, the last two
/// pieces (the repository without `.git`); none with fewer than two pieces.
pub open spec fn spec_github_remote(url: Seq<char>) -> Option<(Seq<char>, Seq<char>)> {
    if exists|j: int| occurs_at(url, "github.com"@, j) {
        let parts = split(strip_trailing(url, '/'), '/');
        if parts.len() >= 2 {
            Some((parts[parts.len() - 2], without_git(parts.last())))
        } else {
            None
        }
    } else {
        None
    }
}

proof fn lemma_split_done_stable(s: Seq<char>, sep: char, m: int)
    requires
        0 <= m <= s.len(),
        forall|j: int| m <= j < s.len() ==> s[j] != sep,
    ensures
        split_acc(s, sep).0 == split_acc(s.take(m), sep).0,
    decreases s.len(),
{
    if m < s.len() {
        lemma_split_done_stable(s.drop_last(), sep, m);
        assert(s.drop_last().take(m) =~= s.take(m));
    } else {
        assert(s.take(m) =~= s);
    }
}

/// The GitHub owner and repository of a remote URL (see `spec_github_remote`).
pub fn github_remote(url: &str) -> (r: Option<(String, String)>)
    ensures
        match r {
            Some(p) => spec_github_remote(url@) == Some((p.0@, p.1@)),
            None => spec_github_remote(url@) is None,
        },
{
    if !contains_str(url, "github.com") {
        return None;
    }
    let n0 = url.unicode_len();
    let mut e: usize = n0;
    assert(url@.take(n0 as int) =~= url@);
    while e > 0 && url.get_char(e - 1) == '/'
        invariant
            n0 == url@.len(),
            e <= n0,
            strip_trailing(url@, '/') == strip_trailing(url@.take(e as int), '/'),
        decreases e,
    {
        assert(url@.take(e as int).drop_last() =~= url@.take(e - 1));
        e = e - 1;
    }
    let t = url.substring_char(0, e);
    assert(t@ =~= url@.take(e as int));
    let ghost tv = t@;
    let n = e;
    let mut k: usize = n;
    while k > 0 && t.get_char(k - 1) != '/'
        invariant
            n == tv.len(),
            tv == t@,
            k <= n,
            forall|j: int| k <= j < n ==> tv[j] != '/',
        decreases k,
    {
        k = k - 1;
    }
    if k == 0 {
        proof {
            lemma_split_no_sep(tv, '/');
        }
        return None;
    }
    let slash = k - 1;
    let mut j: usize = slash;
    while j > 0 && t.get_char(j - 1) != '/'
        invariant
            n == tv.len(),
            tv == t@,
            j <= slash < n,
            forall|q: int| j <= q < slash ==> tv[q] != '/',
        decreases j,
    {
        j = j - 1;
    }
    let owner = t.substring_char(j, slash);
    let last = t.substring_char(k, n);
    proof {
        lemma_split_acc_cur(tv, '/', k as int);
        lemma_split_done_stable(tv, '/', k as int);
        let pre = tv.take(k as int);
        let pre0 = tv.take(slash as int);
        assert(pre.drop_last() =~= pre0);
        assert(pre.last() == '/');
        lemma_split_acc_cur(pre0, '/', j as int);
        assert(pre0.subrange(j as int, slash as int) =~= owner@);
        assert(tv.subrange(k as int, n as int) =~= last@);
    }
    let repo = if ends_with(last, ".git") {
        proof {
            reveal_strlit(".git");
        }
        let m = last.unicode_len();
        let cut = last.substring_char(0, m - 4);
        assert(cut@ =~= last@.take(last@.len() - 4));
        String::from_str(cut)
    } else {
        String::from_str(last)
    };
    proof {
        reveal_strlit(".git");
    }
    Some((String::from_str(owner), repo))
}

/// Registry coordinates of a project: its GitHub owner and repository when
/// both are given and not empty.
pub open spec fn spec_github_coords(owner: Option<Seq<char>>, repo: Option<Seq<char>>) -> Option<(Seq<char>, Seq<char>)> {
    let o = match owner {
        Some(s) => s,
        None => Seq::empty(),
    };
    let r = match repo {
        Some(s) => s,
        None => Seq::empty(),
    };
    if o.len() > 0 && r.len() > 0 {
        Some((o, r))
    } else {
        None
    }
}

/// Registry coordinates of a project (see `spec_github_coords`).
pub fn github_coords(owner: &Option<String>, repo: &Option<String>) -> (r: Option<(String, String)>)
    ensures
        match r {
            Some(p) => spec_github_coords(opt_view(*owner), opt_view(*repo)) == Some((p.0@, p.1@)),
            None => spec_github_coords(opt_view(*owner), opt_view(*repo)) is None,
        },
{
    match (owner, repo) {
        (Some(o), Some(r)) => {
            if o.as_str().unicode_len() > 0 && r.as_str().unicode_len() > 0 {
                Some((o.clone(), r.clone()))
            } else {
                None
            }
        },
        _ => None,
    }
}

/// The GitHub API address of a repository.
pub open spec fn spec_repo_api_url(owner: Seq<char>, repo: Seq<char>) -> Seq<char> {
    "https://api.github.com/repos/"@ + owner + "/"@ + repo
}

/// The GitHub API address of a repository (see `spec_repo_api_url`).
pub fn repo_api_url(owner: &str, repo: &str) -> (r: String)
    ensures
        r@ == spec_repo_api_url(owner@, repo@),
{
    let mut out = String::from_str("https://api.github.com/repos/");
    out.append(owner);
    out.append("/");
    out.append(repo);
    out
}

/// The visibility GitHub reports: `private` when the repository is
/// private, `public` otherwise (also when GitHub does not say).
pub fn visibility_of(private: Option<bool>) -> (r: &'static str)
    ensures
        r@ == (if private == Some(true) {
            "private"@
        } else {
            "public"@
        }),
{
    match private {
        Some(true) => "private",
        _ => "public",
    }
}

/// The branch recorded for a repository: the checked out one when Git
/// names it, `main` otherwise.
pub fn branch_or_main(branch: &Option<String>) -> (r: String)
    ensures
        r@ == (match opt_view(*branch) {
            Some(b) => b,
            None => "main"@,
        }),
{
    match branch {
        Some(b) => b.clone(),
        None => String::from_str("main"),
    }
}


/// The visibilities of `count` projects once all are set to `visibility`.
pub fn visibilities_all(count: usize, visibility: &str) -> (r: Vec<String>)
    ensures
        r@.len() == count,
        forall|i: int| 0 <= i < count ==> #[trigger] r@[i]@ == visibility@,
{
    let mut out: Vec<String> = Vec::new();
    let mut i: usize = 0;
    while i < count
        invariant
            i <= count,
            out@.len() == i,
            forall|j: int| 0 <= j < i ==> #[trigger] out@[j]@ == visibility@,
        decreases count - i,
    {
        out.push(String::from_str(visibility));
        i = i + 1;
    }
    out
}

/// The visibility a project has: the one recorded, `public` without one.
pub open spec fn effective_visibility(current: Option<Seq<char>>) -> Seq<char> {
    match current {
        Some(v) => v,
        None => "public"@,
    }
}

/// Toggling a public or private project twice gives back its visibility.
pub proof fn law_toggle_twice_restores(current: Option<Seq<char>>)
    requires
        effective_visibility(current) == "public"@ || effective_visibility(current) == "private"@,
    ensures
        spec_toggled(Some(spec_toggled(current))) == effective_visibility(current),
{
    reveal_strlit("public");
    reveal_strlit("private");
}


/// A trailing slash does not change the coordinates read from a remote.
pub proof fn law_trailing_slash_ignored(url: Seq<char>)
    ensures
        spec_github_remote(url.push('/')) == spec_github_remote(url),
{
    reveal_strlit("github.com");
    let u = url.push('/');
    assert(u.drop_last() =~= url);
    assert(strip_trailing(u, '/') == strip_trailing(url, '/'));
    if exists|j: int| occurs_at(url, "github.com"@, j) {
        let j = choose|j: int| occurs_at(url, "github.com"@, j);
        assert(u.subrange(j, j + 10) =~= url.subrange(j, j + 10));
        assert(occurs_at(u, "github.com"@, j));
    }
    if exists|j: int| occurs_at(u, "github.com"@, j) {
        let j = choose|j: int| occurs_at(u, "github.com"@, j);
        if j + 10 > url.len() {
            assert(u.subrange(j, j + 10)[url.len() - j] == u[url.len() as int]);
            assert("github.com"@[url.len() - j] != '/');
        } else {
            assert(u.subrange(j, j + 10) =~= url.subrange(j, j + 10));
            assert(occurs_at(url, "github.com"@, j));
        }
    }
}

} // verus!
