//! Decisions of the patch review flow: which handover tasks carry a patch,
//! what the person deciding on a patch is shown, where a suggested patch goes, and which
//! suggestion files a watcher reports as new.

use vstd::prelude::*;
use crate::text::{str_eq, trim, trim_str, find, find_spec, views, first_index, lemma_first_index, lemma_first_index_at};
use crate::patch::{content_marker, end_marker, extract_project_name_from_yaml, spec_project_name};
use crate::types::ProjectMeta;

verus! {

/// An answer to a `[Y/n]` prompt accepts when, trimmed, it is empty or
/// starts with `y` in either case.
pub open spec fn spec_accepts_default_yes(input: Seq<char>) -> bool {
    let t = trim(input);
    t.len() == 0 || t[0] == 'y' || t[0] == 'Y'
}

/// Whether an answer to a `[Y/n]` prompt accepts (see `spec_accepts_default_yes`).
pub fn accepts_default_yes(input: &str) -> (r: bool)
    ensures
        r == spec_accepts_default_yes(input@),
{
    let t = trim_str(input);
    if t.unicode_len() == 0 {
        return true;
    }
    let c = t.get_char(0);
    c == 'y' || c == 'Y'
}

/// The statuses of a handover task still waiting for alignment.
pub open spec fn is_pending_status(status: Seq<char>) -> bool {
    status == "pending_alignment"@ || status == "pending"@
}

/// Whether a task status is a pending one.
pub fn pending_status(status: &str) -> (r: bool)
    ensures
        r == is_pending_status(status@),
{
    str_eq(status, "pending_alignment") || str_eq(status, "pending")
}

/// A handover task carries a patch to merge: it is pending and its patch is
/// present and non-empty.
pub open spec fn spec_task_has_patch(status: Seq<char>, patch: Option<Seq<char>>) -> bool {
    is_pending_status(status) && match patch {
        Some(p) => p.len() > 0,
        None => false,
    }
}

/// The statuses of the handover tasks once task `index` has been merged: that
/// task is `completed`, the others are unchanged.
pub fn mark_completed(statuses: &Vec<String>, index: usize) -> (r: Vec<String>)
    requires
        index < statuses@.len(),
    ensures
        views(r@) == views(statuses@).update(index as int, "completed"@),
{
    let mut out: Vec<String> = Vec::new();
    let n = statuses.len();
    let mut i: usize = 0;
    while i < n
        invariant
            n == statuses@.len(),
            index < n,
            i <= n,
            out@.len() == i,
            forall|j: int| 0 <= j < i ==> #[trigger] out@[j]@ == views(statuses@).update(index as int, "completed"@)[j],
        decreases n - i,
    {
        if i == index {
            out.push(String::from_str("completed"));
        } else {
            out.push(statuses[i].clone());
        }
        i = i + 1;
    }
    assert(views(out@) =~= views(statuses@).update(index as int, "completed"@));
    out
}

/// Whether a handover task carries a patch to merge (see `spec_task_has_patch`).
pub fn task_has_patch(status: &str, patch: &Option<String>) -> (r: bool)
    ensures
        r == spec_task_has_patch(status@, crate::text::opt_view(*patch)),
{
    if !pending_status(status) {
        return false;
    }
    match patch {
        Some(p) => p.as_str().unicode_len() > 0,
        None => false,
    }
}

/// What stands for the current overlay when a project has none.
pub open spec fn no_interfaces_text() -> Seq<char> {
    "(no existing interfaces.yml)"@
}

/// The review document of a patch: the current overlay (or a note that
/// there is none) and the proposed patch, each in a YAML block.
pub open spec fn spec_review_diff(current: Option<Seq<char>>, patch: Seq<char>) -> Seq<char> {
    let cur = match current {
        Some(c) => c,
        None => no_interfaces_text(),
    };
    "# AI Patch Review\n\n## Current interfaces.yml\n```yaml\n"@ + cur + "\n```\n\n## Proposed Patch\n```yaml\n"@
        + patch + "\n```\n"@
}

/// The review document of a patch (see `spec_review_diff`).
pub fn review_diff(current: &Option<String>, patch: &str) -> (r: String)
    ensures
        r@ == spec_review_diff(crate::text::opt_view(*current), patch@),
{
    let mut out = String::from_str("# AI Patch Review\n\n## Current interfaces.yml\n```yaml\n");
    match current {
        Some(c) => out.append(c.as_str()),
        None => out.append("(no existing interfaces.yml)"),
    }
    out.append("\n```\n\n## Proposed Patch\n```yaml\n");
    out.append(patch);
    out.append("\n```\n");
    out
}

/// The patch a watcher shows for a suggestion file: the trimmed text between
/// `---CONTENT---` and `---LUNAR_PATCH_END---` when both are there, else the
/// file as it is.
pub open spec fn spec_watch_patch(content: Seq<char>) -> Seq<char> {
    let c = find_spec(content, content_marker());
    if c >= 0 {
        let after = content.skip(c + content_marker().len());
        let e = find_spec(after, end_marker());
        if e >= 0 {
            trim(after.take(e))
        } else {
            content
        }
    } else {
        content
    }
}

/// The patch a watcher shows for a suggestion file (see `spec_watch_patch`).
pub fn watch_patch(content: &str) -> (r: String)
    ensures
        r@ == spec_watch_patch(content@),
{
    proof {
        reveal_strlit("---CONTENT---");
    }
    match find(content, "---CONTENT---") {
        Some(start) => {
            let n = content.unicode_len();
            let after = content.substring_char(start + 13, n);
            assert(after@ =~= content@.skip(start + content_marker().len()));
            match find(after, "---LUNAR_PATCH_END---") {
                Some(end) => {
                    let body = after.substring_char(0, end);
                    assert(body@ =~= after@.take(end as int));
                    String::from_str(trim_str(body))
                },
                None => String::from_str(content),
            }
        },
        None => String::from_str(content),
    }
}

/// Whether a project is named `name`.
pub open spec fn named(name: Seq<char>) -> spec_fn(ProjectMeta) -> bool {
    |p: ProjectMeta| p.name@ == name
}

/// Where a suggestion file of project `own` is merged: the project its patch
/// names (else `own`), at the path of the first project of that name (or
/// `own`'s path when it is `own` or unknown).
pub open spec fn spec_patch_target(projects: Seq<ProjectMeta>, own: ProjectMeta, patch: Seq<char>) -> (
    Seq<char>,
    Seq<char>,
) {
    let name = match spec_project_name(patch) {
        Some(n) => n,
        None => own.name@,
    };
    let i = first_index(projects, named(name));
    let path = if name == own.name@ {
        own.path@
    } else if i >= 0 {
        projects[i].path@
    } else {
        own.path@
    };
    (name, path)
}

/// The project and path a suggested patch is merged into (see `spec_patch_target`).
pub fn patch_target(projects: &Vec<ProjectMeta>, own: &ProjectMeta, patch: &str) -> (r: (String, String))
    ensures
        (r.0@, r.1@) == spec_patch_target(projects@, *own, patch@),
{
    let name = match extract_project_name_from_yaml(patch) {
        Some(n) => n,
        None => own.name.clone(),
    };
    if str_eq(name.as_str(), own.name.as_str()) {
        return (name, own.path.clone());
    }
    let ghost p = named(name@);
    let n = projects.len();
    let mut i: usize = 0;
    while i < n
        invariant
            n == projects@.len(),
            p == named(name@),
            name@ != own.name@,
            name@ == spec_patch_target(projects@, *own, patch@).0,
            i <= n,
            forall|j: int| 0 <= j < i ==> !p(#[trigger] projects@[j]),
        decreases n - i,
    {
        if str_eq(projects[i].name.as_str(), name.as_str()) {
            proof {
                lemma_first_index_at(projects@, p, i as int);
            }
            let path = projects[i].path.clone();
            return (name, path);
        }
        i = i + 1;
    }
    proof {
        lemma_first_index(projects@, p);
        if first_index(projects@, p) >= 0 {
            assert(!p(projects@[first_index(projects@, p)]));
        }
    }
    (name, own.path.clone())
}

/// The files of `current` not in `known` and not seen earlier in `current`,
/// in order.
pub open spec fn new_files(known: Seq<Seq<char>>, current: Seq<Seq<char>>) -> Seq<Seq<char>>
    decreases current.len(),
{
    if current.len() == 0 {
        Seq::empty()
    } else {
        let f = current.last();
        let earlier = current.drop_last();
        if known.contains(f) || earlier.contains(f) {
            new_files(known, earlier)
        } else {
            new_files(known, earlier).push(f)
        }
    }
}

/// Whether a remembered listing is that of `project`.
pub open spec fn listing_of(project: Seq<char>) -> spec_fn((Seq<char>, Seq<Seq<char>>)) -> bool {
    |e: (Seq<char>, Seq<Seq<char>>)| e.0 == project
}

/// The files last listed for `project`, none if it was never listed.
pub open spec fn known_files(state: Seq<(Seq<char>, Seq<Seq<char>>)>, project: Seq<char>) -> Seq<Seq<char>> {
    let i = first_index(state, listing_of(project));
    if i >= 0 {
        state[i].1
    } else {
        Seq::empty()
    }
}

/// The listing of `project` recorded as `files`, replacing an earlier one in place.
pub open spec fn record_listing(state: Seq<(Seq<char>, Seq<Seq<char>>)>, project: Seq<char>, files: Seq<Seq<char>>) -> Seq<
    (Seq<char>, Seq<Seq<char>>),
> {
    let i = first_index(state, listing_of(project));
    if i >= 0 {
        state.update(i, (project, files))
    } else {
        state.push((project, files))
    }
}

/// What a suggestion watcher remembers: the pending files last listed for
/// each project.
pub struct WatchState {
    pub known: Vec<(String, Vec<String>)>,
}

impl View for WatchState {
    type V = Seq<(Seq<char>, Seq<Seq<char>>)>;

    open spec fn view(&self) -> Seq<(Seq<char>, Seq<Seq<char>>)> {
        self.known@.map_values(|e: (String, Vec<String>)| (e.0@, views(e.1@)))
    }
}

fn contains_string(v: &Vec<String>, s: &str) -> (r: bool)
    ensures
        r == views(v@).contains(s@),
{
    let n = v.len();
    let mut i: usize = 0;
    while i < n
        invariant
            n == v@.len(),
            i <= n,
            forall|j: int| 0 <= j < i ==> v@[j]@ != s@,
        decreases n - i,
    {
        if str_eq(v[i].as_str(), s) {
            assert(views(v@)[i as int] == s@);
            return true;
        }
        i = i + 1;
    }
    assert forall|j: int| 0 <= j < views(v@).len() implies views(v@)[j] != s@ by {
        assert(views(v@)[j] == v@[j]@);
    }
    false
}

impl WatchState {
    /// A watcher that has seen nothing yet.
    pub fn new() -> (r: WatchState)
        ensures
            r@ == Seq::<(Seq<char>, Seq<Seq<char>>)>::empty(),
    {
        let r = WatchState { known: Vec::new() };
        assert(r@ =~= Seq::<(Seq<char>, Seq<Seq<char>>)>::empty());
        r
    }

    /// Takes a fresh listing of a project's pending suggestion files: reports
    /// the files not listed before (each once) and remembers the listing.
    pub fn observe(&mut self, project: &str, current: Vec<String>) -> (r: Vec<String>)
        ensures
            views(r@) == new_files(known_files(old(self)@, project@), views(current@)),
            final(self)@ == record_listing(old(self)@, project@, views(current@)),
    {
        let ghost sv = self@;
        let ghost p = listing_of(project@);
        proof {
            lemma_first_index(sv, p);
        }
        let m = self.known.len();
        let mut at: usize = 0;
        let mut found = false;
        while at < m
            invariant_except_break
                !found,
            invariant
                m == self.known@.len(),
                sv == self@,
                self@ == old(self)@,
                p == listing_of(project@),
                at <= m,
                forall|j: int| 0 <= j < at ==> !p(#[trigger] sv[j]),
            ensures
                at <= m,
                sv == self@,
                self@ == old(self)@,
                found ==> at < m && p(sv[at as int]) && forall|j: int| 0 <= j < at ==> !p(#[trigger] sv[j]),
                !found ==> forall|j: int| 0 <= j < m ==> !p(#[trigger] sv[j]),
            decreases m - at,
        {
            assert(sv[at as int] == (self.known@[at as int].0@, views(self.known@[at as int].1@)));
            if str_eq(self.known[at].0.as_str(), project) {
                found = true;
                break;
            }
            at = at + 1;
        }
        proof {
            if found {
                lemma_first_index_at(sv, p, at as int);
            } else {
                lemma_first_index(sv, p);
                if first_index(sv, p) >= 0 {
                    assert(!p(sv[first_index(sv, p)]));
                }
            }
        }
        let ghost known = known_files(sv, project@);
        let ghost cv = views(current@);
        let mut fresh: Vec<String> = Vec::new();
        let n = current.len();
        let mut i: usize = 0;
        while i < n
            invariant
                n == current@.len(),
                cv == views(current@),
                m == self.known@.len(),
                sv == self@,
                found ==> at < m && first_index(sv, p) == at,
                !found ==> first_index(sv, p) == -1,
                p == listing_of(project@),
                known == known_files(sv, project@),
                i <= n,
                views(fresh@) == new_files(known, cv.take(i as int)),
            decreases n - i,
        {
            let ghost before = views(fresh@);
            proof {
                assert(cv.take(i + 1).drop_last() =~= cv.take(i as int));
                assert(cv.take(i + 1).last() == current@[i as int]@);
            }
            let seen_before = if found {
                assert(known == views(self.known@[at as int].1@));
                contains_string(&self.known[at].1, current[i].as_str())
            } else {
                assert(known =~= Seq::<Seq<char>>::empty());
                false
            };
            let mut earlier = false;
            let mut j: usize = 0;
            while j < i
                invariant
                    n == current@.len(),
                    cv == views(current@),
                    j <= i < n,
                    earlier == exists|q: int| 0 <= q < j && cv[q] == cv[i as int],
                decreases i - j,
            {
                assert(cv[j as int] == current@[j as int]@);
                assert(cv[i as int] == current@[i as int]@);
                if str_eq(current[j].as_str(), current[i].as_str()) {
                    earlier = true;
                }
                proof {
                    if exists|q: int| 0 <= q < j + 1 && cv[q] == cv[i as int] {
                        let q = choose|q: int| 0 <= q < j + 1 && cv[q] == cv[i as int];
                        if q < j {
                            assert(exists|q2: int| 0 <= q2 < j && cv[q2] == cv[i as int]);
                        }
                    }
                }
                j = j + 1;
            }
            proof {
                let e = cv.take(i as int);
                if earlier {
                    let q = choose|q: int| 0 <= q < i && cv[q] == cv[i as int];
                    assert(e[q] == cv[i as int]);
                }
                if e.contains(cv[i as int]) {
                    let q = choose|q: int| 0 <= q < e.len() && e[q] == cv[i as int];
                    assert(cv[q] == cv[i as int]);
                }
                assert(earlier == e.contains(cv[i as int]));
            }
            if !seen_before && !earlier {
                fresh.push(current[i].clone());
                assert(views(fresh@) =~= before.push(cv[i as int]));
            }
            i = i + 1;
        }
        assert(cv.take(n as int) =~= cv);
        if found {
            let key = String::from_str(project);
            self.known.set(at, (key, current));
            assert(self@ =~= sv.update(at as int, (project@, cv)));
        } else {
            let key = String::from_str(project);
            self.known.push((key, current));
            assert(self@ =~= sv.push((project@, cv)));
        }
        fresh
    }
}

proof fn lemma_known_after_record(state: Seq<(Seq<char>, Seq<Seq<char>>)>, project: Seq<char>, files: Seq<Seq<char>>)
    ensures
        known_files(record_listing(state, project, files), project) == files,
{
    let p = listing_of(project);
    lemma_first_index(state, p);
    let i = first_index(state, p);
    let next = record_listing(state, project, files);
    if i >= 0 {
        assert forall|j: int| 0 <= j < i implies !p(#[trigger] next[j]) by {
            assert(next[j] == state[j]);
        }
        lemma_first_index_at(next, p, i);
    } else {
        assert forall|j: int| 0 <= j < state.len() implies !p(#[trigger] next[j]) by {
            assert(next[j] == state[j]);
        }
        lemma_first_index_at(next, p, state.len() as int);
    }
}

proof fn lemma_nothing_new(known: Seq<Seq<char>>, current: Seq<Seq<char>>)
    requires
        forall|j: int| 0 <= j < current.len() ==> known.contains(#[trigger] current[j]),
    ensures
        new_files(known, current) == Seq::<Seq<char>>::empty(),
    decreases current.len(),
{
    if current.len() > 0 {
        assert(known.contains(current[current.len() - 1]));
        let e = current.drop_last();
        assert forall|j: int| 0 <= j < e.len() implies known.contains(#[trigger] e[j]) by {
            assert(e[j] == current[j]);
        }
        lemma_nothing_new(known, e);
    }
}

/// A watcher reports a file once: listing the same files again for the
/// same project reports nothing new.
pub proof fn law_relisting_reports_nothing(
    state: Seq<(Seq<char>, Seq<Seq<char>>)>,
    project: Seq<char>,
    files: Seq<Seq<char>>,
)
    ensures
        new_files(known_files(record_listing(state, project, files), project), files) == Seq::<Seq<char>>::empty(),
{
    lemma_known_after_record(state, project, files);
    assert forall|j: int| 0 <= j < files.len() implies files.contains(#[trigger] files[j]) by {}
    lemma_nothing_new(files, files);
}

} // verus!
