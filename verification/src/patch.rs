//! Contract patches as AI agents hand them over: framing, target project and
//! which suggestion files still wait for review.

use vstd::prelude::*;
use crate::text::{
    find, find_spec, trim, trim_str, lines, lines_of, occurs_at, starts_with, ends_with, views,
    first_index, lemma_first_index, lemma_first_index_at, str_eq, opt_view,
};
use crate::interfaces::{
    InterfacesYml, ItemView, opt_items, merge_section, override_field, apply_patch, new_overlay,
};

verus! {

pub open spec fn content_marker() -> Seq<char> {
    "---CONTENT---"@
}

pub open spec fn end_marker() -> Seq<char> {
    "---LUNAR_PATCH_END---"@
}

/// The YAML of a framed patch: the text between `---CONTENT---` and
/// `---LUNAR_PATCH_END---` (or the end), trimmed; unframed text is trimmed whole.
pub open spec fn spec_patch_content(raw: Seq<char>) -> Seq<char> {
    let c = find_spec(raw, content_marker());
    if c >= 0 {
        let after = raw.skip(c + content_marker().len());
        let e = find_spec(after, end_marker());
        if e >= 0 {
            trim(after.take(e))
        } else {
            trim(after)
        }
    } else {
        trim(raw)
    }
}

/// Extracts the YAML body of a patch (see `spec_patch_content`).
pub fn extract_patch_content(raw: &str) -> (r: String)
    ensures
        r@ == spec_patch_content(raw@),
{
    proof {
        reveal_strlit("---CONTENT---");
    }
    match find(raw, "---CONTENT---") {
        Some(start) => {
            let n = raw.unicode_len();
            let after = raw.substring_char(start + 13, n);
            assert(after@ =~= raw@.skip(start + content_marker().len()));
            match find(after, "---LUNAR_PATCH_END---") {
                Some(end) => {
                    let body = after.substring_char(0, end);
                    assert(body@ =~= after@.take(end as int));
                    String::from_str(trim_str(body))
                },
                None => String::from_str(trim_str(after)),
            }
        },
        None => String::from_str(trim_str(raw)),
    }
}

/// The project a line names as `project: <name>`, if any.
pub open spec fn line_project(line: Seq<char>) -> Option<Seq<char>> {
    let t = trim(line);
    if occurs_at(t, "project:"@, 0) && trim(t.skip(8)).len() > 0 {
        Some(trim(t.skip(8)))
    } else {
        None
    }
}

pub open spec fn names_project(line: Seq<char>) -> bool {
    line_project(line) is Some
}

/// The project named by the first `project: <name>` line with a non-empty name.
pub open spec fn spec_project_name(yaml: Seq<char>) -> Option<Seq<char>> {
    let ls = lines(yaml);
    let i = first_index(ls, |l: Seq<char>| names_project(l));
    if i >= 0 {
        line_project(ls[i])
    } else {
        None
    }
}

fn project_of_line(line: &str) -> (r: Option<String>)
    ensures
        match r {
            Some(n) => line_project(line@) == Some(n@),
            None => line_project(line@) is None,
        },
{
    proof {
        reveal_strlit("project:");
    }
    let t = trim_str(line);
    if starts_with(t, "project:") {
        let n = t.unicode_len();
        let rest = t.substring_char(8, n);
        assert(rest@ =~= t@.skip(8));
        let name = trim_str(rest);
        if name.unicode_len() > 0 {
            return Some(String::from_str(name));
        }
    }
    None
}

/// The target project a patch names in its first non-empty `project:` line.
pub fn extract_project_name_from_yaml(yaml: &str) -> (r: Option<String>)
    ensures
        match r {
            Some(n) => spec_project_name(yaml@) == Some(n@),
            None => spec_project_name(yaml@) is None,
        },
{
    let ls = lines_of(yaml);
    let ghost lv = views(ls@);
    let ghost pred = |l: Seq<char>| names_project(l);
    let n = ls.len();
    let mut i: usize = 0;
    while i < n
        invariant
            n == ls@.len(),
            lv == views(ls@),
            lv == lines(yaml@),
            pred == (|l: Seq<char>| names_project(l)),
            i <= n,
            forall|j: int| 0 <= j < i ==> !pred(#[trigger] lv[j]),
        decreases n - i,
    {
        assert(lv[i as int] == ls@[i as int]@);
        match project_of_line(ls[i].as_str()) {
            Some(name) => {
                proof {
                    lemma_first_index_at(lv, pred, i as int);
                }
                return Some(name);
            },
            None => {},
        }
        i = i + 1;
    }
    proof {
        lemma_first_index(lv, pred);
        if first_index(lv, pred) >= 0 {
            assert(!pred(lv[first_index(lv, pred)]));
        }
    }
    None
}

/// What merging patch `p` into the workspace's overlay gives: the overlay is
/// the current one, or a new one with an empty exposed section where none
/// exists yet; sections merge with partial field override, and the patch's
/// project and project type replace the overlay's when given.
pub open spec fn patched_overlay(current: Option<InterfacesYml>, p: InterfacesYml, out: InterfacesYml) -> bool {
    let exposed = match current {
        Some(c) => opt_items(c.exposed),
        None => Some(Seq::<ItemView>::empty()),
    };
    let consumed = match current {
        Some(c) => opt_items(c.consumed),
        None => None,
    };
    let project = match current {
        Some(c) => opt_view(c.project),
        None => None,
    };
    let project_type = match current {
        Some(c) => opt_view(c.project_type),
        None => None,
    };
    let environment = match current {
        Some(c) => opt_view(c.environment),
        None => None,
    };
    &&& opt_items(out.exposed) == merge_section(exposed, opt_items(p.exposed))
    &&& opt_items(out.consumed) == merge_section(consumed, opt_items(p.consumed))
    &&& opt_view(out.project) == override_field(project, opt_view(p.project))
    &&& opt_view(out.project_type) == override_field(project_type, opt_view(p.project_type))
    &&& opt_view(out.environment) == environment
}

pub open spec fn invalid_patch_message(e: Seq<char>) -> Seq<char> {
    "Invalid YAML patch: "@ + e
}

/// Applies a patch read from a file or standard input to the workspace's
/// overlay (`current`, absent where no `interfaces.yml` exists). `parsed` is
/// the patch text as parsed: a patch that did not parse is refused with
/// `Invalid YAML patch: <error>`; a parsed one gives the merged overlay.
pub fn patch_cmd(current: Option<InterfacesYml>, parsed: Result<InterfacesYml, String>) -> (r: Result<
    InterfacesYml,
    String,
>)
    ensures
        match parsed {
            Err(e) => r is Err && r->Err_0@ == invalid_patch_message(e@),
            Ok(p) => r is Ok && patched_overlay(current, p, r->Ok_0),
        },
{
    match parsed {
        Err(e) => {
            let mut msg = String::from_str("Invalid YAML patch: ");
            msg.append(e.as_str());
            Err(msg)
        },
        Ok(p) => {
            let mut overlay = match current {
                Some(c) => c,
                None => new_overlay(),
            };
            apply_patch(&mut overlay, &p);
            Ok(overlay)
        },
    }
}

/// The index of the last `c` in `s`, or -1.
pub open spec fn last_index_of(s: Seq<char>, c: char) -> int
    decreases s.len(),
{
    if s.len() == 0 {
        -1
    } else if s.last() == c {
        s.len() - 1
    } else {
        last_index_of(s.drop_last(), c)
    }
}

/// The extension of a file name, as `Path::extension` gives it: the text after
/// the last `.`, unless there is none, the only one starts the name, or the
/// name is `..`.
pub open spec fn spec_extension(name: Seq<char>) -> Option<Seq<char>> {
    let d = last_index_of(name, '.');
    if name == ".."@ || d <= 0 {
        None
    } else {
        Some(name.skip(d + 1))
    }
}

proof fn lemma_last_index_of(s: Seq<char>, c: char, i: int)
    requires
        -1 <= i < s.len(),
        i >= 0 ==> s[i] == c,
        forall|j: int| i < j < s.len() ==> s[j] != c,
    ensures
        last_index_of(s, c) == i,
    decreases s.len(),
{
    if s.len() > 0 && i < s.len() - 1 {
        lemma_last_index_of(s.drop_last(), c, i);
    }
}

/// The extension of a file name (see `spec_extension`).
pub fn extension(name: &str) -> (r: Option<String>)
    ensures
        opt_view(r) == spec_extension(name@),
{
    if str_eq(name, "..") {
        return None;
    }
    let n = name.unicode_len();
    let mut i: usize = n;
    while i > 0 && name.get_char(i - 1) != '.'
        invariant
            n == name@.len(),
            i <= n,
            forall|j: int| i <= j < n ==> name@[j] != '.',
        decreases i,
    {
        i = i - 1;
    }
    proof {
        lemma_last_index_of(name@, '.', i - 1);
    }
    if i <= 1 {
        None
    } else {
        let ext = name.substring_char(i, n);
        assert(ext@ =~= name@.skip(i as int));
        Some(String::from_str(ext))
    }
}

/// A suggestion file still waiting for review: a `.yaml` or `.yml` file that
/// is not marked applied, failed, or a generated diff.
pub open spec fn spec_is_pending_patch(name: Seq<char>) -> bool {
    let ext = spec_extension(name);
    &&& (ext == Some("yaml"@) || ext == Some("yml"@))
    &&& name.len() > 0
    &&& !(".applied"@.len() <= name.len() && occurs_at(name, ".applied"@, name.len() - ".applied"@.len()))
    &&& !(".failed"@.len() <= name.len() && occurs_at(name, ".failed"@, name.len() - ".failed"@.len()))
    &&& !(".diff"@.len() <= name.len() && occurs_at(name, ".diff"@, name.len() - ".diff"@.len()))
}

/// Whether a suggestion file still waits for review (see `spec_is_pending_patch`).
pub fn is_pending_patch(file_name: &str) -> (r: bool)
    ensures
        r == spec_is_pending_patch(file_name@),
{
    let ext_ok = match extension(file_name) {
        Some(e) => str_eq(e.as_str(), "yaml") || str_eq(e.as_str(), "yml"),
        None => false,
    };
    ext_ok && file_name.unicode_len() > 0 && !ends_with(file_name, ".applied") && !ends_with(file_name, ".failed")
        && !ends_with(file_name, ".diff")
}

/// How many of the given suggestion file names still wait for review.
pub fn count_pending_patches(file_names: &Vec<String>) -> (r: usize)
    ensures
        r == views(file_names@).filter(|n: Seq<char>| spec_is_pending_patch(n)).len(),
{
    let ghost fv = views(file_names@);
    let ghost pred = |n: Seq<char>| spec_is_pending_patch(n);
    let mut count: usize = 0;
    let n = file_names.len();
    let mut i: usize = 0;
    while i < n
        invariant
            n == file_names@.len(),
            fv == views(file_names@),
            pred == (|n: Seq<char>| spec_is_pending_patch(n)),
            i <= n,
            count == fv.take(i as int).filter(pred).len(),
            count <= i,
        decreases n - i,
    {
        proof {
            let t = fv.take(i + 1);
            assert(t.drop_last() =~= fv.take(i as int));
            assert(t.last() == file_names@[i as int]@);
            reveal_with_fuel(Seq::filter, 1);
        }
        if is_pending_patch(file_names[i].as_str()) {
            count = count + 1;
        }
        i = i + 1;
    }
    assert(fv.take(n as int) =~= fv);
    count
}

/// Whether a file name has the `yaml` or `yml` extension.
pub fn is_yaml_name(file_name: &str) -> (r: bool)
    ensures
        r == (spec_extension(file_name@) == Some("yaml"@) || spec_extension(file_name@) == Some("yml"@)),
{
    match extension(file_name) {
        Some(e) => str_eq(e.as_str(), "yaml") || str_eq(e.as_str(), "yml"),
        None => false,
    }
}

} // verus!
