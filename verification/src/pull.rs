//! Pulling an AI patch from the local serve: which project and path it
//! targets, the request sent, the body of the reply, the patch it carries,
//! and which handover tasks are archived afterwards.

use vstd::prelude::*;
use crate::text::{find, find_spec, views, opt_view, first_index, lemma_first_index, lemma_first_index_at};
use crate::prompt::{eq_ignore_case, eq_ignore_case_str, decimal, decimal_string, unsigned_text, parse_u16};
use crate::review::{is_pending_status, pending_status};

verus! {

/// The port of the local serve when none is configured.
pub const DEFAULT_SERVE_PORT: u16 = 8787;

/// The serve port: the configured value when it reads as a `u16`, the default otherwise.
pub open spec fn spec_serve_port(configured: Option<Seq<char>>) -> u16 {
    match configured {
        Some(s) => match unsigned_text(s) {
            Some(v) => if v <= u16::MAX {
                v as u16
            } else {
                DEFAULT_SERVE_PORT
            },
            None => DEFAULT_SERVE_PORT,
        },
        None => DEFAULT_SERVE_PORT,
    }
}

/// The serve port from the configured value, if any (see `spec_serve_port`).
pub fn serve_port(configured: &Option<String>) -> (r: u16)
    ensures
        r == spec_serve_port(opt_view(*configured)),
{
    match configured {
        Some(s) => match parse_u16(s.as_str()) {
            Some(v) => v,
            None => DEFAULT_SERVE_PORT,
        },
        None => DEFAULT_SERVE_PORT,
    }
}

/// Whether a map entry (name, path) is named `name`, up to ASCII case.
pub open spec fn entry_named(name: Seq<char>) -> spec_fn((Option<Seq<char>>, Option<Seq<char>>)) -> bool {
    |e: (Option<Seq<char>>, Option<Seq<char>>)| match e.0 {
        Some(n) => eq_ignore_case(n, name),
        None => false,
    }
}

pub open spec fn entry_views(entries: Seq<(Option<String>, Option<String>)>) -> Seq<(Option<Seq<char>>, Option<Seq<char>>)> {
    entries.map_values(|e: (Option<String>, Option<String>)| (opt_view(e.0), opt_view(e.1)))
}

/// The path of the first map project named `name` up to ASCII case; none
/// when there is no such project or it has no path.
pub open spec fn spec_project_path(entries: Seq<(Option<Seq<char>>, Option<Seq<char>>)>, name: Seq<char>) -> Option<
    Seq<char>,
> {
    let i = first_index(entries, entry_named(name));
    if i >= 0 {
        entries[i].1
    } else {
        None
    }
}

/// Where the map puts project `name` (see `spec_project_path`).
pub fn project_path(entries: &Vec<(Option<String>, Option<String>)>, name: &str) -> (r: Option<String>)
    ensures
        opt_view(r) == spec_project_path(entry_views(entries@), name@),
{
    let ghost ev = entry_views(entries@);
    let ghost p = entry_named(name@);
    let n = entries.len();
    let mut i: usize = 0;
    while i < n
        invariant
            n == entries@.len(),
            ev == entry_views(entries@),
            p == entry_named(name@),
            i <= n,
            forall|j: int| 0 <= j < i ==> !p(#[trigger] ev[j]),
        decreases n - i,
    {
        assert(ev[i as int] == (opt_view(entries@[i as int].0), opt_view(entries@[i as int].1)));
        let hit = match &entries[i].0 {
            Some(n) => eq_ignore_case_str(n.as_str(), name),
            None => false,
        };
        if hit {
            proof {
                lemma_first_index_at(ev, p, i as int);
            }
            return crate::text::copy_opt(&entries[i].1);
        }
        i = i + 1;
    }
    proof {
        lemma_first_index(ev, p);
        if first_index(ev, p) >= 0 {
            assert(!p(ev[first_index(ev, p)]));
        }
    }
    None
}

/// The HTTP request for a project's handover board on the local serve.
pub open spec fn spec_todo_request(project: Seq<char>, port: u16) -> Seq<char> {
    "GET /api/v1/projects/"@ + project + "/todo HTTP/1.1\r\nHost: 127.0.0.1:"@ + decimal(port as nat)
        + "\r\nAccept: application/json\r\nConnection: close\r\n\r\n"@
}

/// The HTTP request for a project's handover board (see `spec_todo_request`).
pub fn todo_request(project: &str, port: u16) -> (r: String)
    ensures
        r@ == spec_todo_request(project@, port),
{
    let mut out = String::from_str("GET /api/v1/projects/");
    out.append(project);
    out.append("/todo HTTP/1.1\r\nHost: 127.0.0.1:");
    let p = decimal_string(port as u64);
    out.append(p.as_str());
    out.append("\r\nAccept: application/json\r\nConnection: close\r\n\r\n");
    out
}

pub open spec fn header_end() -> Seq<char> {
    "\r\n\r\n"@
}

/// The body of an HTTP reply: the second piece when the reply is split at
/// every blank line, so the text after the first blank line up to the
/// next, if any; none without a blank line.
pub open spec fn spec_response_body(response: Seq<char>) -> Option<Seq<char>> {
    let a = find_spec(response, header_end());
    if a >= 0 {
        let rest = response.skip(a + 4);
        let b = find_spec(rest, header_end());
        if b >= 0 {
            Some(rest.take(b))
        } else {
            Some(rest)
        }
    } else {
        None
    }
}

/// The body of an HTTP reply (see `spec_response_body`).
pub fn response_body(response: &str) -> (r: Option<String>)
    ensures
        opt_view(r) == spec_response_body(response@),
{
    proof {
        reveal_strlit("\r\n\r\n");
    }
    match find(response, "\r\n\r\n") {
        Some(a) => {
            let n = response.unicode_len();
            let rest = response.substring_char(a + 4, n);
            assert(rest@ =~= response@.skip(a + 4));
            match find(rest, "\r\n\r\n") {
                Some(b) => {
                    let body = rest.substring_char(0, b);
                    assert(body@ =~= rest@.take(b as int));
                    Some(String::from_str(body))
                },
                None => Some(String::from_str(rest)),
            }
        },
        None => None,
    }
}

/// The patch of the first task on the board, when there is a task list
/// and its first task has a patch.
pub open spec fn spec_first_patch(tasks: Option<Seq<Option<Seq<char>>>>) -> Option<Seq<char>> {
    match tasks {
        Some(t) => if t.len() > 0 {
            t[0]
        } else {
            None
        },
        None => None,
    }
}

pub open spec fn opt_patches(tasks: Option<Vec<Option<String>>>) -> Option<Seq<Option<Seq<char>>>> {
    match tasks {
        Some(t) => Some(t@.map_values(|p: Option<String>| opt_view(p))),
        None => None,
    }
}

/// The patch of the first task (see `spec_first_patch`).
pub fn first_patch(tasks: &Option<Vec<Option<String>>>) -> (r: Option<String>)
    ensures
        opt_view(r) == spec_first_patch(opt_patches(*tasks)),
{
    match tasks {
        Some(t) => {
            if t.len() > 0 {
                crate::text::copy_opt(&t[0])
            } else {
                None
            }
        },
        None => None,
    }
}

/// The positions of the tasks whose status is not pending, in order.
pub open spec fn kept_positions(statuses: Seq<Seq<char>>) -> Seq<int>
    decreases statuses.len(),
{
    if statuses.len() == 0 {
        Seq::empty()
    } else {
        let rest = kept_positions(statuses.drop_last());
        if is_pending_status(statuses.last()) {
            rest
        } else {
            rest.push(statuses.len() - 1)
        }
    }
}

/// The positions of the tasks whose status is pending, in order.
pub open spec fn archived_positions(statuses: Seq<Seq<char>>) -> Seq<int>
    decreases statuses.len(),
{
    if statuses.len() == 0 {
        Seq::empty()
    } else {
        let rest = archived_positions(statuses.drop_last());
        if is_pending_status(statuses.last()) {
            rest.push(statuses.len() - 1)
        } else {
            rest
        }
    }
}

pub open spec fn positions(v: Seq<usize>) -> Seq<int> {
    v.map_values(|i: usize| i as int)
}

/// After a patch is merged, the board keeps the tasks that are not pending
/// and archives the pending ones (marked completed), each in order: the
/// positions of both, given each task's status (empty when it has none).
pub fn partition_tasks(statuses: &Vec<String>) -> (r: (Vec<usize>, Vec<usize>))
    ensures
        positions(r.0@) == kept_positions(views(statuses@)),
        positions(r.1@) == archived_positions(views(statuses@)),
{
    let ghost sv = views(statuses@);
    let mut kept: Vec<usize> = Vec::new();
    let mut archived: Vec<usize> = Vec::new();
    let n = statuses.len();
    let mut i: usize = 0;
    while i < n
        invariant
            n == statuses@.len(),
            sv == views(statuses@),
            i <= n,
            positions(kept@) == kept_positions(sv.take(i as int)),
            positions(archived@) == archived_positions(sv.take(i as int)),
        decreases n - i,
    {
        proof {
            assert(sv.take(i + 1).drop_last() =~= sv.take(i as int));
            assert(sv.take(i + 1).last() == statuses@[i as int]@);
        }
        let ghost k0 = positions(kept@);
        let ghost a0 = positions(archived@);
        if pending_status(statuses[i].as_str()) {
            archived.push(i);
            assert(positions(archived@) =~= a0.push(i as int));
        } else {
            kept.push(i);
            assert(positions(kept@) =~= k0.push(i as int));
        }
        i = i + 1;
    }
    assert(sv.take(n as int) =~= sv);
    (kept, archived)
}


proof fn lemma_positions(statuses: Seq<Seq<char>>)
    ensures
        kept_positions(statuses).len() + archived_positions(statuses).len() == statuses.len(),
        forall|k: int| 0 <= k < kept_positions(statuses).len() ==> 0 <= #[trigger] kept_positions(statuses)[k] < statuses.len(),
        forall|k: int| 0 <= k < archived_positions(statuses).len() ==> 0 <= #[trigger] archived_positions(statuses)[k] < statuses.len(),
        forall|i: int| 0 <= i < statuses.len() ==> (kept_positions(statuses).contains(i) <==> !is_pending_status(#[trigger] statuses[i])),
        forall|i: int| 0 <= i < statuses.len() ==> (archived_positions(statuses).contains(i) <==> is_pending_status(#[trigger] statuses[i])),
    decreases statuses.len(),
{
    if statuses.len() > 0 {
        let s0 = statuses.drop_last();
        let n = statuses.len();
        lemma_positions(s0);
        let k0 = kept_positions(s0);
        let a0 = archived_positions(s0);
        let k = kept_positions(statuses);
        let a = archived_positions(statuses);
        assert forall|i: int| 0 <= i < n implies (k.contains(i) <==> !is_pending_status(#[trigger] statuses[i])) by {
            if i < n - 1 {
                assert(statuses[i] == s0[i]);
                if k0.contains(i) {
                    let q = choose|q: int| 0 <= q < k0.len() && k0[q] == i;
                    assert(k[q] == i);
                }
                if k.contains(i) {
                    let q = choose|q: int| 0 <= q < k.len() && k[q] == i;
                    if q < k0.len() {
                        assert(k0[q] == i);
                    }
                }
            } else {
                if k.contains(i) {
                    let q = choose|q: int| 0 <= q < k.len() && k[q] == i;
                    if q < k0.len() {
                        assert(k0[q] < n - 1);
                    }
                }
                if !is_pending_status(statuses[i]) {
                    assert(k[k0.len() as int] == i);
                }
            }
        }
        assert forall|i: int| 0 <= i < n implies (a.contains(i) <==> is_pending_status(#[trigger] statuses[i])) by {
            if i < n - 1 {
                assert(statuses[i] == s0[i]);
                if a0.contains(i) {
                    let q = choose|q: int| 0 <= q < a0.len() && a0[q] == i;
                    assert(a[q] == i);
                }
                if a.contains(i) {
                    let q = choose|q: int| 0 <= q < a.len() && a[q] == i;
                    if q < a0.len() {
                        assert(a0[q] == i);
                    }
                }
            } else {
                if a.contains(i) {
                    let q = choose|q: int| 0 <= q < a.len() && a[q] == i;
                    if q < a0.len() {
                        assert(a0[q] < n - 1);
                    }
                }
                if is_pending_status(statuses[i]) {
                    assert(a[a0.len() as int] == i);
                }
            }
        }
        assert forall|q: int| 0 <= q < k.len() implies 0 <= #[trigger] k[q] < n by {
            if q < k0.len() {
                assert(k[q] == k0[q]);
            }
        }
        assert forall|q: int| 0 <= q < a.len() implies 0 <= #[trigger] a[q] < n by {
            if q < a0.len() {
                assert(a[q] == a0[q]);
            }
        }
    }
}

/// After a merge every task is either kept (it was not pending) or
/// archived (it was pending), never both, and none is lost.
pub proof fn law_tasks_partitioned(statuses: Seq<Seq<char>>)
    ensures
        kept_positions(statuses).len() + archived_positions(statuses).len() == statuses.len(),
        forall|i: int| 0 <= i < statuses.len() ==> (kept_positions(statuses).contains(i) <==> !is_pending_status(#[trigger] statuses[i])),
        forall|i: int| 0 <= i < statuses.len() ==> (archived_positions(statuses).contains(i) <==> is_pending_status(#[trigger] statuses[i])),
{
    lemma_positions(statuses);
}

} // verus!
