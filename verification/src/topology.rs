//! The ecosystem topology map: which consumer calls line up with which
//! provider routes, aggregated per project pair, plus anomalies.

use vstd::prelude::*;
use crate::text::{
    str_eq, copy_opt, opt_view, first_index, lemma_first_index, lemma_first_index_at, lookup,
    pair_views, lookup_value, views, distinct_keys,
};
use crate::route::{
    RouteEntry, RouteView, compare_routes, DiffResult, aligned_names, route_well_formed,
    structural_id_of, path_of, route_views, min_len, lemma_aligned_names_agree, lemma_aligned_names_differ,
};
use crate::interfaces::{ActualJson, ActualView, actual_well_formed};

verus! {

/// One project's facts under its name.
pub open spec fn project_views(ps: Seq<(String, ActualJson)>) -> Seq<(Seq<char>, ActualView)> {
    ps.map_values(|p: (String, ActualJson)| (p.0@, p.1@))
}

/// Every project's routes can be rendered.
pub open spec fn projects_well_formed(ps: Seq<(Seq<char>, ActualView)>) -> bool {
    forall|i: int| 0 <= i < ps.len() ==> #[trigger] actual_well_formed(ps[i].1)
}

/// A scan status that makes alignments against a project unverifiable.
pub open spec fn scan_unreliable(s: Option<Seq<char>>) -> bool {
    s == Some("failed"@) || s == Some("stale"@)
}

/// The project a consumed route names, or the empty string.
pub open spec fn target_of(c: RouteView) -> Seq<char> {
    match c.target_project {
        Some(t) => t,
        None => Seq::empty(),
    }
}

pub open spec fn has_sid_view(sid: Seq<char>) -> spec_fn(RouteView) -> bool {
    |r: RouteView| structural_id_of(r.segments) == sid
}

/// A project that may serve a consumed route: not the client itself, the
/// named target if there is one, and exposing a route of the same structure.
pub open spec fn serves(client: Seq<char>, target: Seq<char>, sid: Seq<char>) -> spec_fn((Seq<char>, ActualView)) -> bool {
    |p: (Seq<char>, ActualView)|
        p.0 != client && (target.len() == 0 || target == p.0) && first_index(p.1.exposed, has_sid_view(sid)) >= 0
}

/// Status of a consumed route against the provider route it lines up with.
pub open spec fn diff_status(c: RouteView, s: RouteView) -> Seq<char> {
    if c.method != s.method {
        "MethodMismatch"@
    } else if aligned_names(c.segments, s.segments) != aligned_names(s.segments, c.segments) {
        "ParamNameMismatch"@
    } else {
        "Aligned"@
    }
}

pub open spec fn unverified() -> (Seq<char>, Option<Seq<char>>) {
    ("Unverified"@, Some("Server project scan failed or stale"@))
}

/// How a consumed route of `client` aligns: `Unverified` when the provider's
/// scan failed or is stale; otherwise the comparison with the first structurally
/// equal route of the first project that may serve it; `Orphaned` when a named
/// target serves nothing; empty when no target is named and nothing serves it.
pub open spec fn spec_align(
    c: RouteView,
    client: Seq<char>,
    projects: Seq<(Seq<char>, ActualView)>,
    statuses: Seq<(Seq<char>, Seq<char>)>,
) -> (Seq<char>, Option<Seq<char>>) {
    let target = target_of(c);
    let sid = structural_id_of(c.segments);
    if target.len() > 0 && scan_unreliable(lookup(statuses, target)) {
        unverified()
    } else {
        let i = first_index(projects, serves(client, target, sid));
        if i >= 0 {
            let server = projects[i];
            let route = server.1.exposed[first_index(server.1.exposed, has_sid_view(sid))];
            if scan_unreliable(lookup(statuses, server.0)) {
                unverified()
            } else {
                (diff_status(c, route), None)
            }
        } else if target.len() == 0 {
            (Seq::empty(), None)
        } else {
            ("Orphaned"@, None)
        }
    }
}

fn is_unreliable(status: Option<&String>) -> (r: bool)
    ensures
        r == scan_unreliable(match status {
            Some(s) => Some(s@),
            None => None,
        }),
{
    match status {
        Some(s) => str_eq(s.as_str(), "failed") || str_eq(s.as_str(), "stale"),
        None => false,
    }
}

fn unverified_result() -> (r: (String, Option<String>))
    ensures
        (r.0@, opt_view(r.1)) == unverified(),
{
    (String::from_str("Unverified"), Some(String::from_str("Server project scan failed or stale")))
}

/// The first exposed route with structural identity `sid`.
fn find_by_sid(routes: &Vec<RouteEntry>, sid: &str) -> (r: Option<usize>)
    ensures
        match r {
            Some(k) => k as int == first_index(route_views(routes@), has_sid_view(sid@)),
            None => first_index(route_views(routes@), has_sid_view(sid@)) == -1,
        },
{
    let ghost rv = route_views(routes@);
    let ghost p = has_sid_view(sid@);
    let n = routes.len();
    let mut i: usize = 0;
    while i < n
        invariant
            n == routes@.len(),
            rv == route_views(routes@),
            p == has_sid_view(sid@),
            i <= n,
            forall|j: int| 0 <= j < i ==> !p(#[trigger] rv[j]),
        decreases n - i,
    {
        assert(rv[i as int] == routes@[i as int]@);
        let id = routes[i].structural_id();
        if str_eq(id.as_str(), sid) {
            proof {
                lemma_first_index_at(rv, p, i as int);
            }
            return Some(i);
        }
        i = i + 1;
    }
    proof {
        lemma_first_index(rv, p);
        if first_index(rv, p) >= 0 {
            assert(!p(rv[first_index(rv, p)]));
        }
    }
    None
}

/// Aligns one consumed route of `client_name` against the other projects.
pub fn align_consumed_route(
    consumed: &RouteEntry,
    client_name: &str,
    project_map: &Vec<(String, ActualJson)>,
    scan_status_map: &Vec<(String, String)>,
) -> (r: (String, Option<String>))
    ensures
        (r.0@, opt_view(r.1)) == spec_align(
            consumed@,
            client_name@,
            project_views(project_map@),
            pair_views(scan_status_map@),
        ),
{
    let ghost projects = project_views(project_map@);
    let ghost statuses = pair_views(scan_status_map@);
    let empty = String::new();
    let target: &String = match &consumed.target_project {
        Some(t) => t,
        None => &empty,
    };
    assert(target@ == target_of(consumed@));
    let target_len = target.as_str().unicode_len();
    if target_len > 0 && is_unreliable(lookup_value(scan_status_map, target.as_str())) {
        return unverified_result();
    }
    let sid = consumed.structural_id();
    let ghost p = serves(client_name@, target@, sid@);
    let n = project_map.len();
    let mut i: usize = 0;
    while i < n
        invariant
            n == project_map@.len(),
            projects == project_views(project_map@),
            statuses == pair_views(scan_status_map@),
            p == serves(client_name@, target@, sid@),
            sid@ == structural_id_of(consumed@.segments),
            target@ == target_of(consumed@),
            target_len == target@.len(),
            !(target@.len() > 0 && scan_unreliable(lookup(statuses, target@))),
            i <= n,
            forall|j: int| 0 <= j < i ==> !p(#[trigger] projects[j]),
        decreases n - i,
    {
        let server_name = &project_map[i].0;
        let server_actual = &project_map[i].1;
        assert(projects[i as int] == (server_name@, server_actual@));
        if str_eq(server_name.as_str(), client_name) {
            i = i + 1;
            continue;
        }
        if target_len > 0 && !str_eq(target.as_str(), server_name.as_str()) {
            i = i + 1;
            continue;
        }
        match find_by_sid(&server_actual.exposed, sid.as_str()) {
            Some(k) => {
                proof {
                    lemma_first_index_at(projects, p, i as int);
                    lemma_first_index(server_actual@.exposed, has_sid_view(sid@));
                }
                let server_route = &server_actual.exposed[k];
                assert(server_actual@.exposed[k as int] == server_route@);
                let result = compare_routes(consumed, server_route);
                let status = match result {
                    DiffResult::Unchanged => String::from_str("Aligned"),
                    DiffResult::ParamNamesChanged { .. } => String::from_str("ParamNameMismatch"),
                    DiffResult::MethodChanged { .. } => String::from_str("MethodMismatch"),
                    _ => String::from_str("Aligned"),
                };
                if is_unreliable(lookup_value(scan_status_map, server_name.as_str())) {
                    return unverified_result();
                }
                return (status, None);
            },
            None => {},
        }
        i = i + 1;
    }
    proof {
        lemma_first_index(projects, p);
        if first_index(projects, p) >= 0 {
            assert(!p(projects[first_index(projects, p)]));
        }
    }
    if target_len == 0 {
        (String::new(), None)
    } else {
        (String::from_str("Orphaned"), None)
    }
}

} // verus!

verus! {

/// A consumer call and how it lines up with a provider.
#[derive(Debug)]
pub struct AlignmentEntry {
    pub client_project: String,
    pub server_project: String,
    pub path: String,
    pub method: String,
    pub status: String,
    pub warning: Option<String>,
}

#[verifier::ext_equal]
pub struct AlignmentView {
    pub client: Seq<char>,
    pub server: Seq<char>,
    pub path: Seq<char>,
    pub method: Seq<char>,
    pub status: Seq<char>,
    pub warning: Option<Seq<char>>,
}

impl View for AlignmentEntry {
    type V = AlignmentView;

    open spec fn view(&self) -> AlignmentView {
        AlignmentView {
            client: self.client_project@,
            server: self.server_project@,
            path: self.path@,
            method: self.method@,
            status: self.status@,
            warning: opt_view(self.warning),
        }
    }
}

pub open spec fn alignment_views(s: Seq<AlignmentEntry>) -> Seq<AlignmentView> {
    s.map_values(|a: AlignmentEntry| a@)
}

/// The alignment entry recorded for a consumed route of `client`.
pub open spec fn alignment_for(client: Seq<char>, c: RouteView, res: (Seq<char>, Option<Seq<char>>)) -> AlignmentView {
    AlignmentView {
        client: client,
        server: match c.target_project {
            Some(t) => t,
            None => "unknown"@,
        },
        path: path_of(c.segments),
        method: c.method,
        status: res.0,
        warning: res.1,
    }
}

/// Alignments of a client's consumed routes, in order, leaving out those
/// nothing serves and that name no target.
pub open spec fn consumer_alignments(
    client: Seq<char>,
    consumed: Seq<RouteView>,
    projects: Seq<(Seq<char>, ActualView)>,
    statuses: Seq<(Seq<char>, Seq<char>)>,
) -> Seq<AlignmentView>
    decreases consumed.len(),
{
    if consumed.len() == 0 {
        Seq::empty()
    } else {
        let prev = consumer_alignments(client, consumed.drop_last(), projects, statuses);
        let res = spec_align(consumed.last(), client, projects, statuses);
        if res.0.len() == 0 {
            prev
        } else {
            prev.push(alignment_for(client, consumed.last(), res))
        }
    }
}

/// Alignments of every client in `clients`, client after client.
pub open spec fn alignments_of(
    clients: Seq<(Seq<char>, ActualView)>,
    projects: Seq<(Seq<char>, ActualView)>,
    statuses: Seq<(Seq<char>, Seq<char>)>,
) -> Seq<AlignmentView>
    decreases clients.len(),
{
    if clients.len() == 0 {
        Seq::empty()
    } else {
        alignments_of(clients.drop_last(), projects, statuses) + consumer_alignments(
            clients.last().0,
            clients.last().1.consumed,
            projects,
            statuses,
        )
    }
}

/// All alignments of the ecosystem.
pub open spec fn spec_alignments(
    projects: Seq<(Seq<char>, ActualView)>,
    statuses: Seq<(Seq<char>, Seq<char>)>,
) -> Seq<AlignmentView> {
    alignments_of(projects, projects, statuses)
}

/// Aligns every consumed route of every project (see `spec_alignments`).
pub fn compute_alignments(
    project_actuals: &Vec<(String, ActualJson)>,
    scan_statuses: &Vec<(String, String)>,
) -> (r: Vec<AlignmentEntry>)
    requires
        projects_well_formed(project_views(project_actuals@)),
    ensures
        alignment_views(r@) == spec_alignments(project_views(project_actuals@), pair_views(scan_statuses@)),
{
    let ghost projects = project_views(project_actuals@);
    let ghost statuses = pair_views(scan_statuses@);
    let mut out: Vec<AlignmentEntry> = Vec::new();
    let n = project_actuals.len();
    let mut i: usize = 0;
    while i < n
        invariant
            n == project_actuals@.len(),
            projects == project_views(project_actuals@),
            statuses == pair_views(scan_statuses@),
            projects_well_formed(projects),
            i <= n,
            alignment_views(out@) == alignments_of(projects.take(i as int), projects, statuses),
        decreases n - i,
    {
        let client_name = &project_actuals[i].0;
        let actual = &project_actuals[i].1;
        assert(projects[i as int] == (client_name@, actual@));
        assert(actual_well_formed(projects[i as int].1));
        let ghost base = alignment_views(out@);
        let m = actual.consumed.len();
        let mut j: usize = 0;
        while j < m
            invariant
                m == actual.consumed@.len(),
                projects == project_views(project_actuals@),
                statuses == pair_views(scan_statuses@),
                actual_well_formed(actual@),
                j <= m,
                alignment_views(out@) == base + consumer_alignments(
                    client_name@,
                    actual@.consumed.take(j as int),
                    projects,
                    statuses,
                ),
            decreases m - j,
        {
            let consumed = &actual.consumed[j];
            assert(actual@.consumed[j as int] == consumed@);
            proof {
                let t = actual@.consumed.take(j + 1);
                assert(t.drop_last() =~= actual@.consumed.take(j as int));
                assert(t.last() == consumed@);
            }
            let (status, warning) = align_consumed_route(consumed, client_name.as_str(), project_actuals, scan_statuses);
            if status.as_str().unicode_len() > 0 {
                assert(route_well_formed(actual@.consumed[j as int]));
                let server = match &consumed.target_project {
                    Some(t) => t.clone(),
                    None => String::from_str("unknown"),
                };
                let entry = AlignmentEntry {
                    client_project: client_name.clone(),
                    server_project: server,
                    path: consumed.to_path(),
                    method: consumed.method.clone(),
                    status,
                    warning,
                };
                let ghost ev = entry@;
                let ghost before = out@;
                out.push(entry);
                proof {
                    assert(ev == alignment_for(client_name@, consumed@, spec_align(consumed@, client_name@, projects, statuses)));
                    assert(alignment_views(out@) =~= alignment_views(before).push(ev));
                }
            }
            j = j + 1;
        }
        proof {
            assert(actual@.consumed.take(m as int) =~= actual@.consumed);
            let t = projects.take(i + 1);
            assert(t.drop_last() =~= projects.take(i as int));
            assert(t.last() == (client_name@, actual@));
        }
        i = i + 1;
    }
    assert(projects.take(n as int) =~= projects);
    out
}

} // verus!

verus! {

/// How alarming a status is: lower is worse.
pub open spec fn priority(s: Seq<char>) -> int {
    if s == "MethodMismatch"@ {
        0
    } else if s == "Orphaned"@ {
        1
    } else if s == "ParamNameMismatch"@ {
        2
    } else if s == "Aligned"@ {
        3
    } else {
        4
    }
}

/// Index of the first status of least priority value (the first of the worst).
pub open spec fn worst_index(ss: Seq<Seq<char>>) -> int
    decreases ss.len(),
{
    if ss.len() <= 1 {
        0
    } else {
        let b = worst_index(ss.drop_last());
        if priority(ss.last()) < priority(ss[b]) {
            ss.len() - 1
        } else {
            b
        }
    }
}

/// The status of a group of alignments: the first of the worst, or `Aligned`
/// for none.
pub open spec fn spec_aggregate_status(ss: Seq<Seq<char>>) -> Seq<char> {
    if ss.len() == 0 {
        "Aligned"@
    } else {
        ss[worst_index(ss)]
    }
}

pub proof fn lemma_worst_index(ss: Seq<Seq<char>>)
    requires
        ss.len() > 0,
    ensures
        0 <= worst_index(ss) < ss.len(),
        forall|j: int| 0 <= j < ss.len() ==> priority(ss[worst_index(ss)]) <= priority(#[trigger] ss[j]),
        forall|j: int| 0 <= j < worst_index(ss) ==> priority(ss[worst_index(ss)]) < priority(#[trigger] ss[j]),
    decreases ss.len(),
{
    if ss.len() > 1 {
        let d = ss.drop_last();
        lemma_worst_index(d);
        let b = worst_index(d);
        assert forall|j: int| 0 <= j < d.len() implies #[trigger] ss[j] == d[j] by {}
    }
}

fn priority_of(s: &str) -> (r: u8)
    ensures
        r as int == priority(s@),
{
    if str_eq(s, "MethodMismatch") {
        0
    } else if str_eq(s, "Orphaned") {
        1
    } else if str_eq(s, "ParamNameMismatch") {
        2
    } else if str_eq(s, "Aligned") {
        3
    } else {
        4
    }
}

/// The status of an edge: the first of its worst statuses
/// (`MethodMismatch` < `Orphaned` < `ParamNameMismatch` < `Aligned` < others),
/// or `Aligned` when there are none.
pub fn aggregate_status(statuses: &Vec<String>) -> (r: String)
    ensures
        r@ == spec_aggregate_status(crate::text::views(statuses@)),
{
    let ghost ss = crate::text::views(statuses@);
    let n = statuses.len();
    if n == 0 {
        return String::from_str("Aligned");
    }
    let mut best: usize = 0;
    let mut best_p = priority_of(statuses[0].as_str());
    let mut i: usize = 1;
    while i < n
        invariant
            n == statuses@.len(),
            ss == crate::text::views(statuses@),
            1 <= i <= n,
            best as int == worst_index(ss.take(i as int)),
            best < i,
            best_p as int == priority(ss[best as int]),
        decreases n - i,
    {
        proof {
            let t = ss.take(i + 1);
            assert(t.drop_last() =~= ss.take(i as int));
            assert(t.last() == ss[i as int]);
            assert(t[best as int] == ss[best as int]);
        }
        let p = priority_of(statuses[i].as_str());
        if p < best_p {
            best = i;
            best_p = p;
        }
        i = i + 1;
    }
    assert(ss.take(n as int) =~= ss);
    statuses[best].clone()
}

/// Law: an edge's status is at least as alarming as each status it
/// aggregates, and is one of them.
pub proof fn law_edge_status_is_worst(ss: Seq<Seq<char>>)
    requires
        ss.len() > 0,
    ensures
        forall|j: int| 0 <= j < ss.len() ==> priority(spec_aggregate_status(ss)) <= priority(#[trigger] ss[j]),
        ss.contains(spec_aggregate_status(ss)),
{
    lemma_worst_index(ss);
}

} // verus!

verus! {

/// A matched pair of ports: the consumer's route index and the provider's.
#[derive(Debug)]
pub struct PortConnection {
    pub path: String,
    pub method: String,
    pub status: String,
    pub source_port_index: usize,
    pub target_port_index: usize,
}

/// All calls from one client project to one server project.
#[derive(Debug)]
pub struct AggregatedEdge {
    pub client_project: String,
    pub server_project: String,
    pub call_count: usize,
    pub status: String,
    pub paths: Vec<String>,
    pub ports: Vec<PortConnection>,
}

#[verifier::ext_equal]
pub struct PortView {
    pub path: Seq<char>,
    pub method: Seq<char>,
    pub status: Seq<char>,
    pub source_port_index: usize,
    pub target_port_index: usize,
}

impl View for PortConnection {
    type V = PortView;

    open spec fn view(&self) -> PortView {
        PortView {
            path: self.path@,
            method: self.method@,
            status: self.status@,
            source_port_index: self.source_port_index,
            target_port_index: self.target_port_index,
        }
    }
}

pub open spec fn port_views(s: Seq<PortConnection>) -> Seq<PortView> {
    s.map_values(|p: PortConnection| p@)
}

#[verifier::ext_equal]
pub struct EdgeView {
    pub client: Seq<char>,
    pub server: Seq<char>,
    pub call_count: usize,
    pub status: Seq<char>,
    pub paths: Seq<Seq<char>>,
    pub ports: Seq<PortView>,
}

impl View for AggregatedEdge {
    type V = EdgeView;

    open spec fn view(&self) -> EdgeView {
        EdgeView {
            client: self.client_project@,
            server: self.server_project@,
            call_count: self.call_count,
            status: self.status@,
            paths: crate::text::views(self.paths@),
            ports: port_views(self.ports@),
        }
    }
}

pub open spec fn edge_views(s: Seq<AggregatedEdge>) -> Seq<EdgeView> {
    s.map_values(|e: AggregatedEdge| e@)
}

pub open spec fn pair_key(a: AlignmentView) -> (Seq<char>, Seq<char>) {
    (a.client, a.server)
}

/// The distinct (client, server) pairs of the alignments, in order of first appearance.
pub open spec fn edge_keys(aligns: Seq<AlignmentView>) -> Seq<(Seq<char>, Seq<char>)>
    decreases aligns.len(),
{
    if aligns.len() == 0 {
        Seq::empty()
    } else {
        let k = edge_keys(aligns.drop_last());
        if k.contains(pair_key(aligns.last())) {
            k
        } else {
            k.push(pair_key(aligns.last()))
        }
    }
}

pub open spec fn with_key(key: (Seq<char>, Seq<char>)) -> spec_fn(AlignmentView) -> bool {
    |a: AlignmentView| pair_key(a) == key
}

/// The alignments of one (client, server) pair, in order.
pub open spec fn edge_entries(aligns: Seq<AlignmentView>, key: (Seq<char>, Seq<char>)) -> Seq<AlignmentView> {
    aligns.filter(with_key(key))
}

/// `METHOD path` as an edge lists it.
pub open spec fn edge_path(a: AlignmentView) -> Seq<char> {
    a.method + " "@ + a.path
}

pub open spec fn renders_as(path: Seq<char>, method: Seq<char>) -> spec_fn(RouteView) -> bool {
    |r: RouteView| path_of(r.segments) == path && r.method == method
}

/// The port pair of an alignment: the first consumed route of the client and
/// the first exposed route of the server with its path and method.
pub open spec fn port_for(a: AlignmentView, client: ActualView, server: ActualView) -> Option<PortView> {
    let si = first_index(client.consumed, renders_as(a.path, a.method));
    let ti = first_index(server.exposed, renders_as(a.path, a.method));
    if si >= 0 && ti >= 0 {
        Some(PortView { path: a.path, method: a.method, status: a.status, source_port_index: si as usize, target_port_index: ti as usize })
    } else {
        None
    }
}

pub open spec fn port_list(entries: Seq<AlignmentView>, client: ActualView, server: ActualView) -> Seq<PortView>
    decreases entries.len(),
{
    if entries.len() == 0 {
        Seq::empty()
    } else {
        let prev = port_list(entries.drop_last(), client, server);
        match port_for(entries.last(), client, server) {
            Some(p) => prev.push(p),
            None => prev,
        }
    }
}

pub open spec fn named(n: Seq<char>) -> spec_fn((Seq<char>, ActualView)) -> bool {
    |p: (Seq<char>, ActualView)| p.0 == n
}

/// The ports of an edge; none unless both projects are known.
pub open spec fn edge_ports(entries: Seq<AlignmentView>, projects: Seq<(Seq<char>, ActualView)>, key: (Seq<char>, Seq<char>)) -> Seq<PortView> {
    let ci = first_index(projects, named(key.0));
    let si = first_index(projects, named(key.1));
    if ci >= 0 && si >= 0 {
        port_list(entries, projects[ci].1, projects[si].1)
    } else {
        Seq::empty()
    }
}

/// The aggregated edge of one (client, server) pair.
pub open spec fn edge_for(aligns: Seq<AlignmentView>, projects: Seq<(Seq<char>, ActualView)>, key: (Seq<char>, Seq<char>)) -> EdgeView {
    let entries = edge_entries(aligns, key);
    EdgeView {
        client: key.0,
        server: key.1,
        call_count: entries.len() as usize,
        status: spec_aggregate_status(entries.map_values(|a: AlignmentView| a.status)),
        paths: entries.map_values(|a: AlignmentView| edge_path(a)),
        ports: edge_ports(entries, projects, key),
    }
}

/// One edge per (client, server) pair, in order of first appearance.
pub open spec fn spec_edges(aligns: Seq<AlignmentView>, projects: Seq<(Seq<char>, ActualView)>) -> Seq<EdgeView> {
    edge_keys(aligns).map_values(|k: (Seq<char>, Seq<char>)| edge_for(aligns, projects, k))
}

/// The distinct (client, server) pairs, in order of first appearance.
fn collect_edge_keys(aligns: &Vec<AlignmentEntry>) -> (r: Vec<(String, String)>)
    ensures
        pair_views(r@) == edge_keys(alignment_views(aligns@)),
{
    let ghost av = alignment_views(aligns@);
    let mut keys: Vec<(String, String)> = Vec::new();
    let n = aligns.len();
    let mut t: usize = 0;
    while t < n
        invariant
            n == aligns@.len(),
            av == alignment_views(aligns@),
            t <= n,
            pair_views(keys@) == edge_keys(av.take(t as int)),
        decreases n - t,
    {
        let a = &aligns[t];
        assert(av[t as int] == a@);
        proof {
            let tk = av.take(t + 1);
            assert(tk.drop_last() =~= av.take(t as int));
            assert(tk.last() == a@);
        }
        let ghost kv = pair_views(keys@);
        let m = keys.len();
        let mut g: usize = 0;
        let mut found = false;
        while g < m
            invariant_except_break
                !found,
            invariant
                m == keys@.len(),
                kv == pair_views(keys@),
                g <= m,
                forall|q: int| 0 <= q < g ==> kv[q] != pair_key(a@),
            ensures
                found ==> kv.contains(pair_key(a@)),
                !found ==> forall|q: int| 0 <= q < m ==> kv[q] != pair_key(a@),
            decreases m - g,
        {
            assert(kv[g as int] == (keys@[g as int].0@, keys@[g as int].1@));
            if str_eq(keys[g].0.as_str(), a.client_project.as_str()) && str_eq(keys[g].1.as_str(), a.server_project.as_str()) {
                found = true;
                assert(kv[g as int] == pair_key(a@));
                break;
            }
            g = g + 1;
        }
        if !found {
            let ghost before = keys@;
            keys.push((a.client_project.clone(), a.server_project.clone()));
            assert(pair_views(keys@) =~= pair_views(before).push(pair_key(a@)));
        }
        t = t + 1;
    }
    assert(av.take(n as int) =~= av);
    keys
}

/// Index of the first project named `name`.
fn find_project(projects: &Vec<(String, ActualJson)>, name: &str) -> (r: Option<usize>)
    ensures
        match r {
            Some(k) => k as int == first_index(project_views(projects@), named(name@)),
            None => first_index(project_views(projects@), named(name@)) == -1,
        },
{
    let ghost pv = project_views(projects@);
    let ghost p = named(name@);
    let n = projects.len();
    let mut i: usize = 0;
    while i < n
        invariant
            n == projects@.len(),
            pv == project_views(projects@),
            p == named(name@),
            i <= n,
            forall|j: int| 0 <= j < i ==> !p(#[trigger] pv[j]),
        decreases n - i,
    {
        assert(pv[i as int] == (projects@[i as int].0@, projects@[i as int].1@));
        if str_eq(projects[i].0.as_str(), name) {
            proof {
                lemma_first_index_at(pv, p, i as int);
            }
            return Some(i);
        }
        i = i + 1;
    }
    proof {
        lemma_first_index(pv, p);
        if first_index(pv, p) >= 0 {
            assert(!p(pv[first_index(pv, p)]));
        }
    }
    None
}

/// Index of the first route rendering as `path` with `method`.
fn find_rendered(routes: &Vec<RouteEntry>, path: &str, method: &str) -> (r: Option<usize>)
    requires
        crate::interfaces::all_well_formed(route_views(routes@)),
    ensures
        match r {
            Some(k) => k as int == first_index(route_views(routes@), renders_as(path@, method@)),
            None => first_index(route_views(routes@), renders_as(path@, method@)) == -1,
        },
{
    let ghost rv = route_views(routes@);
    let ghost p = renders_as(path@, method@);
    let n = routes.len();
    let mut i: usize = 0;
    while i < n
        invariant
            n == routes@.len(),
            rv == route_views(routes@),
            crate::interfaces::all_well_formed(rv),
            p == renders_as(path@, method@),
            i <= n,
            forall|j: int| 0 <= j < i ==> !p(#[trigger] rv[j]),
        decreases n - i,
    {
        assert(rv[i as int] == routes@[i as int]@);
        assert(route_well_formed(rv[i as int]));
        let rp = routes[i].to_path();
        if str_eq(rp.as_str(), path) && str_eq(routes[i].method.as_str(), method) {
            proof {
                lemma_first_index_at(rv, p, i as int);
            }
            return Some(i);
        }
        i = i + 1;
    }
    proof {
        lemma_first_index(rv, p);
        if first_index(rv, p) >= 0 {
            assert(!p(rv[first_index(rv, p)]));
        }
    }
    None
}

} // verus!

verus! {

/// The aggregated edge of one (client, server) pair (see `edge_for`).
fn build_edge(
    aligns: &Vec<AlignmentEntry>,
    project_actuals: &Vec<(String, ActualJson)>,
    client: &String,
    server: &String,
) -> (r: AggregatedEdge)
    requires
        projects_well_formed(project_views(project_actuals@)),
    ensures
        r@ == edge_for(alignment_views(aligns@), project_views(project_actuals@), (client@, server@)),
{
    let ghost av = alignment_views(aligns@);
    let ghost projects = project_views(project_actuals@);
    let ghost key = (client@, server@);
    let ghost pred = with_key(key);
    let ci = find_project(project_actuals, client.as_str());
    let si = find_project(project_actuals, server.as_str());
    proof {
        lemma_first_index(projects, named(client@));
        lemma_first_index(projects, named(server@));
    }
    let mut statuses: Vec<String> = Vec::new();
    let mut paths: Vec<String> = Vec::new();
    let mut ports: Vec<PortConnection> = Vec::new();
    let mut count: usize = 0;
    let ghost mut ents: Seq<AlignmentView> = Seq::empty();
    let n = aligns.len();
    let mut t: usize = 0;
    while t < n
        invariant
            n == aligns@.len(),
            av == alignment_views(aligns@),
            projects == project_views(project_actuals@),
            projects_well_formed(projects),
            pred == with_key(key),
            key == (client@, server@),
            t <= n,
            ents == av.take(t as int).filter(pred),
            count as int == ents.len(),
            ents.len() <= t,
            views(statuses@) == ents.map_values(|a: AlignmentView| a.status),
            views(paths@) == ents.map_values(|a: AlignmentView| edge_path(a)),
            match (ci, si) {
                (Some(c), Some(s)) => c < projects.len() && s < projects.len()
                    && port_views(ports@) == port_list(ents, projects[c as int].1, projects[s as int].1),
                _ => ports@.len() == 0,
            },
            ci matches Some(c) ==> c as int == first_index(projects, named(client@)),
            si matches Some(s) ==> s as int == first_index(projects, named(server@)),
        decreases n - t,
    {
        let a = &aligns[t];
        assert(av[t as int] == a@);
        let ghost pre = av.take(t as int);
        let ghost post = av.take(t + 1);
        proof {
            assert(post.drop_last() =~= pre);
            assert(post.last() == a@);
            reveal_with_fuel(Seq::filter, 1);
        }
        if str_eq(a.client_project.as_str(), client.as_str()) && str_eq(a.server_project.as_str(), server.as_str()) {
            let ghost old_ents = ents;
            proof {
                ents = ents.push(a@);
                assert(ents == post.filter(pred));
                assert(ents.drop_last() =~= old_ents);
            }
            let ghost s0 = statuses@;
            statuses.push(a.status.clone());
            assert(views(statuses@) =~= views(s0).push(a@.status));
            assert(ents.map_values(|x: AlignmentView| x.status) =~= old_ents.map_values(|x: AlignmentView| x.status).push(a@.status));
            let mut line = a.method.clone();
            line.append(" ");
            line.append(a.path.as_str());
            let ghost p0 = paths@;
            paths.push(line);
            assert(views(paths@) =~= views(p0).push(edge_path(a@)));
            assert(ents.map_values(|x: AlignmentView| edge_path(x)) =~= old_ents.map_values(|x: AlignmentView| edge_path(x)).push(edge_path(a@)));
            count = count + 1;
            match (ci, si) {
                (Some(c), Some(s)) => {
                    let ca = &project_actuals[c].1;
                    let sa = &project_actuals[s].1;
                    assert(projects[c as int].1 == ca@);
                    assert(projects[s as int].1 == sa@);
                    assert(actual_well_formed(projects[c as int].1));
                    assert(actual_well_formed(projects[s as int].1));
                    assert(crate::interfaces::all_well_formed(ca@.consumed));
                    assert(crate::interfaces::all_well_formed(sa@.exposed));
                    let src = find_rendered(&ca.consumed, a.path.as_str(), a.method.as_str());
                    let tgt = find_rendered(&sa.exposed, a.path.as_str(), a.method.as_str());
                    match (src, tgt) {
                        (Some(x), Some(y)) => {
                            let pc = PortConnection {
                                path: a.path.clone(),
                                method: a.method.clone(),
                                status: a.status.clone(),
                                source_port_index: x,
                                target_port_index: y,
                            };
                            let ghost pv0 = ports@;
                            let ghost pcv = pc@;
                            ports.push(pc);
                            assert(port_views(ports@) =~= port_views(pv0).push(pcv));
                        },
                        _ => {},
                    }
                },
                _ => {},
            }
        } else {
            proof {
                assert(!pred(a@));
                assert(ents == post.filter(pred));
            }
        }
        t = t + 1;
    }
    assert(av.take(n as int) =~= av);
    let status = aggregate_status(&statuses);
    AggregatedEdge {
        client_project: client.clone(),
        server_project: server.clone(),
        call_count: count,
        status,
        paths,
        ports,
    }
}

/// One aggregated edge per (client, server) pair (see `spec_edges`).
pub fn aggregate_edges(aligns: &Vec<AlignmentEntry>, project_actuals: &Vec<(String, ActualJson)>) -> (r: Vec<AggregatedEdge>)
    requires
        projects_well_formed(project_views(project_actuals@)),
    ensures
        edge_views(r@) == spec_edges(alignment_views(aligns@), project_views(project_actuals@)),
{
    let keys = collect_edge_keys(aligns);
    let ghost kv = pair_views(keys@);
    let mut edges: Vec<AggregatedEdge> = Vec::new();
    let n = keys.len();
    let mut i: usize = 0;
    while i < n
        invariant
            n == keys@.len(),
            kv == pair_views(keys@),
            kv == edge_keys(alignment_views(aligns@)),
            projects_well_formed(project_views(project_actuals@)),
            i <= n,
            edge_views(edges@) == kv.take(i as int).map_values(
                |k: (Seq<char>, Seq<char>)| edge_for(alignment_views(aligns@), project_views(project_actuals@), k),
            ),
        decreases n - i,
    {
        assert(kv[i as int] == (keys@[i as int].0@, keys@[i as int].1@));
        let e = build_edge(aligns, project_actuals, &keys[i].0, &keys[i].1);
        let ghost e0 = edges@;
        let ghost ev = e@;
        edges.push(e);
        proof {
            assert(edge_views(edges@) =~= edge_views(e0).push(ev));
            assert(kv.take(i + 1) =~= kv.take(i as int).push(kv[i as int]));
            assert(kv.take(i + 1).map_values(
                |k: (Seq<char>, Seq<char>)| edge_for(alignment_views(aligns@), project_views(project_actuals@), k),
            ) =~= kv.take(i as int).map_values(
                |k: (Seq<char>, Seq<char>)| edge_for(alignment_views(aligns@), project_views(project_actuals@), k),
            ).push(ev));
        }
        i = i + 1;
    }
    assert(kv.take(n as int) =~= kv);
    edges
}

} // verus!

verus! {

/// A route named by project, path and method.
#[derive(Debug)]
pub struct AnomalyEndpoint {
    pub project: String,
    pub path: String,
    pub method: String,
}

#[verifier::ext_equal]
pub struct EndpointView {
    pub project: Seq<char>,
    pub path: Seq<char>,
    pub method: Seq<char>,
}

impl View for AnomalyEndpoint {
    type V = EndpointView;

    open spec fn view(&self) -> EndpointView {
        EndpointView { project: self.project@, path: self.path@, method: self.method@ }
    }
}

pub open spec fn endpoint_views(s: Seq<AnomalyEndpoint>) -> Seq<EndpointView> {
    s.map_values(|e: AnomalyEndpoint| e@)
}

/// Some non-orphaned alignment targets route `e` of project `name`.
pub open spec fn consumed_by_any(aligns: Seq<AlignmentView>, name: Seq<char>, e: RouteView) -> bool {
    exists|k: int|
        0 <= k < aligns.len() && #[trigger] aligns[k].server == name && aligns[k].path == path_of(e.segments)
            && aligns[k].method == e.method && aligns[k].status != "Orphaned"@
}

/// Exposed routes of one project that nothing consumes, in order.
pub open spec fn unused_of(name: Seq<char>, exposed: Seq<RouteView>, aligns: Seq<AlignmentView>) -> Seq<EndpointView>
    decreases exposed.len(),
{
    if exposed.len() == 0 {
        Seq::empty()
    } else {
        let prev = unused_of(name, exposed.drop_last(), aligns);
        let e = exposed.last();
        if consumed_by_any(aligns, name, e) {
            prev
        } else {
            prev.push(EndpointView { project: name, path: path_of(e.segments), method: e.method })
        }
    }
}

/// Unused exposed routes of every project that is not a library.
pub open spec fn unused_upto(projects: Seq<(Seq<char>, ActualView)>, aligns: Seq<AlignmentView>) -> Seq<EndpointView>
    decreases projects.len(),
{
    if projects.len() == 0 {
        Seq::empty()
    } else {
        let prev = unused_upto(projects.drop_last(), aligns);
        let p = projects.last();
        if p.1.project_type == Some("library"@) {
            prev
        } else {
            prev + unused_of(p.0, p.1.exposed, aligns)
        }
    }
}

fn is_consumed(aligns: &Vec<AlignmentEntry>, name: &str, path: &str, method: &str) -> (r: bool)
    ensures
        r == exists|k: int|
            0 <= k < aligns@.len() && #[trigger] aligns@[k]@.server == name@ && aligns@[k]@.path == path@
                && aligns@[k]@.method == method@ && aligns@[k]@.status != "Orphaned"@,
{
    let n = aligns.len();
    let mut i: usize = 0;
    while i < n
        invariant
            n == aligns@.len(),
            i <= n,
            forall|k: int|
                0 <= k < i ==> !(#[trigger] aligns@[k]@.server == name@ && aligns@[k]@.path == path@
                    && aligns@[k]@.method == method@ && aligns@[k]@.status != "Orphaned"@),
        decreases n - i,
    {
        let a = &aligns[i];
        if str_eq(a.server_project.as_str(), name) && str_eq(a.path.as_str(), path) && str_eq(a.method.as_str(), method)
            && !str_eq(a.status.as_str(), "Orphaned") {
            assert(aligns@[i as int]@.server == name@ && aligns@[i as int]@.path == path@
                && aligns@[i as int]@.method == method@ && aligns@[i as int]@.status != "Orphaned"@);
            return true;
        }
        i = i + 1;
    }
    false
}

/// Exposed routes of non-library projects that no non-orphaned alignment targets.
pub fn detect_unused_endpoints(project_actuals: &Vec<(String, ActualJson)>, alignments: &Vec<AlignmentEntry>) -> (r: Vec<
    AnomalyEndpoint,
>)
    requires
        projects_well_formed(project_views(project_actuals@)),
    ensures
        endpoint_views(r@) == unused_upto(project_views(project_actuals@), alignment_views(alignments@)),
{
    let ghost projects = project_views(project_actuals@);
    let ghost av = alignment_views(alignments@);
    let mut unused: Vec<AnomalyEndpoint> = Vec::new();
    let n = project_actuals.len();
    let mut i: usize = 0;
    while i < n
        invariant
            n == project_actuals@.len(),
            projects == project_views(project_actuals@),
            av == alignment_views(alignments@),
            projects_well_formed(projects),
            i <= n,
            endpoint_views(unused@) == unused_upto(projects.take(i as int), av),
        decreases n - i,
    {
        let name = &project_actuals[i].0;
        let actual = &project_actuals[i].1;
        assert(projects[i as int] == (name@, actual@));
        assert(actual_well_formed(projects[i as int].1));
        proof {
            let t = projects.take(i + 1);
            assert(t.drop_last() =~= projects.take(i as int));
            assert(t.last() == (name@, actual@));
        }
        let is_library = match &actual.project_type {
            Some(pt) => str_eq(pt.as_str(), "library"),
            None => false,
        };
        if !is_library {
            let ghost base = endpoint_views(unused@);
            let m = actual.exposed.len();
            let mut j: usize = 0;
            while j < m
                invariant
                    m == actual.exposed@.len(),
                    av == alignment_views(alignments@),
                    actual_well_formed(actual@),
                    j <= m,
                    endpoint_views(unused@) == base + unused_of(name@, actual@.exposed.take(j as int), av),
                decreases m - j,
            {
                let e = &actual.exposed[j];
                assert(actual@.exposed[j as int] == e@);
                assert(route_well_formed(actual@.exposed[j as int]));
                proof {
                    let t = actual@.exposed.take(j + 1);
                    assert(t.drop_last() =~= actual@.exposed.take(j as int));
                    assert(t.last() == e@);
                }
                let path = e.to_path();
                let used = is_consumed(alignments, name.as_str(), path.as_str(), e.method.as_str());
                proof {
                    if used {
                        let k = choose|k: int|
                            0 <= k < alignments@.len() && #[trigger] alignments@[k]@.server == name@ && alignments@[k]@.path
                                == path@ && alignments@[k]@.method == e.method@ && alignments@[k]@.status != "Orphaned"@;
                        assert(av[k] == alignments@[k]@);
                        assert(consumed_by_any(av, name@, e@));
                    } else {
                        if consumed_by_any(av, name@, e@) {
                            let k = choose|k: int|
                                0 <= k < av.len() && #[trigger] av[k].server == name@ && av[k].path == path_of(e@.segments)
                                    && av[k].method == e@.method && av[k].status != "Orphaned"@;
                            assert(av[k] == alignments@[k]@);
                        }
                    }
                }
                if !used {
                    let ep = AnomalyEndpoint { project: name.clone(), path, method: e.method.clone() };
                    let ghost u0 = unused@;
                    let ghost epv = ep@;
                    unused.push(ep);
                    assert(endpoint_views(unused@) =~= endpoint_views(u0).push(epv));
                }
                j = j + 1;
            }
            assert(actual@.exposed.take(m as int) =~= actual@.exposed);
        }
        i = i + 1;
    }
    assert(projects.take(n as int) =~= projects);
    unused
}

pub open spec fn is_orphaned(a: AlignmentView) -> bool {
    a.status == "Orphaned"@
}

pub open spec fn orphan_endpoint(a: AlignmentView) -> EndpointView {
    EndpointView { project: a.client, path: a.path, method: a.method }
}

/// Consumers whose calls nothing serves: the orphaned alignments, by client.
pub open spec fn spec_orphans(aligns: Seq<AlignmentView>) -> Seq<EndpointView> {
    aligns.filter(|a: AlignmentView| is_orphaned(a)).map_values(|a: AlignmentView| orphan_endpoint(a))
}

/// The orphaned alignments as anomaly endpoints of their clients.
pub fn orphaned_consumers(alignments: &Vec<AlignmentEntry>) -> (r: Vec<AnomalyEndpoint>)
    ensures
        endpoint_views(r@) == spec_orphans(alignment_views(alignments@)),
{
    let ghost av = alignment_views(alignments@);
    let ghost pred = |a: AlignmentView| is_orphaned(a);
    let mut out: Vec<AnomalyEndpoint> = Vec::new();
    let n = alignments.len();
    let mut t: usize = 0;
    while t < n
        invariant
            n == alignments@.len(),
            av == alignment_views(alignments@),
            pred == (|a: AlignmentView| is_orphaned(a)),
            t <= n,
            endpoint_views(out@) == av.take(t as int).filter(pred).map_values(|a: AlignmentView| orphan_endpoint(a)),
        decreases n - t,
    {
        let a = &alignments[t];
        assert(av[t as int] == a@);
        let ghost pre = av.take(t as int);
        let ghost post = av.take(t + 1);
        proof {
            assert(post.drop_last() =~= pre);
            assert(post.last() == a@);
            reveal_with_fuel(Seq::filter, 1);
        }
        if str_eq(a.status.as_str(), "Orphaned") {
            let ep = AnomalyEndpoint { project: a.client_project.clone(), path: a.path.clone(), method: a.method.clone() };
            let ghost o0 = out@;
            let ghost epv = ep@;
            out.push(ep);
            proof {
                assert(post.filter(pred) == pre.filter(pred).push(a@));
                assert(endpoint_views(out@) =~= endpoint_views(o0).push(epv));
                assert(post.filter(pred).map_values(|x: AlignmentView| orphan_endpoint(x)) =~= pre.filter(pred).map_values(
                    |x: AlignmentView| orphan_endpoint(x),
                ).push(orphan_endpoint(a@)));
            }
        } else {
            assert(post.filter(pred) == pre.filter(pred));
        }
        t = t + 1;
    }
    assert(av.take(n as int) =~= av);
    out
}

} // verus!

verus! {

/// A JSON value of `serde_json`, carried through unread.
#[verifier::external_type_specification]
#[verifier::external_body]
pub struct ExJsonValue(serde_json::Value);

/// A route as a project's map entry lists it: path, method and, for consumed
/// routes, the target project.
#[derive(Debug)]
pub struct InterfaceRef {
    pub path: String,
    pub method: String,
    pub target_project: Option<String>,
}

/// The exposed and consumed routes a project's map entry lists.
#[derive(Debug)]
pub struct ProjectInterfaces {
    pub exposed: Vec<InterfaceRef>,
    pub consumed: Vec<InterfaceRef>,
}

/// A project's entry in the map.
#[derive(Debug)]
pub struct ProjectInfo {
    pub name: String,
    pub project_type: String,
    pub sha: String,
    pub scan_status: String,
    pub interfaces: ProjectInterfaces,
    pub path: Option<String>,
}

/// Anomalies found in the ecosystem.
#[derive(Debug)]
pub struct Anomalies {
    pub unused_endpoints: Vec<AnomalyEndpoint>,
    pub orphaned_consumers: Vec<AnomalyEndpoint>,
    pub cross_layer_violations: Vec<serde_json::Value>,
}

/// The topology map of the whole ecosystem.
#[derive(Debug)]
pub struct LunarMap {
    pub version: String,
    pub projects: Vec<ProjectInfo>,
    pub alignments: Vec<AlignmentEntry>,
    pub aggregated_edges: Vec<AggregatedEdge>,
    pub anomalies: Anomalies,
}

#[verifier::ext_equal]
pub struct RefView {
    pub path: Seq<char>,
    pub method: Seq<char>,
    pub target_project: Option<Seq<char>>,
}

impl View for InterfaceRef {
    type V = RefView;

    open spec fn view(&self) -> RefView {
        RefView { path: self.path@, method: self.method@, target_project: opt_view(self.target_project) }
    }
}

pub open spec fn ref_views(s: Seq<InterfaceRef>) -> Seq<RefView> {
    s.map_values(|x: InterfaceRef| x@)
}

#[verifier::ext_equal]
pub struct ProjectInfoView {
    pub name: Seq<char>,
    pub project_type: Seq<char>,
    pub sha: Seq<char>,
    pub scan_status: Seq<char>,
    pub exposed: Seq<RefView>,
    pub consumed: Seq<RefView>,
    pub path: Option<Seq<char>>,
}

impl View for ProjectInfo {
    type V = ProjectInfoView;

    open spec fn view(&self) -> ProjectInfoView {
        ProjectInfoView {
            name: self.name@,
            project_type: self.project_type@,
            sha: self.sha@,
            scan_status: self.scan_status@,
            exposed: ref_views(self.interfaces.exposed@),
            consumed: ref_views(self.interfaces.consumed@),
            path: opt_view(self.path),
        }
    }
}

pub open spec fn info_views(s: Seq<ProjectInfo>) -> Seq<ProjectInfoView> {
    s.map_values(|x: ProjectInfo| x@)
}

pub open spec fn exposed_ref(r: RouteView) -> RefView {
    RefView { path: path_of(r.segments), method: r.method, target_project: None }
}

pub open spec fn consumed_ref(r: RouteView) -> RefView {
    RefView {
        path: path_of(r.segments),
        method: r.method,
        target_project: Some(
            match r.target_project {
                Some(t) => t,
                None => "unknown"@,
            },
        ),
    }
}

pub open spec fn or_default(o: Option<Seq<char>>, d: Seq<char>) -> Seq<char> {
    match o {
        Some(v) => v,
        None => d,
    }
}

/// A project's map entry: its type (`mixed` by default), scan status
/// (`success` by default), listed routes and workspace path.
pub open spec fn info_for(
    p: (Seq<char>, ActualView),
    statuses: Seq<(Seq<char>, Seq<char>)>,
    paths: Seq<(Seq<char>, Seq<char>)>,
) -> ProjectInfoView {
    ProjectInfoView {
        name: p.0,
        project_type: or_default(p.1.project_type, "mixed"@),
        sha: "unknown"@,
        scan_status: or_default(lookup(statuses, p.0), "success"@),
        exposed: p.1.exposed.map_values(|r: RouteView| exposed_ref(r)),
        consumed: p.1.consumed.map_values(|r: RouteView| consumed_ref(r)),
        path: lookup(paths, p.0),
    }
}

fn route_refs(routes: &Vec<RouteEntry>, consumed: bool) -> (r: Vec<InterfaceRef>)
    requires
        crate::interfaces::all_well_formed(route_views(routes@)),
    ensures
        ref_views(r@) == if consumed {
            route_views(routes@).map_values(|x: RouteView| consumed_ref(x))
        } else {
            route_views(routes@).map_values(|x: RouteView| exposed_ref(x))
        },
{
    let ghost rv = route_views(routes@);
    let ghost f = if consumed {
        |x: RouteView| consumed_ref(x)
    } else {
        |x: RouteView| exposed_ref(x)
    };
    let mut out: Vec<InterfaceRef> = Vec::new();
    let n = routes.len();
    let mut i: usize = 0;
    while i < n
        invariant
            n == routes@.len(),
            rv == route_views(routes@),
            crate::interfaces::all_well_formed(rv),
            f == (if consumed {
                |x: RouteView| consumed_ref(x)
            } else {
                |x: RouteView| exposed_ref(x)
            }),
            i <= n,
            ref_views(out@) == rv.take(i as int).map_values(f),
        decreases n - i,
    {
        let r = &routes[i];
        assert(rv[i as int] == r@);
        assert(route_well_formed(rv[i as int]));
        let target = if consumed {
            match &r.target_project {
                Some(t) => Some(t.clone()),
                None => Some(String::from_str("unknown")),
            }
        } else {
            None
        };
        let item = InterfaceRef { path: r.to_path(), method: r.method.clone(), target_project: target };
        let ghost o0 = out@;
        let ghost iv = item@;
        out.push(item);
        proof {
            assert(iv == f(r@));
            assert(ref_views(out@) =~= ref_views(o0).push(iv));
            assert(rv.take(i + 1) =~= rv.take(i as int).push(r@));
            assert(rv.take(i + 1).map_values(f) =~= rv.take(i as int).map_values(f).push(f(r@)));
        }
        i = i + 1;
    }
    assert(rv.take(n as int) =~= rv);
    out
}

/// The map entries of all projects, in order.
pub fn project_infos(
    project_actuals: &Vec<(String, ActualJson)>,
    scan_statuses: &Vec<(String, String)>,
    project_paths: &Vec<(String, String)>,
) -> (r: Vec<ProjectInfo>)
    requires
        projects_well_formed(project_views(project_actuals@)),
    ensures
        info_views(r@) == project_views(project_actuals@).map_values(
            |p: (Seq<char>, ActualView)| info_for(p, pair_views(scan_statuses@), pair_views(project_paths@)),
        ),
{
    let ghost projects = project_views(project_actuals@);
    let ghost f = |p: (Seq<char>, ActualView)| info_for(p, pair_views(scan_statuses@), pair_views(project_paths@));
    let mut out: Vec<ProjectInfo> = Vec::new();
    let n = project_actuals.len();
    let mut i: usize = 0;
    while i < n
        invariant
            n == project_actuals@.len(),
            projects == project_views(project_actuals@),
            projects_well_formed(projects),
            f == (|p: (Seq<char>, ActualView)| info_for(p, pair_views(scan_statuses@), pair_views(project_paths@))),
            i <= n,
            info_views(out@) == projects.take(i as int).map_values(f),
        decreases n - i,
    {
        let name = &project_actuals[i].0;
        let actual = &project_actuals[i].1;
        assert(projects[i as int] == (name@, actual@));
        assert(actual_well_formed(projects[i as int].1));
        assert(crate::interfaces::all_well_formed(actual@.exposed));
        assert(crate::interfaces::all_well_formed(actual@.consumed));
        let scan_status = match lookup_value(scan_statuses, name.as_str()) {
            Some(s) => s.clone(),
            None => String::from_str("success"),
        };
        let project_type = match &actual.project_type {
            Some(t) => t.clone(),
            None => String::from_str("mixed"),
        };
        let path = match lookup_value(project_paths, name.as_str()) {
            Some(p) => Some(p.clone()),
            None => None,
        };
        let info = ProjectInfo {
            name: name.clone(),
            project_type,
            sha: String::from_str("unknown"),
            scan_status,
            interfaces: ProjectInterfaces {
                exposed: route_refs(&actual.exposed, false),
                consumed: route_refs(&actual.consumed, true),
            },
            path,
        };
        let ghost o0 = out@;
        let ghost iv = info@;
        out.push(info);
        proof {
            assert(iv =~= f((name@, actual@)));
            assert(info_views(out@) =~= info_views(o0).push(iv));
            assert(projects.take(i + 1) =~= projects.take(i as int).push((name@, actual@)));
            assert(projects.take(i + 1).map_values(f) =~= projects.take(i as int).map_values(f).push(iv));
        }
        i = i + 1;
    }
    assert(projects.take(n as int) =~= projects);
    out
}

/// Builds the topology map: project entries, alignments of every consumed
/// route, one aggregated edge per (client, server) pair, unused endpoints and
/// orphaned consumers.
pub fn generate_lunar_map(
    project_actuals: &Vec<(String, ActualJson)>,
    scan_statuses: &Vec<(String, String)>,
    project_paths: &Vec<(String, String)>,
) -> (r: LunarMap)
    requires
        projects_well_formed(project_views(project_actuals@)),
        distinct_keys(project_views(project_actuals@)),
        distinct_keys(pair_views(scan_statuses@)),
        distinct_keys(pair_views(project_paths@)),
    ensures
        r.version@ == "0.5.0"@,
        info_views(r.projects@) == project_views(project_actuals@).map_values(
            |p: (Seq<char>, ActualView)| info_for(p, pair_views(scan_statuses@), pair_views(project_paths@)),
        ),
        alignment_views(r.alignments@) == spec_alignments(project_views(project_actuals@), pair_views(scan_statuses@)),
        edge_views(r.aggregated_edges@) == spec_edges(
            spec_alignments(project_views(project_actuals@), pair_views(scan_statuses@)),
            project_views(project_actuals@),
        ),
        endpoint_views(r.anomalies.unused_endpoints@) == unused_upto(
            project_views(project_actuals@),
            spec_alignments(project_views(project_actuals@), pair_views(scan_statuses@)),
        ),
        endpoint_views(r.anomalies.orphaned_consumers@) == spec_orphans(
            spec_alignments(project_views(project_actuals@), pair_views(scan_statuses@)),
        ),
        r.anomalies.cross_layer_violations@.len() == 0,
{
    let projects = project_infos(project_actuals, scan_statuses, project_paths);
    let alignments = compute_alignments(project_actuals, scan_statuses);
    let aggregated_edges = aggregate_edges(&alignments, project_actuals);
    let unused_endpoints = detect_unused_endpoints(project_actuals, &alignments);
    let orphaned = orphaned_consumers(&alignments);
    LunarMap {
        version: String::from_str("0.5.0"),
        projects,
        alignments,
        aggregated_edges,
        anomalies: Anomalies { unused_endpoints, orphaned_consumers: orphaned, cross_layer_violations: Vec::new() },
    }
}

} // verus!

verus! {

/// The total number of calls the edges carry.
pub open spec fn total_calls(edges: Seq<EdgeView>) -> int
    decreases edges.len(),
{
    if edges.len() == 0 {
        0
    } else {
        total_calls(edges.drop_last()) + edges.last().call_count
    }
}

/// How many alignments of `s` fall under the pairs `keys`, pair by pair.
pub open spec fn count_under(keys: Seq<(Seq<char>, Seq<char>)>, s: Seq<AlignmentView>) -> int
    decreases keys.len(),
{
    if keys.len() == 0 {
        0
    } else {
        count_under(keys.drop_last(), s) + s.filter(with_key(keys.last())).len()
    }
}

proof fn lemma_edge_keys(s: Seq<AlignmentView>)
    ensures
        forall|i: int, j: int|
            0 <= i < j < edge_keys(s).len() ==> edge_keys(s)[i] != edge_keys(s)[j],
        forall|q: int| 0 <= q < s.len() ==> edge_keys(s).contains(pair_key(#[trigger] s[q])),
        forall|i: int|
            0 <= i < edge_keys(s).len() ==> exists|q: int| 0 <= q < s.len() && pair_key(s[q]) == #[trigger] edge_keys(s)[i],
    decreases s.len(),
{
    if s.len() > 0 {
        let d = s.drop_last();
        lemma_edge_keys(d);
        let k = edge_keys(d);
        assert forall|q: int| 0 <= q < s.len() implies edge_keys(s).contains(pair_key(#[trigger] s[q])) by {
            if q < d.len() {
                assert(s[q] == d[q]);
                assert(k.contains(pair_key(d[q])));
                let w = choose|w: int| 0 <= w < k.len() && k[w] == pair_key(d[q]);
                assert(edge_keys(s)[w] == k[w]);
            } else {
                if !k.contains(pair_key(s.last())) {
                    assert(edge_keys(s)[k.len() as int] == pair_key(s.last()));
                }
            }
        }
        assert forall|i: int|
            0 <= i < edge_keys(s).len() implies exists|q: int| 0 <= q < s.len() && pair_key(s[q]) == #[trigger] edge_keys(s)[i] by {
            if i < k.len() {
                let q = choose|q: int| 0 <= q < d.len() && pair_key(d[q]) == k[i];
                assert(s[q] == d[q]);
                assert(edge_keys(s)[i] == k[i]);
            } else {
                assert(pair_key(s[s.len() - 1]) == edge_keys(s)[i]);
            }
        }
    }
}

/// Adding one alignment adds one to the count under distinct pairs that include its pair.
proof fn lemma_count_under_push(keys: Seq<(Seq<char>, Seq<char>)>, d: Seq<AlignmentView>, x: AlignmentView)
    requires
        forall|i: int, j: int| 0 <= i < j < keys.len() ==> keys[i] != keys[j],
    ensures
        count_under(keys, d.push(x)) == count_under(keys, d) + if keys.contains(pair_key(x)) {
            1int
        } else {
            0int
        },
    decreases keys.len(),
{
    if keys.len() > 0 {
        let kd = keys.drop_last();
        lemma_count_under_push(kd, d, x);
        let s = d.push(x);
        assert(s.drop_last() =~= d);
        reveal_with_fuel(Seq::filter, 1);
        let key = keys.last();
        assert(kd.contains(pair_key(x)) ==> keys.contains(pair_key(x))) by {
            if kd.contains(pair_key(x)) {
                let w = choose|w: int| 0 <= w < kd.len() && kd[w] == pair_key(x);
                assert(keys[w] == kd[w]);
            }
        }
        if keys.contains(pair_key(x)) && !kd.contains(pair_key(x)) {
            let w = choose|w: int| 0 <= w < keys.len() && keys[w] == pair_key(x);
            if w < kd.len() {
                assert(kd[w] == keys[w]);
            }
            assert(key == pair_key(x));
        }
        if kd.contains(pair_key(x)) {
            let w = choose|w: int| 0 <= w < kd.len() && kd[w] == pair_key(x);
            assert(keys[w] == kd[w]);
            assert(key != pair_key(x));
        }
    }
}

/// Pairs none of whose alignments occur count nothing.
proof fn lemma_count_under_absent(keys: Seq<(Seq<char>, Seq<char>)>, d: Seq<AlignmentView>, k: (Seq<char>, Seq<char>))
    requires
        forall|q: int| 0 <= q < d.len() ==> pair_key(#[trigger] d[q]) != k,
    ensures
        d.filter(with_key(k)).len() == 0,
{
    crate::route::lemma_filter_none(d, with_key(k));
}

/// The alignments of `s` are partitioned by its edge pairs.
proof fn lemma_count_under_edge_keys(s: Seq<AlignmentView>)
    ensures
        count_under(edge_keys(s), s) == s.len(),
    decreases s.len(),
{
    if s.len() > 0 {
        let d = s.drop_last();
        let x = s.last();
        assert(s == d.push(x));
        lemma_count_under_edge_keys(d);
        lemma_edge_keys(d);
        let k = edge_keys(d);
        lemma_count_under_push(k, d, x);
        if !k.contains(pair_key(x)) {
            assert(edge_keys(s) == k.push(pair_key(x)));
            assert(edge_keys(s).drop_last() =~= k);
            assert forall|q: int| 0 <= q < d.len() implies pair_key(#[trigger] d[q]) != pair_key(x) by {
                assert(k.contains(pair_key(d[q])));
            }
            lemma_count_under_absent(k, d, pair_key(x));
            reveal_with_fuel(Seq::filter, 1);
            assert(s.filter(with_key(pair_key(x))) == d.filter(with_key(pair_key(x))).push(x));
        }
    }
}

proof fn lemma_total_calls_map(keys: Seq<(Seq<char>, Seq<char>)>, s: Seq<AlignmentView>, projects: Seq<(Seq<char>, ActualView)>)
    requires
        s.len() <= usize::MAX,
    ensures
        total_calls(keys.map_values(|k: (Seq<char>, Seq<char>)| edge_for(s, projects, k))) == count_under(keys, s),
    decreases keys.len(),
{
    if keys.len() > 0 {
        let kd = keys.drop_last();
        lemma_total_calls_map(kd, s, projects);
        let m = keys.map_values(|k: (Seq<char>, Seq<char>)| edge_for(s, projects, k));
        assert(m.drop_last() =~= kd.map_values(|k: (Seq<char>, Seq<char>)| edge_for(s, projects, k)));
        s.lemma_filter_len(with_key(keys.last()));
    }
}

/// Law: the aggregated edges partition the alignments: their call counts add
/// up to the number of alignments.
pub proof fn law_edges_partition_alignments(aligns: Seq<AlignmentView>, projects: Seq<(Seq<char>, ActualView)>)
    requires
        aligns.len() <= usize::MAX,
    ensures
        total_calls(spec_edges(aligns, projects)) == aligns.len(),
{
    lemma_total_calls_map(edge_keys(aligns), aligns, projects);
    lemma_count_under_edge_keys(aligns);
}

/// Whether a consumed route of `client` gets a status, and so an alignment.
pub open spec fn gets_status(
    client: Seq<char>,
    projects: Seq<(Seq<char>, ActualView)>,
    statuses: Seq<(Seq<char>, Seq<char>)>,
) -> spec_fn(RouteView) -> bool {
    |c: RouteView| spec_align(c, client, projects, statuses).0.len() > 0
}

/// The alignment recorded for a consumed route of `client`.
pub open spec fn recorded_as(
    client: Seq<char>,
    projects: Seq<(Seq<char>, ActualView)>,
    statuses: Seq<(Seq<char>, Seq<char>)>,
) -> spec_fn(RouteView) -> AlignmentView {
    |c: RouteView| alignment_for(client, c, spec_align(c, client, projects, statuses))
}

/// The statuses an alignment can have.
pub open spec fn known_status(s: Seq<char>) -> bool {
    s == "Aligned"@ || s == "ParamNameMismatch"@ || s == "MethodMismatch"@ || s == "Orphaned"@ || s == "Unverified"@
}

proof fn lemma_consumer_alignments(
    client: Seq<char>,
    consumed: Seq<RouteView>,
    projects: Seq<(Seq<char>, ActualView)>,
    statuses: Seq<(Seq<char>, Seq<char>)>,
)
    ensures
        consumer_alignments(client, consumed, projects, statuses) == consumed.filter(
            gets_status(client, projects, statuses),
        ).map_values(recorded_as(client, projects, statuses)),
    decreases consumed.len(),
{
    reveal_with_fuel(Seq::filter, 1);
    let p = gets_status(client, projects, statuses);
    let g = recorded_as(client, projects, statuses);
    if consumed.len() == 0 {
        assert(consumed.filter(p) =~= Seq::<RouteView>::empty());
        assert(consumed.filter(p).map_values(g) =~= Seq::<AlignmentView>::empty());
    } else {
        let d = consumed.drop_last();
        lemma_consumer_alignments(client, d, projects, statuses);
        let f = d.filter(p);
        if p(consumed.last()) {
            assert(consumed.filter(p) == f.push(consumed.last()));
            assert(f.push(consumed.last()).map_values(g) =~= f.map_values(g).push(g(consumed.last())));
        } else {
            assert(consumed.filter(p) == f);
        }
    }
}

/// Law: a client's alignments are its consumed routes that get a status, in
/// order, each recorded with its own path, method and server (`unknown`
/// without a target); every route that names a target gets one, and every
/// status is one of `Aligned`, `ParamNameMismatch`, `MethodMismatch`,
/// `Orphaned` and `Unverified`.
pub proof fn law_alignment_per_consumed_route(
    client: Seq<char>,
    consumed: Seq<RouteView>,
    projects: Seq<(Seq<char>, ActualView)>,
    statuses: Seq<(Seq<char>, Seq<char>)>,
)
    ensures
        consumer_alignments(client, consumed, projects, statuses) == consumed.filter(
            gets_status(client, projects, statuses),
        ).map_values(recorded_as(client, projects, statuses)),
        forall|k: int|
            0 <= k < consumed.len() && target_of(consumed[k]).len() > 0 ==> #[trigger] gets_status(
                client,
                projects,
                statuses,
            )(consumed[k]),
        forall|k: int|
            0 <= k < consumer_alignments(client, consumed, projects, statuses).len() ==> known_status(
                #[trigger] consumer_alignments(client, consumed, projects, statuses)[k].status,
            ),
{
    reveal_strlit("Aligned");
    reveal_strlit("ParamNameMismatch");
    reveal_strlit("MethodMismatch");
    reveal_strlit("Orphaned");
    reveal_strlit("Unverified");
    lemma_consumer_alignments(client, consumed, projects, statuses);
    let p = gets_status(client, projects, statuses);
    let g = recorded_as(client, projects, statuses);
    let f = consumed.filter(p);
    assert forall|k: int| 0 <= k < consumed.len() && target_of(consumed[k]).len() > 0 implies #[trigger] p(
        consumed[k],
    ) by {
        let c = consumed[k];
        let sid = structural_id_of(c.segments);
        let i = first_index(projects, serves(client, target_of(c), sid));
        if i >= 0 {
            let server = projects[i];
            let route = server.1.exposed[first_index(server.1.exposed, has_sid_view(sid))];
            assert(known_status(diff_status(c, route)));
        }
    }
    assert forall|k: int| 0 <= k < f.len() implies known_status(#[trigger] f.map_values(g)[k].status) by {
        consumed.filter_lemma(p);
        assert(p(f[k]));
        let c = f[k];
        let sid = structural_id_of(c.segments);
        let i = first_index(projects, serves(client, target_of(c), sid));
        if i >= 0 {
            let server = projects[i];
            let route = server.1.exposed[first_index(server.1.exposed, has_sid_view(sid))];
            assert(known_status(diff_status(c, route)));
        }
    }
}

/// Whether `x` reports route `e` of project `name` as unused: nothing
/// consumes it, and `x` names the project, the route's path and its method.
pub open spec fn reports_unused(aligns: Seq<AlignmentView>, name: Seq<char>, e: RouteView, x: EndpointView) -> bool {
    !consumed_by_any(aligns, name, e) && x == EndpointView { project: name, path: path_of(e.segments), method: e.method }
}

/// Whether `x` reports an exposed route of a project that is not a library
/// as unused.
pub open spec fn listed_as_unused(
    projects: Seq<(Seq<char>, ActualView)>,
    aligns: Seq<AlignmentView>,
    x: EndpointView,
) -> bool {
    exists|k: int, j: int|
        0 <= k < projects.len() && projects[k].1.project_type != Some("library"@) && 0 <= j
            < projects[k].1.exposed.len() && #[trigger] reports_unused(aligns, projects[k].0, projects[k].1.exposed[j], x)
}

proof fn lemma_unused_of_members(name: Seq<char>, exposed: Seq<RouteView>, aligns: Seq<AlignmentView>)
    ensures
        forall|x: EndpointView|
            #[trigger] unused_of(name, exposed, aligns).contains(x) <==> exists|j: int|
                0 <= j < exposed.len() && #[trigger] reports_unused(aligns, name, exposed[j], x),
    decreases exposed.len(),
{
    if exposed.len() > 0 {
        let d = exposed.drop_last();
        let e = exposed.last();
        lemma_unused_of_members(name, d, aligns);
        let prev = unused_of(name, d, aligns);
        let u = unused_of(name, exposed, aligns);
        assert forall|x: EndpointView| #[trigger] u.contains(x) implies exists|j: int|
            0 <= j < exposed.len() && #[trigger] reports_unused(aligns, name, exposed[j], x) by {
            if prev.contains(x) {
                let j = choose|j: int| 0 <= j < d.len() && #[trigger] reports_unused(aligns, name, d[j], x);
                assert(exposed[j] == d[j]);
            } else {
                let w = choose|w: int| 0 <= w < u.len() && u[w] == x;
                assert(!consumed_by_any(aligns, name, e));
                assert(u == prev.push(EndpointView { project: name, path: path_of(e.segments), method: e.method }));
                if w < prev.len() {
                    assert(prev.contains(x));
                }
                assert(reports_unused(aligns, name, exposed[exposed.len() - 1], x));
            }
        }
        assert forall|x: EndpointView| (exists|j: int| 0 <= j < exposed.len() && #[trigger] reports_unused(aligns, name, exposed[j], x))
            implies #[trigger] u.contains(x) by {
            let j = choose|j: int| 0 <= j < exposed.len() && #[trigger] reports_unused(aligns, name, exposed[j], x);
            if j < d.len() {
                assert(reports_unused(aligns, name, d[j], x));
                assert(prev.contains(x));
                let w = choose|w: int| 0 <= w < prev.len() && prev[w] == x;
                if !consumed_by_any(aligns, name, e) {
                    assert(u[w] == prev[w]);
                }
                assert(u[w] == x);
            } else {
                assert(u.last() == x);
            }
        }
    }
}

/// Law: the unused endpoints are exactly the exposed routes of the projects
/// that are not libraries which no alignment other than an orphaned one
/// consumes, each reported under its project with its path and method.
pub proof fn law_unused_endpoints(projects: Seq<(Seq<char>, ActualView)>, aligns: Seq<AlignmentView>)
    ensures
        forall|x: EndpointView| #[trigger] unused_upto(projects, aligns).contains(x) <==> listed_as_unused(projects, aligns, x),
    decreases projects.len(),
{
    if projects.len() > 0 {
        let d = projects.drop_last();
        let p = projects.last();
        law_unused_endpoints(d, aligns);
        lemma_unused_of_members(p.0, p.1.exposed, aligns);
        let prev = unused_upto(d, aligns);
        let all = unused_upto(projects, aligns);
        let own = unused_of(p.0, p.1.exposed, aligns);
        assert forall|x: EndpointView| #[trigger] all.contains(x) implies listed_as_unused(projects, aligns, x) by {
            if prev.contains(x) {
                let (k, j) = choose|k: int, j: int|
                    0 <= k < d.len() && d[k].1.project_type != Some("library"@) && 0 <= j < d[k].1.exposed.len()
                        && #[trigger] reports_unused(aligns, d[k].0, d[k].1.exposed[j], x);
                assert(projects[k] == d[k]);
                assert(reports_unused(aligns, projects[k].0, projects[k].1.exposed[j], x));
            } else {
                assert(p.1.project_type != Some("library"@));
                let w = choose|w: int| 0 <= w < all.len() && all[w] == x;
                assert(all == prev + own);
                if w < prev.len() {
                    assert(prev.contains(x));
                }
                assert(own[w - prev.len()] == x);
                assert(own.contains(x));
                let j = choose|j: int| 0 <= j < p.1.exposed.len() && #[trigger] reports_unused(aligns, p.0, p.1.exposed[j], x);
                assert(reports_unused(aligns, projects[projects.len() - 1].0, projects[projects.len() - 1].1.exposed[j], x));
            }
        }
        assert forall|x: EndpointView| listed_as_unused(projects, aligns, x) implies #[trigger] all.contains(x) by {
            let (k, j) = choose|k: int, j: int|
                0 <= k < projects.len() && projects[k].1.project_type != Some("library"@) && 0 <= j
                    < projects[k].1.exposed.len() && #[trigger] reports_unused(aligns, projects[k].0, projects[k].1.exposed[j], x);
            if k < d.len() {
                assert(projects[k] == d[k]);
                assert(reports_unused(aligns, d[k].0, d[k].1.exposed[j], x));
                assert(listed_as_unused(d, aligns, x));
                assert(prev.contains(x));
                let w = choose|w: int| 0 <= w < prev.len() && prev[w] == x;
                if p.1.project_type != Some("library"@) {
                    assert(all == prev + own);
                    assert(all[w] == x);
                } else {
                    assert(all == prev);
                }
            } else {
                assert(reports_unused(aligns, p.0, p.1.exposed[j], x));
                assert(own.contains(x));
                let w = choose|w: int| 0 <= w < own.len() && own[w] == x;
                assert(all == prev + own);
                assert(all[prev.len() + w] == x);
            }
        }
    }
}

/// The alignments of one client: its consumed routes that get a status, each
/// recorded as `recorded_as` says, in order.
pub open spec fn client_alignments(
    p: (Seq<char>, ActualView),
    projects: Seq<(Seq<char>, ActualView)>,
    statuses: Seq<(Seq<char>, Seq<char>)>,
) -> Seq<AlignmentView> {
    p.1.consumed.filter(gets_status(p.0, projects, statuses)).map_values(recorded_as(p.0, projects, statuses))
}

proof fn lemma_alignments_of_flat(
    clients: Seq<(Seq<char>, ActualView)>,
    projects: Seq<(Seq<char>, ActualView)>,
    statuses: Seq<(Seq<char>, Seq<char>)>,
)
    ensures
        alignments_of(clients, projects, statuses) == clients.map_values(
            |p: (Seq<char>, ActualView)| client_alignments(p, projects, statuses),
        ).flatten_alt(),
        forall|i: int|
            0 <= i < alignments_of(clients, projects, statuses).len() ==> known_status(
                #[trigger] alignments_of(clients, projects, statuses)[i].status,
            ),
    decreases clients.len(),
{
    let m = clients.map_values(|p: (Seq<char>, ActualView)| client_alignments(p, projects, statuses));
    if clients.len() == 0 {
        assert(m.flatten_alt() =~= Seq::<AlignmentView>::empty());
    } else {
        let d = clients.drop_last();
        let c = clients.last();
        lemma_alignments_of_flat(d, projects, statuses);
        law_alignment_per_consumed_route(c.0, c.1.consumed, projects, statuses);
        assert(m.drop_last() =~= d.map_values(|p: (Seq<char>, ActualView)| client_alignments(p, projects, statuses)));
        assert(m.last() == client_alignments(c, projects, statuses));
        let prev = alignments_of(d, projects, statuses);
        let own = consumer_alignments(c.0, c.1.consumed, projects, statuses);
        let all = alignments_of(clients, projects, statuses);
        assert(all == prev + own);
        assert forall|i: int| 0 <= i < all.len() implies known_status(#[trigger] all[i].status) by {
            if i < prev.len() {
                assert(all[i] == prev[i]);
            } else {
                assert(all[i] == own[i - prev.len()]);
            }
        }
    }
}

/// Law: the alignments of the map are, client after client, each client's
/// consumed routes that get a status, in order, each recorded with its own
/// path, method and server; every consumed route that names a target gets
/// one, and every status is one of the five.
pub proof fn law_map_alignments(projects: Seq<(Seq<char>, ActualView)>, statuses: Seq<(Seq<char>, Seq<char>)>)
    ensures
        spec_alignments(projects, statuses) == projects.map_values(
            |p: (Seq<char>, ActualView)| client_alignments(p, projects, statuses),
        ).flatten(),
        forall|k: int, j: int|
            0 <= k < projects.len() && 0 <= j < projects[k].1.consumed.len() && target_of(
                #[trigger] projects[k].1.consumed[j],
            ).len() > 0 ==> gets_status(projects[k].0, projects, statuses)(projects[k].1.consumed[j]),
        forall|i: int|
            0 <= i < spec_alignments(projects, statuses).len() ==> known_status(
                #[trigger] spec_alignments(projects, statuses)[i].status,
            ),
{
    lemma_alignments_of_flat(projects, projects, statuses);
    let m = projects.map_values(|p: (Seq<char>, ActualView)| client_alignments(p, projects, statuses));
    m.lemma_flatten_and_flatten_alt_are_equivalent();
    assert forall|k: int, j: int|
        0 <= k < projects.len() && 0 <= j < projects[k].1.consumed.len() && target_of(
            #[trigger] projects[k].1.consumed[j],
        ).len() > 0 implies gets_status(projects[k].0, projects, statuses)(projects[k].1.consumed[j]) by {
        law_alignment_per_consumed_route(projects[k].0, projects[k].1.consumed, projects, statuses);
    }
}

/// Whether a project is not a library.
pub open spec fn not_library() -> spec_fn((Seq<char>, ActualView)) -> bool {
    |p: (Seq<char>, ActualView)| p.1.project_type != Some("library"@)
}

/// Whether nothing but an orphaned alignment consumes route `e` of `name`.
pub open spec fn unconsumed(aligns: Seq<AlignmentView>, name: Seq<char>) -> spec_fn(RouteView) -> bool {
    |e: RouteView| !consumed_by_any(aligns, name, e)
}

/// How an unused route of `name` is reported.
pub open spec fn endpoint_of(name: Seq<char>) -> spec_fn(RouteView) -> EndpointView {
    |e: RouteView| EndpointView { project: name, path: path_of(e.segments), method: e.method }
}

/// The unused endpoints of one project: each exposed route nothing consumes,
/// once per occurrence, in order.
pub open spec fn unused_in(aligns: Seq<AlignmentView>) -> spec_fn((Seq<char>, ActualView)) -> Seq<EndpointView> {
    |p: (Seq<char>, ActualView)| p.1.exposed.filter(unconsumed(aligns, p.0)).map_values(endpoint_of(p.0))
}

proof fn lemma_unused_of_filter(name: Seq<char>, exposed: Seq<RouteView>, aligns: Seq<AlignmentView>)
    ensures
        unused_of(name, exposed, aligns) == exposed.filter(unconsumed(aligns, name)).map_values(endpoint_of(name)),
    decreases exposed.len(),
{
    let p = unconsumed(aligns, name);
    let g = endpoint_of(name);
    if exposed.len() == 0 {
        reveal_with_fuel(Seq::filter, 1);
        assert(exposed.filter(p) =~= Seq::<RouteView>::empty());
        assert(exposed.filter(p).map_values(g) =~= Seq::<EndpointView>::empty());
    } else {
        let d = exposed.drop_last();
        let e = exposed.last();
        lemma_unused_of_filter(name, d, aligns);
        d.lemma_filter_push(e, p);
        assert(d.push(e) =~= exposed);
        if p(e) {
            assert(d.filter(p).push(e).map_values(g) =~= d.filter(p).map_values(g).push(g(e)));
        }
    }
}

proof fn lemma_unused_upto_flat(projects: Seq<(Seq<char>, ActualView)>, aligns: Seq<AlignmentView>)
    ensures
        unused_upto(projects, aligns) == projects.filter(not_library()).map_values(unused_in(aligns)).flatten_alt(),
    decreases projects.len(),
{
    let f = not_library();
    let u = unused_in(aligns);
    if projects.len() == 0 {
        reveal_with_fuel(Seq::filter, 1);
        assert(projects.filter(f) =~= Seq::<(Seq<char>, ActualView)>::empty());
        assert(projects.filter(f).map_values(u).flatten_alt() =~= Seq::<EndpointView>::empty());
    } else {
        let d = projects.drop_last();
        let p = projects.last();
        lemma_unused_upto_flat(d, aligns);
        d.lemma_filter_push(p, f);
        assert(d.push(p) =~= projects);
        if f(p) {
            lemma_unused_of_filter(p.0, p.1.exposed, aligns);
            let m = d.filter(f).push(p).map_values(u);
            assert(m.drop_last() =~= d.filter(f).map_values(u));
            assert(m.last() == u(p));
        }
    }
}

/// Law: the unused endpoints are, project after project, leaving out
/// libraries, each exposed route that no alignment other than an orphaned one
/// consumes, reported once per occurrence under its project with its path and
/// method, in order.
pub proof fn law_unused_endpoints_exact(projects: Seq<(Seq<char>, ActualView)>, aligns: Seq<AlignmentView>)
    ensures
        unused_upto(projects, aligns) == projects.filter(not_library()).map_values(unused_in(aligns)).flatten(),
{
    lemma_unused_upto_flat(projects, aligns);
    projects.filter(not_library()).map_values(unused_in(aligns)).lemma_flatten_and_flatten_alt_are_equivalent();
}

/// Law: one aggregated edge per (client, server) pair. No two edges share a
/// pair, the pair of every alignment has an edge, the pair of every edge is
/// that of some alignment, and each edge is `edge_for` its pair: it counts,
/// grades and lists exactly the alignments of that pair, in order.
pub proof fn law_one_edge_per_pair(aligns: Seq<AlignmentView>, projects: Seq<(Seq<char>, ActualView)>)
    ensures
        edges_of_pairs(spec_edges(aligns, projects), aligns, projects),
{
    lemma_edge_keys(aligns);
    let k = edge_keys(aligns);
    let e = spec_edges(aligns, projects);
    assert forall|i: int| 0 <= i < e.len() implies #[trigger] e[i] == edge_for(aligns, projects, (e[i].client, e[i].server))
        && (e[i].client, e[i].server) == k[i] by {
        assert(e[i] == edge_for(aligns, projects, k[i]));
    }
    assert forall|i: int, j: int| #![trigger e[i], e[j]] 0 <= i < j < e.len() implies (e[i].client, e[i].server) != (
        e[j].client,
        e[j].server,
    ) by {
        assert(k[i] != k[j]);
    }
    assert forall|q: int| 0 <= q < aligns.len() implies exists|i: int|
        0 <= i < e.len() && #[trigger] e[i].client == aligns[q].client && e[i].server == #[trigger] aligns[q].server by {
        assert(k.contains(pair_key(aligns[q])));
        let w = choose|w: int| 0 <= w < k.len() && k[w] == pair_key(aligns[q]);
        assert(e[w] == edge_for(aligns, projects, k[w]));
    }
    assert forall|i: int| 0 <= i < e.len() implies exists|q: int|
        0 <= q < aligns.len() && #[trigger] e[i].client == aligns[q].client && e[i].server == #[trigger] aligns[q].server by {
        assert(e[i] == edge_for(aligns, projects, k[i]));
        let q = choose|q: int| 0 <= q < aligns.len() && pair_key(aligns[q]) == #[trigger] k[i];
        assert(pair_key(aligns[q]) == k[i]);
    }
}

/// Edges equal to `spec_edges` of some alignments: one per pair, covering
/// exactly the pairs of the alignments, each `edge_for` its pair.
pub open spec fn edges_of_pairs(e: Seq<EdgeView>, a: Seq<AlignmentView>, ps: Seq<(Seq<char>, ActualView)>) -> bool {
    &&& forall|i: int, j: int|
        #![trigger e[i], e[j]]
        0 <= i < j < e.len() ==> (e[i].client, e[i].server) != (e[j].client, e[j].server)
    &&& forall|q: int|
        0 <= q < a.len() ==> exists|i: int|
            0 <= i < e.len() && #[trigger] e[i].client == a[q].client && e[i].server == #[trigger] a[q].server
    &&& forall|i: int|
        0 <= i < e.len() ==> exists|q: int|
            0 <= q < a.len() && #[trigger] e[i].client == a[q].client && e[i].server == #[trigger] a[q].server
    &&& forall|i: int| 0 <= i < e.len() ==> #[trigger] e[i] == edge_for(a, ps, (e[i].client, e[i].server))
}

/// Law: the edges of a topology map (`generate_lunar_map` builds them as
/// `spec_edges` of its alignments), read off the map itself: no two share a
/// (client, server) pair, every alignment's pair has an edge and every edge's
/// pair has an alignment, each edge is `edge_for` its pair over the map's
/// alignments (their count, worst status and `METHOD path` list, in order),
/// and the call counts add up to the number of alignments.
pub proof fn law_map_edges(r: LunarMap, ps: Seq<(Seq<char>, ActualView)>)
    requires
        edge_views(r.aggregated_edges@) == spec_edges(alignment_views(r.alignments@), ps),
        r.alignments@.len() <= usize::MAX,
    ensures
        edges_of_pairs(edge_views(r.aggregated_edges@), alignment_views(r.alignments@), ps),
        total_calls(edge_views(r.aggregated_edges@)) == r.alignments@.len(),
{
    let a = alignment_views(r.alignments@);
    law_one_edge_per_pair(a, ps);
    law_edges_partition_alignments(a, ps);
}

/// One entry per project: the map lists as many projects as it was given,
/// the `k`-th under the `k`-th project's name with the entry `info_for`
/// gives it, and, the given names being distinct, no name has two entries.
pub proof fn law_one_project_per_name(
    r: LunarMap,
    ps: Seq<(Seq<char>, ActualView)>,
    statuses: Seq<(Seq<char>, Seq<char>)>,
    paths: Seq<(Seq<char>, Seq<char>)>,
)
    requires
        distinct_keys(ps),
        info_views(r.projects@) == ps.map_values(|p: (Seq<char>, ActualView)| info_for(p, statuses, paths)),
    ensures
        r.projects@.len() == ps.len(),
        forall|k: int|
            0 <= k < ps.len() ==> #[trigger] r.projects@[k]@ == info_for(ps[k], statuses, paths)
                && r.projects@[k].name@ == ps[k].0,
        forall|a: int, b: int|
            0 <= a < b < r.projects@.len() ==> #[trigger] r.projects@[a].name@ != #[trigger] r.projects@[b].name@,
{
    assert(info_views(r.projects@).len() == r.projects@.len());
    assert(r.projects@.len() == ps.len());
    assert forall|k: int| 0 <= k < ps.len() implies #[trigger] r.projects@[k]@ == info_for(ps[k], statuses, paths)
        && r.projects@[k].name@ == ps[k].0 by {
        assert(info_views(r.projects@)[k] == r.projects@[k]@);
    }
    assert forall|a: int, b: int| 0 <= a < b < r.projects@.len() implies #[trigger] r.projects@[a].name@
        != #[trigger] r.projects@[b].name@ by {
        assert(info_views(r.projects@)[a] == r.projects@[a]@);
        assert(info_views(r.projects@)[b] == r.projects@[b]@);
        assert(ps[a].0 != ps[b].0);
    }
}

/// Law: an edge's status is its most alarming one, in the order
/// `MethodMismatch`, `Orphaned`, `ParamNameMismatch`, `Aligned`: any method
/// mismatch makes the edge a method mismatch; otherwise any orphan makes it
/// orphaned; otherwise any parameter name mismatch makes it one; an edge of
/// aligned calls only, or of none, is aligned.
pub proof fn law_edge_status_by_severity(ss: Seq<Seq<char>>)
    ensures
        ss.contains("MethodMismatch"@) ==> spec_aggregate_status(ss) == "MethodMismatch"@,
        !ss.contains("MethodMismatch"@) && ss.contains("Orphaned"@) ==> spec_aggregate_status(ss) == "Orphaned"@,
        !ss.contains("MethodMismatch"@) && !ss.contains("Orphaned"@) && ss.contains("ParamNameMismatch"@)
            ==> spec_aggregate_status(ss) == "ParamNameMismatch"@,
        (forall|j: int| 0 <= j < ss.len() ==> #[trigger] ss[j] == "Aligned"@) ==> spec_aggregate_status(ss) == "Aligned"@,
{
    reveal_strlit("MethodMismatch");
    reveal_strlit("Orphaned");
    reveal_strlit("ParamNameMismatch");
    reveal_strlit("Aligned");
    if ss.len() > 0 {
        law_edge_status_is_worst(ss);
        let r = spec_aggregate_status(ss);
        let w = choose|w: int| 0 <= w < ss.len() && ss[w] == r;
        if ss.contains("MethodMismatch"@) {
            let j = choose|j: int| 0 <= j < ss.len() && ss[j] == "MethodMismatch"@;
            assert(priority(r) <= priority(ss[j]));
        } else if ss.contains("Orphaned"@) {
            let j = choose|j: int| 0 <= j < ss.len() && ss[j] == "Orphaned"@;
            assert(priority(r) <= priority(ss[j]));
            assert(r != "MethodMismatch"@) by {
                if r == "MethodMismatch"@ {
                    assert(ss[w] == "MethodMismatch"@);
                }
            }
        } else if ss.contains("ParamNameMismatch"@) {
            let j = choose|j: int| 0 <= j < ss.len() && ss[j] == "ParamNameMismatch"@;
            assert(priority(r) <= priority(ss[j]));
            assert(r != "MethodMismatch"@ && r != "Orphaned"@) by {
                if r == "MethodMismatch"@ || r == "Orphaned"@ {
                    assert(ss[w] == r);
                }
            }
        }
        if forall|j: int| 0 <= j < ss.len() ==> #[trigger] ss[j] == "Aligned"@ {
            assert(ss[w] == "Aligned"@);
        }
    }
}

/// Law: the orphaned consumers are the orphaned alignments, in order, each
/// reported under its client project with the call's path and method.
pub proof fn law_orphans_are_clients(aligns: Seq<AlignmentView>)
    ensures
        spec_orphans(aligns).len() == aligns.filter(|a: AlignmentView| a.status == "Orphaned"@).len(),
        forall|k: int|
            0 <= k < spec_orphans(aligns).len() ==> #[trigger] spec_orphans(aligns)[k] == (EndpointView {
                project: aligns.filter(|a: AlignmentView| a.status == "Orphaned"@)[k].client,
                path: aligns.filter(|a: AlignmentView| a.status == "Orphaned"@)[k].path,
                method: aligns.filter(|a: AlignmentView| a.status == "Orphaned"@)[k].method,
            }),
{
    let f1 = |a: AlignmentView| is_orphaned(a);
    let f2 = |a: AlignmentView| a.status == "Orphaned"@;
    assert(f1 =~= f2);
}

/// The target a consumed route names, empty when it names none.
pub open spec fn named_target(c: RouteView) -> Seq<char> {
    match c.target_project {
        Some(t) => t,
        None => Seq::empty(),
    }
}

/// Project `i` is the first other project that may serve consumed route `c`
/// of `client` (the named target, or any when none is named, exposing a
/// route of `c`'s structure), and its route `k` is the first of that
/// structure.
pub open spec fn first_provider(
    c: RouteView,
    client: Seq<char>,
    projects: Seq<(Seq<char>, ActualView)>,
    i: int,
    k: int,
) -> bool {
    let t = named_target(c);
    let sid = structural_id_of(c.segments);
    &&& 0 <= i < projects.len()
    &&& projects[i].0 != client
    &&& (t.len() == 0 || t == projects[i].0)
    &&& 0 <= k < projects[i].1.exposed.len()
    &&& structural_id_of(projects[i].1.exposed[k].segments) == sid
    &&& forall|q: int| 0 <= q < k ==> structural_id_of(#[trigger] projects[i].1.exposed[q].segments) != sid
    &&& forall|p: int|
        0 <= p < i ==> #[trigger] projects[p].0 == client || (t.len() > 0 && t != projects[p].0) || forall|q: int|
            0 <= q < projects[p].1.exposed.len() ==> structural_id_of(#[trigger] projects[p].1.exposed[q].segments)
                != sid
}

/// A project's scan is neither failed nor stale.
pub open spec fn scan_trusted(statuses: Seq<(Seq<char>, Seq<char>)>, name: Seq<char>) -> bool {
    lookup(statuses, name) != Some("failed"@) && lookup(statuses, name) != Some("stale"@)
}

/// Law: a consumed route compared with the first route of its structure that
/// the first possible provider exposes, both scans trusted, is a
/// `MethodMismatch` when the methods differ; with the same method it is a
/// `ParamNameMismatch` when some position holds parameters of different names
/// in both, and `Aligned` when every such position names them alike.
pub proof fn law_alignment_outcome(
    c: RouteView,
    client: Seq<char>,
    projects: Seq<(Seq<char>, ActualView)>,
    statuses: Seq<(Seq<char>, Seq<char>)>,
    i: int,
    k: int,
)
    requires
        first_provider(c, client, projects, i, k),
        named_target(c).len() > 0 ==> scan_trusted(statuses, named_target(c)),
        scan_trusted(statuses, projects[i].0),
    ensures
        c.method != projects[i].1.exposed[k].method ==> spec_align(c, client, projects, statuses) == (
            "MethodMismatch"@,
            None::<Seq<char>>,
        ),
        c.method == projects[i].1.exposed[k].method && (exists|j: int|
            0 <= j < c.segments.len() && j < projects[i].1.exposed[k].segments.len() && c.segments[j].kind
                == "parameter"@ && projects[i].1.exposed[k].segments[j].kind == "parameter"@
                && c.segments[j].name is Some && projects[i].1.exposed[k].segments[j].name is Some
                && #[trigger] c.segments[j].name != projects[i].1.exposed[k].segments[j].name)
            ==> spec_align(c, client, projects, statuses) == ("ParamNameMismatch"@, None::<Seq<char>>),
        c.method == projects[i].1.exposed[k].method && (forall|j: int|
            0 <= j < c.segments.len() && j < projects[i].1.exposed[k].segments.len() && c.segments[j].kind
                == "parameter"@ && projects[i].1.exposed[k].segments[j].kind == "parameter"@
                ==> #[trigger] c.segments[j].name == projects[i].1.exposed[k].segments[j].name)
            ==> spec_align(c, client, projects, statuses) == ("Aligned"@, None::<Seq<char>>),
{
    reveal_strlit("failed");
    reveal_strlit("stale");
    let t = target_of(c);
    let sid = structural_id_of(c.segments);
    let ex = projects[i].1.exposed;
    let r = ex[k];
    lemma_first_index_at(ex, has_sid_view(sid), k);
    let srv = serves(client, t, sid);
    assert(srv(projects[i]));
    assert forall|p: int| 0 <= p < i implies !srv(#[trigger] projects[p]) by {
        let e = projects[p].1.exposed;
        lemma_first_index(e, has_sid_view(sid));
        if first_index(e, has_sid_view(sid)) >= 0 {
            let f = first_index(e, has_sid_view(sid));
            assert(structural_id_of(e[f].segments) == sid);
        }
    }
    lemma_first_index_at(projects, srv, i);
    assert(!scan_unreliable(lookup(statuses, projects[i].0)));
    assert(t.len() > 0 ==> !scan_unreliable(lookup(statuses, t)));
    let a = c.segments;
    let b = r.segments;
    let n = min_len(a, b);
    if c.method == r.method {
        if exists|j: int|
            0 <= j < a.len() && j < b.len() && a[j].kind == "parameter"@ && b[j].kind == "parameter"@ && a[j].name is Some
                && b[j].name is Some && #[trigger] a[j].name != b[j].name {
            let j = choose|j: int|
                0 <= j < a.len() && j < b.len() && a[j].kind == "parameter"@ && b[j].kind == "parameter"@
                    && a[j].name is Some && b[j].name is Some && #[trigger] a[j].name != b[j].name;
            lemma_aligned_names_differ(a, b, n, j);
        }
        if forall|j: int|
            0 <= j < a.len() && j < b.len() && a[j].kind == "parameter"@ && b[j].kind == "parameter"@
                ==> #[trigger] a[j].name == b[j].name {
            lemma_aligned_names_agree(a, b, n);
        }
    }
}

/// No other project may serve consumed route `c` of `client`: none is the
/// named target (or any, when none is named) exposing a route of `c`'s
/// structure.
pub open spec fn no_provider(c: RouteView, client: Seq<char>, projects: Seq<(Seq<char>, ActualView)>) -> bool {
    let t = named_target(c);
    let sid = structural_id_of(c.segments);
    forall|p: int|
        0 <= p < projects.len() ==> #[trigger] projects[p].0 == client || (t.len() > 0 && t != projects[p].0) || forall|q: int|
            0 <= q < projects[p].1.exposed.len() ==> structural_id_of(#[trigger] projects[p].1.exposed[q].segments) != sid
}

/// Law: a consumed route whose named target's scan failed or is stale is
/// `Unverified`, with the warning that says so; so is one whose first possible
/// provider's scan failed or is stale. A route nothing may serve is `Orphaned`
/// when it names a trusted target, and gets no alignment (an empty status)
/// when it names none.
pub proof fn law_alignment_unverified_or_unserved(
    c: RouteView,
    client: Seq<char>,
    projects: Seq<(Seq<char>, ActualView)>,
    statuses: Seq<(Seq<char>, Seq<char>)>,
    i: int,
    k: int,
)
    ensures
        named_target(c).len() > 0 && !scan_trusted(statuses, named_target(c)) ==> spec_align(c, client, projects, statuses)
            == ("Unverified"@, Some("Server project scan failed or stale"@)),
        first_provider(c, client, projects, i, k) && !scan_trusted(statuses, projects[i].0) ==> spec_align(
            c,
            client,
            projects,
            statuses,
        ) == ("Unverified"@, Some("Server project scan failed or stale"@)),
        no_provider(c, client, projects) && named_target(c).len() > 0 && scan_trusted(statuses, named_target(c))
            ==> spec_align(c, client, projects, statuses) == ("Orphaned"@, None::<Seq<char>>),
        no_provider(c, client, projects) && named_target(c).len() == 0 ==> spec_align(c, client, projects, statuses) == (
            Seq::<char>::empty(),
            None::<Seq<char>>,
        ),
{
    reveal_strlit("failed");
    reveal_strlit("stale");
    let t = target_of(c);
    let sid = structural_id_of(c.segments);
    let srv = serves(client, t, sid);
    if first_provider(c, client, projects, i, k) {
        let ex = projects[i].1.exposed;
        lemma_first_index_at(ex, has_sid_view(sid), k);
        assert(srv(projects[i]));
        assert forall|p: int| 0 <= p < i implies !srv(#[trigger] projects[p]) by {
            let e = projects[p].1.exposed;
            lemma_first_index(e, has_sid_view(sid));
            if first_index(e, has_sid_view(sid)) >= 0 {
                let f = first_index(e, has_sid_view(sid));
                assert(structural_id_of(e[f].segments) == sid);
            }
        }
        lemma_first_index_at(projects, srv, i);
    }
    if no_provider(c, client, projects) {
        lemma_first_index(projects, srv);
        if first_index(projects, srv) >= 0 {
            let f = first_index(projects, srv);
            let e = projects[f].1.exposed;
            lemma_first_index(e, has_sid_view(sid));
            let g = first_index(e, has_sid_view(sid));
            assert(structural_id_of(e[g].segments) == sid);
        }
    }
}

} // verus!
