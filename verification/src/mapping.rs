//! Compiling the topology map from the scanned projects: each project's
//! facts with its intent overlay merged in, under its workspace path.

use vstd::prelude::*;
use crate::text::{opt_view, pair_views, distinct_keys};
use crate::interfaces::{ActualJson, ActualView, InterfacesYml, actual_well_formed, overlay_opt, opt_items, merge_intent_into_actual};
use crate::topology::{
    LunarMap, project_views, projects_well_formed, generate_lunar_map, info_views, info_for, alignment_views,
    spec_alignments, edge_views, spec_edges, endpoint_views, unused_upto, spec_orphans,
};

verus! {

/// What `std::path::Path::parent` gives for a path: the path without its
/// last component, none for a root or an empty path.
pub uninterp spec fn path_parent(p: Seq<char>) -> Option<Seq<char>>;

/// `std::path::Path::new(p).parent()`, as text: named `path_parent`.
#[verifier::external_body]
fn parent_of(p: &str) -> (r: Option<String>)
    ensures
        opt_view(r) == path_parent(p@),
{
    std::path::Path::new(p).parent().map(|q| q.to_string_lossy().to_string())
}

/// The workspace of a facts file `<workspace>/.lunar/<file>`: its
/// grandparent directory, `unknown` when there is none.
pub open spec fn spec_workspace(facts_path: Seq<char>) -> Seq<char> {
    match path_parent(facts_path) {
        Some(dir) => match path_parent(dir) {
            Some(w) => w,
            None => "unknown"@,
        },
        None => "unknown"@,
    }
}

/// The workspace of a facts file (see `spec_workspace`).
pub fn workspace_of(facts_path: &str) -> (r: String)
    ensures
        r@ == spec_workspace(facts_path@),
{
    match parent_of(facts_path) {
        Some(dir) => match parent_of(dir.as_str()) {
            Some(w) => w,
            None => String::from_str("unknown"),
        },
        None => String::from_str("unknown"),
    }
}

/// The projects a map is compiled from: each project's name and the path
/// of its facts file.
pub struct LunarMapConfig {
    pub projects: Vec<(String, String)>,
}

/// A project as the map compiler receives it: its name, where its facts
/// file lies, the facts, and its intent overlay when one could be read.
pub struct ScannedProject {
    pub name: String,
    pub facts_path: String,
    pub actual: ActualJson,
    pub intent: Option<InterfacesYml>,
}

/// The facts of a project with its overlay merged in (as
/// `merge_intent_into_actual` does), unchanged without one.
pub open spec fn merged_view(a: ActualView, intent: Option<InterfacesYml>) -> ActualView {
    match intent {
        Some(i) => ActualView {
            exposed: overlay_opt(a.exposed, opt_items(i.exposed), false),
            consumed: overlay_opt(a.consumed, opt_items(i.consumed), true),
            project_type: match i.project_type {
                Some(pt) => Some(pt@),
                None => a.project_type,
            },
        },
        None => a,
    }
}

pub open spec fn merged_projects(ps: Seq<ScannedProject>) -> Seq<(Seq<char>, ActualView)> {
    ps.map_values(|p: ScannedProject| (p.name@, merged_view(p.actual@, p.intent)))
}

pub open spec fn project_workspaces(ps: Seq<ScannedProject>) -> Seq<(Seq<char>, Seq<char>)> {
    ps.map_values(|p: ScannedProject| (p.name@, spec_workspace(p.facts_path@)))
}

/// No two scanned projects share a name.
pub open spec fn distinct_names(ps: Seq<ScannedProject>) -> bool {
    forall|i: int, j: int| #![trigger ps[i], ps[j]] 0 <= i < j < ps.len() ==> ps[i].name@ != ps[j].name@
}

pub open spec fn scanned_well_formed(ps: Seq<ScannedProject>) -> bool {
    forall|i: int| 0 <= i < ps.len() ==> #[trigger] actual_well_formed(ps[i].actual@)
}

/// The map's inputs: each project's merged facts and its workspace, in order.
pub fn prepare_map_inputs(projects: Vec<ScannedProject>) -> (r: (Vec<(String, ActualJson)>, Vec<(String, String)>))
    requires
        scanned_well_formed(projects@),
    ensures
        project_views(r.0@) == merged_projects(projects@),
        pair_views(r.1@) == project_workspaces(projects@),
        projects_well_formed(project_views(r.0@)),
{
    let ghost all = projects@;
    let mut rest = projects;
    let mut actuals: Vec<(String, ActualJson)> = Vec::new();
    let mut paths: Vec<(String, String)> = Vec::new();
    let n = rest.len();
    let mut i: usize = 0;
    assert(rest@ =~= all.skip(0));
    assert(project_views(actuals@) =~= merged_projects(all.take(0)));
    assert(pair_views(paths@) =~= project_workspaces(all.take(0)));
    while i < n
        invariant
            n == all.len(),
            scanned_well_formed(all),
            rest@ == all.skip(i as int),
            i <= n,
            project_views(actuals@) == merged_projects(all.take(i as int)),
            pair_views(paths@) == project_workspaces(all.take(i as int)),
            projects_well_formed(project_views(actuals@)),
        decreases n - i,
    {
        assert(rest@[0] == all[i as int]);
        let p = rest.remove(0);
        assert(rest@ =~= all.skip(i + 1));
        assert(actual_well_formed(all[i as int].actual@));
        let ScannedProject { name, facts_path, actual, intent } = p;
        let mut merged = actual;
        match &intent {
            Some(overlay) => merge_intent_into_actual(&mut merged, overlay),
            None => {},
        }
        let ghost mv = merged@;
        assert(mv == merged_view(all[i as int].actual@, all[i as int].intent));
        let workspace = workspace_of(facts_path.as_str());
        let ghost a0 = project_views(actuals@);
        let ghost p0 = pair_views(paths@);
        let name2 = name.clone();
        actuals.push((name, merged));
        paths.push((name2, workspace));
        proof {
            assert(all.take(i + 1) =~= all.take(i as int).push(all[i as int]));
            assert(project_views(actuals@) =~= a0.push((all[i as int].name@, mv)));
            assert(pair_views(paths@) =~= p0.push((all[i as int].name@, spec_workspace(all[i as int].facts_path@))));
            assert forall|k: int| 0 <= k < project_views(actuals@).len() implies #[trigger] actual_well_formed(
                project_views(actuals@)[k].1,
            ) by {
                if k < a0.len() {
                    assert(project_views(actuals@)[k] == a0[k]);
                }
            }
        }
        i = i + 1;
    }
    assert(all.take(n as int) =~= all);
    (actuals, paths)
}

/// Whether `r` is the map of projects `ps` under scan statuses `statuses`
/// and workspaces `paths`, as `generate_lunar_map` states it.
pub open spec fn is_map_of(
    r: LunarMap,
    ps: Seq<(Seq<char>, ActualView)>,
    statuses: Seq<(Seq<char>, Seq<char>)>,
    paths: Seq<(Seq<char>, Seq<char>)>,
) -> bool {
    &&& r.version@ == "0.5.0"@
    &&& info_views(r.projects@) == ps.map_values(|p: (Seq<char>, ActualView)| info_for(p, statuses, paths))
    &&& alignment_views(r.alignments@) == spec_alignments(ps, statuses)
    &&& edge_views(r.aggregated_edges@) == spec_edges(spec_alignments(ps, statuses), ps)
    &&& endpoint_views(r.anomalies.unused_endpoints@) == unused_upto(ps, spec_alignments(ps, statuses))
    &&& endpoint_views(r.anomalies.orphaned_consumers@) == spec_orphans(spec_alignments(ps, statuses))
    &&& r.anomalies.cross_layer_violations@.len() == 0
}

/// The topology map of the scanned projects: their merged facts, with no
/// scan statuses, under their workspaces.
pub fn compile_map(projects: Vec<ScannedProject>) -> (r: LunarMap)
    requires
        scanned_well_formed(projects@),
        distinct_names(projects@),
    ensures
        is_map_of(
            r,
            merged_projects(projects@),
            Seq::<(Seq<char>, Seq<char>)>::empty(),
            project_workspaces(projects@),
        ),
{
    let ghost ps = projects@;
    let (actuals, paths) = prepare_map_inputs(projects);
    let statuses: Vec<(String, String)> = Vec::new();
    assert(pair_views(statuses@) =~= Seq::<(Seq<char>, Seq<char>)>::empty());
    proof {
        let mp = merged_projects(ps);
        let wp = project_workspaces(ps);
        assert forall|i: int, j: int| #![trigger mp[i], mp[j]] 0 <= i < j < mp.len() implies mp[i].0 != mp[j].0 by {
            assert(ps[i].name@ != ps[j].name@);
        }
        assert forall|i: int, j: int| #![trigger wp[i], wp[j]] 0 <= i < j < wp.len() implies wp[i].0 != wp[j].0 by {
            assert(ps[i].name@ != ps[j].name@);
        }
    }
    generate_lunar_map(&actuals, &statuses, &paths)
}

/// The bucket a map is uploaded to: the one given on the command line, else
/// the one the environment names; none without either.
pub fn upload_bucket(given: &Option<String>, configured: &Option<String>) -> (r: Option<String>)
    ensures
        opt_view(r) == (match opt_view(*given) {
            Some(b) => Some(b),
            None => opt_view(*configured),
        }),
{
    match given {
        Some(b) => Some(b.clone()),
        None => crate::text::copy_opt(configured),
    }
}

} // verus!
