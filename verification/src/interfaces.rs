//! Physical facts (`ActualJson`), the intent overlay (`InterfacesYml`) and the
//! merges between them.

use vstd::prelude::*;
use crate::text::{str_eq, copy_opt, opt_view};
use crate::route::{
    RouteEntry, RouteView, RouteSegment, route_well_formed, path_of, path_segments,
    parse_path_to_segments, route_views,
};

verus! {

/// Routes extracted from code: what a project exposes and what it consumes.
#[derive(Debug)]
pub struct ActualJson {
    pub exposed: Vec<RouteEntry>,
    pub consumed: Vec<RouteEntry>,
    pub project_type: Option<String>,
}

/// One declared interface in `interfaces.yml`.
#[derive(Debug, Clone)]
pub struct InterfaceItem {
    pub path: String,
    pub method: String,
    pub reason: Option<String>,
    pub target_project: Option<String>,
}

/// The human-maintained intent overlay, `interfaces.yml`.
#[derive(Debug)]
pub struct InterfacesYml {
    pub project: Option<String>,
    pub project_type: Option<String>,
    pub environment: Option<String>,
    pub exposed: Option<Vec<InterfaceItem>>,
    pub consumed: Option<Vec<InterfaceItem>>,
}

#[verifier::ext_equal]
pub struct ItemView {
    pub path: Seq<char>,
    pub method: Seq<char>,
    pub reason: Option<Seq<char>>,
    pub target_project: Option<Seq<char>>,
}

impl View for InterfaceItem {
    type V = ItemView;

    open spec fn view(&self) -> ItemView {
        ItemView {
            path: self.path@,
            method: self.method@,
            reason: opt_view(self.reason),
            target_project: opt_view(self.target_project),
        }
    }
}

pub open spec fn item_views(s: Seq<InterfaceItem>) -> Seq<ItemView> {
    s.map_values(|x: InterfaceItem| x@)
}

pub open spec fn opt_items(o: Option<Vec<InterfaceItem>>) -> Option<Seq<ItemView>> {
    match o {
        Some(v) => Some(item_views(v@)),
        None => None,
    }
}

#[verifier::ext_equal]
pub struct ActualView {
    pub exposed: Seq<RouteView>,
    pub consumed: Seq<RouteView>,
    pub project_type: Option<Seq<char>>,
}

impl View for ActualJson {
    type V = ActualView;

    open spec fn view(&self) -> ActualView {
        ActualView {
            exposed: route_views(self.exposed@),
            consumed: route_views(self.consumed@),
            project_type: opt_view(self.project_type),
        }
    }
}

/// Every route of the facts can be rendered.
pub open spec fn actual_well_formed(a: ActualView) -> bool {
    &&& forall|i: int| 0 <= i < a.exposed.len() ==> #[trigger] route_well_formed(a.exposed[i])
    &&& forall|i: int| 0 <= i < a.consumed.len() ==> #[trigger] route_well_formed(a.consumed[i])
}

pub open spec fn all_well_formed(routes: Seq<RouteView>) -> bool {
    forall|i: int| 0 <= i < routes.len() ==> #[trigger] route_well_formed(routes[i])
}

/// A route renders to `path` and has method `method`.
pub open spec fn route_matches(r: RouteView, path: Seq<char>, method: Seq<char>) -> bool {
    path_of(r.segments) == path && r.method == method
}

/// The index of the first route rendering to `path` with `method`, or -1.
pub open spec fn first_route(routes: Seq<RouteView>, path: Seq<char>, method: Seq<char>) -> int
    decreases routes.len(),
{
    if routes.len() == 0 {
        -1
    } else {
        let k = first_route(routes.drop_last(), path, method);
        if k >= 0 {
            k
        } else if route_matches(routes.last(), path, method) {
            routes.len() - 1
        } else {
            -1
        }
    }
}

/// The route an intent item stands for when the facts lack it. Only consumed
/// routes take the item's target project.
pub open spec fn manual_route(item: ItemView, consumed: bool) -> RouteView {
    RouteView {
        method: item.method,
        segments: path_segments(item.path),
        source_file: "manual"@,
        line_number: 0,
        extraction_method: "manual"@,
        target_project: if consumed {
            item.target_project
        } else {
            None
        },
    }
}

/// Overlays one intent item: a matching route takes the item's target project
/// when the item names one; otherwise the item is appended as a manual route.
pub open spec fn overlay_item(routes: Seq<RouteView>, item: ItemView, consumed: bool) -> Seq<RouteView> {
    let k = first_route(routes, item.path, item.method);
    if k >= 0 {
        if item.target_project is Some {
            routes.update(k, RouteView { target_project: item.target_project, ..routes[k] })
        } else {
            routes
        }
    } else {
        routes.push(manual_route(item, consumed))
    }
}

/// Overlays intent items one after the other.
pub open spec fn overlay_items(routes: Seq<RouteView>, items: Seq<ItemView>, consumed: bool) -> Seq<
    RouteView,
>
    decreases items.len(),
{
    if items.len() == 0 {
        routes
    } else {
        overlay_item(overlay_items(routes, items.drop_last(), consumed), items.last(), consumed)
    }
}

pub open spec fn overlay_opt(routes: Seq<RouteView>, items: Option<Seq<ItemView>>, consumed: bool) -> Seq<
    RouteView,
> {
    match items {
        Some(v) => overlay_items(routes, v, consumed),
        None => routes,
    }
}

/// `first_route` finds the first match, if there is one.
pub proof fn lemma_first_route(routes: Seq<RouteView>, path: Seq<char>, method: Seq<char>)
    ensures
        first_route(routes, path, method) >= 0 ==> ({
            let k = first_route(routes, path, method);
            &&& k < routes.len()
            &&& route_matches(routes[k], path, method)
            &&& forall|j: int| 0 <= j < k ==> !route_matches(#[trigger] routes[j], path, method)
        }),
        first_route(routes, path, method) < 0 ==> (first_route(routes, path, method) == -1
            && forall|j: int| 0 <= j < routes.len() ==> !route_matches(#[trigger] routes[j], path, method)),
    decreases routes.len(),
{
    if routes.len() > 0 {
        lemma_first_route(routes.drop_last(), path, method);
        let k = first_route(routes.drop_last(), path, method);
        if k >= 0 {
            assert forall|j: int| 0 <= j < k implies !route_matches(#[trigger] routes[j], path, method) by {
                assert(routes[j] == routes.drop_last()[j]);
            }
            assert(routes[k] == routes.drop_last()[k]);
        } else {
            assert forall|j: int| 0 <= j < routes.len() - 1 implies !route_matches(#[trigger] routes[j], path, method) by {
                assert(routes[j] == routes.drop_last()[j]);
            }
        }
    }
}

/// Index of the first route rendering to `path` with `method`.
fn find_route(routes: &Vec<RouteEntry>, path: &str, method: &str) -> (r: Option<usize>)
    requires
        all_well_formed(route_views(routes@)),
    ensures
        match r {
            Some(k) => k as int == first_route(route_views(routes@), path@, method@),
            None => first_route(route_views(routes@), path@, method@) == -1,
        },
{
    let ghost rv = route_views(routes@);
    proof {
        lemma_first_route(rv, path@, method@);
    }
    let n = routes.len();
    let mut i: usize = 0;
    while i < n
        invariant
            n == routes@.len(),
            rv == route_views(routes@),
            all_well_formed(rv),
            i <= n,
            forall|j: int| 0 <= j < i ==> !route_matches(#[trigger] rv[j], path@, method@),
        decreases n - i,
    {
        assert(route_well_formed(rv[i as int]));
        assert(rv[i as int] == routes@[i as int]@);
        let p = routes[i].to_path();
        if str_eq(p.as_str(), path) && str_eq(routes[i].method.as_str(), method) {
            proof {
                lemma_first_route(rv, path@, method@);
                assert(route_matches(rv[i as int], path@, method@));
                if first_route(rv, path@, method@) < 0 {
                    assert(!route_matches(rv[i as int], path@, method@));
                } else {
                    let k = first_route(rv, path@, method@);
                    if k < i {
                        assert(!route_matches(rv[k], path@, method@));
                    }
                    if k > i {
                        assert(!route_matches(rv[i as int], path@, method@));
                    }
                }
            }
            return Some(i);
        }
        i = i + 1;
    }
    proof {
        if first_route(rv, path@, method@) >= 0 {
            let k = first_route(rv, path@, method@);
            assert(!route_matches(rv[k], path@, method@));
        }
    }
    None
}

/// Overlays the items onto `routes` in order (see `overlay_items`).
fn overlay_into(routes: &mut Vec<RouteEntry>, items: &Vec<InterfaceItem>, consumed: bool)
    requires
        all_well_formed(route_views(old(routes)@)),
    ensures
        route_views(final(routes)@) == overlay_items(route_views(old(routes)@), item_views(items@), consumed),
        all_well_formed(route_views(final(routes)@)),
{
    let n = items.len();
    let mut i: usize = 0;
    while i < n
        invariant
            n == items@.len(),
            i <= n,
            route_views(routes@) == overlay_items(route_views(old(routes)@), item_views(items@).take(i as int), consumed),
            all_well_formed(route_views(routes@)),
        decreases n - i,
    {
        let item = &items[i];
        let ghost before = route_views(routes@);
        proof {
            let t = item_views(items@).take(i + 1);
            assert(t.drop_last() =~= item_views(items@).take(i as int));
            assert(t.last() == item@);
        }
        match find_route(routes, item.path.as_str(), item.method.as_str()) {
            Some(k) => {
                proof {
                    lemma_first_route(before, item.path@, item.method@);
                }
                match &item.target_project {
                    Some(t) => {
                        let mut e = routes[k].copy();
                        e.target_project = Some(t.clone());
                        let ghost ev = e@;
                        routes.set(k, e);
                        proof {
                            assert(ev =~= RouteView { target_project: item@.target_project, ..before[k as int] });
                            assert(route_views(routes@) =~= before.update(k as int, ev));
                            assert forall|j: int| 0 <= j < route_views(routes@).len() implies #[trigger] route_well_formed(route_views(routes@)[j]) by {
                                if j != k {
                                    assert(route_views(routes@)[j] == before[j]);
                                }
                                assert(route_well_formed(before[j]));
                            }
                        }
                    },
                    None => {},
                }
            },
            None => {
                let segments = parse_path_to_segments(item.path.as_str());
                let target = if consumed {
                    copy_opt(&item.target_project)
                } else {
                    None
                };
                let r = RouteEntry {
                    method: item.method.clone(),
                    segments,
                    source_file: String::from_str("manual"),
                    line_number: 0,
                    extraction_method: String::from_str("manual"),
                    target_project: target,
                };
                let ghost rv = r@;
                routes.push(r);
                proof {
                    assert(rv =~= manual_route(item@, consumed));
                    assert(route_views(routes@) =~= before.push(rv));
                    assert forall|j: int| 0 <= j < route_views(routes@).len() implies #[trigger] route_well_formed(route_views(routes@)[j]) by {
                        if j < before.len() {
                            assert(route_views(routes@)[j] == before[j]);
                            assert(route_well_formed(before[j]));
                        }
                    }
                }
            },
        }
        i = i + 1;
    }
    assert(item_views(items@).take(n as int) =~= item_views(items@));
}

/// Overlays the intent onto the facts: the intent's project type wins; each
/// intent item either refines the target project of the first matching route
/// or is appended as a manual route.
pub fn merge_intent_into_actual(actual: &mut ActualJson, intent: &InterfacesYml)
    requires
        actual_well_formed(old(actual)@),
    ensures
        final(actual)@.project_type == (match intent.project_type {
            Some(pt) => Some(pt@),
            None => old(actual)@.project_type,
        }),
        final(actual)@.exposed == overlay_opt(old(actual)@.exposed, opt_items(intent.exposed), false),
        final(actual)@.consumed == overlay_opt(old(actual)@.consumed, opt_items(intent.consumed), true),
        actual_well_formed(final(actual)@),
{
    proof {
        assert(all_well_formed(old(actual)@.exposed));
        assert(all_well_formed(old(actual)@.consumed));
    }
    match &intent.project_type {
        Some(pt) => {
            actual.project_type = Some(pt.clone());
        },
        None => {},
    }
    match &intent.exposed {
        Some(items) => overlay_into(&mut actual.exposed, items, false),
        None => {},
    }
    match &intent.consumed {
        Some(items) => overlay_into(&mut actual.consumed, items, true),
        None => {},
    }
    proof {
        assert(all_well_formed(actual@.exposed));
        assert(all_well_formed(actual@.consumed));
    }
}

} // verus!

verus! {

/// `r` keeps the facts of `old` at the same position: method, segments and
/// provenance are untouched.
pub open spec fn same_fact(r: RouteView, old: RouteView) -> bool {
    &&& r.method == old.method
    &&& r.segments == old.segments
    &&& r.source_file == old.source_file
    &&& r.line_number == old.line_number
    &&& r.extraction_method == old.extraction_method
}

/// `t` is the target project of some item of `items` that names one.
pub open spec fn supplied_target(items: Seq<ItemView>, t: Option<Seq<char>>) -> bool {
    exists|j: int| 0 <= j < items.len() && items[j].target_project is Some && items[j].target_project == t
}

/// `item` is represented in `routes`: by a route matching its path and
/// method, or by the manual route made for it.
pub open spec fn represented(routes: Seq<RouteView>, item: ItemView) -> bool {
    exists|k: int|
        0 <= k < routes.len() && (route_matches(routes[k], item.path, item.method) || (
        routes[k].method == item.method && routes[k].segments == path_segments(item.path)
            && routes[k].source_file == "manual"@))
}

/// Law: overlaying intent never drops or restructures a physical fact; a
/// fact's target project changes only to one an intent item supplies; and
/// every intent item is represented among the resulting routes.
pub proof fn law_overlay_keeps_facts(routes: Seq<RouteView>, items: Seq<ItemView>, consumed: bool)
    ensures
        overlay_items(routes, items, consumed).len() >= routes.len(),
        forall|k: int|
            0 <= k < routes.len() ==> same_fact(#[trigger] overlay_items(routes, items, consumed)[k], routes[k]),
        forall|k: int|
            0 <= k < routes.len() ==> (#[trigger] overlay_items(routes, items, consumed)[k]).target_project
                == routes[k].target_project || supplied_target(
                items,
                overlay_items(routes, items, consumed)[k].target_project,
            ),
        forall|j: int|
            0 <= j < items.len() ==> represented(overlay_items(routes, items, consumed), #[trigger] items[j]),
    decreases items.len(),
{
    if items.len() > 0 {
        let prev_items = items.drop_last();
        let item = items.last();
        let mid = overlay_items(routes, prev_items, consumed);
        let r = overlay_items(routes, items, consumed);
        law_overlay_keeps_facts(routes, prev_items, consumed);
        lemma_first_route(mid, item.path, item.method);
        let k = first_route(mid, item.path, item.method);
        assert(r == overlay_item(mid, item, consumed));
        assert forall|i: int| 0 <= i < mid.len() implies same_fact(#[trigger] r[i], mid[i])
            && (r[i].target_project == mid[i].target_project || (item.target_project is Some
            && r[i].target_project == item.target_project)) by {}
        assert forall|i: int|
            0 <= i < routes.len() implies (#[trigger] r[i]).target_project == routes[i].target_project
                || supplied_target(items, r[i].target_project) by {
            assert(same_fact(mid[i], routes[i]));
            if r[i].target_project != mid[i].target_project {
                assert(items[items.len() - 1] == item);
            } else if mid[i].target_project != routes[i].target_project {
                assert(supplied_target(prev_items, mid[i].target_project));
                let j = choose|j: int|
                    0 <= j < prev_items.len() && prev_items[j].target_project is Some
                        && prev_items[j].target_project == mid[i].target_project;
                assert(items[j] == prev_items[j]);
            }
        }
        assert forall|i: int| 0 <= i < routes.len() implies same_fact(#[trigger] r[i], routes[i]) by {
            assert(same_fact(mid[i], routes[i]));
            assert(same_fact(r[i], mid[i]));
        }
        assert forall|j: int| 0 <= j < items.len() implies represented(r, #[trigger] items[j]) by {
            if j == items.len() - 1 {
                if k >= 0 {
                    assert(route_matches(r[k], item.path, item.method));
                } else {
                    assert(r[mid.len() as int] == manual_route(item, consumed));
                }
            } else {
                assert(items[j] == prev_items[j]);
                assert(represented(mid, prev_items[j]));
                let q = choose|q: int|
                    0 <= q < mid.len() && (route_matches(mid[q], prev_items[j].path, prev_items[j].method) || (
                    mid[q].method == prev_items[j].method && mid[q].segments == path_segments(prev_items[j].path)
                        && mid[q].source_file == "manual"@));
                assert(same_fact(r[q], mid[q]));
            }
        }
    }
}

} // verus!

verus! {

pub open spec fn item_matches(e: ItemView, path: Seq<char>, method: Seq<char>) -> bool {
    e.path == path && e.method == method
}

/// The index of the first item with `path` and `method`, or -1.
pub open spec fn first_item(items: Seq<ItemView>, path: Seq<char>, method: Seq<char>) -> int
    decreases items.len(),
{
    if items.len() == 0 {
        -1
    } else {
        let k = first_item(items.drop_last(), path, method);
        if k >= 0 {
            k
        } else if item_matches(items.last(), path, method) {
            items.len() - 1
        } else {
            -1
        }
    }
}

pub proof fn lemma_first_item(items: Seq<ItemView>, path: Seq<char>, method: Seq<char>)
    ensures
        first_item(items, path, method) >= 0 ==> ({
            let k = first_item(items, path, method);
            &&& k < items.len()
            &&& item_matches(items[k], path, method)
            &&& forall|j: int| 0 <= j < k ==> !item_matches(#[trigger] items[j], path, method)
        }),
        first_item(items, path, method) < 0 ==> (first_item(items, path, method) == -1
            && forall|j: int| 0 <= j < items.len() ==> !item_matches(#[trigger] items[j], path, method)),
    decreases items.len(),
{
    if items.len() > 0 {
        lemma_first_item(items.drop_last(), path, method);
        let k = first_item(items.drop_last(), path, method);
        if k >= 0 {
            assert forall|j: int| 0 <= j < k implies !item_matches(#[trigger] items[j], path, method) by {
                assert(items[j] == items.drop_last()[j]);
            }
            assert(items[k] == items.drop_last()[k]);
        } else {
            assert forall|j: int| 0 <= j < items.len() - 1 implies !item_matches(#[trigger] items[j], path, method) by {
                assert(items[j] == items.drop_last()[j]);
            }
        }
    }
}

/// A field the patch supplies replaces the existing one; a missing one leaves it.
pub open spec fn override_field(existing: Option<Seq<char>>, patch: Option<Seq<char>>) -> Option<Seq<char>> {
    match patch {
        Some(v) => Some(v),
        None => existing,
    }
}

/// Merges one patch item: the first entry with the same path and method takes
/// the reason and target project the item supplies; otherwise the item is appended.
pub open spec fn merge_item(existing: Seq<ItemView>, item: ItemView) -> Seq<ItemView> {
    let k = first_item(existing, item.path, item.method);
    if k >= 0 {
        existing.update(
            k,
            ItemView {
                reason: override_field(existing[k].reason, item.reason),
                target_project: override_field(existing[k].target_project, item.target_project),
                ..existing[k]
            },
        )
    } else {
        existing.push(item)
    }
}

/// Merges patch items one after the other.
pub open spec fn merge_items(existing: Seq<ItemView>, patch: Seq<ItemView>) -> Seq<ItemView>
    decreases patch.len(),
{
    if patch.len() == 0 {
        existing
    } else {
        merge_item(merge_items(existing, patch.drop_last()), patch.last())
    }
}

/// Index of the first item with `path` and `method`.
fn find_item(items: &Vec<InterfaceItem>, path: &str, method: &str) -> (r: Option<usize>)
    ensures
        match r {
            Some(k) => k as int == first_item(item_views(items@), path@, method@),
            None => first_item(item_views(items@), path@, method@) == -1,
        },
{
    let ghost iv = item_views(items@);
    let n = items.len();
    let mut i: usize = 0;
    while i < n
        invariant
            n == items@.len(),
            iv == item_views(items@),
            i <= n,
            forall|j: int| 0 <= j < i ==> !item_matches(#[trigger] iv[j], path@, method@),
        decreases n - i,
    {
        assert(iv[i as int] == items@[i as int]@);
        if str_eq(items[i].path.as_str(), path) && str_eq(items[i].method.as_str(), method) {
            proof {
                lemma_first_item(iv, path@, method@);
                assert(item_matches(iv[i as int], path@, method@));
                if first_item(iv, path@, method@) >= 0 {
                    let k = first_item(iv, path@, method@);
                    if k < i {
                        assert(!item_matches(iv[k], path@, method@));
                    }
                }
            }
            return Some(i);
        }
        i = i + 1;
    }
    proof {
        lemma_first_item(iv, path@, method@);
        if first_item(iv, path@, method@) >= 0 {
            let k = first_item(iv, path@, method@);
            assert(!item_matches(iv[k], path@, method@));
        }
    }
    None
}

impl InterfaceItem {
    /// A field-by-field copy.
    pub fn copy(&self) -> (r: InterfaceItem)
        ensures
            r@ == self@,
    {
        InterfaceItem {
            path: self.path.clone(),
            method: self.method.clone(),
            reason: copy_opt(&self.reason),
            target_project: copy_opt(&self.target_project),
        }
    }
}

/// Merges `patch` into `existing` with partial field override (see `merge_items`).
pub fn merge_interface_items(existing: &mut Vec<InterfaceItem>, patch: &Vec<InterfaceItem>)
    ensures
        item_views(final(existing)@) == merge_items(item_views(old(existing)@), item_views(patch@)),
{
    let n = patch.len();
    let mut i: usize = 0;
    while i < n
        invariant
            n == patch@.len(),
            i <= n,
            item_views(existing@) == merge_items(item_views(old(existing)@), item_views(patch@).take(i as int)),
        decreases n - i,
    {
        let item = &patch[i];
        let ghost before = item_views(existing@);
        proof {
            let t = item_views(patch@).take(i + 1);
            assert(t.drop_last() =~= item_views(patch@).take(i as int));
            assert(t.last() == item@);
        }
        match find_item(existing, item.path.as_str(), item.method.as_str()) {
            Some(k) => {
                proof {
                    lemma_first_item(before, item.path@, item.method@);
                }
                let mut e = existing[k].copy();
                match &item.reason {
                    Some(r) => {
                        e.reason = Some(r.clone());
                    },
                    None => {},
                }
                match &item.target_project {
                    Some(t) => {
                        e.target_project = Some(t.clone());
                    },
                    None => {},
                }
                let ghost ev = e@;
                existing.set(k, e);
                proof {
                    assert(ev =~= ItemView {
                        reason: override_field(before[k as int].reason, item@.reason),
                        target_project: override_field(before[k as int].target_project, item@.target_project),
                        ..before[k as int]
                    });
                    assert(item_views(existing@) =~= before.update(k as int, ev));
                }
            },
            None => {
                let c = item.copy();
                existing.push(c);
                assert(item_views(existing@) =~= before.push(item@));
            },
        }
        i = i + 1;
    }
    assert(item_views(patch@).take(n as int) =~= item_views(patch@));
}

/// Law (partial field override): merging a patch keeps every existing entry
/// at its position with its path and method; a reason or target project that
/// no patch item for that entry supplies is left as it was; and every patch
/// item has an entry with its path and method afterwards.
pub proof fn law_partial_field_override(existing: Seq<ItemView>, patch: Seq<ItemView>)
    ensures
        merge_items(existing, patch).len() >= existing.len(),
        forall|k: int|
            0 <= k < existing.len() ==> (#[trigger] merge_items(existing, patch)[k]).path == existing[k].path
                && merge_items(existing, patch)[k].method == existing[k].method,
        forall|k: int|
            0 <= k < existing.len() && (forall|j: int|
                0 <= j < patch.len() && item_matches(#[trigger] patch[j], existing[k].path, existing[k].method)
                    ==> patch[j].reason is None) ==> (#[trigger] merge_items(existing, patch)[k]).reason
                == existing[k].reason,
        forall|k: int|
            0 <= k < existing.len() && (forall|j: int|
                0 <= j < patch.len() && item_matches(#[trigger] patch[j], existing[k].path, existing[k].method)
                    ==> patch[j].target_project is None) ==> (#[trigger] merge_items(
                existing,
                patch,
            )[k]).target_project == existing[k].target_project,
        forall|j: int|
            0 <= j < patch.len() ==> first_item(
                merge_items(existing, patch),
                (#[trigger] patch[j]).path,
                patch[j].method,
            ) >= 0,
    decreases patch.len(),
{
    if patch.len() > 0 {
        let prev = patch.drop_last();
        let item = patch.last();
        let mid = merge_items(existing, prev);
        let r = merge_items(existing, patch);
        law_partial_field_override(existing, prev);
        lemma_first_item(mid, item.path, item.method);
        let k = first_item(mid, item.path, item.method);
        assert(r == merge_item(mid, item));
        assert forall|q: int| 0 <= q < existing.len() implies (#[trigger] r[q]).path == existing[q].path
            && r[q].method == existing[q].method by {
            assert(mid[q].path == existing[q].path);
        }
        assert forall|q: int|
            0 <= q < existing.len() && (forall|j: int|
                0 <= j < patch.len() && item_matches(#[trigger] patch[j], existing[q].path, existing[q].method)
                    ==> patch[j].reason is None) implies (#[trigger] r[q]).reason == existing[q].reason by {
            assert forall|j: int|
                0 <= j < prev.len() && item_matches(#[trigger] prev[j], existing[q].path, existing[q].method)
                    implies prev[j].reason is None by {
                assert(patch[j] == prev[j]);
            }
            assert(mid[q].reason == existing[q].reason);
            if q == k {
                assert(patch[patch.len() - 1] == item);
                assert(item_matches(item, existing[q].path, existing[q].method));
            }
        }
        assert forall|q: int|
            0 <= q < existing.len() && (forall|j: int|
                0 <= j < patch.len() && item_matches(#[trigger] patch[j], existing[q].path, existing[q].method)
                    ==> patch[j].target_project is None) implies (#[trigger] r[q]).target_project
                == existing[q].target_project by {
            assert forall|j: int|
                0 <= j < prev.len() && item_matches(#[trigger] prev[j], existing[q].path, existing[q].method)
                    implies prev[j].target_project is None by {
                assert(patch[j] == prev[j]);
            }
            assert(mid[q].target_project == existing[q].target_project);
            if q == k {
                assert(patch[patch.len() - 1] == item);
                assert(item_matches(item, existing[q].path, existing[q].method));
            }
        }
        assert forall|j: int| 0 <= j < patch.len() implies first_item(r, (#[trigger] patch[j]).path, patch[j].method) >= 0 by {
            let p = patch[j];
            lemma_first_item(r, p.path, p.method);
            if j == patch.len() - 1 {
                if k >= 0 {
                    assert(item_matches(r[k], p.path, p.method));
                } else {
                    assert(item_matches(r[mid.len() as int], p.path, p.method));
                }
            } else {
                assert(prev[j] == p);
                lemma_first_item(mid, p.path, p.method);
                let q = first_item(mid, p.path, p.method);
                assert(item_matches(mid[q], p.path, p.method));
                assert(r[q].path == mid[q].path && r[q].method == mid[q].method);
                assert(item_matches(r[q], p.path, p.method));
            }
        }
    }
}

} // verus!

verus! {

/// Appends `item` unless an entry with its path and method exists.
pub open spec fn add_if_missing(existing: Seq<ItemView>, item: ItemView) -> Seq<ItemView> {
    if first_item(existing, item.path, item.method) >= 0 {
        existing
    } else {
        existing.push(item)
    }
}

pub open spec fn add_missing(existing: Seq<ItemView>, items: Seq<ItemView>) -> Seq<ItemView>
    decreases items.len(),
{
    if items.len() == 0 {
        existing
    } else {
        add_if_missing(add_missing(existing, items.drop_last()), items.last())
    }
}

/// The declared form of a route: its rendered path and method, nothing else.
pub open spec fn item_of_route(r: RouteView) -> ItemView {
    ItemView { path: path_of(r.segments), method: r.method, reason: None, target_project: None }
}

/// Declared forms of routes, in order.
pub fn items_from_routes(routes: &Vec<RouteEntry>) -> (r: Vec<InterfaceItem>)
    requires
        all_well_formed(route_views(routes@)),
    ensures
        item_views(r@) == route_views(routes@).map_values(|x: RouteView| item_of_route(x)),
{
    let mut out: Vec<InterfaceItem> = Vec::new();
    let n = routes.len();
    let mut i: usize = 0;
    while i < n
        invariant
            n == routes@.len(),
            i <= n,
            all_well_formed(route_views(routes@)),
            item_views(out@) == route_views(routes@).take(i as int).map_values(|x: RouteView| item_of_route(x)),
        decreases n - i,
    {
        assert(route_well_formed(route_views(routes@)[i as int]));
        let it = InterfaceItem {
            path: routes[i].to_path(),
            method: routes[i].method.clone(),
            reason: None,
            target_project: None,
        };
        let ghost old_out = out@;
        out.push(it);
        proof {
            assert(item_views(out@) =~= item_views(old_out).push(it@));
            assert(route_views(routes@).take(i + 1) =~= route_views(routes@).take(i as int).push(routes@[i as int]@));
            assert(it@ == item_of_route(routes@[i as int]@));
            assert(route_views(routes@).take(i + 1).map_values(|x: RouteView| item_of_route(x)) =~= route_views(
                routes@,
            ).take(i as int).map_values(|x: RouteView| item_of_route(x)).push(it@));
        }
        i = i + 1;
    }
    assert(route_views(routes@).take(n as int) =~= route_views(routes@));
    out
}

/// Appends each item whose path and method no entry has yet.
pub fn add_missing_items(existing: &mut Vec<InterfaceItem>, items: &Vec<InterfaceItem>)
    ensures
        item_views(final(existing)@) == add_missing(item_views(old(existing)@), item_views(items@)),
{
    let n = items.len();
    let mut i: usize = 0;
    while i < n
        invariant
            n == items@.len(),
            i <= n,
            item_views(existing@) == add_missing(item_views(old(existing)@), item_views(items@).take(i as int)),
        decreases n - i,
    {
        let ghost before = item_views(existing@);
        proof {
            let t = item_views(items@).take(i + 1);
            assert(t.drop_last() =~= item_views(items@).take(i as int));
            assert(t.last() == items@[i as int]@);
        }
        match find_item(existing, items[i].path.as_str(), items[i].method.as_str()) {
            Some(_) => {},
            None => {
                let c = items[i].copy();
                existing.push(c);
                assert(item_views(existing@) =~= before.push(items@[i as int]@));
            },
        }
        i = i + 1;
    }
    assert(item_views(items@).take(n as int) =~= item_views(items@));
}

/// What a section of the overlay holds after merging `patch` into it: an
/// absent section is created empty first.
pub open spec fn merge_section(section: Option<Seq<ItemView>>, patch: Option<Seq<ItemView>>) -> Option<
    Seq<ItemView>,
> {
    match patch {
        Some(p) => Some(
            merge_items(
                match section {
                    Some(s) => s,
                    None => Seq::empty(),
                },
                p,
            ),
        ),
        None => section,
    }
}

fn merge_into_section(section: &mut Option<Vec<InterfaceItem>>, patch: &Option<Vec<InterfaceItem>>)
    ensures
        opt_items(*final(section)) == merge_section(opt_items(*old(section)), opt_items(*patch)),
{
    match patch {
        Some(p) => {
            let mut items = match section.take() {
                Some(v) => v,
                None => Vec::new(),
            };
            proof {
                if *old(section) is None {
                    assert(item_views(items@) =~= Seq::<ItemView>::empty());
                }
            }
            merge_interface_items(&mut items, p);
            *section = Some(items);
        },
        None => {},
    }
}

/// Merges a suggestion file into the overlay: its exposed and consumed items
/// are merged with partial field override.
pub fn apply_suggestion(interfaces: &mut InterfacesYml, suggestion: &InterfacesYml)
    ensures
        opt_items(final(interfaces).exposed) == merge_section(opt_items(old(interfaces).exposed), opt_items(suggestion.exposed)),
        opt_items(final(interfaces).consumed) == merge_section(opt_items(old(interfaces).consumed), opt_items(suggestion.consumed)),
        final(interfaces).project == old(interfaces).project,
        final(interfaces).project_type == old(interfaces).project_type,
        final(interfaces).environment == old(interfaces).environment,
{
    merge_into_section(&mut interfaces.exposed, &suggestion.exposed);
    merge_into_section(&mut interfaces.consumed, &suggestion.consumed);
}

/// Merges a contract patch into the overlay: like a suggestion, and the
/// patch's project and project type replace the overlay's when given.
pub fn apply_patch(interfaces: &mut InterfacesYml, patch: &InterfacesYml)
    ensures
        opt_items(final(interfaces).exposed) == merge_section(opt_items(old(interfaces).exposed), opt_items(patch.exposed)),
        opt_items(final(interfaces).consumed) == merge_section(opt_items(old(interfaces).consumed), opt_items(patch.consumed)),
        opt_view(final(interfaces).project) == override_field(opt_view(old(interfaces).project), opt_view(patch.project)),
        opt_view(final(interfaces).project_type) == override_field(opt_view(old(interfaces).project_type), opt_view(patch.project_type)),
        final(interfaces).environment == old(interfaces).environment,
{
    apply_suggestion(interfaces, patch);
    match &patch.project_type {
        Some(pt) => {
            interfaces.project_type = Some(pt.clone());
        },
        None => {},
    }
    match &patch.project {
        Some(p) => {
            interfaces.project = Some(p.clone());
        },
        None => {},
    }
}

/// Brings the scanned exposed routes into the overlay: with an exposed
/// section, routes it lacks are appended; without one, it becomes the scan.
pub fn sync_exposed_from_actual(interfaces: &mut InterfacesYml, actual: &ActualJson)
    requires
        actual_well_formed(actual@),
    ensures
        opt_items(final(interfaces).exposed) == Some(
            match opt_items(old(interfaces).exposed) {
                Some(s) => add_missing(s, actual@.exposed.map_values(|x: RouteView| item_of_route(x))),
                None => actual@.exposed.map_values(|x: RouteView| item_of_route(x)),
            },
        ),
        final(interfaces).consumed == old(interfaces).consumed,
        final(interfaces).project == old(interfaces).project,
        final(interfaces).project_type == old(interfaces).project_type,
        final(interfaces).environment == old(interfaces).environment,
{
    assert(all_well_formed(actual@.exposed));
    let new_exposed = items_from_routes(&actual.exposed);
    match interfaces.exposed.take() {
        Some(mut existing) => {
            add_missing_items(&mut existing, &new_exposed);
            interfaces.exposed = Some(existing);
        },
        None => {
            interfaces.exposed = Some(new_exposed);
        },
    }
}

/// The overlay used when no `interfaces.yml` exists yet: an empty exposed section.
pub fn new_overlay() -> (r: InterfacesYml)
    ensures
        r.project is None,
        r.project_type is None,
        r.environment is None,
        opt_items(r.exposed) == Some(Seq::<ItemView>::empty()),
        r.consumed is None,
{
    let empty: Vec<InterfaceItem> = Vec::new();
    assert(item_views(empty@) =~= Seq::<ItemView>::empty());
    InterfacesYml { project: None, project_type: None, environment: None, exposed: Some(empty), consumed: None }
}

fn routes_renderable(routes: &Vec<RouteEntry>) -> (r: bool)
    ensures
        r == all_well_formed(route_views(routes@)),
{
    let n = routes.len();
    let mut i: usize = 0;
    while i < n
        invariant
            n == routes@.len(),
            i <= n,
            forall|j: int| 0 <= j < i ==> #[trigger] route_well_formed(route_views(routes@)[j]),
        decreases n - i,
    {
        assert(route_views(routes@)[i as int] == routes@[i as int]@);
        if !routes[i].is_well_formed() {
            return false;
        }
        i = i + 1;
    }
    true
}

impl ActualJson {
    /// Whether every exposed and consumed route can be rendered.
    pub fn is_well_formed(&self) -> (r: bool)
        ensures
            r == actual_well_formed(self@),
    {
        let e = routes_renderable(&self.exposed);
        let c = routes_renderable(&self.consumed);
        assert(actual_well_formed(self@) == (all_well_formed(self@.exposed) && all_well_formed(self@.consumed)));
        e && c
    }
}

/// A consumed item whose target project is not among the known ones.
pub open spec fn unknown_target(known: Seq<Seq<char>>, item: ItemView) -> bool {
    match item.target_project {
        Some(t) => known.len() > 0 && !known.contains(t),
        None => false,
    }
}

/// The target projects a patch consumes from that are not known, in the
/// order of its consumed items; none when no project is known.
pub open spec fn spec_unknown_targets(known: Seq<Seq<char>>, consumed: Option<Seq<ItemView>>) -> Seq<Seq<char>> {
    match consumed {
        Some(items) => items.filter(|it: ItemView| unknown_target(known, it)).map_values(
            |it: ItemView| it.target_project.unwrap(),
        ),
        None => Seq::empty(),
    }
}

/// The target projects a patch names that are not known (see `spec_unknown_targets`).
pub fn unknown_targets(patch: &InterfacesYml, known: &Vec<String>) -> (r: Vec<String>)
    ensures
        crate::text::views(r@) == spec_unknown_targets(crate::text::views(known@), opt_items(patch.consumed)),
{
    let ghost kv = crate::text::views(known@);
    let mut out: Vec<String> = Vec::new();
    match &patch.consumed {
        Some(items) => {
            let ghost iv = item_views(items@);
            let ghost pred = |it: ItemView| unknown_target(kv, it);
            let n = items.len();
            let mut i: usize = 0;
            while i < n
                invariant
                    n == items@.len(),
                    iv == item_views(items@),
                    kv == crate::text::views(known@),
                    pred == (|it: ItemView| unknown_target(kv, it)),
                    i <= n,
                    crate::text::views(out@) == iv.take(i as int).filter(pred).map_values(
                        |it: ItemView| it.target_project.unwrap(),
                    ),
                decreases n - i,
            {
                proof {
                    reveal_with_fuel(Seq::filter, 1);
                    assert(iv.take(i + 1).drop_last() =~= iv.take(i as int));
                    assert(iv.take(i + 1).last() == items@[i as int]@);
                }
                let ghost before = crate::text::views(out@);
                let ghost f = iv.take(i as int).filter(pred);
                match &items[i].target_project {
                    Some(t) => {
                        let mut found = false;
                        let m = known.len();
                        let mut j: usize = 0;
                        while j < m
                            invariant
                                m == known@.len(),
                                kv == crate::text::views(known@),
                                j <= m,
                                found == exists|q: int| 0 <= q < j && kv[q] == t@,
                            decreases m - j,
                        {
                            assert(kv[j as int] == known@[j as int]@);
                            if str_eq(known[j].as_str(), t.as_str()) {
                                found = true;
                            }
                            proof {
                                if exists|q: int| 0 <= q < j + 1 && kv[q] == t@ {
                                    let q = choose|q: int| 0 <= q < j + 1 && kv[q] == t@;
                                    if q < j {
                                        assert(exists|q2: int| 0 <= q2 < j && kv[q2] == t@);
                                    }
                                }
                            }
                            j = j + 1;
                        }
                        proof {
                            if kv.contains(t@) {
                                let q = choose|q: int| 0 <= q < kv.len() && kv[q] == t@;
                                assert(exists|q2: int| 0 <= q2 < m && kv[q2] == t@);
                            }
                            if found {
                                let q = choose|q: int| 0 <= q < m && kv[q] == t@;
                                assert(kv.contains(t@));
                            }
                        }
                        if m > 0 && !found {
                            out.push(t.clone());
                            assert(f.push(items@[i as int]@).map_values(|it: ItemView| it.target_project.unwrap())
                                =~= f.map_values(|it: ItemView| it.target_project.unwrap()).push(t@));
                            assert(crate::text::views(out@) =~= before.push(t@));
                        }
                    },
                    None => {},
                }
                i = i + 1;
            }
            assert(iv.take(n as int) =~= iv);
        },
        None => {},
    }
    proof {
        if patch.consumed is None {
            assert(crate::text::views(out@) =~= Seq::<Seq<char>>::empty());
        }
    }
    out
}

/// Two route lists of one length whose routes match the same paths and
/// methods position by position.
pub open spec fn same_shape(a: Seq<RouteView>, b: Seq<RouteView>) -> bool {
    &&& a.len() == b.len()
    &&& forall|j: int|
        #![trigger a[j]]
        #![trigger b[j]]
        0 <= j < a.len() ==> a[j].segments == b[j].segments && a[j].method == b[j].method
}

/// `b` begins with routes of `a`'s shape.
pub open spec fn shape_prefix(a: Seq<RouteView>, b: Seq<RouteView>) -> bool {
    &&& a.len() <= b.len()
    &&& forall|j: int|
        #![trigger a[j]]
        #![trigger b[j]]
        0 <= j < a.len() ==> a[j].segments == b[j].segments && a[j].method == b[j].method
}

/// A route found in a list is found at the same place in any list that
/// begins with routes of the same shape.
proof fn lemma_first_route_prefix(a: Seq<RouteView>, b: Seq<RouteView>, path: Seq<char>, method: Seq<char>)
    requires
        shape_prefix(a, b),
        first_route(a, path, method) >= 0,
    ensures
        first_route(b, path, method) == first_route(a, path, method),
{
    lemma_first_route(a, path, method);
    lemma_first_route(b, path, method);
    let k = first_route(a, path, method);
    assert(a[k].segments == b[k].segments && a[k].method == b[k].method);
    assert(route_matches(b[k], path, method));
    let fb = first_route(b, path, method);
    if fb >= 0 && fb < k {
        assert(a[fb].segments == b[fb].segments && a[fb].method == b[fb].method);
        assert(!route_matches(a[fb], path, method));
    }
}

/// Lists of the same shape find every route at the same place.
proof fn lemma_first_route_same_shape(a: Seq<RouteView>, b: Seq<RouteView>, path: Seq<char>, method: Seq<char>)
    requires
        same_shape(a, b),
    ensures
        first_route(b, path, method) == first_route(a, path, method),
{
    if first_route(a, path, method) >= 0 {
        lemma_first_route_prefix(a, b, path, method);
    } else {
        lemma_first_route(a, path, method);
        lemma_first_route(b, path, method);
        if first_route(b, path, method) >= 0 {
            let k = first_route(b, path, method);
            assert(a[k].segments == b[k].segments && a[k].method == b[k].method);
            assert(!route_matches(a[k], path, method));
        }
    }
}

/// The target project the last of `items` that refines route `k` of
/// `routes` and names a target gives it, if any.
pub open spec fn last_target(routes: Seq<RouteView>, items: Seq<ItemView>, k: int) -> Option<Seq<char>>
    decreases items.len(),
{
    if items.len() == 0 {
        None
    } else {
        let it = items.last();
        if first_route(routes, it.path, it.method) == k && it.target_project is Some {
            it.target_project
        } else {
            last_target(routes, items.drop_last(), k)
        }
    }
}

/// Route `k` with the target project the items give it, if they give one.
pub open spec fn retargeted(routes: Seq<RouteView>, items: Seq<ItemView>, k: int) -> RouteView {
    match last_target(routes, items, k) {
        Some(t) => RouteView { target_project: Some(t), ..routes[k] },
        None => routes[k],
    }
}

/// Every item refines some route of `routes`.
pub open spec fn all_found(routes: Seq<RouteView>, items: Seq<ItemView>) -> bool {
    forall|i: int| 0 <= i < items.len() ==> first_route(routes, #[trigger] items[i].path, items[i].method) >= 0
}

/// `last_target` depends on the routes only through where the items are found.
proof fn lemma_last_target_same(a: Seq<RouteView>, b: Seq<RouteView>, items: Seq<ItemView>, k: int)
    requires
        forall|i: int|
            0 <= i < items.len() ==> first_route(a, #[trigger] items[i].path, items[i].method) == first_route(
                b,
                items[i].path,
                items[i].method,
            ),
    ensures
        last_target(a, items, k) == last_target(b, items, k),
    decreases items.len(),
{
    if items.len() > 0 {
        let d = items.drop_last();
        assert forall|i: int| 0 <= i < d.len() implies first_route(a, #[trigger] d[i].path, d[i].method) == first_route(
            b,
            d[i].path,
            d[i].method,
        ) by {
            assert(d[i] == items[i]);
        }
        lemma_last_target_same(a, b, d, k);
        assert(items[items.len() - 1] == items.last());
    }
}

/// Overlaying items that all refine existing routes only sets targets: each
/// route takes the target the last refining item with one gives it.
proof fn lemma_overlay_found(s: Seq<RouteView>, items: Seq<ItemView>, consumed: bool)
    requires
        all_found(s, items),
    ensures
        overlay_items(s, items, consumed).len() == s.len(),
        forall|k: int| 0 <= k < s.len() ==> #[trigger] overlay_items(s, items, consumed)[k] == retargeted(s, items, k),
    decreases items.len(),
{
    if items.len() > 0 {
        let d = items.drop_last();
        let it = items.last();
        assert(all_found(s, d)) by {
            assert forall|i: int| 0 <= i < d.len() implies first_route(s, #[trigger] d[i].path, d[i].method) >= 0 by {
                assert(d[i] == items[i]);
            }
        }
        lemma_overlay_found(s, d, consumed);
        let t = overlay_items(s, d, consumed);
        assert(same_shape(s, t)) by {
            assert forall|j: int| 0 <= j < s.len() implies #[trigger] s[j].segments == t[j].segments && s[j].method
                == t[j].method by {
                assert(t[j] == retargeted(s, d, j));
            }
        }
        assert(first_route(s, items[items.len() - 1].path, items[items.len() - 1].method) >= 0);
        lemma_first_route_same_shape(s, t, it.path, it.method);
        let k0 = first_route(s, it.path, it.method);
        lemma_first_route(s, it.path, it.method);
        let r = overlay_items(s, items, consumed);
        assert(r == overlay_item(t, it, consumed));
        assert(first_route(t, it.path, it.method) == k0);
        if it.target_project is Some {
            assert(r == t.update(k0, RouteView { target_project: it.target_project, ..t[k0] }));
        } else {
            assert(r == t);
        }
        assert(r.len() == s.len());
        assert forall|k: int| 0 <= k < s.len() implies #[trigger] overlay_items(s, items, consumed)[k] == retargeted(
            s,
            items,
            k,
        ) by {
            assert(t[k] == retargeted(s, d, k));
            assert(items[items.len() - 1] == it);
            if k == k0 && it.target_project is Some {
                assert(last_target(s, items, k) == it.target_project);
                assert(r[k] == RouteView { target_project: it.target_project, ..t[k0] });
            } else {
                assert(last_target(s, items, k) == last_target(s, d, k));
                assert(r[k] == t[k]);
            }
        }
    }
}

/// Overlaying items once leaves every item refining a route, each route with
/// the target the last refining item with one gave it; a route the items
/// added takes a target only from them.
proof fn lemma_overlay_settles(routes: Seq<RouteView>, items: Seq<ItemView>, consumed: bool)
    requires
        forall|i: int| 0 <= i < items.len() ==> #[trigger] overlay_repeatable(items[i], consumed),
    ensures
        shape_prefix(routes, overlay_items(routes, items, consumed)),
        all_found(overlay_items(routes, items, consumed), items),
        forall|k: int|
            0 <= k < overlay_items(routes, items, consumed).len() && #[trigger] last_target(
                overlay_items(routes, items, consumed),
                items,
                k,
            ) is Some ==> overlay_items(routes, items, consumed)[k].target_project == last_target(
                overlay_items(routes, items, consumed),
                items,
                k,
            ),
        forall|k: int|
            routes.len() <= k < overlay_items(routes, items, consumed).len() && #[trigger] last_target(
                overlay_items(routes, items, consumed),
                items,
                k,
            ) is None ==> overlay_items(routes, items, consumed)[k].target_project is None,
    decreases items.len(),
{
    let r2 = overlay_items(routes, items, consumed);
    if items.len() == 0 {
        assert(shape_prefix(routes, r2));
    } else {
        let d = items.drop_last();
        let it = items.last();
        assert forall|i: int| 0 <= i < d.len() implies #[trigger] overlay_repeatable(d[i], consumed) by {
            assert(d[i] == items[i]);
        }
        assert(overlay_repeatable(items[items.len() - 1], consumed));
        lemma_overlay_settles(routes, d, consumed);
        let s1 = overlay_items(routes, d, consumed);
        lemma_first_route(s1, it.path, it.method);
        let k0 = first_route(s1, it.path, it.method);
        assert(shape_prefix(s1, r2));
        // where the items are found is the same before and after this item
        assert forall|i: int| 0 <= i < d.len() implies first_route(r2, #[trigger] d[i].path, d[i].method) == first_route(
            s1,
            d[i].path,
            d[i].method,
        ) by {
            assert(first_route(s1, d[i].path, d[i].method) >= 0);
            lemma_first_route_prefix(s1, r2, d[i].path, d[i].method);
        }
        let kn = first_route(r2, it.path, it.method);
        if k0 >= 0 {
            lemma_first_route_prefix(s1, r2, it.path, it.method);
        } else {
            assert(r2 == s1.push(manual_route(it, consumed)));
            assert(r2.drop_last() =~= s1);
            assert(route_matches(manual_route(it, consumed), it.path, it.method));
            assert(kn == s1.len());
        }
        assert(kn >= 0);
        assert(shape_prefix(routes, r2)) by {
            assert forall|j: int| 0 <= j < routes.len() implies #[trigger] routes[j].segments == r2[j].segments
                && routes[j].method == r2[j].method by {
                assert(s1[j].segments == r2[j].segments);
            }
        }
        assert(all_found(r2, items)) by {
            assert forall|i: int| 0 <= i < items.len() implies first_route(r2, #[trigger] items[i].path, items[i].method)
                >= 0 by {
                if i < d.len() {
                    assert(items[i] == d[i]);
                    assert(first_route(s1, d[i].path, d[i].method) >= 0);
                }
            }
        }
        assert forall|k: int| 0 <= k < r2.len() implies last_target(r2, d, k) == last_target(s1, d, k) by {
            lemma_last_target_same(r2, s1, d, k);
        }
        assert forall|k: int|
            0 <= k < r2.len() && #[trigger] last_target(r2, items, k) is Some implies r2[k].target_project == last_target(
                r2,
                items,
                k,
            ) by {
            assert(last_target(r2, d, k) == last_target(s1, d, k));
            if kn == k && it.target_project is Some {
            } else if k < s1.len() {
                assert(r2[k] == s1[k] || (kn == k && it.target_project is None));
            } else {
                assert(k == s1.len());
                assert(last_target(s1, d, k) is None) by {
                    lemma_last_target_beyond(s1, d, k);
                }
            }
        }
        assert forall|k: int|
            routes.len() <= k < r2.len() && #[trigger] last_target(r2, items, k) is None implies r2[k].target_project is None by {
            assert(last_target(r2, d, k) == last_target(s1, d, k));
            if k < s1.len() {
                if kn == k {
                    assert(it.target_project is None);
                }
            } else {
                assert(k == s1.len());
                assert(k0 < 0);
                assert(r2[k] == manual_route(it, consumed));
                assert(kn == k);
                assert(it.target_project is None);
            }
        }
    }
}

/// No item refines a route past the end of the list.
proof fn lemma_last_target_beyond(s: Seq<RouteView>, items: Seq<ItemView>, k: int)
    requires
        k >= s.len(),
    ensures
        last_target(s, items, k) is None,
    decreases items.len(),
{
    if items.len() > 0 {
        lemma_first_route(s, items.last().path, items.last().method);
        lemma_last_target_beyond(s, items.drop_last(), k);
    }
}

/// An item that overlaying again leaves alone once applied: its path is in
/// the form routes render to, and an exposed item names no target project.
pub open spec fn overlay_repeatable(item: ItemView, consumed: bool) -> bool {
    &&& path_of(path_segments(item.path)) == item.path
    &&& (!consumed ==> item.target_project is None)
}

/// Law: merging an intent overlay a second time changes nothing, for items
/// whose paths are in rendered form and, in the exposed section, which name
/// no target project.
pub proof fn law_overlay_merge_idempotent(routes: Seq<RouteView>, items: Option<Seq<ItemView>>, consumed: bool)
    requires
        items matches Some(v) ==> forall|i: int| 0 <= i < v.len() ==> #[trigger] overlay_repeatable(v[i], consumed),
    ensures
        overlay_opt(overlay_opt(routes, items, consumed), items, consumed) == overlay_opt(routes, items, consumed),
{
    if let Some(v) = items {
        lemma_overlay_settles(routes, v, consumed);
        let r2 = overlay_items(routes, v, consumed);
        lemma_overlay_found(r2, v, consumed);
        let r3 = overlay_items(r2, v, consumed);
        assert forall|k: int| 0 <= k < r2.len() implies #[trigger] r3[k] == r2[k] by {
            assert(r3[k] == retargeted(r2, v, k));
            if last_target(r2, v, k) is Some {
                assert(r2[k].target_project == last_target(r2, v, k));
            }
        }
        assert(r3 =~= r2);
    }
}

/// A route keeps its place in the routes that begin with routes of the same
/// shape, and is found first there exactly when it is found first here.
proof fn lemma_first_match_kept(a: Seq<RouteView>, b: Seq<RouteView>, path: Seq<char>, method: Seq<char>, k: int)
    requires
        shape_prefix(a, b),
        0 <= k < a.len(),
        first_route(b, path, method) == k,
    ensures
        first_route(a, path, method) == k,
{
    lemma_first_route(b, path, method);
    assert(a[k].segments == b[k].segments && a[k].method == b[k].method);
    assert(route_matches(a[k], path, method));
    lemma_first_route(a, path, method);
    if first_route(a, path, method) < 0 {
        assert(!route_matches(a[k], path, method));
    } else {
        lemma_first_route_prefix(a, b, path, method);
    }
}

/// Law: of the routes present before an overlay, only the first one that
/// renders to an item's path with its method can change, and only its target
/// project: a route whose target changed took it from such an item.
pub proof fn law_overlay_retargets_first_match(routes: Seq<RouteView>, items: Seq<ItemView>, consumed: bool)
    ensures
        forall|k: int|
            0 <= k < routes.len() && (#[trigger] overlay_items(routes, items, consumed)[k]).target_project
                != routes[k].target_project ==> exists|j: int|
                0 <= j < items.len() && items[j].target_project is Some && first_route(
                    routes,
                    #[trigger] items[j].path,
                    items[j].method,
                ) == k && overlay_items(routes, items, consumed)[k].target_project == items[j].target_project,
    decreases items.len(),
{
    if items.len() > 0 {
        let d = items.drop_last();
        let it = items.last();
        law_overlay_retargets_first_match(routes, d, consumed);
        law_overlay_keeps_facts(routes, d, consumed);
        let mid = overlay_items(routes, d, consumed);
        let r = overlay_items(routes, items, consumed);
        assert(shape_prefix(routes, mid)) by {
            assert forall|j: int| 0 <= j < routes.len() implies #[trigger] routes[j].segments == mid[j].segments
                && routes[j].method == mid[j].method by {
                assert(same_fact(mid[j], routes[j]));
            }
        }
        let k0 = first_route(mid, it.path, it.method);
        lemma_first_route(mid, it.path, it.method);
        assert forall|k: int|
            0 <= k < routes.len() && (#[trigger] r[k]).target_project != routes[k].target_project implies exists|j: int|
                0 <= j < items.len() && items[j].target_project is Some && first_route(routes, #[trigger] items[j].path, items[j].method)
                    == k && r[k].target_project == items[j].target_project by {
            if k0 == k && it.target_project is Some {
                lemma_first_match_kept(routes, mid, it.path, it.method, k);
                let j = items.len() - 1;
                assert(items[j] == it);
            } else {
                assert(r[k] == mid[k]);
                let j = choose|j: int|
                    0 <= j < d.len() && d[j].target_project is Some && first_route(routes, #[trigger] d[j].path, d[j].method)
                        == k && mid[k].target_project == d[j].target_project;
                assert(items[j] == d[j]);
            }
        }
    }
}

} // verus!
