//! Route model: segments, rendered paths, structural identity and comparison.

use vstd::prelude::*;
use crate::text::{
    str_eq, strings_eq, join, views, copy_opt, opt_view, split, nonempty_pieces, split_nonempty, before_char, free_of,
    prefixed, lemma_pieces_of_prefixed, lemma_split_free, lemma_split_first_piece,
    lemma_prefixed_one,
};

verus! {

/// One segment of a route path (`literal`, `parameter` or `wildcard`).
#[derive(Debug, Clone)]
pub struct RouteSegment {
    pub segment_type: String,
    pub value: Option<String>,
    pub name: Option<String>,
    pub raw_constraint: Option<String>,
}

/// A route as extracted from source code.
#[derive(Debug, Clone)]
pub struct RouteEntry {
    pub method: String,
    pub segments: Vec<RouteSegment>,
    pub source_file: String,
    pub line_number: u32,
    pub extraction_method: String,
    pub target_project: Option<String>,
}

/// The mathematical content of a segment.
#[verifier::ext_equal]
pub struct SegmentView {
    pub kind: Seq<char>,
    pub value: Option<Seq<char>>,
    pub name: Option<Seq<char>>,
    pub raw_constraint: Option<Seq<char>>,
}

/// The mathematical content of a route.
#[verifier::ext_equal]
pub struct RouteView {
    pub method: Seq<char>,
    pub segments: Seq<SegmentView>,
    pub source_file: Seq<char>,
    pub line_number: u32,
    pub extraction_method: Seq<char>,
    pub target_project: Option<Seq<char>>,
}

impl View for RouteSegment {
    type V = SegmentView;

    open spec fn view(&self) -> SegmentView {
        SegmentView {
            kind: self.segment_type@,
            value: opt_view(self.value),
            name: opt_view(self.name),
            raw_constraint: opt_view(self.raw_constraint),
        }
    }
}

pub open spec fn segment_views(s: Seq<RouteSegment>) -> Seq<SegmentView> {
    s.map_values(|x: RouteSegment| x@)
}

impl View for RouteEntry {
    type V = RouteView;

    open spec fn view(&self) -> RouteView {
        RouteView {
            method: self.method@,
            segments: segment_views(self.segments@),
            source_file: self.source_file@,
            line_number: self.line_number,
            extraction_method: self.extraction_method@,
            target_project: opt_view(self.target_project),
        }
    }
}

pub open spec fn route_views(s: Seq<RouteEntry>) -> Seq<RouteView> {
    s.map_values(|x: RouteEntry| x@)
}

pub open spec fn is_literal(seg: SegmentView) -> bool {
    seg.kind == "literal"@
}

pub open spec fn is_parameter(seg: SegmentView) -> bool {
    seg.kind == "parameter"@
}

pub open spec fn is_wildcard(seg: SegmentView) -> bool {
    seg.kind == "wildcard"@
}

/// A literal segment carries its value and a parameter segment its name.
pub open spec fn segment_well_formed(seg: SegmentView) -> bool {
    &&& is_literal(seg) ==> seg.value is Some
    &&& is_parameter(seg) ==> seg.name is Some
}

pub open spec fn segments_well_formed(segs: Seq<SegmentView>) -> bool {
    forall|i: int| 0 <= i < segs.len() ==> #[trigger] segment_well_formed(segs[i])
}

/// The piece a segment contributes to the `{name}` rendering of a path.
pub open spec fn path_piece(seg: SegmentView) -> Seq<char> {
    if is_literal(seg) {
        "/"@ + seg.value.unwrap()
    } else if is_parameter(seg) {
        "/{"@ + seg.name.unwrap() + "}"@
    } else if is_wildcard(seg) {
        "/*"@
    } else {
        Seq::empty()
    }
}

/// The `{name}` rendering of a sequence of segments.
pub open spec fn path_of(segs: Seq<SegmentView>) -> Seq<char>
    decreases segs.len(),
{
    if segs.len() == 0 {
        Seq::empty()
    } else {
        path_of(segs.drop_last()) + path_piece(segs.last())
    }
}

/// The piece a segment contributes to the `:name` rendering of a path.
pub open spec fn display_piece(seg: SegmentView) -> Seq<char> {
    if is_literal(seg) {
        "/"@ + seg.value.unwrap()
    } else if is_parameter(seg) {
        "/:"@ + seg.name.unwrap()
    } else if is_wildcard(seg) {
        "/*"@
    } else {
        Seq::empty()
    }
}

/// The `:name` rendering of a sequence of segments.
pub open spec fn display_of(segs: Seq<SegmentView>) -> Seq<char>
    decreases segs.len(),
{
    if segs.len() == 0 {
        Seq::empty()
    } else {
        display_of(segs.drop_last()) + display_piece(segs.last())
    }
}

/// The segment types of a route, in order.
pub open spec fn segment_types(segs: Seq<SegmentView>) -> Seq<Seq<char>> {
    segs.map_values(|s: SegmentView| s.kind)
}

/// The structural identity of a route: its segment types joined by `:`.
pub open spec fn structural_id_of(segs: Seq<SegmentView>) -> Seq<char> {
    join(segment_types(segs), ":"@)
}

/// The name of a parameter segment, or the empty string when it has none.
pub open spec fn name_or_empty(seg: SegmentView) -> Seq<char> {
    match seg.name {
        Some(n) => n,
        None => Seq::empty(),
    }
}

/// Names of `a`'s parameters at the first `n` positions where both `a` and `b`
/// hold a parameter segment.
pub open spec fn aligned_names_upto(a: Seq<SegmentView>, b: Seq<SegmentView>, n: nat) -> Seq<
    Seq<char>,
>
    decreases n,
{
    if n == 0 {
        Seq::empty()
    } else {
        let prev = aligned_names_upto(a, b, (n - 1) as nat);
        let i = n - 1;
        if is_parameter(a[i]) && is_parameter(b[i]) {
            prev.push(name_or_empty(a[i]))
        } else {
            prev
        }
    }
}

pub open spec fn min_len(a: Seq<SegmentView>, b: Seq<SegmentView>) -> nat {
    if a.len() <= b.len() {
        a.len()
    } else {
        b.len()
    }
}

/// `a`'s parameter names at the positions where `a` and `b` both hold parameters.
pub open spec fn aligned_names(a: Seq<SegmentView>, b: Seq<SegmentView>) -> Seq<Seq<char>> {
    aligned_names_upto(a, b, min_len(a, b))
}

/// Whether a route can be rendered (see `segment_well_formed`).
pub open spec fn route_well_formed(r: RouteView) -> bool {
    segments_well_formed(r.segments)
}

impl RouteEntry {
    pub open spec fn well_formed(self) -> bool {
        route_well_formed(self@)
    }

    pub open spec fn spec_path(self) -> Seq<char> {
        path_of(self@.segments)
    }

    /// Renders the route as `/users/{id}/*`.
    pub fn to_path(&self) -> (r: String)
        requires
            self.well_formed(),
        ensures
            r@ == self.spec_path(),
    {
        let mut path = String::new();
        let n = self.segments.len();
        let mut i: usize = 0;
        while i < n
            invariant
                n == self.segments@.len(),
                i <= n,
                self.well_formed(),
                path@ == path_of(segment_views(self.segments@.take(i as int))),
            decreases n - i,
        {
            let seg = &self.segments[i];
            assert(segment_well_formed(self@.segments[i as int]));
            if str_eq(seg.segment_type.as_str(), "literal") {
                path.append("/");
                match &seg.value {
                    Some(v) => path.append(v.as_str()),
                    None => {},
                }
            } else if str_eq(seg.segment_type.as_str(), "parameter") {
                path.append("/{");
                match &seg.name {
                    Some(v) => path.append(v.as_str()),
                    None => {},
                }
                path.append("}");
            } else if str_eq(seg.segment_type.as_str(), "wildcard") {
                path.append("/*");
            }
            proof {
                let t = segment_views(self.segments@.take(i + 1));
                assert(t.drop_last() =~= segment_views(self.segments@.take(i as int)));
                assert(t.last() == self.segments@[i as int]@);
            }
            i = i + 1;
        }
        assert(segment_views(self.segments@.take(n as int)) =~= self@.segments);
        path
    }

    pub open spec fn spec_display_path(self) -> Seq<char> {
        display_of(self@.segments)
    }

    /// Renders the route as `/users/:id/*`.
    pub fn display_path(&self) -> (r: String)
        requires
            self.well_formed(),
        ensures
            r@ == self.spec_display_path(),
    {
        let mut path = String::new();
        let n = self.segments.len();
        let mut i: usize = 0;
        while i < n
            invariant
                n == self.segments@.len(),
                i <= n,
                self.well_formed(),
                path@ == display_of(segment_views(self.segments@.take(i as int))),
            decreases n - i,
        {
            let seg = &self.segments[i];
            assert(segment_well_formed(self@.segments[i as int]));
            if str_eq(seg.segment_type.as_str(), "literal") {
                path.append("/");
                match &seg.value {
                    Some(v) => path.append(v.as_str()),
                    None => {},
                }
            } else if str_eq(seg.segment_type.as_str(), "parameter") {
                path.append("/:");
                match &seg.name {
                    Some(v) => path.append(v.as_str()),
                    None => {},
                }
            } else if str_eq(seg.segment_type.as_str(), "wildcard") {
                path.append("/*");
            }
            proof {
                let t = segment_views(self.segments@.take(i + 1));
                assert(t.drop_last() =~= segment_views(self.segments@.take(i as int)));
                assert(t.last() == self.segments@[i as int]@);
            }
            i = i + 1;
        }
        assert(segment_views(self.segments@.take(n as int)) =~= self@.segments);
        path
    }

    /// The structural identity: segment types joined by `:`.
    pub open spec fn spec_structural_id(self) -> Seq<char> {
        structural_id_of(self@.segments)
    }

    /// Segment types joined by `:`, e.g. `literal:parameter`.
    pub fn structural_id(&self) -> (r: String)
        ensures
            r@ == self.spec_structural_id(),
    {
        let mut id = String::new();
        let n = self.segments.len();
        let mut i: usize = 0;
        while i < n
            invariant
                n == self.segments@.len(),
                i <= n,
                id@ == structural_id_of(segment_views(self.segments@.take(i as int))),
            decreases n - i,
        {
            proof {
                let t = segment_views(self.segments@.take(i + 1));
                assert(segment_types(t).drop_last() =~= segment_types(segment_views(self.segments@.take(i as int))));
                assert(segment_types(t).last() == self.segments@[i as int].segment_type@);
            }
            if i > 0 {
                id.append(":");
            }
            id.append(self.segments[i].segment_type.as_str());
            proof {
                if i == 0 {
                    assert(segment_types(segment_views(self.segments@.take(1))) =~= seq![self.segments@[0].segment_type@]);
                    assert(segment_types(segment_views(self.segments@.take(0))).len() == 0);
                    assert(id@ =~= self.segments@[0].segment_type@);
                }
            }
            i = i + 1;
        }
        assert(segment_views(self.segments@.take(n as int)) =~= self@.segments);
        id
    }

    /// Names of this route's parameters at positions where `other` also has a
    /// parameter, over the common length of the two routes.
    pub fn get_aligned_parameter_names(&self, other: &RouteEntry) -> (r: Vec<String>)
        ensures
            views(r@) == aligned_names(self@.segments, other@.segments),
    {
        let len = if self.segments.len() <= other.segments.len() {
            self.segments.len()
        } else {
            other.segments.len()
        };
        let mut names: Vec<String> = Vec::new();
        let mut i: usize = 0;
        while i < len
            invariant
                len == min_len(self@.segments, other@.segments),
                i <= len,
                views(names@) == aligned_names_upto(self@.segments, other@.segments, i as nat),
            decreases len - i,
        {
            let a = &self.segments[i];
            let b = &other.segments[i];
            if str_eq(a.segment_type.as_str(), "parameter") && str_eq(b.segment_type.as_str(), "parameter") {
                let name = match &a.name {
                    Some(n) => n.clone(),
                    None => String::new(),
                };
                let ghost old_names = names@;
                names.push(name);
                assert(views(names@) =~= views(old_names).push(name@));
            }
            i = i + 1;
        }
        names
    }
}

} // verus!

verus! {

impl RouteSegment {
    /// A field-by-field copy.
    pub fn copy(&self) -> (r: RouteSegment)
        ensures
            r@ == self@,
    {
        RouteSegment {
            segment_type: self.segment_type.clone(),
            value: copy_opt(&self.value),
            name: copy_opt(&self.name),
            raw_constraint: copy_opt(&self.raw_constraint),
        }
    }
}

/// A copy of a vector of segments.
pub fn copy_segments(v: &Vec<RouteSegment>) -> (r: Vec<RouteSegment>)
    ensures
        segment_views(r@) == segment_views(v@),
{
    let mut out: Vec<RouteSegment> = Vec::new();
    let n = v.len();
    let mut i: usize = 0;
    while i < n
        invariant
            n == v@.len(),
            i <= n,
            segment_views(out@) == segment_views(v@.take(i as int)),
        decreases n - i,
    {
        let ghost old_out = out@;
        let c = v[i].copy();
        out.push(c);
        assert(segment_views(out@) =~= segment_views(old_out).push(c@));
        assert(segment_views(v@.take(i + 1)) =~= segment_views(v@.take(i as int)).push(v@[i as int]@));
        i = i + 1;
    }
    assert(v@.take(n as int) =~= v@);
    out
}

impl RouteEntry {
    /// A field-by-field copy.
    pub fn copy(&self) -> (r: RouteEntry)
        ensures
            r@ == self@,
    {
        RouteEntry {
            method: self.method.clone(),
            segments: copy_segments(&self.segments),
            source_file: self.source_file.clone(),
            line_number: self.line_number,
            extraction_method: self.extraction_method.clone(),
            target_project: copy_opt(&self.target_project),
        }
    }
}

impl RouteEntry {
    /// Whether the route can be rendered: every literal segment has a value
    /// and every parameter segment a name.
    pub fn is_well_formed(&self) -> (r: bool)
        ensures
            r == self.well_formed(),
    {
        let n = self.segments.len();
        let mut i: usize = 0;
        while i < n
            invariant
                n == self.segments@.len(),
                i <= n,
                forall|j: int| 0 <= j < i ==> #[trigger] segment_well_formed(self@.segments[j]),
            decreases n - i,
        {
            let seg = &self.segments[i];
            assert(self@.segments[i as int] == seg@);
            if str_eq(seg.segment_type.as_str(), "literal") && seg.value.is_none() {
                proof {
                    reveal_strlit("literal");
                }
                assert(!segment_well_formed(self@.segments[i as int]));
                return false;
            }
            if str_eq(seg.segment_type.as_str(), "parameter") && seg.name.is_none() {
                assert(!segment_well_formed(self@.segments[i as int]));
                return false;
            }
            i = i + 1;
        }
        true
    }
}


/// Outcome of comparing an old route with a new one of the same structure.
#[derive(Debug, PartialEq)]
pub enum DiffResult {
    Added,
    Removed,
    MethodChanged { old_method: String, new_method: String },
    ParamNamesChanged { old_names: Vec<String>, new_names: Vec<String> },
    Unchanged,
}

/// Compares two routes: a method change wins over a parameter-name change.
pub fn compare_routes(old: &RouteEntry, new: &RouteEntry) -> (r: DiffResult)
    ensures
        old.method@ != new.method@ ==> (r matches DiffResult::MethodChanged { old_method, new_method }
            && old_method@ == old.method@ && new_method@ == new.method@),
        old.method@ == new.method@ && aligned_names(old@.segments, new@.segments) != aligned_names(
            new@.segments,
            old@.segments,
        ) ==> (r matches DiffResult::ParamNamesChanged { old_names, new_names } && views(old_names@)
            == aligned_names(old@.segments, new@.segments) && views(new_names@) == aligned_names(
            new@.segments,
            old@.segments,
        )),
        old.method@ == new.method@ && aligned_names(old@.segments, new@.segments) == aligned_names(
            new@.segments,
            old@.segments,
        ) ==> r is Unchanged,
{
    if !str_eq(old.method.as_str(), new.method.as_str()) {
        return DiffResult::MethodChanged {
            old_method: old.method.clone(),
            new_method: new.method.clone(),
        };
    }
    let old_params = old.get_aligned_parameter_names(new);
    let new_params = new.get_aligned_parameter_names(old);
    if !strings_eq(&old_params, &new_params) {
        return DiffResult::ParamNamesChanged { old_names: old_params, new_names: new_params };
    }
    DiffResult::Unchanged
}

/// Routes sharing one structural identity, in their input order.
#[derive(Debug, Clone)]
pub struct RouteGroup {
    pub key: String,
    pub routes: Vec<RouteEntry>,
}

/// Whether a route has structural identity `k`.
pub open spec fn has_sid(k: Seq<char>) -> spec_fn(RouteView) -> bool {
    |x: RouteView| structural_id_of(x.segments) == k
}

/// Every route's identity is the key of some group.
pub open spec fn index_covers(groups: Seq<RouteGroup>, routes: Seq<RouteEntry>) -> bool {
    forall|j: int| 0 <= j < routes.len() ==> has_key(groups, #[trigger] routes[j].spec_structural_id())
}

/// Some group has key `k`.
pub open spec fn has_key(groups: Seq<RouteGroup>, k: Seq<char>) -> bool {
    exists|i: int| 0 <= i < groups.len() && groups[i].key@ == k
}

/// A group comes before another only if its identity occurs in `routes`
/// before any occurrence of the other's.
pub open spec fn index_first_seen_order(groups: Seq<RouteGroup>, routes: Seq<RouteEntry>) -> bool {
    forall|i: int, j: int, q: int|
        #![trigger groups[i], groups[j], routes[q]]
        0 <= i < j < groups.len() && 0 <= q < routes.len() && routes[q].spec_structural_id()
            == groups[j].key@ ==> occurs_before(routes, groups[i].key@, q)
}

/// Some route before position `q` has identity `k`.
pub open spec fn occurs_before(routes: Seq<RouteEntry>, k: Seq<char>, q: int) -> bool {
    exists|p: int| 0 <= p < q && routes[p].spec_structural_id() == k
}

/// Groups routes by structural identity. Keys are distinct, appear in the
/// order of their first occurrence, cover exactly the identities present, and
/// each group holds the routes of its identity in input order.
pub fn build_structural_index(routes: &[RouteEntry]) -> (r: Vec<RouteGroup>)
    ensures
        forall|i: int, j: int| 0 <= i < j < r@.len() ==> r@[i].key@ != r@[j].key@,
        forall|i: int|
            0 <= i < r@.len() ==> #[trigger] route_views(r@[i].routes@) == route_views(routes@).filter(has_sid(r@[i].key@)),
        index_covers(r@, routes@),
        index_first_seen_order(r@, routes@),
        forall|i: int| 0 <= i < r@.len() ==> occurs_before(routes@, #[trigger] r@[i].key@, routes@.len() as int),
        forall|i: int| 0 <= i < r@.len() ==> #[trigger] r@[i].routes@.len() > 0,
        total_routes(r@) == routes@.len(),
{
    let mut groups: Vec<RouteGroup> = Vec::new();
    let ghost mut first: Seq<int> = Seq::empty();
    let n = routes.len();
    let mut t: usize = 0;
    while t < n
        invariant
            n == routes@.len(),
            t <= n,
            first.len() == groups@.len(),
            forall|i: int, j: int| 0 <= i < j < groups@.len() ==> groups@[i].key@ != groups@[j].key@,
            forall|i: int|
                0 <= i < groups@.len() ==> #[trigger] route_views(groups@[i].routes@) == route_views(routes@.take(
                    t as int,
                )).filter(has_sid(groups@[i].key@)),
            forall|j: int| 0 <= j < t ==> has_key(groups@, #[trigger] routes@[j].spec_structural_id()),
            forall|i: int|
                0 <= i < groups@.len() ==> 0 <= #[trigger] first[i] < t
                    && routes@[first[i]].spec_structural_id() == groups@[i].key@
                    && forall|q: int| 0 <= q < first[i] ==> routes@[q].spec_structural_id() != groups@[i].key@,
            forall|i: int, j: int| 0 <= i < j < groups@.len() ==> first[i] < first[j],
            forall|i: int| 0 <= i < groups@.len() ==> #[trigger] groups@[i].routes@.len() > 0,
        decreases n - t,
    {
        let route = &routes[t];
        let id = route.structural_id();
        let ghost pre = route_views(routes@.take(t as int));
        let ghost post = route_views(routes@.take(t + 1));
        proof {
            assert(post.drop_last() =~= pre);
            assert(post.last() == routes@[t as int]@);
        }
        let ng = groups.len();
        let mut g: usize = 0;
        let mut found = false;
        while g < ng
            invariant_except_break
                !found,
            invariant
                ng == groups@.len(),
                g <= ng,
                forall|k: int| 0 <= k < g ==> groups@[k].key@ != id@,
            ensures
                g <= ng,
                found ==> g < ng && groups@[g as int].key@ == id@,
                !found ==> forall|k: int| 0 <= k < ng ==> groups@[k].key@ != id@,
            decreases ng - g,
        {
            if str_eq(groups[g].key.as_str(), id.as_str()) {
                found = true;
                break;
            }
            g = g + 1;
        }
        let ghost old_groups = groups@;
        if found {
            let mut grp = groups.remove(g);
            grp.routes.push(route.copy());
            groups.insert(g, grp);
            proof {
                reveal_with_fuel(Seq::filter, 1);
                assert forall|i: int| 0 <= i < groups@.len() implies #[trigger] route_views(groups@[i].routes@)
                    == post.filter(has_sid(groups@[i].key@)) by {
                    if i == g {
                        assert(route_views(groups@[i].routes@) =~= route_views(old_groups[i].routes@).push(routes@[t as int]@));
                        assert(groups@[i].routes@.len() > 0);
                    } else {
                        assert(groups@[i] == old_groups[i]);
                        assert(!has_sid(groups@[i].key@)(routes@[t as int]@));
                    }
                }
                assert forall|j: int| 0 <= j < t + 1 implies has_key(groups@, #[trigger] routes@[j].spec_structural_id()) by {
                    if j == t {
                        assert(groups@[g as int].key@ == routes@[j].spec_structural_id());
                    } else {
                        assert(has_key(old_groups, routes@[j].spec_structural_id()));
                        let i0 = choose|i: int| 0 <= i < old_groups.len() && old_groups[i].key@ == routes@[j].spec_structural_id();
                        assert(groups@[i0].key@ == old_groups[i0].key@);
                    }
                }
            }
        } else {
            let ghost old_first = first;
            let mut grp_routes: Vec<RouteEntry> = Vec::new();
            grp_routes.push(route.copy());
            groups.push(RouteGroup { key: id, routes: grp_routes });
            proof {
                first = first.push(t as int);
                reveal_with_fuel(Seq::filter, 1);
                assert forall|i: int| 0 <= i < groups@.len() implies #[trigger] route_views(groups@[i].routes@)
                    == post.filter(has_sid(groups@[i].key@)) by {
                    if i == ng {
                        assert forall|q: int| 0 <= q < pre.len() implies !has_sid(id@)(pre[q]) by {
                            assert(has_key(old_groups, routes@[q].spec_structural_id()));
                        }
                        lemma_filter_none(pre, has_sid(id@));
                        assert(route_views(groups@[i].routes@) =~= seq![routes@[t as int]@]);
                    } else {
                        assert(groups@[i] == old_groups[i]);
                        assert(!has_sid(groups@[i].key@)(routes@[t as int]@));
                    }
                }
                assert forall|j: int| 0 <= j < t + 1 implies has_key(groups@, #[trigger] routes@[j].spec_structural_id()) by {
                    if j == t {
                        assert(groups@[ng as int].key@ == routes@[j].spec_structural_id());
                    } else {
                        assert(has_key(old_groups, routes@[j].spec_structural_id()));
                        let i0 = choose|i: int| 0 <= i < old_groups.len() && old_groups[i].key@ == routes@[j].spec_structural_id();
                        assert(groups@[i0].key@ == old_groups[i0].key@);
                    }
                }
                assert forall|i: int| 0 <= i < groups@.len() implies 0 <= #[trigger] first[i] < t + 1
                    && routes@[first[i]].spec_structural_id() == groups@[i].key@
                    && forall|q: int| 0 <= q < first[i] ==> routes@[q].spec_structural_id() != groups@[i].key@ by {
                    if i < ng {
                        assert(first[i] == old_first[i]);
                        assert(groups@[i] == old_groups[i]);
                    } else {
                        assert forall|q: int| 0 <= q < first[i] implies routes@[q].spec_structural_id() != groups@[i].key@ by {
                            assert(has_key(old_groups, routes@[q].spec_structural_id()));
                        }
                    }
                }
            }
        }
        t = t + 1;
    }
    proof {
        assert(t == n);
        assert(routes@.take(n as int) =~= routes@);
        assert(index_covers(groups@, routes@));
        assert forall|i: int, j: int, q: int|
            #![trigger groups@[i], groups@[j], routes@[q]]
            0 <= i < j < groups@.len() && 0 <= q < routes@.len() && routes@[q].spec_structural_id()
                == groups@[j].key@ implies occurs_before(routes@, groups@[i].key@, q) by {
            assert(first[i] < first[j]);
            assert(0 <= first[j]);
            if q < first[j] {
                assert(routes@[q].spec_structural_id() != groups@[j].key@);
            }
            assert(routes@[first[i]].spec_structural_id() == groups@[i].key@);
        }
        assert(index_first_seen_order(groups@, routes@));
        assert forall|i: int| 0 <= i < groups@.len() implies occurs_before(routes@, #[trigger] groups@[i].key@, routes@.len() as int) by {
            assert(routes@[first[i]].spec_structural_id() == groups@[i].key@);
        }
        law_index_holds_every_route(groups@, routes@);
    }
    groups
}

/// How many routes the groups hold together.
pub open spec fn total_routes(groups: Seq<RouteGroup>) -> int
    decreases groups.len(),
{
    if groups.len() == 0 {
        0
    } else {
        total_routes(groups.drop_last()) + groups.last().routes@.len()
    }
}

/// How many routes of `rs` have each of the identities `keys`, added up.
pub open spec fn sid_count(keys: Seq<Seq<char>>, rs: Seq<RouteView>) -> int
    decreases keys.len(),
{
    if keys.len() == 0 {
        0
    } else {
        sid_count(keys.drop_last(), rs) + rs.filter(has_sid(keys.last())).len()
    }
}

/// How many of `keys` equal `k`.
pub open spec fn key_occurrences(keys: Seq<Seq<char>>, k: Seq<char>) -> int
    decreases keys.len(),
{
    if keys.len() == 0 {
        0
    } else {
        key_occurrences(keys.drop_last(), k) + if keys.last() == k {
            1int
        } else {
            0int
        }
    }
}

proof fn lemma_sid_count_push(keys: Seq<Seq<char>>, d: Seq<RouteView>, x: RouteView)
    ensures
        sid_count(keys, d.push(x)) == sid_count(keys, d) + key_occurrences(keys, structural_id_of(x.segments)),
    decreases keys.len(),
{
    if keys.len() > 0 {
        lemma_sid_count_push(keys.drop_last(), d, x);
        d.lemma_filter_push(x, has_sid(keys.last()));
    }
}

proof fn lemma_key_occurs_once(keys: Seq<Seq<char>>, k: Seq<char>)
    requires
        forall|i: int, j: int| 0 <= i < j < keys.len() ==> keys[i] != keys[j],
        keys.contains(k),
    ensures
        key_occurrences(keys, k) == 1,
    decreases keys.len(),
{
    let d = keys.drop_last();
    if keys.last() == k {
        assert forall|i: int| 0 <= i < d.len() implies d[i] != k by {
            assert(keys[i] != keys[keys.len() - 1]);
        }
        lemma_key_absent(d, k);
    } else {
        let w = choose|w: int| 0 <= w < keys.len() && keys[w] == k;
        assert(d[w] == k);
        lemma_key_occurs_once(d, k);
    }
}

proof fn lemma_key_absent(keys: Seq<Seq<char>>, k: Seq<char>)
    requires
        forall|i: int| 0 <= i < keys.len() ==> keys[i] != k,
    ensures
        key_occurrences(keys, k) == 0,
    decreases keys.len(),
{
    if keys.len() > 0 {
        lemma_key_absent(keys.drop_last(), k);
    }
}

proof fn lemma_sid_count_all(keys: Seq<Seq<char>>, rs: Seq<RouteView>)
    requires
        forall|i: int, j: int| 0 <= i < j < keys.len() ==> keys[i] != keys[j],
        forall|q: int| 0 <= q < rs.len() ==> keys.contains(structural_id_of(#[trigger] rs[q].segments)),
    ensures
        sid_count(keys, rs) == rs.len(),
    decreases rs.len(),
{
    if rs.len() == 0 {
        lemma_sid_count_empty(keys, rs);
    } else {
        let d = rs.drop_last();
        let x = rs.last();
        assert forall|q: int| 0 <= q < d.len() implies keys.contains(structural_id_of(#[trigger] d[q].segments)) by {
            assert(d[q] == rs[q]);
        }
        lemma_sid_count_all(keys, d);
        lemma_sid_count_push(keys, d, x);
        assert(d.push(x) =~= rs);
        assert(keys.contains(structural_id_of(rs[rs.len() - 1].segments)));
        lemma_key_occurs_once(keys, structural_id_of(x.segments));
    }
}

proof fn lemma_sid_count_empty(keys: Seq<Seq<char>>, rs: Seq<RouteView>)
    requires
        rs.len() == 0,
    ensures
        sid_count(keys, rs) == 0,
    decreases keys.len(),
{
    if keys.len() > 0 {
        lemma_sid_count_empty(keys.drop_last(), rs);
        assert(rs.filter(has_sid(keys.last())).len() <= rs.len()) by {
            rs.lemma_filter_len(has_sid(keys.last()));
        }
    }
}

/// The identities of the groups, in order.
pub open spec fn group_keys(groups: Seq<RouteGroup>) -> Seq<Seq<char>> {
    groups.map_values(|g: RouteGroup| g.key@)
}

proof fn lemma_total_is_sid_count(groups: Seq<RouteGroup>, rs: Seq<RouteView>)
    requires
        forall|i: int|
            0 <= i < groups.len() ==> #[trigger] route_views(groups[i].routes@) == rs.filter(has_sid(groups[i].key@)),
    ensures
        total_routes(groups) == sid_count(group_keys(groups), rs),
    decreases groups.len(),
{
    if groups.len() > 0 {
        let d = groups.drop_last();
        assert forall|i: int| 0 <= i < d.len() implies #[trigger] route_views(d[i].routes@) == rs.filter(has_sid(d[i].key@)) by {
            assert(d[i] == groups[i]);
        }
        lemma_total_is_sid_count(d, rs);
        assert(group_keys(groups).drop_last() =~= group_keys(d));
        let g = groups[groups.len() - 1];
        assert(route_views(g.routes@) == rs.filter(has_sid(g.key@)));
        assert(route_views(g.routes@).len() == g.routes@.len());
    }
}

/// Law: a structural index holds every route exactly once: when its keys are
/// distinct, cover the identities of the routes and each group holds the
/// routes of its key (as `build_structural_index` states), the group sizes
/// add up to the number of routes.
pub proof fn law_index_holds_every_route(groups: Seq<RouteGroup>, routes: Seq<RouteEntry>)
    requires
        forall|i: int, j: int| 0 <= i < j < groups.len() ==> groups[i].key@ != groups[j].key@,
        forall|i: int|
            0 <= i < groups.len() ==> #[trigger] route_views(groups[i].routes@) == route_views(routes).filter(
                has_sid(groups[i].key@),
            ),
        index_covers(groups, routes),
    ensures
        total_routes(groups) == routes.len(),
{
    let rs = route_views(routes);
    let keys = group_keys(groups);
    lemma_total_is_sid_count(groups, rs);
    assert forall|i: int, j: int| 0 <= i < j < keys.len() implies keys[i] != keys[j] by {
        assert(keys[i] == groups[i].key@);
        assert(keys[j] == groups[j].key@);
    }
    assert forall|q: int| 0 <= q < rs.len() implies keys.contains(structural_id_of(#[trigger] rs[q].segments)) by {
        assert(rs[q] == routes[q]@);
        assert(has_key(groups, routes[q].spec_structural_id()));
        let i = choose|i: int| 0 <= i < groups.len() && groups[i].key@ == routes[q].spec_structural_id();
        assert(keys[i] == groups[i].key@);
    }
    lemma_sid_count_all(keys, rs);
}

/// Filtering a sequence none of whose elements satisfies `pred` leaves nothing.
pub proof fn lemma_filter_none<A>(s: Seq<A>, pred: spec_fn(A) -> bool)
    requires
        forall|q: int| 0 <= q < s.len() ==> !pred(s[q]),
    ensures
        s.filter(pred) =~= Seq::<A>::empty(),
    decreases s.len(),
{
    reveal_with_fuel(Seq::filter, 1);
    if s.len() > 0 {
        lemma_filter_none(s.drop_last(), pred);
    }
}

} // verus!

verus! {

/// The segment a non-empty path piece denotes: `:name` and `{name[:constraint]}`
/// are parameters, anything else is a literal.
pub open spec fn segment_for_part(part: Seq<char>) -> SegmentView {
    if part.len() > 0 && part[0] == ':' {
        SegmentView { kind: "parameter"@, value: None, name: Some(part.skip(1)), raw_constraint: None }
    } else if part.len() > 0 && part[0] == '{' && part.last() == '}' {
        SegmentView {
            kind: "parameter"@,
            value: None,
            name: Some(split(part.subrange(1, part.len() - 1), ':')[0]),
            raw_constraint: None,
        }
    } else {
        SegmentView { kind: "literal"@, value: Some(part), name: None, raw_constraint: None }
    }
}

/// The segments of a textual path: one per non-empty `/`-separated piece.
pub open spec fn path_segments(path: Seq<char>) -> Seq<SegmentView> {
    nonempty_pieces(path, '/').map_values(|p: Seq<char>| segment_for_part(p))
}

fn segment_from_part(part: &str) -> (r: RouteSegment)
    ensures
        r@ == segment_for_part(part@),
{
    let n = part.unicode_len();
    if n > 0 && part.get_char(0) == ':' {
        let name = part.substring_char(1, n);
        assert(name@ =~= part@.skip(1));
        RouteSegment {
            segment_type: String::from_str("parameter"),
            value: None,
            name: Some(String::from_str(name)),
            raw_constraint: None,
        }
    } else if n > 0 && part.get_char(0) == '{' && part.get_char(n - 1) == '}' {
        let inner = if n >= 2 {
            part.substring_char(1, n - 1)
        } else {
            part.substring_char(1, 1)
        };
        proof {
            assert(part@.last() == part@[n - 1]);
            assert(n >= 2);
        }
        let name = before_char(inner, ':');
        RouteSegment {
            segment_type: String::from_str("parameter"),
            value: None,
            name: Some(name),
            raw_constraint: None,
        }
    } else {
        proof {
            if n > 0 {
                assert(part@.last() == part@[n - 1]);
            }
        }
        RouteSegment {
            segment_type: String::from_str("literal"),
            value: Some(String::from_str(part)),
            name: None,
            raw_constraint: None,
        }
    }
}

/// Parses a textual path such as `/users/{id}` or `/users/:id` into segments.
pub fn parse_path_to_segments(path: &str) -> (r: Vec<RouteSegment>)
    ensures
        segment_views(r@) == path_segments(path@),
        segments_well_formed(segment_views(r@)),
{
    let parts = split_nonempty(path, '/');
    let mut segs: Vec<RouteSegment> = Vec::new();
    let n = parts.len();
    let mut i: usize = 0;
    while i < n
        invariant
            n == parts@.len(),
            i <= n,
            views(parts@) == nonempty_pieces(path@, '/'),
            segment_views(segs@) == views(parts@).take(i as int).map_values(
                |p: Seq<char>| segment_for_part(p),
            ),
        decreases n - i,
    {
        let seg = segment_from_part(parts[i].as_str());
        let ghost old_segs = segs@;
        segs.push(seg);
        proof {
            assert(segment_views(segs@) =~= segment_views(old_segs).push(seg@));
            assert(views(parts@).take(i + 1) =~= views(parts@).take(i as int).push(parts@[i as int]@));
            assert(views(parts@).take(i + 1).map_values(|p: Seq<char>| segment_for_part(p)) =~= views(
                parts@,
            ).take(i as int).map_values(|p: Seq<char>| segment_for_part(p)).push(segment_for_part(parts@[i as int]@)));
        }
        i = i + 1;
    }
    assert(views(parts@).take(n as int) =~= views(parts@));
    assert forall|k: int| 0 <= k < segs@.len() implies #[trigger] segment_well_formed(segment_views(segs@)[k]) by {
        let p = views(parts@)[k];
        assert(segment_views(segs@)[k] == segment_for_part(p));
        reveal_strlit("parameter");
        reveal_strlit("literal");
        assert("parameter"@.len() == 9);
        assert("literal"@.len() == 7);
        assert("parameter"@ != "literal"@);
    }
    segs
}

/// A segment that both textual forms of a path give back when parsed: a
/// literal whose value is non-empty, free of `/` and not read as a
/// parameter (`:x` or `{x}`), or a parameter whose name is free of `/` and
/// `:`; neither keeps a constraint.
pub open spec fn segment_round_trips(seg: SegmentView) -> bool {
    &&& seg.raw_constraint is None
    &&& (literal_round_trips(seg) || parameter_round_trips(seg))
}

pub open spec fn literal_round_trips(seg: SegmentView) -> bool {
    &&& seg.kind == "literal"@
    &&& seg.name is None
    &&& seg.value is Some
    &&& seg.value.unwrap().len() > 0
    &&& free_of(seg.value.unwrap(), '/')
    &&& seg.value.unwrap()[0] != ':'
    &&& !(seg.value.unwrap()[0] == '{' && seg.value.unwrap().last() == '}')
}

pub open spec fn parameter_round_trips(seg: SegmentView) -> bool {
    &&& seg.kind == "parameter"@
    &&& seg.value is None
    &&& seg.name is Some
    &&& free_of(seg.name.unwrap(), '/')
    &&& free_of(seg.name.unwrap(), ':')
}

/// The text of a segment in the `{name}` form, without its `/`.
pub open spec fn path_text(seg: SegmentView) -> Seq<char> {
    if is_literal(seg) {
        seg.value.unwrap()
    } else {
        "{"@ + seg.name.unwrap() + "}"@
    }
}

/// The text of a segment in the `:name` form, without its `/`.
pub open spec fn display_text(seg: SegmentView) -> Seq<char> {
    if is_literal(seg) {
        seg.value.unwrap()
    } else {
        ":"@ + seg.name.unwrap()
    }
}

pub open spec fn all_round_trip(segs: Seq<SegmentView>) -> bool {
    forall|i: int| 0 <= i < segs.len() ==> #[trigger] segment_round_trips(segs[i])
}

proof fn lemma_path_of_prefixed(segs: Seq<SegmentView>)
    requires
        all_round_trip(segs),
    ensures
        path_of(segs) == prefixed(segs.map_values(|g: SegmentView| path_text(g)), '/'),
        display_of(segs) == prefixed(segs.map_values(|g: SegmentView| display_text(g)), '/'),
    decreases segs.len(),
{
    reveal_strlit("literal");
    reveal_strlit("parameter");
    reveal_strlit("wildcard");
    reveal_strlit("/");
    reveal_strlit("/{");
    reveal_strlit("{");
    reveal_strlit("}");
    reveal_strlit("/:");
    reveal_strlit(":");
    if segs.len() > 0 {
        let d = segs.drop_last();
        let x = segs.last();
        assert(all_round_trip(d)) by {
            assert forall|i: int| 0 <= i < d.len() implies #[trigger] segment_round_trips(d[i]) by {
                assert(d[i] == segs[i]);
            }
        }
        lemma_path_of_prefixed(d);
        assert(segment_round_trips(segs[segs.len() - 1]));
        let pt = segs.map_values(|g: SegmentView| path_text(g));
        let dt = segs.map_values(|g: SegmentView| display_text(g));
        assert(pt.drop_last() =~= d.map_values(|g: SegmentView| path_text(g)));
        assert(dt.drop_last() =~= d.map_values(|g: SegmentView| display_text(g)));
        assert(path_piece(x) =~= seq!['/'] + path_text(x));
        assert(display_piece(x) =~= seq!['/'] + display_text(x));
        assert(path_of(d) + path_piece(x) =~= path_of(d).push('/') + path_text(x));
        assert(display_of(d) + display_piece(x) =~= display_of(d).push('/') + display_text(x));
    } else {
        assert(segs.map_values(|g: SegmentView| path_text(g)) =~= Seq::<Seq<char>>::empty());
        assert(segs.map_values(|g: SegmentView| display_text(g)) =~= Seq::<Seq<char>>::empty());
    }
}

proof fn lemma_segment_parses_back(seg: SegmentView)
    requires
        segment_round_trips(seg),
    ensures
        segment_for_part(path_text(seg)) == seg,
        segment_for_part(display_text(seg)) == seg,
        path_text(seg).len() > 0 && free_of(path_text(seg), '/'),
        display_text(seg).len() > 0 && free_of(display_text(seg), '/'),
{
    reveal_strlit("literal");
    reveal_strlit("parameter");
    reveal_strlit("{");
    reveal_strlit("}");
    reveal_strlit(":");
    if !is_literal(seg) {
        let n = seg.name.unwrap();
        let p = path_text(seg);
        assert(p.subrange(1, p.len() - 1) =~= n);
        lemma_split_free(n, ':');
        let q = display_text(seg);
        assert(q.skip(1) =~= n);
        assert forall|j: int| 0 <= j < p.len() implies p[j] != '/' by {
            if 0 < j < p.len() - 1 {
                assert(p[j] == n[j - 1]);
            }
        }
        assert forall|j: int| 0 <= j < q.len() implies q[j] != '/' by {
            if 0 < j {
                assert(q[j] == n[j - 1]);
            }
        }
        assert(free_of(p, '/'));
        assert(free_of(q, '/'));
        assert(p.len() > 0);
    } else {
        assert("literal"@.len() != "parameter"@.len());
        assert(!parameter_round_trips(seg));
        assert(literal_round_trips(seg));
    }
}

/// Law: parsing a rendered path gives its segments back. For segments that
/// both forms can carry (see `segment_round_trips`), the segments of the
/// `{name}` rendering and those of the `:name` rendering are the segments.
pub proof fn law_path_round_trip(segs: Seq<SegmentView>)
    requires
        all_round_trip(segs),
    ensures
        path_segments(path_of(segs)) == segs,
        path_segments(display_of(segs)) == segs,
{
    lemma_path_of_prefixed(segs);
    let pt = segs.map_values(|g: SegmentView| path_text(g));
    let dt = segs.map_values(|g: SegmentView| display_text(g));
    assert forall|i: int| 0 <= i < segs.len() implies segment_for_part(#[trigger] pt[i]) == segs[i] && pt[i].len() > 0
        && free_of(pt[i], '/') && segment_for_part(dt[i]) == segs[i] && dt[i].len() > 0 && free_of(dt[i], '/') by {
        assert(segment_round_trips(segs[i]));
        lemma_segment_parses_back(segs[i]);
    }
    assert forall|i: int| 0 <= i < pt.len() implies #[trigger] pt[i].len() > 0 && free_of(pt[i], '/') by {
    }
    assert forall|i: int| 0 <= i < dt.len() implies #[trigger] dt[i].len() > 0 && free_of(dt[i], '/') by {
        assert(segment_for_part(pt[i]) == segs[i]);
    }
    lemma_pieces_of_prefixed(pt, '/');
    lemma_pieces_of_prefixed(dt, '/');
    let mp = pt.map_values(|p: Seq<char>| segment_for_part(p));
    let md = dt.map_values(|p: Seq<char>| segment_for_part(p));
    assert forall|i: int| 0 <= i < segs.len() implies #[trigger] mp[i] == segs[i] && md[i] == segs[i] by {
        assert(segment_for_part(pt[i]) == segs[i]);
    }
    assert(mp =~= segs);
    assert(md =~= segs);
}

/// Both route lists have as many positions where both hold a parameter.
pub proof fn lemma_aligned_names_len(a: Seq<SegmentView>, b: Seq<SegmentView>, n: nat)
    ensures
        aligned_names_upto(a, b, n).len() == aligned_names_upto(b, a, n).len(),
    decreases n,
{
    if n > 0 {
        lemma_aligned_names_len(a, b, (n - 1) as nat);
    }
}

/// Where the parameters both lists hold at the same positions carry the same
/// names, the names aligned either way agree.
pub proof fn lemma_aligned_names_agree(a: Seq<SegmentView>, b: Seq<SegmentView>, n: nat)
    requires
        forall|j: int|
            0 <= j < n && a[j].kind == "parameter"@ && b[j].kind == "parameter"@ ==> #[trigger] a[j].name == #[trigger] b[j].name,
    ensures
        aligned_names_upto(a, b, n) == aligned_names_upto(b, a, n),
    decreases n,
{
    reveal_strlit("parameter");
    if n > 0 {
        lemma_aligned_names_agree(a, b, (n - 1) as nat);
        let i = n - 1;
        if is_parameter(a[i]) && is_parameter(b[i]) {
            assert(a[i].name == b[i].name);
        }
    }
}

/// A position where both lists hold parameters of different names makes the
/// names aligned either way differ.
pub proof fn lemma_aligned_names_differ(a: Seq<SegmentView>, b: Seq<SegmentView>, n: nat, j: int)
    requires
        0 <= j < n,
        a[j].kind == "parameter"@,
        b[j].kind == "parameter"@,
        a[j].name is Some,
        b[j].name is Some,
        a[j].name != b[j].name,
    ensures
        aligned_names_upto(a, b, n) != aligned_names_upto(b, a, n),
    decreases n,
{
    let i = n - 1;
    let x = aligned_names_upto(a, b, n);
    let y = aligned_names_upto(b, a, n);
    let p = aligned_names_upto(a, b, (n - 1) as nat);
    let q = aligned_names_upto(b, a, (n - 1) as nat);
    lemma_aligned_names_len(a, b, (n - 1) as nat);
    if is_parameter(a[i]) && is_parameter(b[i]) {
        assert(x == p.push(name_or_empty(a[i])));
        assert(y == q.push(name_or_empty(b[i])));
        if j == i {
            assert(x.last() != y.last());
        } else {
            lemma_aligned_names_differ(a, b, (n - 1) as nat, j);
            if x == y {
                assert(x.drop_last() =~= p);
                assert(y.drop_last() =~= q);
            }
        }
    } else {
        assert(j != i);
        lemma_aligned_names_differ(a, b, (n - 1) as nat, j);
    }
}

/// A parameter segment of the given name, without constraint.
pub open spec fn parameter_named(n: Seq<char>) -> SegmentView {
    SegmentView { kind: "parameter"@, value: None, name: Some(n), raw_constraint: None }
}

/// Law: a `{name:constraint}` piece of a path parses to a parameter named by
/// the text before the first `:`, the constraint dropped; a `{name}` or
/// `:name` piece to a parameter of that name; any other piece to a literal of
/// that text.
pub proof fn law_path_piece_parses(n: Seq<char>, constraint: Seq<char>, lit: Seq<char>)
    requires
        free_of(n, '/'),
        free_of(n, ':'),
        free_of(constraint, '/'),
        free_of(lit, '/'),
        lit.len() > 0,
        lit[0] != ':',
        !(lit[0] == '{' && lit.last() == '}'),
    ensures
        path_segments("/{"@ + n + ":"@ + constraint + "}"@) == seq![parameter_named(n)],
        path_segments("/{"@ + n + "}"@) == seq![parameter_named(n)],
        path_segments("/:"@ + n) == seq![parameter_named(n)],
        path_segments("/"@ + lit) == seq![SegmentView { kind: "literal"@, value: Some(lit), name: None, raw_constraint: None }],
{
    reveal_strlit("/{");
    reveal_strlit(":");
    reveal_strlit("}");
    reveal_strlit("/:");
    reveal_strlit("/");
    let p1 = "{"@ + n + ":"@ + constraint + "}"@;
    let p2 = "{"@ + n + "}"@;
    let p3 = ":"@ + n;
    reveal_strlit("{");
    assert forall|j: int| 0 <= j < p1.len() implies p1[j] != '/' by {
        if 1 <= j < 1 + n.len() {
            assert(p1[j] == n[j - 1]);
        } else if 1 + n.len() < j < p1.len() - 1 {
            assert(p1[j] == constraint[j - 2 - n.len()]);
        }
    }
    assert forall|j: int| 0 <= j < p2.len() implies p2[j] != '/' by {
        if 1 <= j < 1 + n.len() {
            assert(p2[j] == n[j - 1]);
        }
    }
    assert forall|j: int| 0 <= j < p3.len() implies p3[j] != '/' by {
        if 1 <= j {
            assert(p3[j] == n[j - 1]);
        }
    }
    lemma_pieces_of_prefixed(seq![p1], '/');
    lemma_pieces_of_prefixed(seq![p2], '/');
    lemma_pieces_of_prefixed(seq![p3], '/');
    lemma_pieces_of_prefixed(seq![lit], '/');
    lemma_prefixed_one(p1, '/');
    lemma_prefixed_one(p2, '/');
    lemma_prefixed_one(p3, '/');
    lemma_prefixed_one(lit, '/');
    assert(seq!['/'] + p1 =~= "/{"@ + n + ":"@ + constraint + "}"@);
    assert(seq!['/'] + p2 =~= "/{"@ + n + "}"@);
    assert(seq!['/'] + p3 =~= "/:"@ + n);
    assert(seq!['/'] + lit =~= "/"@ + lit);
    // `{name:constraint}`
    let inner1 = p1.subrange(1, p1.len() - 1);
    assert(inner1 =~= n.push(':') + constraint);
    lemma_split_first_piece(n, constraint, ':');
    // `{name}`
    let inner2 = p2.subrange(1, p2.len() - 1);
    assert(inner2 =~= n);
    lemma_split_free(n, ':');
    assert(p3.skip(1) =~= n);
    assert(seq![p1].map_values(|p: Seq<char>| segment_for_part(p)) =~= seq![parameter_named(n)]);
    assert(seq![p2].map_values(|p: Seq<char>| segment_for_part(p)) =~= seq![parameter_named(n)]);
    assert(seq![p3].map_values(|p: Seq<char>| segment_for_part(p)) =~= seq![parameter_named(n)]);
}

/// Law: rendering a route appends, per segment, `/` and a literal's value,
/// `/{name}` for a parameter (`/:name` in the display form) and `/*` for a
/// wildcard.
pub proof fn law_path_pieces_rendered(segs: Seq<SegmentView>, seg: SegmentView)
    ensures
        seg.kind == "literal"@ && seg.value is Some ==> path_of(segs.push(seg)) == path_of(segs) + "/"@
            + seg.value.unwrap() && display_of(segs.push(seg)) == display_of(segs) + "/"@ + seg.value.unwrap(),
        seg.kind == "parameter"@ && seg.name is Some ==> path_of(segs.push(seg)) == path_of(segs) + "/{"@
            + seg.name.unwrap() + "}"@ && display_of(segs.push(seg)) == display_of(segs) + "/:"@ + seg.name.unwrap(),
        seg.kind == "wildcard"@ ==> path_of(segs.push(seg)) == path_of(segs) + "/*"@ && display_of(segs.push(seg))
            == display_of(segs) + "/*"@,
{
    reveal_strlit("literal");
    reveal_strlit("parameter");
    reveal_strlit("wildcard");
    reveal_strlit("/");
    reveal_strlit("/{");
    reveal_strlit("}");
    reveal_strlit("/:");
    reveal_strlit("/*");
    let t = segs.push(seg);
    assert(t.drop_last() =~= segs);
    assert(t.last() == seg);
    if seg.kind == "literal"@ && seg.value is Some {
        let v = seg.value.unwrap();
        assert(path_of(segs) + "/"@ + v =~= path_of(segs) + ("/"@ + v));
        assert(display_of(segs) + "/"@ + v =~= display_of(segs) + ("/"@ + v));
    }
    if seg.kind == "parameter"@ && seg.name is Some {
        let m = seg.name.unwrap();
        assert("literal"@.len() != "parameter"@.len());
        assert(!is_literal(seg));
        assert(path_piece(seg) == "/{"@ + m + "}"@);
        assert(display_piece(seg) == "/:"@ + m);
        assert(path_of(segs) + "/{"@ + m + "}"@ =~= path_of(segs) + ("/{"@ + m + "}"@));
    }
    if seg.kind == "wildcard"@ {
        assert("literal"@.len() != "wildcard"@.len());
        assert("parameter"@.len() != "wildcard"@.len());
        assert(!is_literal(seg) && !is_parameter(seg));
        assert(path_piece(seg) == "/*"@);
        assert(display_piece(seg) == "/*"@);
    }
}

} // verus!
