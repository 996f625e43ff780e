//! The extraction adapter: which adapter a workspace gets, where it is
//! looked for, how its line-delimited output is framed, and when the routes
//! it reports are accepted.

use vstd::prelude::*;
use crate::text::{lines, lines_of, views, occurs_at, contains_str, split, split_all, opt_view, str_eq};
use crate::route::{RouteEntry, RouteView, route_views};

verus! {

/// The non-Rust workspace kinds that fall back to intent-only mode.
#[derive(Debug, PartialEq, Eq, Structural, Clone, Copy)]
pub enum Language {
    Python,
    Go,
    Node,
    Nginx,
}

/// What scanning a workspace does.
#[derive(Debug, PartialEq, Eq, Structural, Clone, Copy)]
pub enum AdapterPlan {
    /// Run the Rust adapter (a `Cargo.toml` is present).
    Rust,
    /// Record an empty scan of this kind.
    IntentOnly(Language),
    /// Fail: no known project file.
    Unknown,
}

/// The plan for a workspace from the project files it holds: Rust first;
/// else Python (`requirements.txt`, `pyproject.toml` or `Pipfile`), Go,
/// Node.js, Nginx in that order; else unknown.
pub open spec fn spec_adapter_plan(cargo: bool, python: bool, go: bool, node: bool, nginx: bool) -> AdapterPlan {
    if cargo {
        AdapterPlan::Rust
    } else if python {
        AdapterPlan::IntentOnly(Language::Python)
    } else if go {
        AdapterPlan::IntentOnly(Language::Go)
    } else if node {
        AdapterPlan::IntentOnly(Language::Node)
    } else if nginx {
        AdapterPlan::IntentOnly(Language::Nginx)
    } else {
        AdapterPlan::Unknown
    }
}

/// The plan for a workspace (see `spec_adapter_plan`).
pub fn adapter_plan(cargo: bool, python: bool, go: bool, node: bool, nginx: bool) -> (r: AdapterPlan)
    ensures
        r == spec_adapter_plan(cargo, python, go, node, nginx),
{
    if cargo {
        AdapterPlan::Rust
    } else if python {
        AdapterPlan::IntentOnly(Language::Python)
    } else if go {
        AdapterPlan::IntentOnly(Language::Go)
    } else if node {
        AdapterPlan::IntentOnly(Language::Node)
    } else if nginx {
        AdapterPlan::IntentOnly(Language::Nginx)
    } else {
        AdapterPlan::Unknown
    }
}

pub open spec fn spec_language_name(l: Language) -> Seq<char> {
    match l {
        Language::Python => "Python"@,
        Language::Go => "Go"@,
        Language::Node => "Node.js"@,
        Language::Nginx => "Nginx"@,
    }
}

pub open spec fn spec_project_type(l: Language) -> Seq<char> {
    match l {
        Language::Python => "python"@,
        Language::Go => "go"@,
        Language::Node => "node.js"@,
        Language::Nginx => "nginx"@,
    }
}

impl Language {
    /// The name shown to the user.
    pub fn name(&self) -> (r: &'static str)
        ensures
            r@ == spec_language_name(*self),
    {
        match self {
            Language::Python => "Python",
            Language::Go => "Go",
            Language::Node => "Node.js",
            Language::Nginx => "Nginx",
        }
    }

    /// The project type recorded for an intent-only scan: the name in lower case.
    pub fn project_type(&self) -> (r: &'static str)
        ensures
            r@ == spec_project_type(*self),
    {
        match self {
            Language::Python => "python",
            Language::Go => "go",
            Language::Node => "node.js",
            Language::Nginx => "nginx",
        }
    }
}

/// The directories searched for an adapter binary, in order: the running
/// executable's directory, then each entry of `PATH` split at `:`.
pub open spec fn spec_search_dirs(exe_dir: Option<Seq<char>>, path_var: Option<Seq<char>>) -> Seq<Seq<char>> {
    let first = match exe_dir {
        Some(d) => seq![d],
        None => Seq::empty(),
    };
    let rest = match path_var {
        Some(p) => split(p, ':'),
        None => Seq::empty(),
    };
    first + rest
}

/// The directories searched for an adapter binary (see `spec_search_dirs`).
pub fn search_dirs(exe_dir: &Option<String>, path_var: &Option<String>) -> (r: Vec<String>)
    ensures
        views(r@) == spec_search_dirs(opt_view(*exe_dir), opt_view(*path_var)),
{
    let mut out: Vec<String> = Vec::new();
    match exe_dir {
        Some(d) => out.push(d.clone()),
        None => {},
    }
    let ghost first = views(out@);
    match path_var {
        Some(p) => {
            let mut pieces = split_all(p.as_str(), ':');
            let ghost pv = views(pieces@);
            out.append(&mut pieces);
            assert(views(out@) =~= first + pv);
        },
        None => {
            assert(views(out@) =~= first + Seq::<Seq<char>>::empty());
        },
    }
    out
}

/// A non-empty line of adapter output: a status marker (it mentions the
/// `"_lunar"` key) or a route.
pub enum AdapterLine {
    Marker(String),
    Route(String),
}

pub enum LineView {
    Marker(Seq<char>),
    Route(Seq<char>),
}

impl View for AdapterLine {
    type V = LineView;

    open spec fn view(&self) -> LineView {
        match self {
            AdapterLine::Marker(s) => LineView::Marker(s@),
            AdapterLine::Route(s) => LineView::Route(s@),
        }
    }
}

/// Whether a line mentions the `"_lunar"` key.
pub open spec fn mentions_marker(line: Seq<char>) -> bool {
    exists|j: int| occurs_at(line, "\"_lunar\""@, j)
}

/// How a non-empty line is read.
pub open spec fn frame_line(line: Seq<char>) -> LineView {
    if mentions_marker(line) {
        LineView::Marker(line)
    } else {
        LineView::Route(line)
    }
}

/// The framing of adapter output: its non-empty lines, in order, each
/// read by `frame_line`.
pub open spec fn framed(ls: Seq<Seq<char>>) -> Seq<LineView>
    decreases ls.len(),
{
    if ls.len() == 0 {
        Seq::empty()
    } else if ls.last().len() == 0 {
        framed(ls.drop_last())
    } else {
        framed(ls.drop_last()).push(frame_line(ls.last()))
    }
}

pub open spec fn line_views(v: Seq<AdapterLine>) -> Seq<LineView> {
    v.map_values(|l: AdapterLine| l@)
}

/// Frames the output of an adapter (see `framed`).
pub fn frame_output(output: &str) -> (r: Vec<AdapterLine>)
    ensures
        line_views(r@) == framed(lines(output@)),
{
    let ls = lines_of(output);
    let ghost lv = views(ls@);
    let mut out: Vec<AdapterLine> = Vec::new();
    let n = ls.len();
    let mut i: usize = 0;
    while i < n
        invariant
            n == ls@.len(),
            lv == views(ls@),
            lv == lines(output@),
            i <= n,
            line_views(out@) == framed(lv.take(i as int)),
        decreases n - i,
    {
        proof {
            assert(lv.take(i + 1).drop_last() =~= lv.take(i as int));
            assert(lv.take(i + 1).last() == ls@[i as int]@);
        }
        let line = &ls[i];
        if line.as_str().unicode_len() > 0 {
            let ghost before = line_views(out@);
            let marked = contains_str(line.as_str(), "\"_lunar\"");
            assert(marked == mentions_marker(ls@[i as int]@));
            let copy = line.clone();
            assert(copy@ == ls@[i as int]@);
            let item = if marked {
                AdapterLine::Marker(copy)
            } else {
                AdapterLine::Route(copy)
            };
            assert(item@ == frame_line(ls@[i as int]@));
            out.push(item);
            assert(line_views(out@) =~= before.push(frame_line(ls@[i as int]@)));
        }
        i = i + 1;
    }
    assert(lv.take(n as int) =~= lv);
    out
}

/// A framed line once decoded.
pub enum AdapterRecord {
    /// A marker reporting success and the number of routes.
    Success(u64),
    /// A marker reporting an error, with its message.
    Failure(String),
    /// A marker with another status.
    OtherMarker,
    /// A route.
    Route(RouteEntry),
    /// A line that is not valid JSON of its kind, with the decoder's message.
    Malformed(String),
}

pub enum RecordView {
    Success(u64),
    Failure(Seq<char>),
    OtherMarker,
    Route(RouteView),
    Malformed(Seq<char>),
}

impl View for AdapterRecord {
    type V = RecordView;

    open spec fn view(&self) -> RecordView {
        match self {
            AdapterRecord::Success(c) => RecordView::Success(*c),
            AdapterRecord::Failure(m) => RecordView::Failure(m@),
            AdapterRecord::OtherMarker => RecordView::OtherMarker,
            AdapterRecord::Route(r) => RecordView::Route(r@),
            AdapterRecord::Malformed(m) => RecordView::Malformed(m@),
        }
    }
}

pub open spec fn record_views(v: Seq<AdapterRecord>) -> Seq<RecordView> {
    v.map_values(|r: AdapterRecord| r@)
}

/// The fields of an end marker line as `serde_json` reads them: the `_lunar`
/// object's `status`, `count` and `message`, or the decoder's message when
/// the line is not JSON.
pub open spec fn marker_fields_view(
    f: Result<(Option<String>, Option<u64>, Option<String>), String>,
) -> Result<(Option<Seq<char>>, Option<u64>, Option<Seq<char>>), Seq<char>> {
    match f {
        Ok((status, count, message)) => Ok((opt_view(status), count, opt_view(message))),
        Err(e) => Err(e@),
    }
}

/// What `marker_fields` reads from a line of text.
pub uninterp spec fn marker_fields_of(text: Seq<char>) -> Result<
    (Option<Seq<char>>, Option<u64>, Option<Seq<char>>),
    Seq<char>,
>;

/// `serde_json::from_str::<serde_json::Value>(text)`, then of the value's
/// `_lunar` object `status` and `message` by `Value::as_str` and `count` by
/// `Value::as_u64` (each absent where the field is missing or of another
/// type); on a decoding error, its message. The result is named
/// `marker_fields_of`.
#[verifier::external_body]
fn marker_fields(text: &str) -> (r: Result<(Option<String>, Option<u64>, Option<String>), String>)
    ensures
        marker_fields_view(r) == marker_fields_of(text@),
{
    let v: serde_json::Value = match serde_json::from_str(text) {
        Ok(v) => v,
        Err(e) => return Err(e.to_string()),
    };
    let m = &v["_lunar"];
    Ok((m["status"].as_str().map(String::from), m["count"].as_u64(), m["message"].as_str().map(String::from)))
}

/// The message for a success marker that gives no count.
pub open spec fn marker_without_count() -> Seq<char> {
    "success marker without a count"@
}

/// The record an end marker stands for: `success` with its count, `error`
/// with its message (`unknown error` without one), any other status an
/// ignored marker; a line that is not JSON, or a success without a count,
/// is malformed.
pub open spec fn spec_marker_record(
    fields: Result<(Option<Seq<char>>, Option<u64>, Option<Seq<char>>), Seq<char>>,
) -> RecordView {
    match fields {
        Err(e) => RecordView::Malformed(e),
        Ok((status, count, message)) => if status == Some("success"@) {
            match count {
                Some(c) => RecordView::Success(c),
                None => RecordView::Malformed(marker_without_count()),
            }
        } else if status == Some("error"@) {
            RecordView::Failure(
                match message {
                    Some(m) => m,
                    None => "unknown error"@,
                },
            )
        } else {
            RecordView::OtherMarker
        },
    }
}

/// The record for the fields read from an end marker (see `spec_marker_record`).
pub fn record_of_marker(fields: Result<(Option<String>, Option<u64>, Option<String>), String>) -> (r: AdapterRecord)
    ensures
        r@ == spec_marker_record(marker_fields_view(fields)),
{
    match fields {
        Err(e) => AdapterRecord::Malformed(e),
        Ok((status, count, message)) => {
            let is_success = match &status {
                Some(s) => str_eq(s.as_str(), "success"),
                None => false,
            };
            let is_error = match &status {
                Some(s) => str_eq(s.as_str(), "error"),
                None => false,
            };
            if is_success {
                match count {
                    Some(c) => AdapterRecord::Success(c),
                    None => AdapterRecord::Malformed(String::from_str("success marker without a count")),
                }
            } else if is_error {
                match message {
                    Some(m) => AdapterRecord::Failure(m),
                    None => AdapterRecord::Failure(String::from_str("unknown error")),
                }
            } else {
                AdapterRecord::OtherMarker
            }
        },
    }
}

/// The record an end marker line stands for: its fields as `serde_json`
/// reads them (`marker_fields_of`), taken as `spec_marker_record` says.
pub fn marker_record(text: &str) -> (r: AdapterRecord)
    ensures
        r@ == spec_marker_record(marker_fields_of(text@)),
{
    record_of_marker(marker_fields(text))
}

/// Why adapter output is refused.
#[derive(Debug)]
pub enum AdapterError {
    /// A line is not valid JSON of its kind.
    Malformed(String),
    /// The adapter reported an error.
    Reported(String),
    /// The success marker's count differs from the routes received.
    CountMismatch { expected: u64, got: usize },
    /// No success marker was received.
    NoMarker,
}

pub enum AdapterErrorView {
    Malformed(Seq<char>),
    Reported(Seq<char>),
    CountMismatch(u64, nat),
    NoMarker,
}

impl View for AdapterError {
    type V = AdapterErrorView;

    open spec fn view(&self) -> AdapterErrorView {
        match self {
            AdapterError::Malformed(m) => AdapterErrorView::Malformed(m@),
            AdapterError::Reported(m) => AdapterErrorView::Reported(m@),
            AdapterError::CountMismatch { expected, got } => AdapterErrorView::CountMismatch(*expected, *got as nat),
            AdapterError::NoMarker => AdapterErrorView::NoMarker,
        }
    }
}

/// Reading records in order: the first malformed line or error marker
/// stops everything; routes are collected and the last success marker's
/// count is kept.
pub enum ScanView {
    Stopped(AdapterErrorView),
    Reading(Seq<RouteView>, Option<u64>),
}

pub open spec fn scan_records(recs: Seq<RecordView>) -> ScanView
    decreases recs.len(),
{
    if recs.len() == 0 {
        ScanView::Reading(Seq::empty(), None)
    } else {
        match scan_records(recs.drop_last()) {
            ScanView::Stopped(e) => ScanView::Stopped(e),
            ScanView::Reading(routes, count) => match recs.last() {
                RecordView::Success(c) => ScanView::Reading(routes, Some(c)),
                RecordView::Failure(m) => ScanView::Stopped(AdapterErrorView::Reported(m)),
                RecordView::OtherMarker => ScanView::Reading(routes, count),
                RecordView::Route(r) => ScanView::Reading(routes.push(r), count),
                RecordView::Malformed(m) => ScanView::Stopped(AdapterErrorView::Malformed(m)),
            },
        }
    }
}

/// The outcome of adapter output: the routes when reading ends with a
/// success marker whose count matches them; the error otherwise.
pub open spec fn spec_accept_records(recs: Seq<RecordView>) -> Result<Seq<RouteView>, AdapterErrorView> {
    match scan_records(recs) {
        ScanView::Stopped(e) => Err(e),
        ScanView::Reading(routes, None) => Err(AdapterErrorView::NoMarker),
        ScanView::Reading(routes, Some(c)) => if routes.len() == c {
            Ok(routes)
        } else {
            Err(AdapterErrorView::CountMismatch(c, routes.len()))
        },
    }
}

/// Accepts or refuses decoded adapter output (see `spec_accept_records`).
pub fn accept_records(records: Vec<AdapterRecord>) -> (r: Result<Vec<RouteEntry>, AdapterError>)
    ensures
        match r {
            Ok(routes) => spec_accept_records(record_views(records@)) == Ok::<Seq<RouteView>, AdapterErrorView>(route_views(routes@)),
            Err(e) => spec_accept_records(record_views(records@)) == Err::<Seq<RouteView>, AdapterErrorView>(e@),
        },
{
    let ghost rv = record_views(records@);
    let mut routes: Vec<RouteEntry> = Vec::new();
    let mut count: Option<u64> = None;
    let mut recs = records;
    let ghost all = recs@;
    let n = recs.len();
    let mut i: usize = 0;
    proof {
        assert(rv.take(0) =~= Seq::<RecordView>::empty());
        assert(recs@ =~= all.skip(0));
        assert(route_views(routes@) =~= Seq::<RouteView>::empty());
    }
    while i < n
        invariant
            n == all.len(),
            all == records@,
            rv == record_views(all),
            recs@ == all.skip(i as int),
            i <= n,
            scan_records(rv.take(i as int)) == ScanView::Reading(route_views(routes@), count),
        decreases n - i,
    {
        proof {
            assert(rv.take(i + 1).drop_last() =~= rv.take(i as int));
            assert(rv.take(i + 1).last() == all[i as int]@);
            assert(recs@[0] == all[i as int]);
        }
        let rec = recs.remove(0);
        assert(recs@ =~= all.skip(i + 1));
        let ghost rec_view = rec@;
        assert(rec_view == rv[i as int]);
        match rec {
            AdapterRecord::Success(c) => {
                count = Some(c);
            },
            AdapterRecord::Failure(m) => {
                proof {
                    lemma_stopped_stays(rv, i as int + 1);
                }
                return Err(AdapterError::Reported(m));
            },
            AdapterRecord::OtherMarker => {},
            AdapterRecord::Route(route) => {
                let ghost before = route_views(routes@);
                routes.push(route);
                assert(route_views(routes@) =~= before.push(all[i as int]->Route_0@));
            },
            AdapterRecord::Malformed(m) => {
                proof {
                    lemma_stopped_stays(rv, i as int + 1);
                }
                return Err(AdapterError::Malformed(m));
            },
        }
        i = i + 1;
    }
    assert(rv.take(n as int) =~= rv);
    match count {
        Some(c) => {
            if routes.len() as u64 == c {
                Ok(routes)
            } else {
                let got = routes.len();
                Err(AdapterError::CountMismatch { expected: c, got })
            }
        },
        None => Err(AdapterError::NoMarker),
    }
}

/// Once reading has stopped, later records change nothing.
proof fn lemma_stopped_stays(recs: Seq<RecordView>, k: int)
    requires
        0 <= k <= recs.len(),
        scan_records(recs.take(k)) is Stopped,
    ensures
        scan_records(recs) == scan_records(recs.take(k)),
    decreases recs.len() - k,
{
    if k < recs.len() {
        let t = recs.take(k + 1);
        assert(t.drop_last() =~= recs.take(k));
        lemma_stopped_stays(recs, k + 1);
    } else {
        assert(recs.take(k) =~= recs);
    }
}


/// Accepted adapter output holds exactly as many routes as the last success
/// marker announced.
pub proof fn law_accepted_count_matches(recs: Seq<RecordView>)
    ensures
        spec_accept_records(recs) is Ok ==> match scan_records(recs) {
            ScanView::Reading(routes, Some(c)) => spec_accept_records(recs) == Ok::<Seq<RouteView>, AdapterErrorView>(
                routes,
            ) && routes.len() == c,
            _ => false,
        },
{
}

} // verus!
