//! The state shown on the interactive dashboard.

use vstd::prelude::*;

verus! {

/// What the dashboard knows about the current workspace.
#[derive(Debug)]
pub struct AnalyzeState {
    pub project_name: String,
    pub language: String,
    pub branch: Option<String>,
    pub initialized: bool,
    pub has_data: bool,
}

pub open spec fn spec_status_summary(initialized: bool, has_data: bool) -> Seq<char> {
    if initialized && has_data {
        "Initialized, scan data ready"@
    } else if initialized {
        "Initialized, no scan data"@
    } else {
        "Not initialized"@
    }
}

impl AnalyzeState {
    /// One line describing how far the workspace is set up.
    pub fn status_summary(&self) -> (r: String)
        ensures
            r@ == spec_status_summary(self.initialized, self.has_data),
    {
        if self.initialized && self.has_data {
            String::from_str("Initialized, scan data ready")
        } else if self.initialized {
            String::from_str("Initialized, no scan data")
        } else {
            String::from_str("Not initialized")
        }
    }
}

/// Whether a file or directory exists at `path` (`std::path::Path::exists`).
/// The answer depends on the file system at the time of the call; nothing is
/// stated of it.
#[verifier::external_body]
fn path_exists(path: &str) -> bool {
    std::path::Path::new(path).exists()
}

pub open spec fn spec_language(has_cargo: bool, has_package_json: bool) -> Seq<char> {
    if has_cargo {
        "Rust (Cargo)"@
    } else if has_package_json {
        "JavaScript/TypeScript"@
    } else {
        "Unknown"@
    }
}

/// The language label for a workspace with or without `Cargo.toml` and `package.json`.
pub fn language_label(has_cargo: bool, has_package_json: bool) -> (r: String)
    ensures
        r@ == spec_language(has_cargo, has_package_json),
{
    if has_cargo {
        String::from_str("Rust (Cargo)")
    } else if has_package_json {
        String::from_str("JavaScript/TypeScript")
    } else {
        String::from_str("Unknown")
    }
}

/// The language of the workspace in the current directory.
pub fn detect_language() -> (r: String)
    ensures
        exists|a: bool, b: bool| r@ == spec_language(a, b),
{
    let has_cargo = path_exists("Cargo.toml");
    let has_package_json = if has_cargo {
        false
    } else {
        path_exists("package.json")
    };
    let r = language_label(has_cargo, has_package_json);
    assert(r@ == spec_language(has_cargo, has_package_json));
    r
}

/// Whether the workspace has an intent overlay, `.lunar/interfaces.yml`.
pub fn is_initialized() -> bool {
    path_exists(".lunar/interfaces.yml")
}

/// Whether a topology map, `lunar-map.json`, is present.
pub fn has_scan_data() -> bool {
    path_exists("lunar-map.json")
}

/// Pending suggestions to show on the dashboard; none are tracked yet.
pub fn pending_suggestions() -> (r: Option<String>)
    ensures
        r is None,
{
    None
}

/// The dashboard state for the project named `dir_name` (`unknown` when the
/// directory has no name), given which of `Cargo.toml`, `package.json`,
/// `.lunar/interfaces.yml` and `lunar-map.json` the workspace holds.
pub fn analyze_state(
    dir_name: Option<String>,
    has_cargo: bool,
    has_package_json: bool,
    initialized: bool,
    has_data: bool,
) -> (r: AnalyzeState)
    ensures
        r.project_name@ == match dir_name {
            Some(n) => n@,
            None => "unknown"@,
        },
        r.language@ == spec_language(has_cargo, has_package_json),
        r.branch is None,
        r.initialized == initialized,
        r.has_data == has_data,
{
    let project_name = match dir_name {
        Some(n) => n,
        None => String::from_str("unknown"),
    };
    AnalyzeState {
        project_name,
        language: language_label(has_cargo, has_package_json),
        branch: None,
        initialized,
        has_data,
    }
}

/// The dashboard state for the project named `dir_name`, probing the
/// current directory (see `analyze_state`).
pub fn analyze_project(dir_name: Option<String>) -> (r: AnalyzeState)
    ensures
        r.project_name@ == match dir_name {
            Some(n) => n@,
            None => "unknown"@,
        },
        exists|a: bool, b: bool| r.language@ == spec_language(a, b),
        r.branch is None,
{
    let has_cargo = path_exists("Cargo.toml");
    let has_package_json = if has_cargo {
        false
    } else {
        path_exists("package.json")
    };
    let r = analyze_state(dir_name, has_cargo, has_package_json, is_initialized(), has_scan_data());
    assert(r.language@ == spec_language(has_cargo, has_package_json));
    r
}

} // verus!
