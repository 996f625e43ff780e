use lunar::guide;

#[test]
fn test_detect_language_rust() {
    let lang = guide::detect_language();
    assert!(lang.contains("Rust") || lang.contains("Unknown"));
}

#[test]
fn test_is_initialized() {
    let _ = guide::is_initialized();
}

#[test]
fn test_has_scan_data() {
    let _ = guide::has_scan_data();
}

#[test]
fn test_pending_suggestions() {
    let result = guide::pending_suggestions();
    assert!(result.is_none());
}

#[test]
fn test_analyze_returns_valid_state() {
    let state = guide::analyze_project(None);
    assert!(!state.project_name.is_empty());
    assert!(!state.language.is_empty());
}

#[test]
fn status_summary_follows_the_flags() {
    let mut state = guide::analyze_project(Some("demo".to_string()));
    assert_eq!(state.project_name, "demo");
    state.initialized = true;
    state.has_data = true;
    assert_eq!(state.status_summary(), "Initialized, scan data ready");
    state.has_data = false;
    assert_eq!(state.status_summary(), "Initialized, no scan data");
    state.initialized = false;
    assert_eq!(state.status_summary(), "Not initialized");
}

#[test]
fn language_labels() {
    assert_eq!(guide::language_label(true, true), "Rust (Cargo)");
    assert_eq!(guide::language_label(false, true), "JavaScript/TypeScript");
    assert_eq!(guide::language_label(false, false), "Unknown");
}

#[test]
fn analyze_state_reports_what_was_found() {
    let state = guide::analyze_state(Some("shop".to_string()), false, true, true, false);
    assert_eq!(state.project_name, "shop");
    assert_eq!(state.language, "JavaScript/TypeScript");
    assert_eq!(state.branch, None);
    assert!(state.initialized);
    assert!(!state.has_data);
    assert_eq!(state.status_summary(), "Initialized, no scan data");
    let unnamed = guide::analyze_state(None, true, true, false, false);
    assert_eq!(unnamed.project_name, "unknown");
    assert_eq!(unnamed.language, "Rust (Cargo)");
    assert_eq!(unnamed.status_summary(), "Not initialized");
}
