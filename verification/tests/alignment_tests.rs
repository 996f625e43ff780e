use lunar::route::{compare_routes, parse_path_to_segments, DiffResult, RouteEntry};

fn route(method: &str, path: &str) -> RouteEntry {
    RouteEntry {
        method: method.to_string(),
        segments: parse_path_to_segments(path),
        source_file: "src/main.rs".to_string(),
        line_number: 10,
        extraction_method: "ast".to_string(),
        target_project: None,
    }
}

#[test]
fn test_identical_routes() {
    let a = route("GET", "/users/{id}");
    let b = route("GET", "/users/{id}");
    assert_eq!(compare_routes(&a, &b), DiffResult::Unchanged);
}

#[test]
fn test_method_changed() {
    let a = route("GET", "/users/{id}");
    let b = route("POST", "/users/{id}");
    assert_eq!(
        compare_routes(&a, &b),
        DiffResult::MethodChanged { old_method: "GET".into(), new_method: "POST".into() }
    );
}

#[test]
fn test_param_names_changed() {
    let a = route("GET", "/users/{id}");
    let b = route("GET", "/users/{user_id}");
    assert_eq!(
        compare_routes(&a, &b),
        DiffResult::ParamNamesChanged { old_names: vec!["id".into()], new_names: vec!["user_id".into()] }
    );
}

#[test]
fn test_heuristic_match_ignored() {
    // The same route found by a heuristic elsewhere: only its provenance and
    // target differ.
    let a = route("GET", "/users/{id}");
    let b = RouteEntry {
        source_file: "src/handlers/users.rs".to_string(),
        line_number: 42,
        extraction_method: "heuristic".to_string(),
        target_project: Some("user-service".to_string()),
        ..route("GET", "/users/{id}")
    };
    assert_eq!(compare_routes(&a, &b), DiffResult::Unchanged);
}
