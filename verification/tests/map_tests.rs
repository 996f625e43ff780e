use lunar::interfaces::ActualJson;
use lunar::route::{parse_path_to_segments, RouteEntry};
use lunar::topology::generate_lunar_map;

fn route(method: &str, path: &str, target: Option<&str>) -> RouteEntry {
    RouteEntry {
        method: method.to_string(),
        segments: parse_path_to_segments(path),
        source_file: "src/lib.rs".to_string(),
        line_number: 1,
        extraction_method: "ast".to_string(),
        target_project: target.map(|t| t.to_string()),
    }
}

#[test]
fn test_generate_lunar_map_basic() {
    let auth_actual = ActualJson {
        exposed: vec![route("POST", "/auth/login", None)],
        consumed: vec![route("GET", "/users/{id}", Some("user-service"))],
        project_type: None,
    };
    let user_actual = ActualJson {
        exposed: vec![route("GET", "/users/{id}", None)],
        consumed: vec![route("POST", "/auth/login", Some("auth-service"))],
        project_type: None,
    };
    let projects = vec![("auth-service".to_string(), auth_actual), ("user-service".to_string(), user_actual)];
    let lunar_map = generate_lunar_map(&projects, &vec![], &vec![]);

    assert_eq!(lunar_map.projects.len(), 2);

    assert_eq!(lunar_map.alignments.len(), 2);
    let auth_alignment = lunar_map.alignments.iter().find(|a| a.client_project == "auth-service").unwrap();
    assert_eq!(auth_alignment.status, "Aligned");

    assert_eq!(lunar_map.aggregated_edges.len(), 2);
    let edge = lunar_map.aggregated_edges.iter().find(|e| e.client_project == "auth-service").unwrap();
    assert_eq!(edge.call_count, 1);
    assert_eq!(edge.status, "Aligned");

    assert_eq!(lunar_map.anomalies.unused_endpoints.len(), 0);
    assert_eq!(lunar_map.anomalies.orphaned_consumers.len(), 0);
}

fn segments_text(r: &RouteEntry) -> Vec<(String, Option<String>, Option<String>)> {
    r.segments.iter().map(|s| (s.segment_type.clone(), s.value.clone(), s.name.clone())).collect()
}

#[test]
fn map_has_one_entry_per_project_and_one_edge_per_pair() {
    let web = ActualJson {
        exposed: vec![],
        consumed: vec![
            route("GET", "/users/{id}", Some("users")),
            route("POST", "/users", Some("users")),
            route("GET", "/orders", Some("orders")),
            route("GET", "/ghost/{a}/{b}", Some("users")),
        ],
        project_type: None,
    };
    let users = ActualJson {
        exposed: vec![route("GET", "/users/{id}", None), route("POST", "/users", None), route("DELETE", "/users/{id}", None)],
        consumed: vec![],
        project_type: None,
    };
    let orders = ActualJson { exposed: vec![route("GET", "/orders", None)], consumed: vec![], project_type: Some("library".to_string()) };
    let projects = vec![("web".to_string(), web), ("users".to_string(), users), ("orders".to_string(), orders)];
    let map = generate_lunar_map(&projects, &vec![], &vec![]);

    let names: Vec<&str> = map.projects.iter().map(|p| p.name.as_str()).collect();
    assert_eq!(names, vec!["web", "users", "orders"]);
    assert_eq!(map.projects[2].project_type, "library");
    assert_eq!(map.projects[0].project_type, "mixed");

    // Every consumed route naming a target has its own alignment.
    assert_eq!(map.alignments.len(), 4);
    assert_eq!(map.alignments[3].status, "Orphaned");

    // One edge per (client, server) pair, counting that pair's alignments.
    let pairs: Vec<(&str, &str, usize)> =
        map.aggregated_edges.iter().map(|e| (e.client_project.as_str(), e.server_project.as_str(), e.call_count)).collect();
    assert_eq!(pairs, vec![("web", "users", 3), ("web", "orders", 1)]);
    assert_eq!(map.aggregated_edges[0].status, "Orphaned");
    assert_eq!(map.aggregated_edges[0].paths, vec!["GET /users/{id}", "POST /users", "GET /ghost/{a}/{b}"]);

    // Unused: the DELETE route of users; the library's routes are not listed.
    let unused: Vec<(&str, &str, &str)> = map
        .anomalies
        .unused_endpoints
        .iter()
        .map(|e| (e.project.as_str(), e.method.as_str(), e.path.as_str()))
        .collect();
    assert_eq!(unused, vec![("users", "DELETE", "/users/{id}")]);
}

#[test]
fn rendered_paths_parse_back() {
    for path in ["/users/{id}/orders", "/a/b/c", "/", "/v1/:name/x", "/{}/a"] {
        let r = route("GET", path, None);
        let back = RouteEntry { segments: parse_path_to_segments(&r.to_path()), ..r.clone() };
        assert_eq!(segments_text(&back), segments_text(&r));
        let shown = RouteEntry { segments: parse_path_to_segments(&r.display_path()), ..r.clone() };
        assert_eq!(segments_text(&shown), segments_text(&r));
    }
    assert_eq!(route("GET", "/users/:id", None).to_path(), "/users/{id}");
    assert_eq!(route("GET", "/users/{id}", None).display_path(), "/users/:id");
}
