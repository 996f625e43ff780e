use chrono::Datelike;
use lunar::adapter::{
    accept_records, adapter_plan, frame_output, marker_record, record_of_marker, search_dirs, AdapterError, AdapterLine,
    AdapterPlan, AdapterRecord, Language,
};
use lunar::changes::{route_changes, sorted_ids, sorted_names, str_lt, RouteChange};
use lunar::ci144::{
    bridge_aligned, bridge_file_name, bridge_source, check_choice, fnv1a_hash, parse_hashes, render_hashes, target_hash,
    updated_hash_file, CheckChoice,
};
use lunar::cleanup::{archive_date, expired, purged};
use lunar::doctor::DoctorTally;
use lunar::interfaces::{
    apply_suggestion, merge_intent_into_actual, unknown_targets, ActualJson, InterfaceItem, InterfacesYml,
};
use lunar::keygen::{key_file_name, key_pair_text, registration_line};
use lunar::mapping::{compile_map, upload_bucket, workspace_of, ScannedProject};
use lunar::menu::{
    core_choice, current_domain, display_domain, main_choice, normalize_domain, pid_of, security_choice, serve_start,
    CoreChoice, MainChoice, SecurityChoice, ServeStart,
};
use lunar::patch::{
    count_pending_patches, extension, extract_patch_content, extract_project_name_from_yaml, is_yaml_name, patch_cmd,
};
use lunar::prompt::{confirms, confirms_or_empty, decimal_string, eq_ignore_case_str};
use lunar::pull::{first_patch, partition_tasks, project_path, response_body, serve_port, todo_request};
use lunar::repos::{
    branch_or_main, find_named, github_coords, github_remote, listing_line, repo_api_url, toggled_visibility,
    visibilities_all, visibility_choice, visibility_of, VisibilityChoice,
};
use lunar::review::{
    accepts_default_yes, mark_completed, patch_target, review_diff, task_has_patch, watch_patch, WatchState,
};
use lunar::route::{build_structural_index, parse_path_to_segments, RouteEntry};
use lunar::share::{access_url, install_hints, serve_candidates, tunnel_tool, tunnel_url};
use lunar::topology::aggregate_status;
use lunar::totp::{provisioning_qr, provisioning_uri, secret_of_seed, totp_accepts_at};
use lunar::types::ProjectMeta;

fn route(method: &str, path: &str) -> RouteEntry {
    RouteEntry {
        method: method.to_string(),
        segments: parse_path_to_segments(path),
        source_file: "src/api.rs".to_string(),
        line_number: 7,
        extraction_method: "ast".to_string(),
        target_project: None,
    }
}

fn item(path: &str, method: &str, reason: Option<&str>, target: Option<&str>) -> InterfaceItem {
    InterfaceItem {
        path: path.to_string(),
        method: method.to_string(),
        reason: reason.map(|s| s.to_string()),
        target_project: target.map(|s| s.to_string()),
    }
}

fn s(v: &[&str]) -> Vec<String> {
    v.iter().map(|x| x.to_string()).collect()
}

// ---- route changes ----

#[test]
fn changes_are_grouped_by_sorted_identity() {
    let old = vec![route("GET", "/users/{id}"), route("GET", "/health"), route("DELETE", "/a/b")];
    let new = vec![route("POST", "/users/{id}"), route("GET", "/status"), route("GET", "/x/{y}/z")];
    let changes = route_changes(&old, &new);
    assert_eq!(changes.len(), 3);
    assert!(matches!(&changes[0], RouteChange::Removed { route } if route.method == "DELETE"));
    assert!(matches!(&changes[1], RouteChange::MethodChanged { route, new_method } if route.method == "GET" && new_method == "POST"));
    assert!(matches!(&changes[2], RouteChange::Added { route } if route.display_path() == "/x/:y/z"));
}

#[test]
fn changes_pair_routes_in_order_and_report_leftovers() {
    let old = vec![route("GET", "/users/{id}"), route("GET", "/items/{sku}")];
    let new = vec![route("GET", "/users/{uid}")];
    let changes = route_changes(&old, &new);
    assert_eq!(changes.len(), 2);
    match &changes[0] {
        RouteChange::ParamNamesChanged { route, old_names, new_names } => {
            assert_eq!(route.display_path(), "/users/:id");
            assert_eq!(old_names, &s(&["id"]));
            assert_eq!(new_names, &s(&["uid"]));
        }
        other => panic!("unexpected {:?}", other),
    }
    assert!(matches!(&changes[1], RouteChange::Removed { route } if route.display_path() == "/items/:sku"));
}

#[test]
fn a_scan_compared_with_itself_has_no_changes() {
    let routes = vec![route("GET", "/users/{id}"), route("POST", "/users"), route("GET", "/a/*")];
    assert!(route_changes(&routes, &routes).is_empty());
}

#[test]
fn identities_are_sorted_and_distinct() {
    let old = vec![route("GET", "/a/{b}"), route("GET", "/a")];
    let new = vec![route("GET", "/c"), route("GET", "/a/b")];
    assert_eq!(sorted_ids(&old, &new), s(&["literal", "literal:literal", "literal:parameter"]));
    assert!(str_lt("abc", "abd"));
    assert!(str_lt("ab", "abc"));
    assert!(!str_lt("b", "a"));
    assert!(!str_lt("a", "a"));
    assert_eq!(sorted_names(&s(&["b.yaml", "a.yml", "b.yaml"])), s(&["a.yml", "b.yaml"]));
}

// ---- review flow ----

#[test]
fn default_yes_answers() {
    assert!(accepts_default_yes(""));
    assert!(accepts_default_yes("  "));
    assert!(accepts_default_yes("Yes"));
    assert!(accepts_default_yes("y"));
    assert!(!accepts_default_yes("n"));
    assert!(!accepts_default_yes("sure"));
}

#[test]
fn tasks_with_patches() {
    assert!(task_has_patch("pending", &Some("exposed: []".to_string())));
    assert!(task_has_patch("pending_alignment", &Some("x".to_string())));
    assert!(!task_has_patch("pending", &Some(String::new())));
    assert!(!task_has_patch("pending", &None));
    assert!(!task_has_patch("done", &Some("x".to_string())));
}

#[test]
fn review_document() {
    let doc = review_diff(&None, "exposed: []");
    assert_eq!(
        doc,
        "# AI Patch Review\n\n## Current interfaces.yml\n```yaml\n(no existing interfaces.yml)\n```\n\n## Proposed Patch\n```yaml\nexposed: []\n```\n"
    );
    let doc2 = review_diff(&Some("project: a".to_string()), "p");
    assert!(doc2.contains("```yaml\nproject: a\n```"));
}

#[test]
fn watcher_patch_text() {
    assert_eq!(watch_patch("intro\n---CONTENT---\n  exposed: []  \n---LUNAR_PATCH_END---\nbye"), "exposed: []");
    assert_eq!(watch_patch("---CONTENT---\nno end"), "---CONTENT---\nno end");
    assert_eq!(watch_patch("  plain  "), "  plain  ");
    assert_eq!(extract_patch_content("---CONTENT---\n  no end  "), "no end");
    assert_eq!(extract_patch_content("  plain  "), "plain");
}

#[test]
fn patch_targets() {
    let projects = vec![
        ProjectMeta { name: "auth".to_string(), path: "/srv/auth".to_string() },
        ProjectMeta { name: "users".to_string(), path: "/srv/users".to_string() },
    ];
    let own = projects[0].clone();
    assert_eq!(patch_target(&projects, &own, "project: users\n"), ("users".to_string(), "/srv/users".to_string()));
    assert_eq!(patch_target(&projects, &own, "exposed: []"), ("auth".to_string(), "/srv/auth".to_string()));
    assert_eq!(patch_target(&projects, &own, "project: ghost"), ("ghost".to_string(), "/srv/auth".to_string()));
}

#[test]
fn watcher_reports_each_file_once() {
    let mut w = WatchState::new();
    let first = w.observe("auth", s(&["a.yaml", "b.yml"]));
    assert_eq!(first, s(&["a.yaml", "b.yml"]));
    let again = w.observe("auth", s(&["a.yaml", "b.yml"]));
    assert!(again.is_empty());
    let more = w.observe("auth", s(&["b.yml", "c.yaml", "c.yaml"]));
    assert_eq!(more, s(&["c.yaml"]));
    let other = w.observe("users", s(&["a.yaml"]));
    assert_eq!(other, s(&["a.yaml"]));
    let back = w.observe("auth", s(&["a.yaml"]));
    assert_eq!(back, s(&["a.yaml"]));
}

#[test]
fn pending_patch_files() {
    assert!(is_yaml_name("x.yaml"));
    assert!(is_yaml_name("x.yml"));
    assert!(!is_yaml_name("x.yaml.applied"));
    assert_eq!(extension(".hidden"), None);
    assert_eq!(extension("a.tar.gz"), Some("gz".to_string()));
    assert_eq!(count_pending_patches(&s(&["a.yaml", "b.yml", "c.yaml.applied", "d.txt", "e.diff"])), 2);
    assert_eq!(extract_project_name_from_yaml("type: x\n  project:   \nproject: users\n"), Some("users".to_string()));
}

// ---- pull ----

#[test]
fn serve_ports() {
    assert_eq!(serve_port(&None), 8787);
    assert_eq!(serve_port(&Some("9000".to_string())), 9000);
    assert_eq!(serve_port(&Some("+80".to_string())), 80);
    assert_eq!(serve_port(&Some("70000".to_string())), 8787);
    assert_eq!(serve_port(&Some("x".to_string())), 8787);
    assert_eq!(serve_port(&Some(" 80".to_string())), 8787);
}

#[test]
fn project_lookup_ignores_ascii_case() {
    let entries = vec![
        (None, Some("/nowhere".to_string())),
        (Some("Auth-Service".to_string()), Some("/srv/auth".to_string())),
        (Some("users".to_string()), None),
    ];
    assert_eq!(project_path(&entries, "auth-service"), Some("/srv/auth".to_string()));
    assert_eq!(project_path(&entries, "USERS"), None);
    assert_eq!(project_path(&entries, "billing"), None);
}

#[test]
fn todo_requests_and_replies() {
    assert_eq!(
        todo_request("auth", 8787),
        "GET /api/v1/projects/auth/todo HTTP/1.1\r\nHost: 127.0.0.1:8787\r\nAccept: application/json\r\nConnection: close\r\n\r\n"
    );
    assert_eq!(response_body("HTTP/1.1 200 OK\r\nA: b\r\n\r\n{\"tasks\":[]}"), Some("{\"tasks\":[]}".to_string()));
    assert_eq!(response_body("head\r\n\r\nbody\r\n\r\ntrailer"), Some("body".to_string()));
    assert_eq!(response_body("no blank line"), None);
    assert_eq!(first_patch(&Some(vec![Some("p1".to_string()), Some("p2".to_string())])), Some("p1".to_string()));
    assert_eq!(first_patch(&Some(vec![None, Some("p2".to_string())])), None);
    assert_eq!(first_patch(&Some(vec![])), None);
    assert_eq!(first_patch(&None), None);
}

#[test]
fn tasks_are_partitioned() {
    let (kept, archived) = partition_tasks(&s(&["pending", "done", "pending_alignment", ""]));
    assert_eq!(kept, vec![1, 3]);
    assert_eq!(archived, vec![0, 2]);
}

// ---- prompts and numbers ----

#[test]
fn prompt_answers() {
    assert!(confirms(" YES "));
    assert!(confirms("y"));
    assert!(!confirms(""));
    assert!(!confirms("yep"));
    assert!(confirms_or_empty(""));
    assert!(confirms_or_empty("Yes"));
    assert!(!confirms_or_empty("no"));
    assert!(eq_ignore_case_str("Hello", "hELLO"));
    assert!(!eq_ignore_case_str("Hello", "Hell"));
}

#[test]
fn decimal_numbers() {
    assert_eq!(decimal_string(0), "0");
    assert_eq!(decimal_string(1234), "1234");
    assert_eq!(decimal_string(u64::MAX), "18446744073709551615");
    assert_eq!(serve_port(&Some("+5".to_string())), 5);
    assert_eq!(serve_port(&Some("-5".to_string())), 8787);
    assert_eq!(serve_port(&Some("65535".to_string())), 65535);
    assert_eq!(serve_port(&Some("65536".to_string())), 8787);
    assert_eq!(visibility_choice("12", 20), VisibilityChoice::Toggle(11));
    assert_eq!(pid_of("-12"), Some(-12));
    assert_eq!(pid_of("+7"), Some(7));
    assert_eq!(pid_of("2147483648"), None);
    assert_eq!(pid_of(""), None);
}

// ---- menus ----

#[test]
fn main_menu_choices() {
    assert_eq!(main_choice(" Q ", false), MainChoice::Quit);
    assert_eq!(main_choice("0", true), MainChoice::Quit);
    assert_eq!(main_choice("1", false), MainChoice::Core);
    assert_eq!(main_choice("3", false), MainChoice::DangerUnavailable);
    assert_eq!(main_choice("3", true), MainChoice::Danger);
    assert_eq!(main_choice("D", true), MainChoice::SetDomain);
    assert_eq!(main_choice("h", true), MainChoice::Refresh);
    assert_eq!(main_choice("9", true), MainChoice::Invalid);
}

#[test]
fn core_and_security_menu_choices() {
    assert_eq!(core_choice("2", false), CoreChoice::Invalid);
    assert_eq!(core_choice("2", true), CoreChoice::ShowChanges);
    assert_eq!(core_choice("W", false), CoreChoice::Watch);
    assert_eq!(core_choice("7", false), CoreChoice::HealthCheck);
    assert_eq!(core_choice("9", true), CoreChoice::RestartServer);
    assert_eq!(core_choice("0", true), CoreChoice::Back);
    assert_eq!(security_choice("1", false), SecurityChoice::TotpSetup);
    assert_eq!(security_choice("3", false), SecurityChoice::Invalid);
    assert_eq!(security_choice("3", true), SecurityChoice::Keygen);
    assert_eq!(security_choice("2", true), SecurityChoice::Visibility);
}

#[test]
fn domains() {
    assert_eq!(normalize_domain("  example.com \n"), Some("https://example.com".to_string()));
    assert_eq!(normalize_domain("//x.io"), Some("https://x.io".to_string()));
    assert_eq!(normalize_domain("http://a.b"), Some("http://a.b".to_string()));
    assert_eq!(normalize_domain("   "), None);
    assert_eq!(current_domain(&Some("https://env".to_string()), &Some("file".to_string())), "https://env");
    assert_eq!(current_domain(&None, &Some("  https://file \n".to_string())), "https://file");
    assert_eq!(current_domain(&None, &None), "");
    assert_eq!(display_domain(""), "(not set)");
    assert_eq!(display_domain("x"), "x");
}

#[test]
fn serve_prompt_and_pid() {
    assert!(matches!(serve_start("", "8787"), ServeStart::Port(p) if p == "8787"));
    assert!(matches!(serve_start("Y", "8787"), ServeStart::Port(p) if p == "8787"));
    assert!(matches!(serve_start(" 9000 ", "8787"), ServeStart::Port(p) if p == "9000"));
    assert!(matches!(serve_start("N", "8787"), ServeStart::Cancel));
    assert_eq!(pid_of(" 4242\n"), Some(4242));
    assert_eq!(pid_of("abc"), None);
}

// ---- sharing ----

#[test]
fn tunnel_tools() {
    assert_eq!(install_hints("ngrok"), "Visit https://ngrok.com/download");
    assert_eq!(install_hints("tailscale"), "curl -fsSL https://tailscale.com/install.sh | sh");
    assert_eq!(install_hints("other"), "No known tunneling tool found.");
    assert!(install_hints("cloudflared").starts_with("curl -L https://github.com/cloudflare/"));
    assert_eq!(tunnel_tool(false, true, true, &None), Some("tailscale".to_string()));
    assert_eq!(tunnel_tool(false, false, false, &Some("bore".to_string())), Some("bore".to_string()));
    assert_eq!(tunnel_tool(false, false, false, &None), None);
}

#[test]
fn tunnel_addresses() {
    assert_eq!(
        tunnel_url("2024 INF |  https://quiet-fox.trycloudflare.com  |"),
        Some("https://quiet-fox.trycloudflare.com".to_string())
    );
    assert_eq!(tunnel_url("https://example.com only"), None);
    assert_eq!(tunnel_url("no address"), None);
    assert_eq!(access_url("https://a.trycloudflare.com"), "https://a.trycloudflare.com/lunar-map.md?summary=true");
    assert_eq!(serve_candidates(false)[0], "/opt/LunarAST/lunar-serve/target/release/lunar-serve");
    assert_eq!(serve_candidates(true)[3], "lunar-serve.exe");
}

// ---- health check ----

#[test]
fn doctor_tally() {
    let mut t = DoctorTally::new();
    assert_eq!(t.exit_code(), 0);
    assert!(t.should_test_adapter());
    assert_eq!(t.verdict(), "🟢 All checks passed. Ecosystem is healthy.");
    t.data_problem();
    assert_eq!(t.exit_code(), 2);
    assert!(t.should_test_adapter());
    assert_eq!(t.verdict(), "🔴 1 data issue(s) found.");
    t.env_problem();
    assert_eq!(t.exit_code(), 1);
    assert!(!t.should_test_adapter());
    assert_eq!(t.verdict(), "🔴 1 environment issue(s) found.");
}

// ---- repositories ----

#[test]
fn visibility_toggles() {
    assert_eq!(toggled_visibility(&None), "private");
    assert_eq!(toggled_visibility(&Some("public".to_string())), "private");
    assert_eq!(toggled_visibility(&Some("private".to_string())), "public");
    assert_eq!(toggled_visibility(&Some("internal".to_string())), "public");
    let names = vec![None, Some("api".to_string()), Some("api".to_string())];
    assert_eq!(find_named(&names, "api"), Some(1));
    assert_eq!(find_named(&names, "web"), None);
}

#[test]
fn visibility_manager_choices() {
    assert_eq!(visibility_choice("A", 3), VisibilityChoice::LockAll);
    assert_eq!(visibility_choice(" b", 3), VisibilityChoice::UnlockAll);
    assert_eq!(visibility_choice("c", 3), VisibilityChoice::ToggleByName);
    assert_eq!(visibility_choice("Q", 3), VisibilityChoice::Back);
    assert_eq!(visibility_choice("2", 3), VisibilityChoice::Toggle(1));
    assert_eq!(visibility_choice("0", 3), VisibilityChoice::OutOfRange);
    assert_eq!(visibility_choice("4", 3), VisibilityChoice::OutOfRange);
    assert_eq!(visibility_choice("x", 3), VisibilityChoice::Invalid);
    assert_eq!(listing_line(0, &Some("api".to_string()), &None), "  [1] 🌍 api - public");
    assert_eq!(listing_line(9, &None, &Some("private".to_string())), "  [10] 🔒 unnamed - private");
}

#[test]
fn github_remotes() {
    assert_eq!(
        github_remote("https://github.com/acme/widgets.git/"),
        Some(("acme".to_string(), "widgets".to_string()))
    );
    assert_eq!(github_remote("https://github.com/acme/widgets"), Some(("acme".to_string(), "widgets".to_string())));
    assert_eq!(
        github_remote("git@github.com:acme/tool.git"),
        Some(("git@github.com:acme".to_string(), "tool".to_string()))
    );
    assert_eq!(github_remote("github.com"), None);
    assert_eq!(github_remote("https://gitlab.com/a/b"), None);
    assert_eq!(github_coords(&Some("a".to_string()), &Some("b".to_string())), Some(("a".to_string(), "b".to_string())));
    assert_eq!(github_coords(&Some(String::new()), &Some("b".to_string())), None);
    assert_eq!(github_coords(&None, &Some("b".to_string())), None);
    assert_eq!(repo_api_url("a", "b"), "https://api.github.com/repos/a/b");
    assert_eq!(visibility_of(Some(true)), "private");
    assert_eq!(visibility_of(None), "public");
    assert_eq!(branch_or_main(&None), "main");
    assert_eq!(branch_or_main(&Some("dev".to_string())), "dev");
}

// ---- TOTP and keys ----

#[test]
fn totp_codes_follow_the_rfc_vectors() {
    // The RFC 6238 SHA-1 key "12345678901234567890", stored in base32 as the
    // setup writes it; an authenticator shows the last six digits.
    let secret = "GEZDGNBVGY3TQOJQGEZDGNBVGY3TQOJQ";
    assert_eq!(secret_of_seed(b"12345678901234567890"), secret);
    assert!(totp_accepts_at("287082", secret, 59));
    assert!(totp_accepts_at("287082", secret, 89));
    assert!(!totp_accepts_at("287082", secret, 150));
    assert!(totp_accepts_at("081804", secret, 1111111109));
    assert!(!totp_accepts_at("123456", secret, 59));
    // The eight-digit form is not what an authenticator shows.
    assert!(!totp_accepts_at("94287082", secret, 59));
}

#[test]
fn totp_secret_that_is_not_base32_accepts_nothing() {
    assert!(!totp_accepts_at("287082", "12345678901234567890", 59));
    assert!(!totp_accepts_at("287082", "gezdgnbvgy3tqojqgezdgnbvgy3tqojq", 59));
    assert!(!totp_accepts_at("", "", 59));
}

#[test]
fn secrets_and_uris() {
    assert_eq!(secret_of_seed(b"foobar"), "MZXW6YTBOI");
    assert_eq!(secret_of_seed(b""), "");
    assert_eq!(secret_of_seed(b"f"), "MY");
    assert_eq!(provisioning_uri("ABC"), "otpauth://totp/LunarAST?secret=ABC&issuer=LunarAST&digits=6");
    let uri = "otpauth://totp/LunarAST?secret=ABC&issuer=LunarAST&digits=6";
    let qr = provisioning_qr(uri).expect("a short URI fits in a QR code");
    assert_ne!(qr, uri);
    assert!(qr.contains('█') || qr.contains('▀') || qr.contains('▄'));
    assert!(qr.lines().count() > 5);
}

#[test]
fn ed25519_key_pair_text() {
    let secret: [u8; 32] = [
        0x9d, 0x61, 0xb1, 0x9d, 0xef, 0xfd, 0x5a, 0x60, 0xba, 0x84, 0x4a, 0xf4, 0x92, 0xec, 0x2c, 0xc4, 0x44, 0x49, 0xc5,
        0x69, 0x7b, 0x32, 0x69, 0x19, 0x70, 0x3b, 0xac, 0x03, 0x1c, 0xae, 0x7f, 0x60,
    ];
    let pair = key_pair_text(&secret);
    assert_eq!(pair.private_hex, "9d61b19deffd5a60ba844af492ec2cc44449c5697b326919703bac031cae7f60");
    assert_eq!(pair.public_hex, "d75a980182b10ab7d54bfed3c964073a0ee172f3daa62325af021a68f707511a");
    assert_eq!(key_file_name("auth"), "auth.key");
    assert_eq!(registration_line("auth", "ab"), "  \"auth\": \"ab\"");
}

// ---- archives ----

#[test]
fn archive_dates_and_expiry() {
    assert_eq!(archive_date("2024-01-01.jsonl"), Some("2024-01-01".to_string()));
    assert_eq!(archive_date("2024-01-01.jsonl.jsonl"), Some("2024-01-01".to_string()));
    assert_eq!(archive_date("ai-todo-archive.jsonl"), None);
    assert_eq!(archive_date("notes.txt"), None);
    assert!(expired(Some(100), 200, 99));
    assert!(!expired(Some(100), 200, 100));
    assert!(!expired(None, 200, 0));
    let today = chrono::NaiveDate::from_ymd_opt(2024, 3, 1).unwrap().num_days_from_ce();
    assert!(purged("2024-01-01.jsonl", today, 30));
    assert!(!purged("2024-02-20.jsonl", today, 30));
    assert!(!purged("not-a-date.jsonl", today, 0));
    assert!(!purged("ai-todo-archive.jsonl", today, 0));
}

// ---- adapter ----

#[test]
fn adapter_output_framing() {
    let out = "{\"method\":\"GET\"}\n\n{\"_lunar\":{\"status\":\"success\",\"count\":1}}\r\n";
    let lines = frame_output(out);
    assert_eq!(lines.len(), 2);
    assert!(matches!(&lines[0], AdapterLine::Route(l) if l == "{\"method\":\"GET\"}"));
    assert!(matches!(&lines[1], AdapterLine::Marker(l) if l.contains("success")));
}

#[test]
fn adapter_records_are_checked() {
    let ok = accept_records(vec![AdapterRecord::Route(route("GET", "/a")), AdapterRecord::OtherMarker, AdapterRecord::Success(1)]);
    assert_eq!(ok.map(|r| r.len()).ok(), Some(1));
    let mismatch = accept_records(vec![AdapterRecord::Success(2), AdapterRecord::Route(route("GET", "/a"))]);
    assert!(matches!(mismatch, Err(AdapterError::CountMismatch { expected: 2, got: 1 })));
    let none = accept_records(vec![AdapterRecord::Route(route("GET", "/a"))]);
    assert!(matches!(none, Err(AdapterError::NoMarker)));
    let failed = accept_records(vec![AdapterRecord::Failure("boom".to_string()), AdapterRecord::Malformed("x".to_string())]);
    assert!(matches!(failed, Err(AdapterError::Reported(m)) if m == "boom"));
    let bad = accept_records(vec![AdapterRecord::Malformed("eof".to_string()), AdapterRecord::Success(0)]);
    assert!(matches!(bad, Err(AdapterError::Malformed(m)) if m == "eof"));
}

#[test]
fn end_markers_are_read() {
    let ok = marker_record("{\"_lunar\":{\"status\":\"success\",\"count\":3}}");
    assert!(matches!(ok, AdapterRecord::Success(3)));
    let err = marker_record("{\"_lunar\":{\"status\":\"error\",\"message\":\"no routes\"}}");
    assert!(matches!(err, AdapterRecord::Failure(m) if m == "no routes"));
    let err_default = marker_record("{\"_lunar\":{\"status\":\"error\"}}");
    assert!(matches!(err_default, AdapterRecord::Failure(m) if m == "unknown error"));
    let other = marker_record("{\"_lunar\":{\"status\":\"progress\"}}");
    assert!(matches!(other, AdapterRecord::OtherMarker));
    let no_count = marker_record("{\"_lunar\":{\"status\":\"success\"}}");
    assert!(matches!(no_count, AdapterRecord::Malformed(m) if m == "success marker without a count"));
    let text_count = marker_record("{\"_lunar\":{\"status\":\"success\",\"count\":\"3\"}}");
    assert!(matches!(text_count, AdapterRecord::Malformed(_)));
    let broken = marker_record("{\"_lunar\": ");
    assert!(matches!(broken, AdapterRecord::Malformed(m) if !m.is_empty()));
}

#[test]
fn marker_fields_give_records() {
    let s = |x: &str| Some(x.to_string());
    assert!(matches!(record_of_marker(Ok((s("success"), Some(7), None))), AdapterRecord::Success(7)));
    assert!(matches!(record_of_marker(Ok((s("error"), Some(7), s("bad")))), AdapterRecord::Failure(m) if m == "bad"));
    assert!(matches!(record_of_marker(Ok((None, Some(7), None))), AdapterRecord::OtherMarker));
    assert!(matches!(record_of_marker(Err("eof".to_string())), AdapterRecord::Malformed(m) if m == "eof"));
}

#[test]
fn adapter_plans_and_search() {
    assert_eq!(adapter_plan(true, true, false, false, false), AdapterPlan::Rust);
    assert_eq!(adapter_plan(false, false, true, true, false), AdapterPlan::IntentOnly(Language::Go));
    assert_eq!(adapter_plan(false, false, false, false, false), AdapterPlan::Unknown);
    assert_eq!(Language::Node.name(), "Node.js");
    assert_eq!(Language::Node.project_type(), "node.js");
    assert_eq!(search_dirs(&Some("/bin/lunar".to_string()), &Some("/usr/bin::/opt".to_string())), s(&["/bin/lunar", "/usr/bin", "", "/opt"]));
    assert_eq!(search_dirs(&None, &None), Vec::<String>::new());
}

// ---- map compilation ----

#[test]
fn workspaces_and_buckets() {
    assert_eq!(workspace_of("/opt/app/.lunar/.interfaces-autogen.json"), "/opt/app");
    assert_eq!(workspace_of("facts.json"), "unknown");
    assert_eq!(upload_bucket(&Some("b1".to_string()), &Some("b2".to_string())), Some("b1".to_string()));
    assert_eq!(upload_bucket(&None, &Some("b2".to_string())), Some("b2".to_string()));
    assert_eq!(upload_bucket(&None, &None), None);
}

#[test]
fn compiled_map_merges_overlays() {
    let mut consumed = route("GET", "/users/{id}");
    consumed.target_project = Some("users".to_string());
    let auth = ScannedProject {
        name: "auth".to_string(),
        facts_path: "/srv/auth/.lunar/.interfaces-autogen.json".to_string(),
        actual: ActualJson { exposed: vec![], consumed: vec![consumed], project_type: None },
        intent: None,
    };
    let users = ScannedProject {
        name: "users".to_string(),
        facts_path: "/srv/users/.lunar/.interfaces-autogen.json".to_string(),
        actual: ActualJson { exposed: vec![], consumed: vec![], project_type: None },
        intent: Some(InterfacesYml {
            project: None,
            project_type: Some("service".to_string()),
            environment: None,
            exposed: Some(vec![item("/users/{id}", "GET", Some("lookup"), None)]),
            consumed: None,
        }),
    };
    let map = compile_map(vec![auth, users]);
    assert_eq!(map.projects.len(), 2);
    assert_eq!(map.projects[1].project_type, "service");
    assert_eq!(map.projects[0].path, Some("/srv/auth".to_string()));
    assert_eq!(map.alignments.len(), 1);
    assert_eq!(map.alignments[0].status, "Aligned");
    assert_eq!(map.anomalies.unused_endpoints.len(), 0);
}

// ---- overlay ----

#[test]
fn overlay_merges_into_facts() {
    let mut actual = ActualJson { exposed: vec![route("GET", "/users/{id}")], consumed: vec![], project_type: None };
    let intent = InterfacesYml {
        project: None,
        project_type: Some("api".to_string()),
        environment: None,
        exposed: Some(vec![item("/users/{id}", "GET", Some("reason"), None), item("/extra", "POST", None, None)]),
        consumed: None,
    };
    merge_intent_into_actual(&mut actual, &intent);
    assert_eq!(actual.exposed.len(), 2);
    assert_eq!(actual.exposed[0].to_path(), "/users/{id}");
    assert_eq!(actual.exposed[1].to_path(), "/extra");
    assert_eq!(actual.project_type, Some("api".to_string()));
}

#[test]
fn merging_an_overlay_twice_changes_nothing() {
    let mut actual = ActualJson {
        exposed: vec![route("GET", "/users/{id}")],
        consumed: vec![route("POST", "/orders")],
        project_type: None,
    };
    let intent = InterfacesYml {
        project: None,
        project_type: Some("api".to_string()),
        environment: None,
        exposed: Some(vec![item("/users/{id}", "GET", Some("reason"), None), item("/extra", "POST", None, None)]),
        consumed: Some(vec![
            item("/orders", "POST", None, Some("shop")),
            item("/pay", "POST", None, Some("billing")),
            item("/pay", "POST", None, Some("payments")),
        ]),
    };
    merge_intent_into_actual(&mut actual, &intent);
    let once: Vec<(String, String, Option<String>)> = actual
        .exposed
        .iter()
        .chain(actual.consumed.iter())
        .map(|r| (r.method.clone(), r.to_path(), r.target_project.clone()))
        .collect();
    merge_intent_into_actual(&mut actual, &intent);
    let twice: Vec<(String, String, Option<String>)> = actual
        .exposed
        .iter()
        .chain(actual.consumed.iter())
        .map(|r| (r.method.clone(), r.to_path(), r.target_project.clone()))
        .collect();
    assert_eq!(once, twice);
    assert_eq!(actual.consumed.len(), 2);
    assert_eq!(actual.consumed[1].target_project.as_deref(), Some("payments"));
    assert_eq!(actual.consumed[0].target_project.as_deref(), Some("shop"));
}

#[test]
fn unknown_patch_targets() {
    let patch = InterfacesYml {
        project: None,
        project_type: None,
        environment: None,
        exposed: None,
        consumed: Some(vec![item("/a", "GET", None, Some("known")), item("/b", "GET", None, Some("ghost")), item("/c", "GET", None, None)]),
    };
    assert_eq!(unknown_targets(&patch, &s(&["known"])), s(&["ghost"]));
    assert!(unknown_targets(&patch, &vec![]).is_empty());
}

#[test]
fn edge_status_is_the_worst() {
    assert_eq!(aggregate_status(&s(&["Aligned", "ParamNameMismatch", "Orphaned"])), "Orphaned");
    assert_eq!(aggregate_status(&s(&["Aligned", "MethodMismatch"])), "MethodMismatch");
    assert_eq!(aggregate_status(&vec![]), "Aligned");
}

// ---- CI-144 bridge ----

#[test]
fn fnv_hashes() {
    assert_eq!(fnv1a_hash(b""), 0xcbf29ce484222325);
    assert_eq!(fnv1a_hash(b"a"), 0xaf63dc4c8601ec8c);
    assert_eq!(target_hash(None, None, ""), "cbf29ce484222325");
    assert_eq!(target_hash(Some(b"a".to_vec()), None, ""), "af63dc4c8601ec8c");
    assert_eq!(target_hash(None, Some(b"".to_vec()), "a"), "af63dc4c8601ec8c");
}

#[test]
fn hash_files() {
    let parsed = parse_hashes("a=1\nb = 2 \nbad\na=3\nx=y=z\n");
    assert_eq!(parsed, vec![("a".to_string(), "3".to_string()), ("b".to_string(), "2".to_string())]);
    assert_eq!(render_hashes(&parsed), "a=3\nb=2\n");
    assert_eq!(updated_hash_file("a=1\n", "b", "2"), "a=1\nb=2\n");
    assert_eq!(updated_hash_file("a=1\nb=2\n", "a", "9"), "a=9\nb=2\n");
    assert!(bridge_aligned(&parsed, "a", "3"));
    assert!(!bridge_aligned(&parsed, "a", "4"));
    assert!(bridge_aligned(&parsed, "missing", ""));
    assert!(!bridge_aligned(&parsed, "missing", "0"));
}

#[test]
fn bridge_files_and_menu() {
    assert_eq!(bridge_file_name("rust"), "cellrix_bridge.rs");
    assert_eq!(bridge_file_name("python"), "cellrix_bridge.py");
    let src = bridge_source("orders");
    assert!(src.contains("Bridge for project: orders ..."));
    assert!(src.ends_with("Ok(())\n}\n"));
    assert_eq!(check_choice(" q "), CheckChoice::Quit);
    assert_eq!(check_choice("1"), CheckChoice::Regenerate);
    assert_eq!(check_choice("2"), CheckChoice::SelfTest);
    assert_eq!(check_choice("3"), CheckChoice::Ignore);
    assert_eq!(check_choice("Q"), CheckChoice::Invalid);
}

// ---- laws on concrete values ----

#[test]
fn recorded_hash_reads_back() {
    let existing = "alpha=111\nbeta=222\n";
    let written = updated_hash_file(existing, "beta", "999");
    let read = parse_hashes(&written);
    assert!(bridge_aligned(&read, "beta", "999"));
    assert!(bridge_aligned(&read, "alpha", "111"));
    let added = parse_hashes(&updated_hash_file(&written, "gamma", "abc"));
    assert!(bridge_aligned(&added, "gamma", "abc"));
    assert!(bridge_aligned(&added, "beta", "999"));
    assert!(bridge_aligned(&added, "alpha", "111"));
}

#[test]
fn toggling_twice_restores_visibility() {
    for start in [None, Some("public".to_string()), Some("private".to_string())] {
        let once = toggled_visibility(&start);
        let twice = toggled_visibility(&Some(once));
        assert_eq!(twice, start.unwrap_or_else(|| "public".to_string()));
    }
}

#[test]
fn saved_domain_is_saved_unchanged() {
    for input in ["example.com", " //a.io ", "https://x.y", "http://q", "/"] {
        let once = normalize_domain(input).unwrap();
        assert_eq!(normalize_domain(&once), Some(once.clone()));
    }
}

#[test]
fn remote_with_trailing_slash() {
    for url in ["https://github.com/a/b.git", "https://github.com/a", "github.com", "https://example.org/x/y"] {
        assert_eq!(github_remote(&format!("{}/", url)), github_remote(url));
    }
}

#[test]
fn every_task_is_kept_or_archived() {
    let statuses = s(&["done", "pending", "x", "pending_alignment", "pending"]);
    let (kept, archived) = partition_tasks(&statuses);
    assert_eq!(kept.len() + archived.len(), statuses.len());
    for i in 0..statuses.len() {
        assert!(kept.contains(&i) != archived.contains(&i));
    }
}

// ---- applying patches ----

fn overlay(exposed: Option<Vec<InterfaceItem>>, consumed: Option<Vec<InterfaceItem>>) -> InterfacesYml {
    InterfacesYml { project: None, project_type: None, environment: None, exposed, consumed }
}

fn described(items: &Option<Vec<InterfaceItem>>) -> Vec<(String, String, Option<String>, Option<String>)> {
    items
        .as_ref()
        .map(|v| v.iter().map(|i| (i.method.clone(), i.path.clone(), i.reason.clone(), i.target_project.clone())).collect())
        .unwrap_or_default()
}

#[test]
fn piped_patch_is_merged_with_partial_override() {
    let current = overlay(Some(vec![item("/a", "GET", Some("manual note"), None), item("/b", "GET", Some("keep"), None)]), None);
    let mut patch = overlay(Some(vec![item("/b", "GET", None, None), item("/c", "POST", Some("new"), None)]), None);
    patch.project_type = Some("service".to_string());
    let merged = patch_cmd(Some(current), Ok(patch)).unwrap();
    assert_eq!(
        described(&merged.exposed),
        vec![
            ("GET".to_string(), "/a".to_string(), Some("manual note".to_string()), None),
            ("GET".to_string(), "/b".to_string(), Some("keep".to_string()), None),
            ("POST".to_string(), "/c".to_string(), Some("new".to_string()), None),
        ]
    );
    assert_eq!(merged.project_type.as_deref(), Some("service"));
    assert!(merged.consumed.is_none());
}

#[test]
fn piped_patch_without_an_overlay_starts_a_new_one() {
    let patch = overlay(None, Some(vec![item("/orders", "GET", None, Some("shop"))]));
    let merged = patch_cmd(None, Ok(patch)).unwrap();
    assert_eq!(described(&merged.exposed), vec![]);
    assert!(merged.exposed.is_some());
    assert_eq!(
        described(&merged.consumed),
        vec![("GET".to_string(), "/orders".to_string(), None, Some("shop".to_string()))]
    );
}

#[test]
fn invalid_patch_is_refused() {
    let r = patch_cmd(None, Err("mapping values are not allowed here".to_string()));
    assert_eq!(r.err().as_deref(), Some("Invalid YAML patch: mapping values are not allowed here"));
}

#[test]
fn workspace_patch_keeps_human_annotations() {
    let mut current = overlay(Some(vec![item("/a", "GET", Some("manual note"), None), item("/b", "GET", Some("keep"), None)]), None);
    let patch = overlay(Some(vec![item("/b", "GET", None, None)]), None);
    apply_suggestion(&mut current, &patch);
    assert_eq!(
        described(&current.exposed),
        vec![
            ("GET".to_string(), "/a".to_string(), Some("manual note".to_string()), None),
            ("GET".to_string(), "/b".to_string(), Some("keep".to_string()), None),
        ]
    );
}

#[test]
fn consistency_hashes_are_sixteen_hex_digits() {
    assert_eq!(target_hash(None, None, "a"), "af63dc4c8601ec8c");
    for (i, c) in [None, Some(b"exposed: []".to_vec())].into_iter().zip([Some(b"x".to_vec()), None]) {
        let h = target_hash(i, c, "gateway");
        assert_eq!(h.len(), 16);
        assert!(h.chars().all(|ch| ch.is_ascii_digit() || ('a'..='f').contains(&ch)));
    }
}

#[test]
fn merged_task_is_marked_completed() {
    let statuses = s(&["pending", "pending", "done"]);
    assert_eq!(mark_completed(&statuses, 1), s(&["pending", "completed", "done"]));
    assert_eq!(mark_completed(&statuses, 0), s(&["completed", "pending", "done"]));
}

#[test]
fn all_visibilities_set() {
    assert_eq!(visibilities_all(3, "private"), s(&["private", "private", "private"]));
    assert!(visibilities_all(0, "public").is_empty());
}

#[test]
fn structural_index_holds_every_route_once() {
    let routes = vec![route("GET", "/users/{id}"), route("GET", "/users"), route("POST", "/orders/{id}"), route("PUT", "/a")];
    let groups = build_structural_index(&routes);
    let keys: Vec<&str> = groups.iter().map(|g| g.key.as_str()).collect();
    assert_eq!(keys, vec!["literal:parameter", "literal"]);
    let sizes: Vec<usize> = groups.iter().map(|g| g.routes.len()).collect();
    assert_eq!(sizes, vec![2, 2]);
    assert_eq!(sizes.iter().sum::<usize>(), routes.len());
}
