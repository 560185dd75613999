use bl::card::Card;
use bl::project::Project;
use bl::prompt::{agent_prompt, auto_text, labels_text, project_text};
use bl::refusal::Refusal;
use bl::select::Scope;
use bl::serve;
use bl::status::Status;
use bl::view::{
    autoexport_target, bake, check_sources, ends_headers, query_param, read_request_target, refresh, response_head, route,
    scope_of_source, stale_snapshots, view_sources, Route, Source,
};

const T0: &str = "2026-01-01 00:00:00";
const SLOT: &str = "<script id=\"bldata\" type=\"application/json\">null</script>";

fn card(id: i64, title: &str) -> Card {
    Card {
        id,
        title: title.to_string(),
        notes: String::new(),
        label: String::new(),
        status: Status::New,
        priority: 5000,
        outcome: String::new(),
        claimed_by: String::new(),
        claimed_at: String::new(),
        commits: String::new(),
        created_at: T0.to_string(),
        updated_at: T0.to_string(),
        project_id: 1,
        project: "p".to_string(),
        legacy_id: None,
        entries: Vec::new(),
    }
}

fn project(id: i64, name: &str, page: &str) -> Project {
    Project {
        id,
        name: name.to_string(),
        path: format!("/r/{}", name),
        active: true,
        autoexport: page.to_string(),
        created_at: String::new(),
    }
}

fn strings(v: &[&str]) -> Vec<String> {
    v.iter().map(|s| s.to_string()).collect()
}

fn said<T>(r: Result<T, Refusal>) -> String {
    match r {
        Ok(_) => panic!("not refused"),
        Err(e) => e.message(),
    }
}

// ------------------------------------------------------------- the feed

#[test]
fn json_strings_are_escaped() {
    assert_eq!(serve::json_string("plain"), "\"plain\"");
    assert_eq!(serve::json_string("a\"b\\c/d"), "\"a\\\"b\\\\c/d\"");
    assert_eq!(serve::json_string("\u{8}\t\n\u{c}\r"), "\"\\b\\t\\n\\f\\r\"");
    assert_eq!(serve::json_string("\u{0}\u{1f}\u{7f}é<"), "\"\\u0000\\u001f\u{7f}é<\"");
}

#[test]
fn every_character_below_128_is_escaped_as_stated() {
    for n in 0..128_u32 {
        let c = char::from_u32(n).expect("ascii");
        let wanted = match c {
            '"' => "\\\"".to_string(),
            '\\' => "\\\\".to_string(),
            '\u{8}' => "\\b".to_string(),
            '\t' => "\\t".to_string(),
            '\n' => "\\n".to_string(),
            '\u{c}' => "\\f".to_string(),
            '\r' => "\\r".to_string(),
            _ if n < 32 => format!("\\u{:04x}", n),
            _ => c.to_string(),
        };
        assert_eq!(serve::json_string(&c.to_string()), format!("\"{}\"", wanted));
    }
}

#[test]
fn json_strings_stay_on_one_line() {
    let s = serve::json_string("a\n\"b\"\r");
    assert!(!s.contains('\n') && !s.contains('\r'));
    assert_eq!(serde_json::from_str::<String>(&s).ok(), Some("a\n\"b\"\r".to_string()));
}

#[test]
fn a_card_is_told_as_json() {
    let c = Card { notes: "x\n\"y\"".to_string(), status: Status::InProgress, ..card(7, "T") };
    assert_eq!(
        serve::card_text_json(&c),
        "{\"id\":7,\"title\":\"T\",\"notes\":\"x\\n\\\"y\\\"\",\"label\":\"\",\"status\":\"in_progress\",\
         \"priority\":5000,\"outcome\":\"\",\"claimed_by\":\"\",\"claimed_at\":\"\",\
         \"created_at\":\"2026-01-01 00:00:00\",\"updated_at\":\"2026-01-01 00:00:00\"}"
    );
}

#[test]
fn the_feed_is_json() {
    let sources = vec![
        serve::Source { label: "a".to_string(), path: "/a.db".to_string() },
        serve::Source { label: "b".to_string(), path: "/b.db".to_string() },
    ];
    let text = serve::feed_json(&sources, 1, &vec![card(1, "x"), card(2, "y")]);
    let v: serde_json::Value = serde_json::from_str(&text).expect("valid");
    assert_eq!(v["db"]["index"], 1);
    assert_eq!(v["db"]["label"], "b");
    assert_eq!(v["databases"][0]["path"], "/a.db");
    assert_eq!(v["cards"].as_array().map(|a| a.len()), Some(2));
    assert_eq!(v["cards"][1]["title"], "y");
    let empty = serve::feed_json(&sources, 0, &Vec::new());
    assert!(empty.ends_with("],\"cards\":[]}"));
    assert_eq!(serve::error_body("no \"db\""), "{\"error\":\"no \\\"db\\\"\"}");
}

// ------------------------------------------------------------- sources

#[test]
fn a_snapshot_is_redrawn_from_its_own_database() {
    let s = refresh("/x/backlog.db", Some(3), true);
    assert_eq!(
        s,
        Source { label: "/x/backlog.db".to_string(), path: "/x/backlog.db".to_string(), project: Some(3), active_only: true }
    );
    assert_eq!(scope_of_source(&s), Scope::Project(3));
    assert_eq!(scope_of_source(&refresh("/x", None, true)), Scope::ActiveProjects);
    assert_eq!(scope_of_source(&refresh("/x", None, false)), Scope::Everything);
}

#[test]
fn the_sources_are_the_store_and_the_extra_files() {
    let p = project(4, "p", "");
    let go = |project: Option<&Project>, all: bool| {
        view_sources(
            "b.db",
            "/q/b.db",
            project,
            all,
            true,
            &strings(&["../c.db"]),
            &strings(&["/z/c.db"]),
        )
    };
    let scoped = go(Some(&p), false);
    assert_eq!((scoped[0].label.as_str(), scoped[0].path.as_str(), scoped[0].project), ("p", "b.db", Some(4)));
    assert!(scoped[0].active_only);
    assert_eq!((scoped[1].label.as_str(), scoped[1].path.as_str(), scoped[1].project), ("z/c.db", "../c.db", None));
    assert!(!scoped[1].active_only);
    let whole = go(Some(&p), true);
    assert_eq!((whole[0].label.as_str(), whole[0].project), ("q/b.db", None));
    assert_eq!(go(None, false)[0].label, "q/b.db");
}

#[test]
fn sources_must_be_there() {
    let s = vec![refresh("/a", None, false), refresh("/b", None, false)];
    assert!(check_sources(&s, &vec![true, true]).is_ok());
    assert_eq!(said(check_sources(&s, &vec![true, false])), "database not found: /b");
    assert_eq!(said(check_sources(&s, &vec![false, false])), "database not found: /a");
    assert_eq!(said(check_sources(&Vec::new(), &Vec::new())), "no databases to read");
}

// ------------------------------------------------------------- requests

#[test]
fn a_request_asks_for_its_target() {
    assert_eq!(read_request_target("GET /api/cards?db=1 HTTP/1.1\r\n"), "/api/cards?db=1");
    assert_eq!(read_request_target("GET\r\n"), "/");
    assert_eq!(read_request_target("POST / HTTP/1.1\r\n"), "/__method_not_allowed");
    assert_eq!(read_request_target("\r\n"), "/__method_not_allowed");
    assert!(ends_headers("\r\n") && ends_headers("\n") && ends_headers(""));
    assert!(!ends_headers("Host: x\r\n"));
}

#[test]
fn targets_are_routed() {
    assert_eq!(route("/", 2), Route::Page);
    assert_eq!(route("/index.html?x=1", 2), Route::Page);
    assert_eq!(route("/api/cards", 2), Route::Cards(0));
    assert_eq!(route("/api/cards?db=1", 2), Route::Cards(1));
    assert_eq!(route("/api/cards?x&db=1&db=0", 2), Route::Cards(1));
    assert_eq!(route("/__method_not_allowed", 2), Route::NotFound);
    assert_eq!(route("/other", 2), Route::NotFound);
}

#[test]
fn only_given_databases_can_be_picked() {
    for pick in ["2", "-1", "99999999999999999999", "x", "", "1e0", "../x"] {
        assert_eq!(route(&format!("/api/cards?db={}", pick), 2), Route::Cards(0));
    }
}

#[test]
fn a_query_gives_the_first_value_of_a_key() {
    assert_eq!(query_param("a=1&b=2&a=3", "a"), Some("1".to_string()));
    assert_eq!(query_param("a&b=2=3", "b"), Some("2=3".to_string()));
    assert_eq!(query_param("a=1", "c"), None);
    assert_eq!(query_param("", ""), None);
    assert_eq!(query_param("a=", "a"), Some(String::new()));
}

#[test]
fn an_answer_has_a_head() {
    assert_eq!(
        response_head(200, "application/json", 12),
        "HTTP/1.1 200 OK\r\nContent-Type: application/json\r\nContent-Length: 12\r\nCache-Control: no-store\r\nConnection: close\r\n\r\n"
    );
    assert!(response_head(404, "t", 0).starts_with("HTTP/1.1 404 Not Found\r\n"));
    assert!(response_head(500, "t", 0).starts_with("HTTP/1.1 500 Internal Server Error\r\n"));
}

// ------------------------------------------------------------- snapshots

#[test]
fn data_is_put_into_the_page() {
    let page = format!("<html>{}</html>", SLOT);
    assert_eq!(
        bake(&page, "{\"t\":\"</script><b>\"}").ok(),
        Some(
            "<html><script id=\"bldata\" type=\"application/json\">{\"t\":\"\\u003c/script>\\u003cb>\"}</script></html>"
                .to_string()
        )
    );
    let baked = bake(&page, "[\"a<b\\\\<c\"]").expect("there is a slot");
    assert!(baked.contains("[\"a\\u003cb\\\\\\u003cc\"]"));
    assert_eq!(said(bake("<html></html>", "{}")), "dashboard template is missing its data slot");
    assert_eq!(said(bake(&page, "null")), "dashboard template is missing its data slot");
}

#[test]
fn where_a_page_is_kept_in_sync() {
    let go = |off: bool, env: Option<&str>| autoexport_target(off, env, Some("/p.html"), Some("/all.html"));
    assert_eq!(go(true, Some("/e.html")), None);
    assert_eq!(go(false, Some("/e.html")), Some("/e.html".to_string()));
    assert_eq!(go(false, Some("")), Some("/p.html".to_string()));
    assert_eq!(autoexport_target(false, None, Some(""), Some("/all.html")), Some("/all.html".to_string()));
    assert_eq!(autoexport_target(false, None, None, Some("")), None);
}

#[test]
fn a_write_refreshes_the_pages_it_made_stale() {
    let ps = vec![project(1, "b", "/b.html"), project(2, "a", "/a.html"), project(3, "c", "")];
    let go = |off: bool, env: Option<&str>, touched: Option<i64>, setting: Option<&str>| {
        stale_snapshots(off, env, Some(1), touched, &ps, setting)
    };
    let page = |p: &str, id: Option<i64>| (p.to_string(), id);
    assert_eq!(go(false, None, Some(1), Some("/all.html")), vec![page("/b.html", Some(1)), page("/all.html", None)]);
    assert_eq!(go(false, None, None, None), vec![page("/a.html", Some(2)), page("/b.html", Some(1))]);
    assert_eq!(go(false, None, Some(3), Some("")), Vec::new());
    assert_eq!(go(false, Some("/e.html"), Some(2), Some("/all.html")), vec![page("/e.html", Some(1))]);
    assert_eq!(go(true, Some("/e.html"), None, Some("/all.html")), Vec::new());
}

// ------------------------------------------------------------- instructions

#[test]
fn the_instructions_are_filled_in() {
    let ps = vec![project(1, "p", ""), Project { active: false, ..project(2, "q", "") }];
    let cards = vec![
        Card { label: "art,ui".to_string(), ..card(1, "a") },
        Card { label: "ui".to_string(), ..card(2, "b") },
        Card { label: "done".to_string(), status: Status::Done, ..card(3, "c") },
        Card { label: "parked".to_string(), project_id: 2, ..card(4, "d") },
    ];
    let text = agent_prompt(
        "db={{DB}} {{PROJECT}}|{{AUTO}}|{{LABELS}}",
        "/x.db",
        Some(&ps[0]),
        true,
        Some("/o.html"),
        &cards,
        &ps,
        Scope::ActiveProjects,
    );
    assert_eq!(
        text,
        "db=/x.db This repository is project **p** (#1, `/r/p`). Commands run from inside it,\n\
         or any of its worktrees, are scoped to it automatically; nothing has to be pinned.|\n\
         The board at `/o.html` refreshes itself on every write — never run `bl export`.\n|\n\
         ## Tags in use\n\nui (2), art (1)\n\n\
         Reuse one of these rather than inventing a near-duplicate; a card may carry several (`-l art,enemies`).\n"
    );
}

#[test]
fn sections_without_content_are_left_out() {
    assert_eq!(labels_text(&Vec::new()), "");
    assert_eq!(auto_text(None), "");
    assert_eq!(project_text(None, false), "");
    assert_eq!(
        project_text(None, true),
        "No project is scoped: this directory is not a registered repository. Pass `--project <name>` or run `bl project add`."
    );
}
