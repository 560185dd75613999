use bl::commits::{link_commit, resolve_commit, revision, split_commit_line};
use bl::duration::parse_duration;
use bl::path::{dir_name, file_name, join_path, source_label};
use bl::project::{all, by_id, by_name, by_path, check_add, lookup, name_for, require, Project};
use bl::refusal::Refusal;
use bl::schema::{missing_columns, predates_claims, read_columns};
use bl::status::Status;
use bl::store::{
    candidate_dirs, central_db_path, check_there, config_path, config_to_write, default_config, expand_home, falls_back, git_common_dir, git_dir, home,
    require_project, resolve_project, root_is_above, target, Target, Verb,
};
use std::path::Path;

fn project(id: i64, name: &str, active: bool) -> Project {
    Project {
        id,
        name: name.to_string(),
        path: format!("/r/{}", name),
        active,
        autoexport: String::new(),
        created_at: String::new(),
    }
}

fn strings(v: &[&str]) -> Vec<String> {
    v.iter().map(|s| s.to_string()).collect()
}

fn said<T>(r: Result<T, Refusal>) -> String {
    match r {
        Ok(_) => panic!("not refused"),
        Err(e) => e.message(),
    }
}

const PATHS: [&str; 18] = [
    "", "/", "a", "/a", "a/b", "/a/b", "/a/b/", "/a//b", "a/./b", "./a", ".", "..", "a/..", "/a/../b", "~/x", "/a/b/.", "./",
    "/..",
];

#[test]
fn path_names_agree_with_std() {
    for p in PATHS {
        let path = Path::new(p);
        let base = path.file_name().map(|s| s.to_string_lossy().to_string());
        assert_eq!(file_name(p), base, "{:?}", p);
        let above = path.parent().and_then(|q| q.file_name()).map(|s| s.to_string_lossy().to_string());
        assert_eq!(dir_name(p), above, "{:?}", p);
    }
}

#[test]
fn joined_paths_agree_with_std() {
    for a in PATHS {
        for b in ["x", "/x", "x/y", ".bl", "backlog.db"] {
            assert_eq!(join_path(a, b), Path::new(a).join(b).display().to_string(), "{:?} {:?}", a, b);
        }
    }
}

#[test]
fn a_database_is_labelled_by_its_directory_and_name() {
    assert_eq!(source_label("/git/foo/backlog.db"), "foo/backlog.db");
    assert_eq!(source_label("/backlog.db"), "backlog.db");
    assert_eq!(source_label("/"), "/");
}

#[test]
fn the_store_lives_under_the_home() {
    assert_eq!(home(Some("/x"), Some("/h")), "/x");
    assert_eq!(home(None, Some("/h")), "/h/.bl");
    assert_eq!(home(None, None), "./.bl");
    assert_eq!(config_path("/h/.bl"), "/h/.bl/config.yml");
    assert_eq!(expand_home("~/d/x.db", Some("/h")), "/h/d/x.db");
    assert_eq!(expand_home("~/d/x.db", None), "~/d/x.db");
    assert_eq!(expand_home("/d/x.db", Some("/h")), "/d/x.db");
}

#[test]
fn the_configuration_moves_the_database() {
    let at = |text: &str| central_db_path(Some(text), "/h/.bl", Some("/h"));
    assert_eq!(at("# db: /no\n  db:  \"~/d/x.db\"  \n"), "/h/d/x.db");
    assert_eq!(at("other: 1\ndb: '/y.db'\ndb: /z.db\n"), "/y.db");
    assert_eq!(at("db:\n"), "/h/.bl/backlog.db");
    assert_eq!(at("db:\ndb: /late.db"), "/late.db");
    assert_eq!(at(""), "/h/.bl/backlog.db");
    assert_eq!(central_db_path(None, "/h/.bl", None), "/h/.bl/backlog.db");
    let text = default_config("/q/backlog.db");
    assert_eq!(
        text,
        "# bl central store. Every project's cards live in this one database;\n\
         # `bl project list` shows which repositories map to it.\ndb: /q/backlog.db\n"
    );
    assert_eq!(at(&text), "/q/backlog.db");
}

#[test]
fn where_a_command_looks() {
    let go = |flag: Option<&str>, env: Option<&str>, c: bool, l: bool| target(flag, env, "/c.db", c, l);
    assert_eq!(go(Some("/f.db"), Some("/e.db"), true, true).ok(), Some(Target::Explicit("/f.db".to_string())));
    assert_eq!(go(None, Some("/e.db"), true, true).ok(), Some(Target::Explicit("/e.db".to_string())));
    assert_eq!(go(None, Some(""), true, true).ok(), Some(Target::Central("/c.db".to_string())));
    assert_eq!(go(None, None, false, true).ok(), Some(Target::RepoLocal("backlog.db".to_string())));
    assert_eq!(
        said(go(None, None, false, false)),
        "no backlog found: /c.db does not exist and there is no ./backlog.db here.\n\
         Run `bl init` to create the central store and register this repository,\n\
         or pass --db <path> to use a specific database."
    );
}

#[test]
fn an_unregistered_repository_keeps_its_file() {
    assert!(falls_back(true, false, false, Verb::Cards, true));
    assert!(falls_back(true, false, false, Verb::ImportStdin, true));
    assert!(!falls_back(true, false, false, Verb::Project, true));
    assert!(!falls_back(true, false, false, Verb::ImportFile, true));
    assert!(!falls_back(true, false, false, Verb::Migrate, true));
    assert!(!falls_back(false, false, false, Verb::Cards, true));
    assert!(!falls_back(true, true, false, Verb::Cards, true));
    assert!(!falls_back(true, false, true, Verb::Cards, true));
    assert!(!falls_back(true, false, false, Verb::Cards, false));
}

#[test]
fn the_project_of_a_command() {
    let ps = vec![project(1, "zeta", true), project(2, "alpha", true), project(3, "old", false)];
    let dirs = candidate_dirs(Some("/r/none"), &strings(&["/r/alpha/src", "/r/alpha", "/r", "/r/none"]));
    assert_eq!(dirs, strings(&["/r/none", "/r/alpha/src", "/r/alpha", "/r"]));
    let go = |central: bool, flag: Option<&str>, env: Option<&str>| resolve_project(&ps, central, flag, env, &dirs);
    assert_eq!(go(true, None, None).ok(), Some(Some(1)));
    assert_eq!(go(true, Some("old"), Some("zeta")).ok(), Some(Some(2)));
    assert_eq!(go(true, None, Some("#1")).ok(), Some(Some(0)));
    assert_eq!(go(false, None, Some("")).ok(), Some(Some(1)));
    assert_eq!(
        said(go(true, Some("nope"), None)),
        "no project named 'nope'; `bl project list` shows the registered ones"
    );
    assert_eq!(resolve_project(&ps, true, None, None, &strings(&["/q"])).ok(), Some(None));
    assert_eq!(resolve_project(&Vec::new(), false, None, None, &dirs).ok(), Some(None));
}

#[test]
fn a_card_needs_a_project() {
    let p = project(1, "p", true);
    assert_eq!(require_project(Some(&p), true, "/x").ok().map(|p| p.id), Some(1));
    assert_eq!(
        said(require_project(None, true, "/x")),
        "this directory is not inside a registered project: pass --project <name>, or run `bl project add` from the repository"
    );
    assert_eq!(
        said(require_project(None, false, "/x.db")),
        "this database has no project row; run `bl init --db /x.db`"
    );
}

#[test]
fn git_runs_in_the_projects_checkout() {
    let p = project(1, "p", true);
    assert_eq!(git_dir(Some(&p), "/beside"), "/r/p");
    assert_eq!(git_dir(None, "/beside"), "/beside");
    let bare = Project { path: String::new(), ..project(1, "p", true) };
    assert_eq!(git_dir(Some(&bare), "/beside"), "/beside");
    assert_eq!(git_common_dir(true, " /r/p/.git\n"), Some("/r/p/.git".to_string()));
    assert_eq!(git_common_dir(true, "\n"), None);
    assert_eq!(git_common_dir(false, "/r/p/.git"), None);
    assert!(root_is_above("/r/p/.git"));
    assert!(!root_is_above("/r/bare.git"));
}

#[test]
fn projects_are_looked_up_by_name_or_id() {
    let ps = vec![project(1, "7", true), project(7, "q", true)];
    assert_eq!(lookup(&ps, "q"), Some(1));
    assert_eq!(lookup(&ps, " q "), Some(1));
    assert_eq!(lookup(&ps, "7"), Some(0));
    assert_eq!(lookup(&ps, "#7"), Some(1));
    assert_eq!(lookup(&ps, "1"), Some(0));
    assert_eq!(lookup(&ps, "x"), None);
    assert_eq!(by_id(&ps, 7), Some(1));
    assert_eq!(by_name(&ps, "7"), Some(0));
    assert_eq!(by_path(&ps, "/r/q"), Some(1));
    assert_eq!(said(require(&ps, "zz")), "no project named 'zz'");
}

#[test]
fn the_hash_before_an_id_is_optional() {
    let ps = vec![project(12, "p", true)];
    for key in ["12", "#12", "##12"] {
        assert_eq!(lookup(&ps, key), Some(0));
    }
}

#[test]
fn projects_are_listed_active_first_then_by_name() {
    let ps = vec![project(1, "b", false), project(2, "z", true), project(3, "a", true)];
    assert_eq!(all(&ps), vec![2, 1, 0]);
}

#[test]
fn a_project_is_named_after_its_directory() {
    assert_eq!(name_for("/git/foo", None), "foo");
    assert_eq!(name_for("/git/foo", Some("  ")), "foo");
    assert_eq!(name_for("/git/foo", Some(" bar ")), "bar");
    assert_eq!(name_for("/", None), "project");
    assert!(check_add(&vec![project(1, "p", true)], "/git/foo", true, None).is_ok());
}

#[test]
fn durations_are_read() {
    assert_eq!(parse_duration("90s").ok(), Some(90));
    assert_eq!(parse_duration("30m").ok(), Some(1800));
    assert_eq!(parse_duration(" 2h ").ok(), Some(7200));
    assert_eq!(parse_duration("1d").ok(), Some(86400));
    assert_eq!(parse_duration("45").ok(), Some(2700));
    assert_eq!(parse_duration("5 m").ok(), Some(300));
    assert_eq!(said(parse_duration("  ")), "empty duration");
    assert_eq!(said(parse_duration("soon")), "bad duration 'soon' (try 90s, 30m, 2h, 1d)");
    assert_eq!(said(parse_duration("-5m")), "duration must not be negative");
    assert!(parse_duration("9223372036854775807d").is_err());
    assert_eq!(parse_duration("9223372036854775807s").ok(), Some(i64::MAX));
}

#[test]
fn commits_are_resolved_from_git() {
    assert_eq!(revision("  "), "HEAD");
    assert_eq!(revision(" HEAD~1 "), "HEAD~1");
    assert_eq!(
        resolve_commit(true, "a1b2c3d\tFix race\twith tab\n", "", "HEAD").ok(),
        Some(("a1b2c3d".to_string(), "Fix race\twith tab".to_string()))
    );
    assert_eq!(resolve_commit(true, "a1b2c3d", "", "HEAD").ok(), Some(("a1b2c3d".to_string(), String::new())));
    assert_eq!(said(resolve_commit(true, " \n", "", "HEAD")), "git returned no commit for 'HEAD'");
    assert_eq!(
        said(resolve_commit(false, "", "fatal: bad revision\nmore", "zz")),
        "git could not resolve 'zz': fatal: bad revision"
    );
    assert_eq!(said(resolve_commit(false, "", " ", "zz")), "git could not resolve 'zz': not a git repository?");
}

#[test]
fn a_commit_is_linked_once() {
    let one = link_commit("", "a1b2c3d", "Fix");
    assert_eq!(one, "a1b2c3d\tFix");
    let two = link_commit("a1b2c3d\tFix\n\n", "b2c3d4e", "More");
    assert_eq!(two, "a1b2c3d\tFix\nb2c3d4e\tMore");
    assert_eq!(link_commit(&two, "a1b2c3d", "Other"), two);
    assert_eq!(split_commit_line("a1b2c3d\tFix"), ("a1b2c3d".to_string(), "Fix".to_string()));
    assert_eq!(split_commit_line("bare"), ("bare".to_string(), String::new()));
}

#[test]
fn a_commit_is_linked_after_the_others() {
    let shas = |text: &str| -> Vec<String> {
        text.lines()
            .filter(|l| !l.trim().is_empty())
            .map(|l| l.split('\t').next().unwrap_or("").to_string())
            .collect()
    };
    for text in ["", " \n", "a1\tx", "a1\tx  \n\n", "a1\tx\r\n\nb2\ty\n", "bare"] {
        let r = link_commit(text, "c3", "Fix it");
        let mut wanted = shas(text);
        wanted.push("c3".to_string());
        assert_eq!(shas(&r), wanted);
        assert!(r.ends_with("c3\tFix it"));
        assert_eq!(link_commit(&r, "c3", "other"), r);
    }
}

#[test]
fn a_configuration_is_written_once() {
    let first = config_to_write(None, "/s/backlog.db").expect("there is none");
    assert_eq!(first, default_config("/s/backlog.db"));
    assert_eq!(config_to_write(Some(&first), "/other.db"), None);
    assert_eq!(config_to_write(Some(""), "/other.db"), None);
}

#[test]
fn a_database_that_is_not_there_is_not_made() {
    assert!(check_there("/x/backlog.db", true).is_ok());
    assert_eq!(
        check_there("/x/backlog.db", false).err().map(|e| e.message()),
        Some(Refusal::NoDatabase("/x/backlog.db".to_string()).message())
    );
}

#[test]
fn statuses_have_names() {
    for s in [Status::New, Status::Ready, Status::InProgress, Status::Done] {
        assert_eq!(Status::named(s.as_str()), Some(s));
        assert_eq!(Status::named_any_case(&s.as_str().to_uppercase()), Some(s));
        assert_eq!(s.drops_claim(), s != Status::InProgress);
    }
    assert_eq!(Status::named("NEW"), None);
    assert_eq!(Status::named_any_case("blocked"), None);
}

#[test]
fn refusals_say_what_is_wrong() {
    let told = |r: Refusal| (r.message(), r.exit_code());
    assert_eq!(told(Refusal::NoHistory(4)), ("card #4 not found and it left no history".to_string(), 1));
    assert_eq!(
        told(Refusal::WhichCard),
        ("which card? give an id, --ids 1,2,3 or --where FIELD=VALUE".to_string(), 1)
    );
    assert_eq!(
        told(Refusal::NoDatabase("/x".to_string())),
        ("database not found: /x\nRun `bl init --db /x` to create it.".to_string(), 1)
    );
    assert_eq!(told(Refusal::LostClaim(2, "a".to_string())).1, 3);
    assert_eq!(told(Refusal::Contended(2, "a".to_string())).1, 3);
}

#[test]
fn old_databases_are_brought_up_to_date() {
    let today = strings(&["id", "title", "project_id", "legacy_id", "claimed_by", "claimed_at", "commits"]);
    assert_eq!(missing_columns(&today), Vec::<String>::new());
    let old = strings(&["id", "title", "legacy_id", "claimed_by"]);
    assert_eq!(
        missing_columns(&old),
        strings(&[
            "ALTER TABLE cards ADD COLUMN project_id INTEGER NOT NULL DEFAULT 0;",
            "ALTER TABLE cards ADD COLUMN commits TEXT NOT NULL DEFAULT '';",
        ])
    );
    // The two columns of a claim came together.
    for present in [&["id", "project_id", "legacy_id", "commits"][..], &["project_id", "legacy_id", "claimed_at", "commits"]] {
        assert_eq!(
            missing_columns(&strings(present)),
            strings(&[
                "ALTER TABLE cards ADD COLUMN claimed_by TEXT NOT NULL DEFAULT '';",
                "ALTER TABLE cards ADD COLUMN claimed_at TEXT NOT NULL DEFAULT '';",
            ])
        );
    }
    assert!(predates_claims("CREATE TABLE cards (status CHECK(status IN ('new', 'ready', 'done')))"));
    assert!(!predates_claims("CREATE TABLE cards (status CHECK(status IN ('new', 'in_progress')))"));
    assert!(!predates_claims(""));
}

#[test]
fn old_databases_are_read_as_they_are() {
    let old = strings(&[
        "id", "title", "notes", "label", "status", "priority", "outcome", "created_at", "updated_at",
    ]);
    assert_eq!(
        read_columns(&old),
        "id, title, notes, label, status, priority, outcome, '' AS claimed_by, '' AS claimed_at, '' AS commits, \
         created_at, updated_at, '' AS project_id, '' AS legacy_id"
    );
}
