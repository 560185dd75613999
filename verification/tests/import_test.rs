use bl::backlog::Backlog;
use bl::card::Card;
use bl::filing::Draft;
use bl::import::{candidates, check_source, plan, source_info, summary, Outcome, SourceInfo};
use bl::notes::Note;
use bl::refusal::Refusal;
use bl::status::Status;

const T0: &str = "2026-01-01 00:00:00";
const T1: &str = "2026-01-01 01:00:00";

fn source() -> Vec<Card> {
    let base = |id: i64, title: &str| Card {
        id,
        title: title.to_string(),
        notes: String::new(),
        label: "art".to_string(),
        status: Status::New,
        priority: 100,
        outcome: String::new(),
        claimed_by: String::new(),
        claimed_at: String::new(),
        commits: String::new(),
        created_at: T0.to_string(),
        updated_at: T0.to_string(),
        project_id: 0,
        project: String::new(),
        legacy_id: None,
        entries: Vec::new(),
    };
    let row = Note {
        id: 44,
        kind: "finding".to_string(),
        author: "ann".to_string(),
        body: "x".to_string(),
        commit_sha: String::new(),
        commit_subject: String::new(),
        created_at: T0.to_string(),
    };
    vec![
        Card { notes: "one\n\n[decision] two".to_string(), priority: 9000, ..base(9, "nine") },
        Card { notes: "[finding] x".to_string(), entries: vec![row], ..base(4, "four") },
        Card { status: Status::Done, outcome: "ok".to_string(), ..base(6, "six") },
    ]
}

fn info() -> SourceInfo {
    source_info("/r/old", Some(("old".to_string(), String::new())), Some("/r/old/view.html".to_string()))
}

fn store() -> Backlog {
    let mut b = Backlog::new();
    b.add_project("/r/p", true, None, T0).expect("free");
    let d = Draft {
        title: "mine".to_string(),
        label: String::new(),
        priority: 5000,
        notes: String::new(),
        typed: Vec::new(),
        project_id: 1,
        project: "p".to_string(),
    };
    b.create(&d, false, false, "", T0).expect("filed");
    b.events = Vec::new();
    b
}

fn said<T>(r: Result<T, Refusal>) -> String {
    match r {
        Ok(_) => panic!("not refused"),
        Err(e) => e.message(),
    }
}

#[test]
fn a_source_says_what_it_is() {
    let s = source_info("/r/old", None, None);
    assert_eq!((s.name.as_str(), s.dir.as_str(), s.autoexport.as_str()), ("old", "/r/old", ""));
    assert_eq!(source_info("/", None, None).name, "project");
    let own = source_info("/r/old", Some(("n".to_string(), "own".to_string())), Some("set".to_string()));
    assert_eq!((own.name.as_str(), own.autoexport.as_str()), ("n", "own"));
    assert_eq!(info().autoexport, "/r/old/view.html");
}

#[test]
fn sources_that_are_refused() {
    assert_eq!(
        said(check_source(false, "/x", true, false)),
        "import needs the central store; run `bl init` first, then import from anywhere"
    );
    assert_eq!(said(check_source(true, "/x", false, false)), "/x is not a file");
    assert_eq!(said(check_source(true, "/x", true, true)), "/x is the central store itself");
    assert!(check_source(true, "/x", true, false).is_ok());
}

#[test]
fn cards_come_in_old_id_order_under_new_ids() {
    let mut b = store();
    let o = b.import("/r/old/backlog.db", None, &info(), true, &source(), T1).expect("fine");
    assert_eq!(o.imported, vec![(4, 2), (6, 3), (9, 4)]);
    assert_eq!((o.project.as_str(), o.project_id, o.project_created), ("old", 2, true));
    assert_eq!((o.skipped, o.notes), (0, 3));
    assert_eq!(o.autoexport.as_deref(), Some("/r/old/view.html"));
    let nine = &b.cards[3];
    assert_eq!((nine.id, nine.legacy_id, nine.project_id, nine.project.as_str()), (4, Some(9), 2, "old"));
    assert_eq!(nine.entries.len(), 2);
    assert_eq!(nine.entries[1].kind, "decision");
    let four = &b.cards[1];
    assert_eq!(four.entries.len(), 1);
    assert_eq!((four.entries[0].id, four.entries[0].author.as_str()), (0, "ann"));
    assert_eq!(b.cards[0].title, "mine");
    assert_eq!(b.projects[1].autoexport, "/r/old/view.html");
}

#[test]
fn a_second_import_adds_nothing() {
    let mut b = store();
    b.import("/r/old/backlog.db", None, &info(), true, &source(), T1).expect("fine");
    let before = b.cards.clone();
    let o = b.import("/r/old/backlog.db", None, &info(), true, &source(), T1).expect("fine");
    assert_eq!((o.imported.len(), o.skipped, o.notes, o.project_created), (0, 3, 0, false));
    assert_eq!(o.autoexport, None);
    assert_eq!(b.cards, before);
}

#[test]
fn an_import_goes_to_the_named_project() {
    let mut b = store();
    let o = b.import("/r/old/backlog.db", Some("p"), &info(), true, &source(), T1).expect("fine");
    assert_eq!((o.project.as_str(), o.project_created), ("p", false));
    assert_eq!(b.projects.len(), 1);
    let mut c = store();
    let o = c.import("/r/old/backlog.db", Some("fresh"), &info(), true, &source(), T1).expect("fine");
    assert_eq!((o.project.as_str(), o.project_created), ("fresh", true));
}

#[test]
fn a_taken_name_falls_back_to_the_directory() {
    let mut b = store();
    let taken = source_info("/r/old", Some(("p".to_string(), String::new())), None);
    let o = b.import("/r/old/backlog.db", None, &taken, true, &source(), T1).expect("fine");
    assert_eq!((o.project.as_str(), o.project_id), ("old", 2));
}

#[test]
fn a_refused_import_brings_no_card() {
    let mut b = store();
    let r = b.import("/r/old/backlog.db", None, &info(), false, &source(), T1);
    assert_eq!(said(r), "/r/old is not a directory");
    assert_eq!((b.cards.len(), b.projects.len()), (1, 1));
    let mut bad = source();
    bad[0].priority = 20000;
    let r = b.import("/r/old/backlog.db", None, &info(), true, &bad, T1);
    assert_eq!(said(r), "priority must be 0..=10000");
    // The project was registered before the card was refused.
    assert_eq!((b.cards.len(), b.projects.len()), (1, 2));
    assert_eq!((b.projects[1].name.as_str(), b.projects[1].autoexport.as_str()), ("old", ""));
    b.last_id = i64::MAX - 2;
    let r = b.import("/r/old/backlog.db", None, &info(), true, &source(), T1);
    assert_eq!(said(r), "the store has no card ids left");
    assert_eq!((b.cards.len(), b.projects.len()), (1, 2));
}

#[test]
fn cards_that_are_there_already_need_no_ids() {
    let mut b = store();
    b.import("/r/old/backlog.db", None, &info(), true, &source(), T1).expect("fine");
    b.last_id = i64::MAX;
    let mut changed = source();
    changed[0].priority = 20000;
    let o = b.import("/r/old/backlog.db", None, &info(), true, &changed, T1).expect("nothing to store");
    assert_eq!((o.imported.len(), o.skipped), (0, 3));
}

#[test]
fn a_dry_run_counts() {
    let b = store();
    let o = plan(&b, "/r/old/backlog.db", None, &info(), &source(), T1);
    assert_eq!(o.imported, vec![(4, 0), (6, 0), (9, 0)]);
    assert_eq!((o.project_id, o.project_created, o.notes, o.skipped, o.dry_run), (0, false, 3, 0, true));
    assert_eq!(
        summary(&o),
        "would import /r/old/backlog.db → project 'old': 3 card(s) imported, 3 note(s), 0 already present; auto-export → /r/old/view.html"
    );
}

#[test]
fn a_dry_run_counts_what_the_import_does() {
    let mut b = store();
    for _ in 0..2 {
        let dry = plan(&b, "/r/old/backlog.db", None, &info(), &source(), T1);
        let done = b.import("/r/old/backlog.db", None, &info(), true, &source(), T1).expect("fine");
        let old = |o: &Outcome| o.imported.iter().map(|p| p.0).collect::<Vec<i64>>();
        assert_eq!(old(&dry), old(&done));
        assert_eq!((dry.notes, dry.skipped), (done.notes, done.skipped));
        assert_eq!(dry.autoexport, done.autoexport);
    }
}

#[test]
fn another_file_with_the_same_ids_is_imported_too() {
    let mut b = store();
    b.import("/r/old/backlog.db", Some("p"), &info(), true, &source(), T1).expect("fine");
    let mut other = source();
    for c in &mut other {
        c.created_at = T1.to_string();
    }
    let o = b.import("/r/new/backlog.db", Some("p"), &info(), true, &other, T1).expect("fine");
    assert_eq!((o.imported.len(), o.skipped), (3, 0));
    let again = b.import("/r/new/backlog.db", Some("p"), &info(), true, &other, T1).expect("fine");
    assert_eq!((again.imported.len(), again.skipped), (0, 3));
}

#[test]
fn an_edited_card_is_not_imported_again() {
    let mut b = store();
    b.import("/r/old/backlog.db", None, &info(), true, &source(), T1).expect("fine");
    b.cards[1].title = "renamed".to_string();
    b.cards[1].priority = 1;
    let o = b.import("/r/old/backlog.db", None, &info(), true, &source(), T1).expect("fine");
    assert_eq!((o.imported.len(), o.skipped), (0, 3));
}

#[test]
fn an_import_is_summed_up() {
    let o = Outcome {
        source: "/s".to_string(),
        project: "p".to_string(),
        project_id: 3,
        project_created: true,
        imported: vec![(1, 2)],
        skipped: 4,
        notes: 5,
        autoexport: None,
        dry_run: false,
    };
    assert_eq!(
        summary(&o),
        "imported /s → project 'p' (new): 1 card(s) imported, 5 note(s), 4 already present"
    );
}

#[test]
fn candidates_are_files_once_each_and_not_the_store() {
    let places: Vec<String> = ["/a/backlog.db", "/store/backlog.db", "/b/backlog.db", "/a/backlog.db", "/c/backlog.db"]
        .iter()
        .map(|s| s.to_string())
        .collect();
    let is_file = vec![true, true, false, true, true];
    assert_eq!(candidates(&places, &is_file, "/store/backlog.db"), vec!["/a/backlog.db", "/c/backlog.db"]);
}
