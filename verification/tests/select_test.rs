use bl::card::{find_card, Card};
use bl::condition::{parse_ids, parse_where, satisfies, select_where, Condition, NumberField, Relation, TextField};
use bl::links::{Link, LinkKind};
use bl::notes::Note;
use bl::project::Project;
use bl::refusal::Refusal;
use bl::select::{
    lines_with, list, lowered_all, matching_lines, names_of, next, numbered, on_board, ranked, scope, search,
    search_lowered, texts_on, within_scope, Scope,
};
use bl::status::Status;

fn card(id: i64, title: &str, priority: i32) -> Card {
    Card {
        id,
        title: title.to_string(),
        notes: String::new(),
        label: String::new(),
        status: Status::New,
        priority,
        outcome: String::new(),
        claimed_by: String::new(),
        claimed_at: String::new(),
        commits: String::new(),
        created_at: format!("2026-01-0{} 00:00:00", id),
        updated_at: String::new(),
        project_id: 1,
        project: "p".to_string(),
        legacy_id: None,
        entries: Vec::new(),
    }
}

fn project(id: i64, name: &str, active: bool) -> Project {
    Project {
        id,
        name: name.to_string(),
        path: format!("/r/{}", name),
        active,
        autoexport: String::new(),
        created_at: String::new(),
    }
}

fn projects() -> Vec<Project> {
    vec![project(1, "p", true), project(2, "q", false)]
}

fn cards() -> Vec<Card> {
    vec![
        Card { label: "art,ui".to_string(), ..card(1, "Hero pose", 5000) },
        Card { status: Status::Ready, ..card(2, "Fix race", 8000) },
        Card { status: Status::Done, outcome: "Fixed with mutex".to_string(), ..card(3, "Token", 9000) },
        Card { project_id: 2, project: "q".to_string(), ..card(4, "Parked", 9999) },
        Card { status: Status::InProgress, claimed_by: "ann".to_string(), ..card(5, "Held", 5000) },
    ]
}

fn strings(v: &[&str]) -> Vec<String> {
    v.iter().map(|s| s.to_string()).collect()
}

fn said<T>(r: Result<T, Refusal>) -> String {
    match r {
        Ok(_) => panic!("not refused"),
        Err(e) => e.message(),
    }
}

#[test]
fn the_scope_of_a_read() {
    assert_eq!(scope(Some(1), false, true), Scope::Project(1));
    assert_eq!(scope(Some(1), true, true), Scope::ActiveProjects);
    assert_eq!(scope(None, false, true), Scope::ActiveProjects);
    assert_eq!(scope(Some(1), true, false), Scope::Everything);
    assert_eq!(scope(None, false, false), Scope::Everything);
}

#[test]
fn a_parked_project_is_out_of_scope() {
    let (ps, cs) = (projects(), cards());
    assert!(!within_scope(&ps, Scope::ActiveProjects, &cs[3]));
    assert!(within_scope(&ps, Scope::ActiveProjects, &cs[0]));
    assert!(within_scope(&ps, Scope::Project(2), &cs[3]));
    assert!(within_scope(&ps, Scope::Everything, &cs[3]));
    let shown = list(&cs, &ps, Scope::ActiveProjects, None, None, 30);
    assert!(!shown.contains(&3));
}

#[test]
fn listing_ranks_open_cards() {
    let (ps, cs) = (projects(), cards());
    assert_eq!(list(&cs, &ps, Scope::Everything, None, None, 30), vec![3, 1, 0, 4]);
    assert_eq!(list(&cs, &ps, Scope::Everything, None, None, 2), vec![3, 1]);
    assert_eq!(list(&cs, &ps, Scope::Everything, None, None, 0), Vec::<usize>::new());
    assert_eq!(list(&cs, &ps, Scope::Everything, None, None, -1), vec![3, 1, 0, 4]);
    assert_eq!(list(&cs, &ps, Scope::Project(1), None, Some("done, ready"), 30), vec![2, 1]);
    assert_eq!(list(&cs, &ps, Scope::Project(1), None, Some(" , "), 30), vec![2, 1, 0, 4]);
    assert_eq!(list(&cs, &ps, Scope::Project(1), Some("ui"), None, 30), vec![0]);
    assert_eq!(list(&cs, &ps, Scope::Project(1), Some("u_"), None, 30), Vec::<usize>::new());
    assert_eq!(list(&cs, &ps, Scope::Project(1), Some(""), None, 30), vec![1, 4]);
    assert_eq!(names_of(" new,, done "), strings(&["new", "done"]));
}

#[test]
fn equal_priorities_go_by_age() {
    let cs = vec![card(3, "c", 5), card(1, "a", 5), card(2, "b", 7)];
    assert_eq!(ranked(&cs, &vec![true, true, true], -1), vec![2, 1, 0]);
    assert_eq!(ranked(&cs, &vec![true, false, true], -1), vec![2, 0]);
    assert_eq!(numbered(&cs, &vec![true, true, true]), vec![1, 2, 0]);
}

#[test]
fn the_board_shows_every_status() {
    let (ps, cs) = (projects(), cards());
    assert_eq!(on_board(&cs, &ps, Scope::Project(1)), vec![2, 1, 0, 4]);
    assert_eq!(on_board(&cs, &ps, Scope::Everything), vec![3, 2, 1, 0, 4]);
}

#[test]
fn the_next_card_is_actionable() {
    let (ps, cs) = (projects(), cards());
    let links: Vec<Link> = Vec::new();
    assert_eq!(next(&cs, &links, &ps, Scope::ActiveProjects, None, false, false), Some(1));
    assert_eq!(next(&cs, &links, &ps, Scope::Everything, None, false, false), Some(3));
    assert_eq!(next(&cs, &links, &ps, Scope::ActiveProjects, Some("art"), false, false), Some(0));
    assert_eq!(next(&cs, &links, &ps, Scope::ActiveProjects, Some("art"), true, false), None);
    let waits = vec![Link {
        from: 1,
        kind: LinkKind::Blocks,
        to: 2,
        actor: String::new(),
        created_at: String::new(),
    }];
    assert_eq!(next(&cs, &waits, &ps, Scope::ActiveProjects, None, false, false), Some(0));
}

#[test]
fn a_held_card_is_offered_only_for_reading() {
    let ps = projects();
    let cs = vec![Card { status: Status::Ready, claimed_by: "ann".to_string(), ..card(1, "x", 5) }];
    assert_eq!(next(&cs, &Vec::new(), &ps, Scope::Everything, None, false, false), Some(0));
    assert_eq!(next(&cs, &Vec::new(), &ps, Scope::Everything, None, false, true), None);
}

#[test]
fn a_search_wants_every_word_somewhere() {
    let ps = projects();
    let mut cs = cards();
    cs[0].notes = "palette: NES".to_string();
    cs[1].entries = vec![Note {
        id: 1,
        kind: "note".to_string(),
        author: String::new(),
        body: "in the TOKEN refresh".to_string(),
        commit_sha: String::new(),
        commit_subject: String::new(),
        created_at: String::new(),
    }];
    let go = |q: &[&str], open: bool| search(&cs, &ps, Scope::Everything, &strings(q), None, open, 30);
    assert_eq!(go(&["HERO", "palette"], false), vec![0]);
    assert_eq!(go(&["hero", "token"], false), Vec::<usize>::new());
    assert_eq!(go(&["token"], false), vec![2, 1]);
    assert_eq!(go(&["token"], true), vec![1]);
    assert_eq!(go(&["mutex"], false), vec![2]);
    assert_eq!(go(&["ui"], false), vec![0]);
    assert_eq!(search(&cs, &ps, Scope::Everything, &strings(&["e"]), Some("ui"), false, 30), vec![0]);
    assert_eq!(search(&cs, &ps, Scope::Everything, &strings(&["e"]), None, false, 1).len(), 1);
}

#[test]
fn search_words_are_lowered_first() {
    let ps = projects();
    let cs = vec![card(1, "ÄRGER mit Öl", 5), card(2, "ärger", 5)];
    assert_eq!(lowered_all(&strings(&["ÄRGER", "Straße", "İ"])), strings(&["ärger", "straße", "i\u{307}"]));
    assert_eq!(search(&cs, &ps, Scope::Everything, &strings(&["ÄRGER"]), None, false, 30), vec![0, 1]);
    assert_eq!(search(&cs, &ps, Scope::Everything, &strings(&["ärger", "ÖL"]), None, false, 30), vec![0]);
    let lows: Vec<Vec<String>> = cs.iter().map(|c| lowered_all(&texts_on(c))).collect();
    assert_eq!(lows[0][0], "ärger mit öl");
    assert_eq!(search_lowered(&cs, &ps, Scope::Everything, &lows, &strings(&["mit"]), None, false, 30), vec![0]);
    assert_eq!(
        search_lowered(&cs, &ps, Scope::Everything, &lows, &strings(&["MIT"]), None, false, 30),
        Vec::<usize>::new()
    );
}

#[test]
fn a_search_word_is_no_pattern() {
    let ps = projects();
    let cs = vec![card(1, "axb", 5), card(2, "a_b", 5), card(3, "100%", 5), card(4, "Fix A_B", 5)];
    let go = |w: &str| search(&cs, &ps, Scope::Everything, &strings(&[w]), None, false, 30);
    assert_eq!(go("a_b"), vec![1, 3]);
    assert_eq!(go("%"), vec![2]);
    assert_eq!(go(""), vec![0, 1, 2, 3]);
}

#[test]
fn a_search_reads_every_text_of_a_card() {
    let c = Card {
        notes: "n".to_string(),
        label: "l".to_string(),
        outcome: "o".to_string(),
        entries: vec![Note {
            id: 1,
            kind: "note".to_string(),
            author: String::new(),
            body: "b".to_string(),
            commit_sha: String::new(),
            commit_subject: String::new(),
            created_at: String::new(),
        }],
        ..card(1, "t", 5)
    };
    assert_eq!(texts_on(&c), strings(&["t", "n", "o", "l", "b"]));
}

#[test]
fn matching_lines_are_the_ones_that_say_it() {
    let c = Card {
        notes: "first\n  the HERO line  \n\nhero again".to_string(),
        outcome: "no".to_string(),
        ..card(1, "x", 5)
    };
    assert_eq!(matching_lines(&c, &strings(&["Hero"])), strings(&["the HERO line", "hero again"]));
    let many = Card { notes: "a\na\na\na\na".to_string(), outcome: "a".to_string(), ..card(1, "x", 5) };
    assert_eq!(matching_lines(&many, &strings(&["A"])).len(), 4);
    let long = Card { notes: "y".repeat(141), ..card(1, "x", 5) };
    assert_eq!(matching_lines(&long, &strings(&["y"])), vec![format!("{}...", "y".repeat(137))]);
    let fits = Card { notes: "y".repeat(140), ..card(1, "x", 5) };
    assert_eq!(matching_lines(&fits, &strings(&["y"])), vec!["y".repeat(140)]);
}

#[test]
fn lines_are_kept_by_their_lowered_form() {
    let ls = strings(&["One", "Two", "Three"]);
    let lows = strings(&["one", "two", "three"]);
    assert_eq!(lines_with(&ls, &lows, &strings(&["t"])), strings(&["Two", "Three"]));
    assert_eq!(lines_with(&ls, &lows, &Vec::new()), Vec::<String>::new());
}

#[test]
fn conditions_select_by_field() {
    let (ps, cs) = (projects(), cards());
    let pick = |w: &[&str]| select_where(&cs, &ps, Scope::Everything, &strings(w)).expect("understood");
    assert_eq!(pick(&["label=art"]), vec![0]);
    assert_eq!(pick(&["label=a_t"]), Vec::<usize>::new());
    assert_eq!(pick(&["label=ART"]), Vec::<usize>::new());
    assert_eq!(pick(&["label=", "status=new"]), vec![3]);
    assert_eq!(pick(&["label=art,ui"]), vec![0]);
    assert_eq!(pick(&["tag!=art", "status=new"]), vec![3]);
    assert_eq!(pick(&["priority<8000"]), vec![0, 4]);
    assert_eq!(pick(&["priority>=8000", "id<=3"]), vec![1, 2]);
    assert_eq!(pick(&["id != 1", "priority > 8999"]), vec![2, 3]);
    assert_eq!(pick(&["claimed_by=ann"]), vec![4]);
    assert_eq!(pick(&["claimed_by!="]), vec![4]);
    assert_eq!(pick(&["project=q"]), vec![3]);
    assert_eq!(pick(&["project!=#2", "title=Token"]), vec![2]);
    assert_eq!(pick(&["outcome=Fixed with mutex"]), vec![2]);
    assert_eq!(pick(&["status=nowhere"]), Vec::<usize>::new());
    assert_eq!(
        select_where(&cs, &ps, Scope::Project(2), &strings(&["priority>0"])).ok(),
        Some(vec![3])
    );
}

#[test]
fn conditions_that_are_refused() {
    let ps = projects();
    assert_eq!(said(parse_where(&ps, "label")), "--where wants FIELD=VALUE, got 'label'");
    assert_eq!(said(parse_where(&ps, "priority=high")), "priority 'high' is not a number");
    assert_eq!(said(parse_where(&ps, "project=zz")), "no project named 'zz'");
    assert_eq!(
        said(parse_where(&ps, "color=red")),
        "--where does not understand 'color=red' (label, status, claimed_by, title, outcome, project with = or !=; priority, id with = != < > <= >=)"
    );
    assert!(said(parse_where(&ps, "label<art")).starts_with("--where does not understand 'label<art'"));
}

#[test]
fn a_condition_is_cut_at_its_first_sign() {
    let ps = projects();
    let titled = |eq: bool, v: &str| Some(Condition::Text(TextField::Title, eq, v.to_string()));
    assert_eq!(parse_where(&ps, "title=a<=b").ok(), titled(true, "a<=b"));
    assert_eq!(parse_where(&ps, "title != a>=b = c").ok(), titled(false, "a>=b = c"));
    assert_eq!(parse_where(&ps, "title==x").ok(), titled(true, "=x"));
    assert_eq!(parse_where(&ps, "title=!=").ok(), titled(true, "!="));
    assert_eq!(
        parse_where(&ps, "priority<=7").ok(),
        Some(Condition::Number(NumberField::Priority, Relation::AtMost, 7))
    );
    assert_eq!(parse_where(&ps, "id>7").ok(), Some(Condition::Number(NumberField::Id, Relation::Above, 7)));
    assert_eq!(said(parse_where(&ps, "priority=<7")), "priority '<7' is not a number");
    assert_eq!(said(parse_where(&ps, "a!b")), "--where wants FIELD=VALUE, got 'a!b'");
}

#[test]
fn one_condition_on_one_card() {
    let (ps, cs) = (projects(), cards());
    let c = parse_where(&ps, "label = art").expect("understood");
    assert!(satisfies(&c, &cs[0]));
    assert!(!satisfies(&c, &cs[1]));
}

#[test]
fn ids_are_read_from_a_list() {
    let cs = cards();
    assert_eq!(parse_ids(&cs, "1, #3,,2 ").ok(), Some(vec![1, 3, 2]));
    assert_eq!(said(parse_ids(&cs, "1,x")), "'x' is not a card id");
    assert_eq!(said(parse_ids(&cs, "1,77")), "card #77 not found");
    assert_eq!(parse_ids(&cs, " , ").ok(), Some(Vec::new()));
    assert_eq!(find_card(&cs, 3), Some(2));
    assert_eq!(find_card(&cs, 30), None);
}
