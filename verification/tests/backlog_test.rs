use bl::backlog::Backlog;
use bl::card::{check_outcome, check_priority, check_title, Card};
use bl::edit::{apply_edit, names_changed, parse_set, EditFields};
use bl::events::{list, render_line, Event};
use bl::filing::{Draft, DraftNote, Filed};
use bl::lifecycle::{is_stale, obituary_of};
use bl::links::{is_held_back, label, of, would_cycle, LinkKind, Role};
use bl::project::Project;
use bl::refusal::Refusal;
use bl::registry::{card_count, open_card_count, splits_labels};
use bl::select::Scope;
use bl::status::Status;

const T0: &str = "2026-01-01 00:00:00";
const T1: &str = "2026-01-01 01:00:00";
const T2: &str = "2026-01-01 02:00:00";

fn draft(title: &str) -> Draft {
    Draft {
        title: title.to_string(),
        label: String::new(),
        priority: 5000,
        notes: String::new(),
        typed: Vec::new(),
        project_id: 1,
        project: "p".to_string(),
    }
}

fn store() -> Backlog {
    let mut b = Backlog::new();
    assert_eq!(b.add_project("/r/p", true, None, T0).ok(), Some(1));
    for t in ["one", "two", "three"] {
        b.create(&draft(t), false, false, "", T0).expect("filed");
    }
    b.events = Vec::new();
    b
}

fn kinds(b: &Backlog) -> Vec<(String, String, String, String)> {
    b.events
        .iter()
        .map(|e| (e.kind.clone(), e.before.clone(), e.after.clone(), e.by.clone()))
        .collect()
}

fn ev(kind: &str, before: &str, after: &str, by: &str) -> (String, String, String, String) {
    (kind.to_string(), before.to_string(), after.to_string(), by.to_string())
}

fn said<T>(r: Result<T, Refusal>) -> String {
    match r {
        Ok(_) => panic!("not refused"),
        Err(e) => e.message(),
    }
}

// ------------------------------------------------------------- claims

#[test]
fn a_claim_takes_the_card_and_is_logged() {
    let mut b = store();
    b.claim(1, "ann", T1).expect("free");
    let c = &b.cards[0];
    assert_eq!(c.status, Status::InProgress);
    assert_eq!(c.claimed_by, "ann");
    assert_eq!(c.claimed_at, T1);
    assert_eq!(c.updated_at, T1);
    assert_eq!(kinds(&b), vec![ev("status", "new", "in_progress", "ann"), ev("claim", "", "ann", "ann")]);
}

#[test]
fn a_claimed_card_is_contended() {
    let mut b = store();
    b.claim(1, "ann", T1).expect("free");
    let r = b.claim(1, "bob", T2);
    match r {
        Err(e) => {
            assert_eq!(e.message(), "card #1 already claimed by 'ann'");
            assert_eq!(e.exit_code(), 3);
        }
        Ok(()) => panic!("claimed twice"),
    }
    assert_eq!(b.cards[0].claimed_by, "ann");
}

#[test]
fn an_unclaimed_card_in_progress_is_contended_by_nobody_known() {
    let mut b = store();
    b.set_status(1, Status::InProgress, "", "", false, T1).expect("moved");
    assert_eq!(said(b.claim(1, "bob", T2)), "card #1 already claimed by '?'");
}

#[test]
fn what_cannot_be_claimed() {
    let mut b = store();
    b.set_status(2, Status::Done, "ok", "", false, T1).expect("moved");
    assert_eq!(said(b.claim(2, "ann", T2)), "card #2 is status 'done' (must be new or ready to claim)");
    assert_eq!(said(b.claim(9, "ann", T2)), "card #9 not found");
    assert_eq!(said(b.claim(1, "  ", T2)), "--by must be a non-empty agent identity");
}

#[test]
fn a_release_undoes_a_claim() {
    let mut b = store();
    b.set_status(1, Status::Ready, "", "", false, T0).expect("moved");
    let before = b.cards[0].clone();
    b.claim(1, "ann", T1).expect("free");
    b.events = Vec::new();
    b.release(1, Some("ann"), T2).expect("held");
    assert_eq!(kinds(&b), vec![ev("status", "in_progress", "ready", "ann"), ev("release", "ann", "", "ann")]);
    let after = Card { updated_at: before.updated_at.clone(), ..b.cards[0].clone() };
    assert_eq!(after, before);
}

#[test]
fn what_is_not_released() {
    let mut b = store();
    assert_eq!(said(b.release(1, None, T1)), "card #1 is not in_progress (status=new)");
    b.claim(1, "ann", T1).expect("free");
    assert_eq!(
        said(b.release(1, Some("bob"), T2)),
        "card #1 not released (status=in_progress, claimed_by='ann', required by='bob')"
    );
    assert_eq!(said(b.release(8, None, T1)), "card #8 not found");
    b.release(1, None, T2).expect("anyone may");
    assert_eq!(b.cards[0].status, Status::Ready);
}

#[test]
fn a_heartbeat_keeps_the_claim_and_defers_reaping() {
    let mut b = store();
    b.claim(1, "ann", T0).expect("free");
    assert!(is_stale(&b.cards[0], T1));
    b.heartbeat(1, "ann", T2).expect("held");
    assert!(!is_stale(&b.cards[0], T1));
    let r = b.heartbeat(1, "bob", T2);
    match r {
        Err(e) => {
            assert_eq!(e.message(), "#1 is not claimed by bob any more");
            assert_eq!(e.exit_code(), 3);
        }
        Ok(()) => panic!("not bob's"),
    }
    assert_eq!(b.heartbeat(7, "ann", T2).err().map(|e| e.exit_code()), Some(3));
}

#[test]
fn reaping_frees_idle_claims_and_says_why() {
    let mut b = store();
    b.claim(1, "ann", T0).expect("free");
    b.claim(2, "bob", T2).expect("free");
    b.events = Vec::new();
    assert_eq!(b.stale_cards(Scope::Everything, T1), vec![0]);
    assert_eq!(b.reap(Scope::Everything, T1, T2), 1);
    let c = &b.cards[0];
    assert_eq!((c.status, c.claimed_by.as_str(), c.claimed_at.as_str()), (Status::Ready, "", ""));
    assert_eq!(c.notes, "[reaped] claim by ann released: idle since 2026-01-01 00:00:00 UTC");
    assert_eq!(c.entries.len(), 1);
    assert_eq!(c.entries[0].kind, "reaped");
    assert_eq!(kinds(&b), vec![ev("status", "in_progress", "ready", "reap"), ev("reap", "ann", "", "reap")]);
    assert_eq!(b.reap(Scope::Everything, T1, T2), 0);
    assert_eq!((b.cards[1].status, b.cards[1].claimed_by.as_str()), (Status::InProgress, "bob"));
}

#[test]
fn reaping_keeps_to_the_scope() {
    let mut b = store();
    b.claim(1, "ann", T0).expect("free");
    assert_eq!(b.reap(Scope::Project(2), T1, T2), 0);
    assert_eq!(b.reap(Scope::ActiveProjects, T1, T2), 1);
}

// ------------------------------------------------------------- status and priority

#[test]
fn leaving_in_progress_clears_the_claim() {
    let mut b = store();
    b.claim(1, "ann", T1).expect("free");
    b.events = Vec::new();
    b.set_status(1, Status::Done, "fixed", "ann", false, T2).expect("moved");
    let c = &b.cards[0];
    assert_eq!((c.claimed_by.as_str(), c.claimed_at.as_str(), c.outcome.as_str()), ("", "", "fixed"));
    assert_eq!(
        kinds(&b),
        vec![
            ev("status", "in_progress", "done", "ann"),
            ev("release", "ann", "", "ann"),
            ev("outcome", "", "fixed", "ann"),
        ]
    );
}

#[test]
fn an_empty_outcome_leaves_the_old_one() {
    let mut b = store();
    b.set_status(1, Status::Done, "first", "", false, T1).expect("moved");
    b.events = Vec::new();
    b.set_status(1, Status::Done, "", "", false, T2).expect("moved");
    assert_eq!(b.cards[0].outcome, "first");
    assert_eq!(kinds(&b), Vec::new());
}

#[test]
fn long_outcomes_are_refused_unless_forced() {
    let mut b = store();
    let long = "x".repeat(301);
    assert_eq!(
        said(b.set_status(1, Status::Done, &long, "", false, T1)),
        "outcome is 301 characters (limit 300): say the result in a line and put the detail in a note \
         (`bl note <id> \"...\" -k finding`), or pass --force"
    );
    assert_eq!(b.cards[0].status, Status::New);
    b.set_status(1, Status::Done, &long, "", true, T1).expect("forced");
    assert!(check_outcome(&"é".repeat(300), false).is_ok());
}

#[test]
fn priorities_are_logged_when_they_change() {
    let mut b = store();
    b.set_priority(1, 100, "ann", T1).expect("in range");
    b.set_priority(1, 100, "ann", T2).expect("in range");
    assert_eq!(kinds(&b), vec![ev("priority", "5000", "100", "ann")]);
    assert_eq!(b.cards[0].updated_at, T2);
    assert_eq!(said(b.set_priority(1, 10001, "", T2)), "priority must be 0..=10000");
    assert_eq!(said(b.set_priority(1, -1, "", T2)), "priority must be 0..=10000");
    assert_eq!(said(b.set_priority(5, 1, "", T2)), "card #5 not found");
    assert!(check_priority(0).is_ok() && check_priority(10000).is_ok());
}

#[test]
fn decay_lowers_open_cards_but_not_below_zero() {
    let mut b = store();
    b.set_priority(1, 10, "", T0).expect("in range");
    b.set_status(3, Status::Done, "", "", false, T0).expect("moved");
    b.events = Vec::new();
    assert_eq!(b.decay(Scope::Everything, 25, T1).ok(), Some(2));
    let left: Vec<i32> = b.cards.iter().map(|c| c.priority).collect();
    assert_eq!(left, vec![0, 4975, 5000]);
    assert_eq!(b.cards[2].updated_at, T0);
    assert_eq!(kinds(&b), vec![ev("priority", "10", "0", ""), ev("priority", "5000", "4975", "")]);
    b.events = Vec::new();
    assert_eq!(b.decay(Scope::Everything, 0, T1).ok(), Some(2));
    assert!(b.events.is_empty());
    assert_eq!(said(b.decay(Scope::Everything, -1, T1)), "amount must be >= 0");
}

#[test]
fn decaying_twice_is_decaying_by_the_sum() {
    let mut a = store();
    let mut b = store();
    a.decay(Scope::Everything, 100, T1).expect("not negative");
    a.decay(Scope::Everything, 250, T1).expect("not negative");
    b.decay(Scope::Everything, 350, T1).expect("not negative");
    assert_eq!(a.cards, b.cards);
}

// ------------------------------------------------------------- the next card

#[test]
fn next_claim_takes_the_highest_ranked_free_card() {
    let mut b = store();
    b.set_priority(2, 9000, "", T0).expect("in range");
    assert_eq!(b.next_claim(Scope::Everything, None, false, Some("ann"), T1).ok(), Some(Some(2)));
    assert_eq!(b.next_claim(Scope::Everything, None, false, Some("bob"), T1).ok(), Some(Some(1)));
    assert_eq!(b.cards[1].claimed_by, "ann");
    assert_eq!(b.next_claim(Scope::Everything, None, true, Some("eve"), T1).ok(), Some(None));
    assert_eq!(b.next_claim(Scope::Everything, Some("art"), false, Some("eve"), T1).ok(), Some(None));
    assert_eq!(
        said(b.next_claim(Scope::Everything, None, false, None, T1)),
        "--claim requires --by <agent-id>"
    );
    assert_eq!(
        said(b.next_claim(Scope::Everything, None, false, Some(" "), T1)),
        "--claim requires --by <agent-id>"
    );
}

#[test]
fn a_card_with_an_open_blocker_is_skipped() {
    let mut b = store();
    b.set_priority(1, 9000, "", T0).expect("in range");
    assert_eq!(b.link(2, "blocks", 1, "ann", T0).ok(), Some(true));
    assert!(is_held_back(&b.cards, &b.links, 1));
    assert_eq!(b.next_claim(Scope::Everything, None, false, Some("ann"), T1).ok(), Some(Some(2)));
    b.set_status(2, Status::Done, "", "", false, T2).expect("moved");
    assert!(!is_held_back(&b.cards, &b.links, 1));
    assert_eq!(b.next_claim(Scope::Everything, None, false, Some("ann"), T2).ok(), Some(Some(1)));
}

// ------------------------------------------------------------- links

#[test]
fn links_are_stored_once_and_logged() {
    let mut b = store();
    assert_eq!(b.link(3, "related", 1, "ann", T1).ok(), Some(true));
    assert_eq!((b.links[0].from, b.links[0].to, b.links[0].kind), (1, 3, LinkKind::Related));
    assert_eq!(b.link(1, "related", 3, "ann", T1).ok(), Some(false));
    assert_eq!(b.links.len(), 1);
    assert_eq!(b.events.len(), 1);
    assert_eq!(b.events[0].kind, "link");
}

#[test]
fn unlinking_undoes_linking() {
    let mut b = store();
    b.link(1, "child_of", 2, "", T1).expect("fine");
    assert_eq!(b.unlink(1, "child_of", 2, "", T2).ok(), Some(true));
    assert!(b.links.is_empty());
    assert_eq!(b.unlink(1, "child_of", 2, "", T2).ok(), Some(false));
}

#[test]
fn links_that_are_refused() {
    let mut b = store();
    assert_eq!(said(b.link(1, "hates", 2, "", T1)), "unknown link kind 'hates' (blocks, child_of, related)");
    assert_eq!(said(b.link(1, "blocks", 1, "", T1)), "a card cannot be linked to itself");
    assert_eq!(said(b.link(1, "blocks", 9, "", T1)), "card #9 not found");
    b.link(1, "blocks", 2, "", T1).expect("fine");
    b.link(2, "blocks", 3, "", T1).expect("fine");
    assert!(would_cycle(&b.links, 3, 1));
    assert_eq!(
        said(b.link(3, "blocks", 1, "", T1)),
        "#3 already waits on #1 (directly or through other cards); that would be a cycle"
    );
    assert_eq!(b.links.len(), 2);
    assert_eq!(said(b.unlink(1, "hates", 2, "", T1)), "unknown link kind 'hates' (blocks, child_of, related)");
}

#[test]
fn relations_of_one_role_are_told_by_id() {
    let mut b = store();
    for other in [3, 2] {
        b.link(other, "blocks", 1, "", T1).expect("fine");
    }
    let ids: Vec<i64> = of(&b.cards, &b.links, 1).iter().map(|r| r.id).collect();
    assert_eq!(ids, vec![2, 3]);
}

#[test]
fn relations_are_told_from_both_ends() {
    let mut b = store();
    b.link(1, "blocks", 2, "", T1).expect("fine");
    b.link(2, "child_of", 3, "", T1).expect("fine");
    let two: Vec<(Role, i64)> = of(&b.cards, &b.links, 2).iter().map(|r| (r.rel, r.id)).collect();
    assert!(two.contains(&(Role::BlockedBy, 1)));
    assert!(two.contains(&(Role::ChildOf, 3)));
    assert_eq!(two.len(), 2);
    let one: Vec<(Role, i64)> = of(&b.cards, &b.links, 1).iter().map(|r| (r.rel, r.id)).collect();
    assert_eq!(one, vec![(Role::Blocks, 2)]);
    let three: Vec<(Role, i64)> = of(&b.cards, &b.links, 3).iter().map(|r| (r.rel, r.id)).collect();
    assert_eq!(three, vec![(Role::ParentOf, 2)]);
    assert_eq!(label(Role::BlockedBy), "blocked by");
}

// ------------------------------------------------------------- filing

#[test]
fn filing_gives_fresh_ids_and_normal_labels() {
    let mut b = store();
    let d = Draft {
        label: "art enemies art".to_string(),
        notes: "first\n\n[finding] second".to_string(),
        priority: 8200,
        ..draft("  Hero pose  ")
    };
    assert_eq!(b.create(&d, false, false, "ann", T1).ok(), Some(Filed::Created(4)));
    let c = &b.cards[3];
    assert_eq!(c.title, "Hero pose");
    assert_eq!(c.label, "art,enemies");
    assert_eq!(c.status, Status::New);
    assert_eq!(c.entries.len(), 2);
    assert_eq!((c.entries[1].kind.as_str(), c.entries[1].body.as_str()), ("finding", "second"));
    assert_eq!(kinds(&b), vec![ev("created", "", "Hero pose", "ann")]);
}

#[test]
fn an_existing_title_is_reported_not_filed() {
    let mut b = store();
    assert_eq!(b.create(&draft(" two "), true, false, "", T1).ok(), Some(Filed::Existing(2)));
    assert_eq!(b.cards.len(), 3);
    assert_eq!(b.create(&draft("two"), false, false, "", T1).ok(), Some(Filed::Created(4)));
    assert_eq!(b.create(&draft("two"), true, false, "", T1).ok(), Some(Filed::Existing(2)));
    let elsewhere = Draft { project_id: 2, ..draft("two") };
    assert_eq!(b.create(&elsewhere, true, false, "", T1).ok(), Some(Filed::Created(5)));
}

#[test]
fn titles_that_are_refused() {
    let mut b = store();
    assert_eq!(said(b.create(&draft("  "), false, false, "", T1)), "a title cannot be empty");
    let long = format!(" {} ", "x".repeat(121));
    assert_eq!(
        said(b.create(&draft(&long), false, false, "", T1)),
        "title is 121 characters (limit 120): keep the title to one line and put the detail in a note \
         (`bl note <id> \"...\"`), or pass --force"
    );
    assert!(b.create(&draft(&long), false, true, "", T1).is_ok());
    assert!(check_title(&"é".repeat(120), false).is_ok());
    let d = Draft { priority: 10001, ..draft("x") };
    assert_eq!(said(b.create(&d, false, false, "", T1)), "priority must be 0..=10000");
}

#[test]
fn a_batch_is_filed_whole_or_not_at_all() {
    let mut b = store();
    let typed = Draft {
        typed: vec![DraftNote { kind: "finding".to_string(), body: "needs 3 frames".to_string() }],
        ..draft("Hero hurt pose")
    };
    let good = vec![draft("a"), typed, draft("a")];
    assert_eq!(
        b.file_all(&good, true, "ann", T1).ok(),
        Some(vec![Filed::Created(4), Filed::Created(5), Filed::Existing(4)])
    );
    assert_eq!(b.cards[4].notes, "[finding] needs 3 frames");
    assert_eq!(b.cards[4].entries[0].author, "ann");
    let before = b.cards.len();
    assert_eq!(said(b.file_all(&vec![draft("ok"), draft("")], false, "", T1)), "a title cannot be empty");
    assert_eq!(b.cards.len(), before);
}

#[test]
fn ids_are_not_given_out_again() {
    let mut b = store();
    b.delete(3, "", false, "", T1).expect("free");
    assert_eq!(b.create(&draft("four"), false, false, "", T1).ok(), Some(Filed::Created(4)));
}

#[test]
fn a_full_store_files_nothing_more() {
    let mut b = store();
    b.last_id = i64::MAX;
    assert_eq!(said(b.create(&draft("x"), false, false, "", T1)), "the store has no card ids left");
}

// ------------------------------------------------------------- deleting

#[test]
fn a_deletion_keeps_what_the_card_said() {
    let mut b = store();
    b.note(1, "finding", "ann", "it races", None, false, T1).expect("there");
    b.set_status(1, Status::Done, "fixed", "", false, T1).expect("moved");
    b.link(1, "blocks", 2, "", T1).expect("fine");
    b.events = Vec::new();
    let gone = b.delete(1, "filed in error", false, "bob", T2).expect("free");
    assert_eq!(gone.title, "one");
    assert_eq!(b.cards.len(), 2);
    assert!(b.links.is_empty());
    assert_eq!(
        kinds(&b),
        vec![ev(
            "deleted",
            "title: one\nstatus: done\npriority: 5000\noutcome: fixed\nnote 2026-01-01 01:00:00 [finding] ann: it races",
            "filed in error",
            "bob"
        )]
    );
    assert_eq!(list(&b.events, 1).len(), 1);
}

#[test]
fn a_claimed_card_is_deleted_only_by_force() {
    let mut b = store();
    b.claim(1, "ann", T1).expect("free");
    assert_eq!(
        said(b.delete(1, "", false, "", T2)),
        "card #1 is claimed by 'ann'; `bl release 1` first, or --force"
    );
    assert!(b.delete(1, "", true, "", T2).is_ok());
    assert_eq!(said(b.delete(1, "", true, "", T2)), "card #1 not found");
}

#[test]
fn an_obituary_tells_only_what_is_there() {
    let b = store();
    assert_eq!(obituary_of(&b.cards[0]), "title: one\nstatus: new\npriority: 5000");
}

// ------------------------------------------------------------- notes

#[test]
fn notes_are_rows_with_a_mirror() {
    let mut b = store();
    assert_eq!(b.note(1, "note", "ann", "plain  ", None, false, T1).ok(), Some(true));
    let commit = Some(("a1b2c3d".to_string(), "Fix race".to_string()));
    assert_eq!(b.note(1, "finding", "ann", "it races", commit, false, T2).ok(), Some(true));
    assert_eq!(b.cards[0].notes, "plain\n[finding] it races [a1b2c3d]");
    assert_eq!(b.cards[0].commits, "a1b2c3d\tFix race");
    assert_eq!(b.cards[0].updated_at, T2);
    assert_eq!(said(b.note(1, "note", "", " \n", None, false, T2)), "the note is empty");
    assert_eq!(said(b.note(9, "note", "", "x", None, false, T2)), "card #9 not found");
}

#[test]
fn a_unique_note_is_added_once() {
    let mut b = store();
    assert_eq!(b.note(1, "note", "", "retrying", None, true, T1).ok(), Some(true));
    assert_eq!(b.note(1, "note", "", "retrying", None, true, T1).ok(), Some(false));
    assert_eq!(b.note(1, "attempt", "", "retrying", None, true, T1).ok(), Some(true));
    assert_eq!(b.note(1, "note", "", "retrying", None, false, T1).ok(), Some(true));
    assert_eq!(b.cards[0].entries.len(), 3);
}

#[test]
fn a_note_is_reworded_by_its_id() {
    let mut b = store();
    b.note(1, "note", "", "first", None, false, T1).expect("there");
    b.note(1, "note", "", "second", None, false, T1).expect("there");
    b.cards[0].entries[0].id = 87;
    b.cards[0].entries[1].id = 88;
    b.events = Vec::new();
    let (id, was) = b.note_edit(88, Some("corrected"), Some("decision"), "ann", T2).expect("there");
    assert_eq!((id, was.body.as_str(), was.kind.as_str()), (1, "second", "note"));
    assert_eq!(b.cards[0].notes, "first\n[decision] corrected");
    assert_eq!(
        kinds(&b),
        vec![ev("note_edit", "second", "corrected", "ann"), ev("note_kind", "note", "decision", "ann")]
    );
    assert_eq!(said(b.note_edit(88, None, None, "", T2)), "nothing to change: give new text and/or --kind");
    assert_eq!(said(b.note_edit(99, Some("x"), None, "", T2)), "note 99 not found");
}

#[test]
fn a_note_is_removed_by_its_id() {
    let mut b = store();
    b.note(1, "finding", "", "first", None, false, T1).expect("there");
    b.note(1, "note", "", "second", None, false, T1).expect("there");
    b.cards[0].entries[0].id = 87;
    b.cards[0].entries[1].id = 88;
    b.events = Vec::new();
    let (id, was) = b.note_remove(87, "ann", T2).expect("there");
    assert_eq!((id, was.render().as_str()), (1, "[finding] first"));
    assert_eq!(b.cards[0].notes, "second");
    assert_eq!(kinds(&b), vec![ev("note_rm", "[finding] first", "", "ann")]);
    assert_eq!(said(b.note_remove(87, "", T2)), "note 87 not found");
}

// ------------------------------------------------------------- edits

#[test]
fn an_edit_logs_what_changed_and_nothing_else() {
    let mut b = store();
    b.claim(1, "ann", T1).expect("free");
    b.events = Vec::new();
    let f = EditFields {
        title: Some(" new title ".to_string()),
        priority: Some(5000),
        status: Some(Status::Ready),
        add_tags: vec!["x y".to_string()],
        by: "bob".to_string(),
        ..EditFields::default()
    };
    let (names, moved) = b.edit(1, &f, T2).expect("fine");
    assert_eq!(names, vec!["title", "label", "status"]);
    assert!(!moved);
    let c = &b.cards[0];
    assert_eq!((c.title.as_str(), c.label.as_str(), c.status), ("new title", "x,y", Status::Ready));
    assert_eq!(c.claimed_by, "");
    assert_eq!(
        kinds(&b),
        vec![
            ev("title", "one", "new title", "bob"),
            ev("label", "", "x,y", "bob"),
            ev("status", "in_progress", "ready", "bob"),
            ev("release", "ann", "", "bob"),
        ]
    );
    b.events = Vec::new();
    let (names, moved) = b.edit(1, &f, T2).expect("fine");
    assert_eq!((names, moved), (Vec::new(), false));
    assert_eq!(kinds(&b), Vec::new());
}

#[test]
fn fields_that_are_not_named_stay() {
    let mut b = store();
    b.note(1, "finding", "", "kept", None, false, T1).expect("there");
    b.claim(1, "ann", T1).expect("free");
    let before = b.cards[0].clone();
    let f = EditFields { title: Some("renamed".to_string()), ..EditFields::default() };
    b.edit(1, &f, T2).expect("fine");
    let wanted = Card { title: "renamed".to_string(), updated_at: T2.to_string(), ..before };
    assert_eq!(b.cards[0], wanted);
}

#[test]
fn an_edit_can_drop_tags() {
    let mut b = store();
    b.cards[0].label = "art,enemies".to_string();
    let f = EditFields {
        add_tags: vec!["ui".to_string()],
        rm_tags: vec!["art".to_string()],
        ..EditFields::default()
    };
    b.edit(1, &f, T2).expect("fine");
    assert_eq!(b.cards[0].label, "enemies,ui");
    let g = EditFields { label: Some("x y".to_string()), rm_tags: vec!["y".to_string()], ..EditFields::default() };
    b.edit(1, &g, T2).expect("fine");
    assert_eq!(b.cards[0].label, "x");
}

#[test]
fn replacing_the_notes_replaces_the_rows() {
    let mut b = store();
    b.note(1, "note", "", "old", None, false, T1).expect("there");
    b.events = Vec::new();
    let f = EditFields { notes: Some("a\n[finding] b".to_string()), ..EditFields::default() };
    b.edit(1, &f, T2).expect("fine");
    assert_eq!(b.cards[0].entries.len(), 2);
    assert_eq!(b.cards[0].entries[1].kind, "finding");
    assert_eq!(b.cards[0].notes, "a\n[finding] b");
    assert_eq!(kinds(&b), vec![ev("notes", "old", "a\n[finding] b", "")]);
}

#[test]
fn a_card_moves_to_another_project() {
    let mut b = store();
    b.add_project("/r/q", true, None, T0).expect("free");
    let f = EditFields { move_to: Some("#2".to_string()), ..EditFields::default() };
    let (names, moved) = b.edit(1, &f, T2).expect("fine");
    assert_eq!(names, vec!["project → q"]);
    assert!(moved);
    assert_eq!((b.cards[0].project_id, b.cards[0].project.as_str()), (2, "q"));
    assert_eq!(kinds(&b), vec![ev("move", "p", "q", "")]);
    let (names, moved) = b.edit(1, &f, T2).expect("fine");
    assert_eq!((names, moved), (Vec::new(), false));
}

#[test]
fn every_field_that_changed_is_named() {
    let mut b = store();
    b.add_project("/r/q", true, None, T0).expect("free");
    let f = EditFields {
        title: Some("t".to_string()),
        label: Some("l".to_string()),
        priority: Some(1),
        outcome: Some("o".to_string()),
        status: Some(Status::Done),
        move_to: Some("q".to_string()),
        notes: Some("n".to_string()),
        ..EditFields::default()
    };
    let before = b.cards[0].clone();
    let (names, moved) = b.edit(1, &f, T2).expect("fine");
    assert_eq!(names, vec!["title", "label", "priority", "outcome", "status", "project → q", "notes"]);
    assert!(moved);
    assert_eq!(names_changed(&before, &b.cards[0]), names);
    let mut c = before.clone();
    let mut log = Vec::new();
    let (named, gone) = apply_edit(&b.projects, &mut c, &f, &mut log, T2).expect("fine");
    assert_eq!((named, gone), (names, true));
}

#[test]
fn edits_that_are_refused() {
    let mut b = store();
    let nothing = EditFields::default();
    assert_eq!(
        said(b.edit(1, &nothing, T1)),
        "nothing to change: give at least one of --title --label --add-tag --rm-tag --priority --notes --outcome --status --move"
    );
    assert_eq!(said(b.edit(9, &nothing, T1)), "card #9 not found");
    let far = EditFields { priority: Some(-5), ..EditFields::default() };
    assert_eq!(said(b.edit(1, &far, T1)), "priority must be 0..=10000");
    let lost = EditFields {
        title: Some("x".to_string()),
        move_to: Some("none".to_string()),
        ..EditFields::default()
    };
    assert_eq!(said(b.edit(1, &lost, T1)), "no project named 'none'");
    assert_eq!(b.cards[0].title, "one");
    assert!(b.events.is_empty());
}

#[test]
fn many_cards_are_edited_together_or_not_at_all() {
    let mut b = store();
    let f = EditFields { priority: Some(100), ..EditFields::default() };
    assert_eq!(b.bulk_edit(&vec![1, 3], &f, T1).ok(), Some(vec!["priority".to_string()]));
    assert_eq!(b.events.len(), 2);
    b.events = Vec::new();
    assert_eq!(b.bulk_edit(&vec![1], &f, T1).ok(), Some(Vec::new()));
    assert_eq!(b.bulk_edit(&Vec::new(), &f, T1).ok(), Some(Vec::new()));
    assert_eq!(said(b.bulk_edit(&vec![2, 9], &f, T1)), "card #9 not found");
    assert_eq!(b.cards[1].priority, 5000);
    assert!(b.events.is_empty());
}

#[test]
fn fields_are_set_by_name() {
    let mut f = EditFields::default();
    for pair in ["title=a=b", "label=x", "priority= 100 ", "outcome=o", "notes=n", "status=In_Progress", "move=q"] {
        parse_set(&mut f, pair).expect("understood");
    }
    assert_eq!(f.title.as_deref(), Some("a=b"));
    assert_eq!(f.priority, Some(100));
    assert_eq!(f.status, Some(Status::InProgress));
    assert_eq!(f.move_to.as_deref(), Some("q"));
    assert_eq!(said(parse_set(&mut f, "title")), "--set wants FIELD=VALUE, got 'title'");
    assert_eq!(said(parse_set(&mut f, "priority=high")), "priority 'high' is not a number");
    assert_eq!(said(parse_set(&mut f, "status=gone")), "status 'gone' is not one of new, ready, in_progress, done");
    assert_eq!(
        said(parse_set(&mut f, "color=red")),
        "--set does not know the field 'color' (title, label, priority, outcome, notes, status, project)"
    );
    assert_eq!(f.title.as_deref(), Some("a=b"));
}

// ------------------------------------------------------------- projects

#[test]
fn projects_are_registered_under_free_names_and_paths() {
    let mut b = store();
    assert_eq!(b.add_project("/r/q", true, Some(" quux "), T1).ok(), Some(2));
    assert_eq!(b.projects[1].name, "quux");
    assert_eq!(said(b.add_project("/r/x", false, None, T1)), "/r/x is not a directory");
    assert_eq!(said(b.add_project("/r/p", true, Some("n"), T1)), "/r/p is already project 'p' (#1)");
    assert_eq!(said(b.add_project("/s/p", true, None, T1)), "project 'p' already exists at /r/p (#1); pass --name");
}

#[test]
fn projects_are_parked_and_woken() {
    let mut b = store();
    assert_eq!(b.set_active("p", false).ok(), Some(0));
    assert!(!b.projects[0].active);
    assert_eq!(b.next_claim(Scope::ActiveProjects, None, false, Some("ann"), T1).ok(), Some(None));
    assert_eq!(b.set_active("#1", true).ok(), Some(0));
    assert_eq!(b.next_claim(Scope::ActiveProjects, None, false, Some("ann"), T1).ok(), Some(Some(1)));
    assert_eq!(said(b.set_active("zz", true)), "no project named 'zz'");
}

#[test]
fn removing_a_project_takes_its_cards() {
    let mut b = store();
    assert_eq!(
        said(b.remove_project("p", false, T1)),
        "project 'p' still has 3 card(s); deactivate it, or --force to delete them too"
    );
    b.claim(1, "ann", T1).expect("free");
    b.events = Vec::new();
    assert_eq!(b.remove_project("p", true, T1).ok(), Some(("p".to_string(), 3)));
    assert!(b.cards.is_empty() && b.projects.is_empty());
    assert_eq!(b.events.len(), 3);
    assert!(b.events.iter().all(|e| e.kind == "deleted" && e.after == "project 'p' removed"));
    assert_eq!(said(b.remove_project("p", true, T1)), "no project named 'p'");
}

#[test]
fn removing_a_project_leaves_the_others_cards() {
    let mut b = store();
    b.add_project("/r/q", true, None, T0).expect("free");
    let other = Draft { project_id: 2, project: "q".to_string(), ..draft("four") };
    b.create(&other, false, false, "", T0).expect("filed");
    let kept = b.cards[3].clone();
    b.remove_project("p", true, T1).expect("forced");
    assert_eq!(b.cards, vec![kept]);
}

#[test]
fn cards_are_counted_by_project() {
    let mut b = store();
    b.set_status(1, Status::Done, "", "", false, T1).expect("moved");
    assert_eq!(card_count(&b.cards, 1), 3);
    assert_eq!(open_card_count(&b.cards, 1), 2);
    assert_eq!(card_count(&b.cards, 2), 0);
}

#[test]
fn cards_without_a_project_are_adopted() {
    let mut b = store();
    b.cards[1].project_id = 0;
    b.adopt_unassigned("/elsewhere", true, false, T1).expect("one project");
    assert_eq!((b.cards[1].project_id, b.projects.len()), (1, 1));
    b.cards[1].project_id = 0;
    b.projects = Vec::new();
    b.adopt_unassigned("/home/dir", true, true, T1).expect("named after its directory");
    assert_eq!(b.projects.len(), 1);
    assert_eq!(b.projects[0].name, "dir");
    assert_eq!(b.cards[1].project_id, b.projects[0].id);
    b.cards[1].project_id = 0;
    b.add_project("/r/z", true, None, T1).expect("free");
    assert!(said(b.adopt_unassigned("/home/dir", true, true, T1)).starts_with("1 unassigned card(s) in a database with several"));
}

#[test]
fn one_repositorys_file_gets_a_project() {
    let mut b = Backlog::new();
    b.adopt_unassigned("/home/dir", true, true, T1).expect("the store waits for a project");
    assert!(b.projects.is_empty());
    assert_eq!(said(b.adopt_unassigned("/home/dir", false, false, T1)), "/home/dir is not a directory");
    b.adopt_unassigned("/home/dir", true, false, T1).expect("registered");
    assert_eq!((b.projects.len(), b.projects[0].name.as_str(), b.projects[0].path.as_str()), (1, "dir", "/home/dir"));
    b.adopt_unassigned("/home/dir", true, false, T2).expect("there already");
    assert_eq!((b.projects.len(), b.projects[0].created_at.as_str()), (1, T1));
    let mut c = store();
    c.projects = Vec::new();
    c.cards[0].project_id = 0;
    c.adopt_unassigned("/home/dir", true, false, T1).expect("registered");
    let id = c.projects[0].id;
    assert!(c.cards.iter().all(|k| k.project_id == id && k.project == "dir"));
}

#[test]
fn the_store_adopts_only_cards_without_a_project() {
    let mut b = store();
    b.projects = Vec::new();
    b.cards[0].project_id = 0;
    b.cards[1].project_id = 7;
    b.adopt_unassigned("/home/dir", true, true, T1).expect("registered");
    let id = b.projects[0].id;
    assert_eq!((b.cards[0].project_id, b.cards[1].project_id), (id, 7));
}

#[test]
fn a_second_init_changes_nothing() {
    let mut b = Backlog::new();
    assert_eq!(b.begin(Some("/r/p"), true, false, None, T0).ok(), Some(true));
    assert_eq!(b.begin(Some("/r/p"), true, false, None, T1).ok(), Some(false));
    assert_eq!((b.projects.len(), b.projects[0].created_at.as_str()), (1, T0));
    assert_eq!(b.begin(None, false, false, None, T1).ok(), Some(false));
    assert_eq!(b.begin(Some("/elsewhere"), true, true, None, T1).ok(), Some(false));
    assert_eq!(said(b.begin(Some("/r/q"), true, false, Some("p"), T1)), "project 'p' already exists at /r/p (#1); pass --name");
    assert_eq!(b.begin(Some("/r/q"), true, false, Some("named"), T1).ok(), Some(true));
    assert_eq!(b.projects[1].name, "named");
    assert_eq!(said(b.add_project("/r/q", true, None, T1)), "/r/q is already project 'named' (#2)");
}

#[test]
fn labels_are_split_once() {
    let mut b = store();
    b.cards[0].label = "art enemies".to_string();
    assert!(splits_labels(None));
    let mark = b.split_labels(None);
    assert_eq!((b.cards[0].label.as_str(), mark.as_str()), ("art,enemies", "1"));
    b.cards[0].label = "with a blank".to_string();
    assert!(!splits_labels(Some(&mark)));
    assert_eq!(b.split_labels(Some(&mark)), "1");
    assert_eq!(b.cards[0].label, "with a blank");
}

#[test]
fn old_labels_become_tag_lists() {
    let mut b = store();
    b.cards[0].label = "art enemies c676 build".to_string();
    b.normalize_labels();
    assert_eq!(b.cards[0].label, "art,enemies,c676,build");
    assert_eq!(b.cards[1].label, "");
}

#[test]
fn a_project_remembers_its_page() {
    let mut b = store();
    b.set_autoexport(1, "/out/index.html");
    assert_eq!(b.projects[0].autoexport, "/out/index.html");
    b.set_autoexport(9, "/nowhere");
    let p: &Project = &b.projects[0];
    assert_eq!(p.autoexport, "/out/index.html");
}

// ------------------------------------------------------------- history

#[test]
fn the_history_only_grows() {
    let mut b = store();
    b.claim(1, "ann", T1).expect("free");
    let before = kinds(&b);
    b.set_status(1, Status::Done, "ok", "", false, T2).expect("moved");
    b.delete(1, "", false, "", T2).expect("free");
    assert_eq!(kinds(&b)[..before.len()], before[..]);
    assert!(list(&b.events, 1).len() > before.len());
}

#[test]
fn events_are_told_on_one_line() {
    let e = Event {
        id: 1,
        card_id: 1,
        project_id: 1,
        kind: "status".to_string(),
        before: "new".to_string(),
        after: "ready".to_string(),
        by: "ann".to_string(),
        at: T1.to_string(),
    };
    assert_eq!(render_line(&e), "2026-01-01 01:00:00  status      new → ready  by ann");
    let bare = Event { before: String::new(), after: String::new(), by: String::new(), ..copy_of(&e) };
    assert_eq!(render_line(&bare), "2026-01-01 01:00:00  status    ");
    let half = Event { after: String::new(), by: String::new(), before: "a\nb".to_string(), ..copy_of(&e) };
    assert_eq!(render_line(&half), "2026-01-01 01:00:00  status      a | b →");
    let long = Event { before: String::new(), after: "x".repeat(161), by: String::new(), ..copy_of(&e) };
    assert_eq!(render_line(&long), format!("2026-01-01 01:00:00  status      → {}...", "x".repeat(157)));
}

fn copy_of(e: &Event) -> Event {
    Event {
        id: e.id,
        card_id: e.card_id,
        project_id: e.project_id,
        kind: e.kind.clone(),
        before: e.before.clone(),
        after: e.after.clone(),
        by: e.by.clone(),
        at: e.at.clone(),
    }
}
