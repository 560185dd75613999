use bl::card::Card;
use bl::notes::{add, copy_notes, edit, find_row, mirror_of, rebuild_blob, reconcile, remove, Note};
use bl::print::{notes_of_kind, print_note};
use bl::status::Status;

const T0: &str = "2026-01-01 00:00:00";
const T1: &str = "2026-01-01 01:00:00";

fn note(kind: &str, body: &str, sha: &str) -> Note {
    Note {
        id: 0,
        kind: kind.to_string(),
        author: String::new(),
        body: body.to_string(),
        commit_sha: sha.to_string(),
        commit_subject: String::new(),
        created_at: T0.to_string(),
    }
}

fn card(notes: &str) -> Card {
    Card {
        id: 1,
        title: "t".to_string(),
        notes: notes.to_string(),
        label: String::new(),
        status: Status::New,
        priority: 5000,
        outcome: String::new(),
        claimed_by: String::new(),
        claimed_at: String::new(),
        commits: String::new(),
        created_at: T0.to_string(),
        updated_at: T0.to_string(),
        project_id: 1,
        project: "p".to_string(),
        legacy_id: None,
        entries: Vec::new(),
    }
}

fn parts(n: &Note) -> (&str, &str, &str) {
    (n.kind.as_str(), n.body.as_str(), n.commit_sha.as_str())
}

#[test]
fn a_note_is_rendered_without_what_says_nothing() {
    assert_eq!(note("note", "plain", "").render(), "plain");
    assert_eq!(note("", "plain", "").render(), "plain");
    assert_eq!(note("finding", "it races", "a1b2c3d").render(), "[finding] it races [a1b2c3d]");
}

#[test]
fn a_line_is_taken_apart() {
    assert_eq!(parts(&Note::parse("  plain  ", T0)), ("note", "plain", ""));
    assert_eq!(parts(&Note::parse("[finding] it races [a1b2c3d]", T0)), ("finding", "it races", "a1b2c3d"));
    assert_eq!(parts(&Note::parse("[two words] x", T0)), ("note", "[two words] x", ""));
    assert_eq!(parts(&Note::parse("[] x", T0)), ("note", "[] x", ""));
    assert_eq!(parts(&Note::parse("x [abc123]", T0)), ("note", "x [abc123]", ""));
    assert_eq!(parts(&Note::parse("x [ABCDEF0]", T0)), ("note", "x", "ABCDEF0"));
    assert_eq!(parts(&Note::parse("x [ghijklm]", T0)), ("note", "x [ghijklm]", ""));
    assert_eq!(parts(&Note::parse(&format!("x [{}]", "a".repeat(40)), T0)).2, "a".repeat(40));
    assert_eq!(parts(&Note::parse(&format!("x [{}]", "a".repeat(41)), T0)).2, "");
    assert_eq!(parts(&Note::parse("a [b] c", T0)), ("note", "a [b] c", ""));
    assert_eq!(parts(&Note::parse("]", T0)), ("note", "]", ""));
    assert_eq!(Note::parse("x", T1).created_at, T1);
}

#[test]
fn a_rendered_note_reads_back() {
    for n in [note("note", "plain words", ""), note("finding", "it races", "a1b2c3d"), note("a_b-1", "x", "")] {
        let line = n.render();
        assert_eq!(Note::parse(&line, T0), n);
    }
}

#[test]
fn lines_without_rows_are_adopted() {
    let mut c = card("first\n \n[finding] second [a1b2c3d]\n");
    reconcile(&mut c);
    assert_eq!(c.entries.len(), 2);
    assert_eq!(parts(&c.entries[0]), ("note", "first", ""));
    assert_eq!(parts(&c.entries[1]), ("finding", "second", "a1b2c3d"));
    assert_eq!(c.entries[0].created_at, T0);
    assert_eq!(c.notes, "first\n \n[finding] second [a1b2c3d]\n");
}

#[test]
fn reconciling_twice_is_reconciling_once() {
    let mut c = card("first\nsecond");
    reconcile(&mut c);
    let once = copy_notes(&c.entries);
    reconcile(&mut c);
    assert_eq!(c.entries, once);
}

#[test]
fn appended_lines_are_adopted_beside_the_rows() {
    let mut c = card("");
    assert!(add(&mut c, note("decision", "a mutex", ""), false, T1));
    c.notes.push_str("\n[blocker] waiting on #14 [a1b2c3d]\r\nlast");
    reconcile(&mut c);
    assert_eq!(c.entries.len(), 3);
    assert_eq!(parts(&c.entries[0]), ("decision", "a mutex", ""));
    assert_eq!(parts(&c.entries[1]), ("blocker", "waiting on #14", "a1b2c3d"));
    assert_eq!(parts(&c.entries[2]), ("note", "last", ""));
}

#[test]
fn the_mirror_agrees_with_the_rows() {
    let mut c = card("old line");
    assert!(add(&mut c, note("finding", "new", ""), false, T1));
    assert_eq!(c.notes, "old line\n[finding] new");
    assert_eq!(mirror_of(&c.entries), c.notes);
    c.entries[0].body = "changed".to_string();
    rebuild_blob(&mut c, T1);
    assert_eq!(c.notes, "changed\n[finding] new");
    assert_eq!(c.updated_at, T1);
}

#[test]
fn a_note_of_two_lines_is_not_adopted_again() {
    let mut c = card("");
    assert!(add(&mut c, note("finding", "one\n\ntwo", ""), false, T1));
    assert_eq!(c.notes, "[finding] one\n\ntwo");
    reconcile(&mut c);
    assert_eq!(c.entries.len(), 1);
    assert!(add(&mut c, note("note", "three", ""), false, T1));
    assert_eq!(c.entries.len(), 2);
    c.notes.push_str("\n[blocker] four");
    reconcile(&mut c);
    assert_eq!(c.entries.len(), 3);
    assert_eq!(parts(&c.entries[2]), ("blocker", "four", ""));
    reconcile(&mut c);
    assert_eq!(c.entries.len(), 3);
}

#[test]
fn rows_are_found_edited_and_removed() {
    let mut c = card("one\ntwo");
    reconcile(&mut c);
    c.entries[0].id = 5;
    c.entries[1].id = 6;
    assert_eq!(find_row(&c.entries, 6), Some(1));
    assert_eq!(find_row(&c.entries, 7), None);
    assert_eq!(edit(&mut c, 6, None, Some("decision"), T1).ok().map(|n| n.kind), Some("note".to_string()));
    assert_eq!(c.notes, "one\n[decision] two");
    assert_eq!(edit(&mut c, 7, Some("x"), None, T1).err().map(|e| e.message()), Some("note 7 not found".to_string()));
    assert_eq!(remove(&mut c, 5, T1).ok().map(|n| n.body), Some("one".to_string()));
    assert_eq!(c.notes, "[decision] two");
    assert!(remove(&mut c, 5, T1).is_err());
}

#[test]
fn notes_are_told_with_their_ids() {
    let n = Note {
        id: 87,
        author: "ann".to_string(),
        commit_subject: "Fix".to_string(),
        ..note("finding", "a\nb", "a1b2c3d")
    };
    assert_eq!(
        print_note(&n),
        vec!["[finding] 2026-01-01 00:00:00  ann  (note 87)", "    a\n    b", "    commit: a1b2c3d Fix"]
    );
    let plain = Note { id: 3, ..note("note", "x", "") };
    assert_eq!(print_note(&plain), vec!["[note] 2026-01-01 00:00:00  (note 3)", "    x"]);
}

#[test]
fn notes_are_picked_by_kind() {
    let all = vec![note("note", "a", ""), note("finding", "b", ""), note("note", "c", "")];
    let picked: Vec<String> = notes_of_kind(&all, Some("note")).iter().map(|n| n.body.clone()).collect();
    assert_eq!(picked, vec!["a", "c"]);
    assert_eq!(notes_of_kind(&all, None).len(), 3);
    assert!(notes_of_kind(&all, Some("none")).is_empty());
}
