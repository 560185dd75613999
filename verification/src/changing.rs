//! What edits, notes, links and projects change, told field by field.

use vstd::prelude::*;

use crate::backlog::{
    bulk_edited, edit_card_refusal, edited_in, lemma_edited_in, lemma_same_ids, same_ids, sound, BacklogView,
};
use crate::card::{has_card, lemma_position, position, CardView};
use crate::edit::{
    changed_names, edit_events, edit_refusal, edited, label_events, new_label, notes_events, origin, outcome_events,
    priority_events, project_events, status_events, title_events, with_name_if, with_pair, EditView,
};
use crate::events::EventView;
use crate::notes::{adopted, mirror, parsed, rendered, NoteView};
use crate::number::{dec, law_decimal_reads_back};
use crate::project::{lemma_looked_up, looked_up, projects_sound, ProjectView};
use crate::refusal::RefusalView;
use crate::status::{law_status_names_differ, status_name, Status};
use crate::tags::{extended, law_retagging_twice, lemma_extended, lemma_without, tags, tags_of_all, without};
use crate::text::{blank, join, lemma_first_of_at, lemma_trim_fixed, lines, nonblank, split, split_once, trim, Sep};
use crate::writing::{only_card_changed, tells};

verus! {

// ------------------------------------------------------------- edits

/// Law: an edit is made where it names something to change, its title says
/// something in 120 characters or fewer, its priority lies from 0 to 10000,
/// its outcome has 300 characters or fewer, and its project is there; a long
/// title or outcome can be forced.
pub proof fn law_when_an_edit_is_made(projects: Seq<ProjectView>, f: EditView)
    ensures
        edit_refusal(projects, f) is None <==> {
            &&& f.title matches Some(t) ==> !blank(t) && (trim(t).len() <= 120 || f.force)
            &&& f.priority matches Some(p) ==> 0 <= p <= 10000
            &&& f.outcome matches Some(o) ==> o.len() <= 300 || f.force
            &&& f.move_to matches Some(key) ==> looked_up(projects, key) >= 0
            &&& f.title is Some || f.label is Some || f.add_tags.len() > 0 || f.rm_tags.len() > 0 || f.priority is Some
                || f.outcome is Some || f.status is Some || f.move_to is Some || f.notes is Some
        },
{
}

/// Law: a field that an edit names has the value it names afterwards: the
/// title without white space at its ends, the priority, the outcome and the
/// status as they are given, the project that is meant; a card set to any
/// status but in progress is in nobody's hands, and the card dates from now.
pub proof fn law_named_fields_are_set(projects: Seq<ProjectView>, c: CardView, f: EditView, now: Seq<char>)
    ensures
        ({
            let e = edited(projects, c, f, now);
            &&& f.title matches Some(t) ==> e.title == trim(t)
            &&& f.priority matches Some(p) ==> e.priority == p
            &&& f.outcome matches Some(o) ==> e.outcome == o
            &&& f.status matches Some(s) ==> e.status == s && (s != Status::InProgress ==> e.claimed_by.len() == 0
                && e.claimed_at.len() == 0) && (s == Status::InProgress ==> e.claimed_by == c.claimed_by && e.claimed_at
                == c.claimed_at)
            &&& f.move_to is Some && looked_up(projects, f.move_to->0) >= 0 ==> e.project_id == projects[looked_up(
                projects,
                f.move_to->0,
            )].id && e.project == projects[looked_up(projects, f.move_to->0)].name
            &&& e.updated_at == now
        }),
{
}

/// Law: notes that an edit gives replace those there were: one row for each
/// line that is not blank.
pub proof fn law_given_notes_replace_the_rows(projects: Seq<ProjectView>, c: CardView, f: EditView, now: Seq<char>)
    requires
        f.notes is Some,
    ensures
        ({
            let e = edited(projects, c, f, now);
            let ls = nonblank(lines(f.notes->0));
            &&& e.notes == f.notes->0
            &&& e.entries.len() == ls.len()
            &&& forall|k: int| 0 <= k < ls.len() ==> #[trigger] e.entries[k] == parsed(ls[k], c.created_at)
        }),
{
    let none = Seq::<char>::empty();
    assert(split(none, Sep::Char('\n')) =~= seq![none]);
    assert(lines(none) =~= Seq::<Seq<char>>::empty());
    assert(nonblank(lines(none)) =~= Seq::<Seq<char>>::empty());
    let rows = Seq::<NoteView>::empty();
    assert(rows.map_values(|n: NoteView| rendered(n)) =~= Seq::<Seq<char>>::empty());
    assert(mirror(rows) =~= none);
    let ls = nonblank(lines(f.notes->0));
    assert(ls.skip(0) =~= ls);
    assert(edited(projects, c, f, now).entries =~= adopted(ls, c.created_at));
}

/// Law: the tags of an edited card are those given, else those it had, with
/// the ones to add and without the ones to remove.
pub proof fn law_edit_sets_the_tags(projects: Seq<ProjectView>, c: CardView, f: EditView, now: Seq<char>, x: Seq<char>)
    requires
        f.label is Some || f.add_tags.len() > 0 || f.rm_tags.len() > 0,
    ensures
        ({
            let e = edited(projects, c, f, now);
            let base = if f.label is Some { tags(f.label->0) } else { tags(c.label) };
            &&& tags(e.label).contains(x) <==> {
                &&& base.contains(x) || exists|k: int|
                    0 <= k < f.add_tags.len() && tags(#[trigger] f.add_tags[k]).contains(x)
                &&& forall|k: int| 0 <= k < f.rm_tags.len() ==> !tags(#[trigger] f.rm_tags[k]).contains(x)
            }
            &&& f.add_tags.len() == 0 && f.rm_tags.len() == 0 && f.label is Some ==> tags(e.label) == tags(f.label->0)
        }),
{
    let base = if f.label is Some { tags(f.label->0) } else { tags(c.label) };
    let more = tags_of_all(f.add_tags);
    let drop = tags_of_all(f.rm_tags);
    let label = if f.label is Some { f.label->0 } else { c.label };
    law_retagging_twice(label, f.add_tags, f.rm_tags);
    lemma_extended(base, more);
    lemma_without(extended(base, more), drop);
    lemma_tags_of_all_has(f.add_tags, x);
    lemma_tags_of_all_has(f.rm_tags, x);
    let w = without(extended(base, more), drop);
    assert(new_label(c.label, f) == join(w, ","@));
    assert(extended(base, more).contains(x) <==> base.contains(x) || more.contains(x));
    assert(w.contains(x) <==> extended(base, more).contains(x) && !drop.contains(x));
    if f.add_tags.len() == 0 && f.rm_tags.len() == 0 {
        assert(more.len() == 0 && drop.len() == 0);
        assert(extended(base, more) == base);
        assert forall|k: int| 0 <= k < base.len() implies !drop.contains(#[trigger] base[k]) by {}
    }
}

proof fn lemma_tags_of_all_has(v: Seq<Seq<char>>, x: Seq<char>)
    ensures
        tags_of_all(v).contains(x) <==> exists|k: int| 0 <= k < v.len() && tags(#[trigger] v[k]).contains(x),
    decreases v.len(),
{
    if v.len() > 0 {
        let front = v.drop_last();
        lemma_tags_of_all_has(front, x);
        let (a, b) = (tags_of_all(front), tags(v.last()));
        if tags_of_all(v).contains(x) {
            let i = choose|i: int| 0 <= i < (a + b).len() && (a + b)[i] == x;
            if i < a.len() {
                assert(a[i] == x);
                assert(a.contains(x));
                let k = choose|k: int| 0 <= k < front.len() && tags(#[trigger] front[k]).contains(x);
                assert(tags(v[k]).contains(x));
            } else {
                assert(b[i - a.len()] == x);
                assert(tags(v[v.len() - 1]).contains(x));
            }
        }
        if exists|k: int| 0 <= k < v.len() && tags(#[trigger] v[k]).contains(x) {
            let k = choose|k: int| 0 <= k < v.len() && tags(#[trigger] v[k]).contains(x);
            if k < front.len() {
                assert(tags(front[k]).contains(x));
                let i = choose|i: int| 0 <= i < a.len() && a[i] == x;
                assert((a + b)[i] == x);
            } else {
                let i = choose|i: int| 0 <= i < b.len() && b[i] == x;
                assert((a + b)[a.len() + i] == x);
            }
        }
    }
}

/// Law: an edit of one card leaves all other cards, the links and the
/// projects.
pub proof fn law_edit_touches_one_card(b: BacklogView, id: i64, f: EditView, now: Seq<char>)
    requires
        edit_card_refusal(b, id, f) is None,
    ensures
        ({
            let at = position(b.cards, id);
            let after = edited_in(b, id, f, now);
            &&& b.cards[at].id == id
            &&& only_card_changed(b, after, at)
            &&& after.cards[at] == edited(b.projects, b.cards[at], f, now)
            &&& after.events == b.events + edit_events(b.projects, b.cards[at], f, now)
        }),
{
    lemma_position(b.cards, id);
}

/// Law: an edit of many cards is that edit on each card named, once, however
/// often it is named, and on no other.
pub proof fn law_bulk_edit_is_each_edit(b: BacklogView, ids: Seq<i64>, f: EditView, now: Seq<char>, i: int)
    requires
        sound(b),
        edit_refusal(b.projects, f) is None,
        forall|k: int| 0 <= k < ids.len() ==> has_card(b.cards, #[trigger] ids[k]),
        0 <= i < b.cards.len(),
    ensures
        ({
            let after = bulk_edited(b, ids, f, now);
            &&& after.cards.len() == b.cards.len()
            &&& after.links == b.links
            &&& after.projects == b.projects
            &&& ids.contains(b.cards[i].id) ==> after.cards[i] == edited(b.projects, b.cards[i], f, now)
            &&& !ids.contains(b.cards[i].id) ==> after.cards[i] == b.cards[i]
        }),
    decreases ids.len(),
{
    lemma_bulk_ids(b, ids, f, now);
    if ids.len() > 0 {
        let front = ids.drop_last();
        assert forall|k: int| 0 <= k < front.len() implies has_card(b.cards, #[trigger] front[k]) by {
            assert(front[k] == ids[k]);
        }
        law_bulk_edit_is_each_edit(b, front, f, now, i);
        lemma_bulk_ids(b, front, f, now);
        let mid = bulk_edited(b, front, f, now);
        let x = ids.last();
        assert(has_card(b.cards, ids[ids.len() - 1]));
        lemma_same_ids(b.cards, mid.cards);
        assert(position(mid.cards, x) == position(b.cards, x));
        let at = position(mid.cards, x);
        lemma_position(b.cards, x);
        let c = b.cards[i];
        assert(mid.cards[i].id == c.id);
        if i == at {
            assert(c.id == x);
            assert(ids[ids.len() - 1] == c.id);
            crate::edit::law_edit_again_logs_nothing(b.projects, b.last_project, c, f, now, now);
        } else {
            if c.id == x {
                if i < at {
                    assert(b.cards[i].id != b.cards[at].id);
                } else {
                    assert(b.cards[at].id != b.cards[i].id);
                }
            }
            if ids.contains(c.id) {
                let k = choose|k: int| 0 <= k < ids.len() && ids[k] == c.id;
                assert(front[k] == c.id);
            }
            if front.contains(c.id) {
                let k = choose|k: int| 0 <= k < front.len() && front[k] == c.id;
                assert(ids[k] == c.id);
            }
        }
        if front.contains(c.id) {
            let k = choose|k: int| 0 <= k < front.len() && front[k] == c.id;
            assert(ids[k] == c.id);
        }
    }
}

proof fn lemma_bulk_ids(b: BacklogView, ids: Seq<i64>, f: EditView, now: Seq<char>)
    requires
        edit_refusal(b.projects, f) is None,
        forall|k: int| 0 <= k < ids.len() ==> has_card(b.cards, #[trigger] ids[k]),
    ensures
        same_ids(b.cards, bulk_edited(b, ids, f, now).cards),
        bulk_edited(b, ids, f, now).projects == b.projects,
        bulk_edited(b, ids, f, now).links == b.links,
    decreases ids.len(),
{
    if ids.len() > 0 {
        let front = ids.drop_last();
        assert forall|k: int| 0 <= k < front.len() implies has_card(b.cards, #[trigger] front[k]) by {
            assert(front[k] == ids[k]);
        }
        lemma_bulk_ids(b, front, f, now);
        let mid = bulk_edited(b, front, f, now);
        assert(has_card(b.cards, ids[ids.len() - 1]));
        lemma_same_ids(b.cards, mid.cards);
        assert(has_card(mid.cards, ids.last()));
        lemma_edited_in(mid, ids.last(), f, now);
        let after = bulk_edited(b, ids, f, now);
        lemma_position(mid.cards, ids.last());
        assert forall|i: int| 0 <= i < b.cards.len() implies (#[trigger] b.cards[i]).id == after.cards[i].id by {
            assert(mid.cards[i].id == b.cards[i].id);
        }
    }
}

/// Law: a name is told of an edit exactly where that field is not what it
/// was.
pub proof fn law_changed_fields_are_named(was: CardView, is: CardView)
    ensures
        changed_names(was, is).contains("title"@) <==> is.title != was.title,
        changed_names(was, is).contains("label"@) <==> is.label != was.label,
        changed_names(was, is).contains("priority"@) <==> is.priority != was.priority,
        changed_names(was, is).contains("outcome"@) <==> is.outcome != was.outcome,
        changed_names(was, is).contains("status"@) <==> is.status != was.status,
        changed_names(was, is).contains("notes"@) <==> is.notes != was.notes,
        changed_names(was, is).contains("project → "@ + is.project) <==> is.project_id != was.project_id,
{
    reveal_strlit("title");
    reveal_strlit("label");
    reveal_strlit("priority");
    reveal_strlit("outcome");
    reveal_strlit("status");
    reveal_strlit("notes");
    reveal_strlit("project → ");
    let moved = "project → "@ + is.project;
    assert("title"@[0] == 't' && "label"@[0] == 'l' && "outcome"@[0] == 'o' && "status"@[0] == 's' && "notes"@[0] == 'n');
    assert("priority"@[0] == 'p' && "priority"@[2] == 'i' && moved[0] == 'p' && moved[2] == 'o');
    lemma_names(was, is, "title"@);
    lemma_names(was, is, "label"@);
    lemma_names(was, is, "priority"@);
    lemma_names(was, is, "outcome"@);
    lemma_names(was, is, "status"@);
    lemma_names(was, is, "notes"@);
    lemma_names(was, is, moved);
}

proof fn lemma_names(was: CardView, is: CardView, x: Seq<char>)
    ensures
        changed_names(was, is).contains(x) <==> {
            ||| is.title != was.title && x == "title"@
            ||| is.label != was.label && x == "label"@
            ||| is.priority != was.priority && x == "priority"@
            ||| is.outcome != was.outcome && x == "outcome"@
            ||| is.status != was.status && x == "status"@
            ||| is.project_id != was.project_id && x == "project → "@ + is.project
            ||| is.notes != was.notes && x == "notes"@
        },
{
    let none = Seq::<Seq<char>>::empty();
    let a = with_name_if(none, is.title != was.title, "title"@);
    let b = with_name_if(a, is.label != was.label, "label"@);
    let c = with_name_if(b, is.priority != was.priority, "priority"@);
    let d = with_name_if(c, is.outcome != was.outcome, "outcome"@);
    let e = with_name_if(d, is.status != was.status, "status"@);
    let f = with_name_if(e, is.project_id != was.project_id, "project → "@ + is.project);
    lemma_pushed(none, is.title != was.title, "title"@, x);
    lemma_pushed(a, is.label != was.label, "label"@, x);
    lemma_pushed(b, is.priority != was.priority, "priority"@, x);
    lemma_pushed(c, is.outcome != was.outcome, "outcome"@, x);
    lemma_pushed(d, is.status != was.status, "status"@, x);
    lemma_pushed(e, is.project_id != was.project_id, "project → "@ + is.project, x);
    lemma_pushed(f, is.notes != was.notes, "notes"@, x);
    assert(!none.contains(x));
}

proof fn lemma_pushed(v: Seq<Seq<char>>, given: bool, name: Seq<char>, x: Seq<char>)
    ensures
        with_name_if(v, given, name).contains(x) <==> v.contains(x) || (given && x == name),
{
    let w = with_name_if(v, given, name);
    if v.contains(x) {
        let k = choose|k: int| 0 <= k < v.len() && v[k] == x;
        assert(w[k] == x);
    }
    if given && x == name {
        assert(w[v.len() as int] == x);
    }
    if w.contains(x) {
        let k = choose|k: int| 0 <= k < w.len() && w[k] == x;
        if k < v.len() {
            assert(v[k] == x);
        }
    }
}

/// The log tells of a change of this field.
pub open spec fn logged(
    log: Seq<EventView>,
    c: CardView,
    kind: Seq<char>,
    before: Seq<char>,
    after: Seq<char>,
    by: Seq<char>,
    now: Seq<char>,
) -> bool {
    exists|k: int| 0 <= k < log.len() && tells(#[trigger] log[k], c, kind, before, after, by, now)
}

/// Law: the log tells each field that an edit changed, from what it was to
/// what it is, and has as many events as there are changes.
pub proof fn law_edit_is_logged(
    projects: Seq<ProjectView>,
    last: i64,
    c: CardView,
    f: EditView,
    now: Seq<char>,
)
    requires
        projects_sound(projects, last),
        edit_refusal(projects, f) is None,
        f.move_to is Some ==> exists|k: int| 0 <= k < projects.len() && (#[trigger] projects[k]).id == c.project_id,
    ensures
        ({
            let e = edited(projects, c, f, now);
            let log = edit_events(projects, c, f, now);
            let freed = f.status is Some && f.status->0 != Status::InProgress && c.claimed_by.len() > 0;
            &&& e.title != c.title ==> logged(log, c, "title"@, c.title, e.title, f.by, now)
            &&& e.label != c.label ==> logged(log, c, "label"@, c.label, e.label, f.by, now)
            &&& e.priority != c.priority ==> logged(
                log,
                c,
                "priority"@,
                dec(c.priority as int),
                dec(e.priority as int),
                f.by,
                now,
            )
            &&& e.outcome != c.outcome ==> logged(log, c, "outcome"@, c.outcome, e.outcome, f.by, now)
            &&& e.status != c.status ==> logged(
                log,
                c,
                "status"@,
                status_name(c.status),
                status_name(e.status),
                f.by,
                now,
            )
            &&& freed ==> logged(log, c, "release"@, c.claimed_by, ""@, f.by, now)
            &&& e.notes != c.notes ==> logged(log, c, "notes"@, c.notes, e.notes, f.by, now)
            &&& log.len() == (if e.title != c.title { 1int } else { 0 }) + (if e.label != c.label { 1int } else { 0 })
                + (if e.priority != c.priority { 1int } else { 0 }) + (if e.outcome != c.outcome { 1int } else { 0 }) + (
            if e.status != c.status { 1int } else { 0 }) + (if freed { 1int } else { 0 }) + (if e.project_id
                != c.project_id { 1int } else { 0 }) + (if e.notes != c.notes { 1int } else { 0 })
        }),
{
    let e = edited(projects, c, f, now);
    let s1 = title_events(c, f, now);
    let s2 = label_events(c, f, now);
    let s3 = priority_events(c, f, now);
    let s4 = outcome_events(c, f, now);
    let s5 = status_events(c, f, now);
    let s6 = project_events(projects, c, f, now);
    let s7 = notes_events(c, f, now);
    let log = edit_events(projects, c, f, now);
    lemma_plain_events(projects, c, f, now);
    lemma_status_events(projects, c, f, now);
    lemma_move_events(projects, last, c, f, now);
    lemma_seven_parts(s1, s2, s3, s4, s5, s6, s7, c);
}

/// What a part of the log tells the whole log tells.
pub open spec fn told_in(part: Seq<EventView>, log: Seq<EventView>, c: CardView) -> bool {
    forall|kind: Seq<char>, x: Seq<char>, y: Seq<char>, by: Seq<char>, now: Seq<char>| #[trigger]
        logged(part, c, kind, x, y, by, now) ==> logged(log, c, kind, x, y, by, now)
}

proof fn lemma_told_in(before: Seq<EventView>, part: Seq<EventView>, after: Seq<EventView>, log: Seq<EventView>, c: CardView)
    requires
        log == before + part + after,
    ensures
        told_in(part, log, c),
{
    assert forall|kind: Seq<char>, x: Seq<char>, y: Seq<char>, by: Seq<char>, now: Seq<char>| #[trigger]
        logged(part, c, kind, x, y, by, now) implies logged(log, c, kind, x, y, by, now) by {
        let k = choose|k: int| 0 <= k < part.len() && tells(#[trigger] part[k], c, kind, x, y, by, now);
        assert(log[before.len() + k] == part[k]);
    }
}

proof fn lemma_seven_parts(
    s1: Seq<EventView>,
    s2: Seq<EventView>,
    s3: Seq<EventView>,
    s4: Seq<EventView>,
    s5: Seq<EventView>,
    s6: Seq<EventView>,
    s7: Seq<EventView>,
    c: CardView,
)
    ensures
        ({
            let log = s1 + s2 + s3 + s4 + s5 + s6 + s7;
            &&& log.len() == s1.len() + s2.len() + s3.len() + s4.len() + s5.len() + s6.len() + s7.len()
            &&& told_in(s1, log, c)
            &&& told_in(s2, log, c)
            &&& told_in(s3, log, c)
            &&& told_in(s4, log, c)
            &&& told_in(s5, log, c)
            &&& told_in(s7, log, c)
        }),
{
    let none = Seq::<EventView>::empty();
    let log = s1 + s2 + s3 + s4 + s5 + s6 + s7;
    let four = s1 + s2 + s3 + s4;
    assert(log =~= none + s1 + (s2 + s3 + s4 + s5 + s6 + s7));
    lemma_told_in(none, s1, s2 + s3 + s4 + s5 + s6 + s7, log, c);
    assert(log =~= s1 + s2 + (s3 + s4 + s5 + s6 + s7));
    lemma_told_in(s1, s2, s3 + s4 + s5 + s6 + s7, log, c);
    assert(log =~= s1 + s2 + s3 + (s4 + s5 + s6 + s7));
    lemma_told_in(s1 + s2, s3, s4 + s5 + s6 + s7, log, c);
    assert(log =~= four + (s5 + s6 + s7));
    lemma_told_in(s1 + s2 + s3, s4, s5 + s6 + s7, log, c);
    assert(log =~= four + s5 + (s6 + s7));
    lemma_told_in(four, s5, s6 + s7, log, c);
    assert(log =~= four + s5 + s6 + s7 + none);
    lemma_told_in(four + s5 + s6, s7, none, log, c);
}

proof fn lemma_plain_events(projects: Seq<ProjectView>, c: CardView, f: EditView, now: Seq<char>)
    ensures
        ({
            let e = edited(projects, c, f, now);
            let s1 = title_events(c, f, now);
            let s2 = label_events(c, f, now);
            let s3 = priority_events(c, f, now);
            let s4 = outcome_events(c, f, now);
            let s7 = notes_events(c, f, now);
            &&& s1.len() == if e.title != c.title { 1int } else { 0 }
            &&& s2.len() == if e.label != c.label { 1int } else { 0 }
            &&& s3.len() == if e.priority != c.priority { 1int } else { 0 }
            &&& s4.len() == if e.outcome != c.outcome { 1int } else { 0 }
            &&& s7.len() == if e.notes != c.notes { 1int } else { 0 }
            &&& e.title != c.title ==> logged(s1, c, "title"@, c.title, e.title, f.by, now)
            &&& e.label != c.label ==> logged(s2, c, "label"@, c.label, e.label, f.by, now)
            &&& e.priority != c.priority ==> logged(
                s3,
                c,
                "priority"@,
                dec(c.priority as int),
                dec(e.priority as int),
                f.by,
                now,
            )
            &&& e.outcome != c.outcome ==> logged(s4, c, "outcome"@, c.outcome, e.outcome, f.by, now)
            &&& e.notes != c.notes ==> logged(s7, c, "notes"@, c.notes, e.notes, f.by, now)
        }),
{
    let e = edited(projects, c, f, now);
    law_decimal_reads_back(c.priority as int);
    law_decimal_reads_back(e.priority as int);
    let s1 = title_events(c, f, now);
    let s2 = label_events(c, f, now);
    let s3 = priority_events(c, f, now);
    let s4 = outcome_events(c, f, now);
    let s7 = notes_events(c, f, now);
    if e.title != c.title {
        assert(tells(s1[0], c, "title"@, c.title, e.title, f.by, now));
    }
    if e.label != c.label {
        assert(tells(s2[0], c, "label"@, c.label, e.label, f.by, now));
    }
    if e.priority != c.priority {
        assert(tells(s3[0], c, "priority"@, dec(c.priority as int), dec(e.priority as int), f.by, now));
    }
    if e.outcome != c.outcome {
        assert(tells(s4[0], c, "outcome"@, c.outcome, e.outcome, f.by, now));
    }
    if e.notes != c.notes {
        assert(tells(s7[0], c, "notes"@, c.notes, e.notes, f.by, now));
    }
}

proof fn lemma_status_events(projects: Seq<ProjectView>, c: CardView, f: EditView, now: Seq<char>)
    ensures
        ({
            let e = edited(projects, c, f, now);
            let s5 = status_events(c, f, now);
            let freed = f.status is Some && f.status->0 != Status::InProgress && c.claimed_by.len() > 0;
            &&& s5.len() == (if e.status != c.status { 1int } else { 0 }) + (if freed { 1int } else { 0 })
            &&& e.status != c.status ==> logged(
                s5,
                c,
                "status"@,
                status_name(c.status),
                status_name(e.status),
                f.by,
                now,
            )
            &&& freed ==> logged(s5, c, "release"@, c.claimed_by, ""@, f.by, now)
        }),
{
    let e = edited(projects, c, f, now);
    if status_name(c.status) == status_name(e.status) {
        law_status_names_differ(c.status, e.status);
    }
    let s5 = status_events(c, f, now);
    let freed = f.status is Some && f.status->0 != Status::InProgress && c.claimed_by.len() > 0;
    if e.status != c.status {
        assert(tells(s5[0], c, "status"@, status_name(c.status), status_name(e.status), f.by, now));
    }
    if freed {
        let k = if e.status != c.status { 1int } else { 0 };
        assert(tells(s5[k], c, "release"@, c.claimed_by, ""@, f.by, now));
    }
}

proof fn lemma_move_events(projects: Seq<ProjectView>, last: i64, c: CardView, f: EditView, now: Seq<char>)
    requires
        projects_sound(projects, last),
        edit_refusal(projects, f) is None,
        f.move_to is Some ==> exists|k: int| 0 <= k < projects.len() && (#[trigger] projects[k]).id == c.project_id,
    ensures
        project_events(projects, c, f, now).len() == if edited(projects, c, f, now).project_id != c.project_id {
            1int
        } else {
            0
        },
{
    if f.move_to is Some {
        lemma_looked_up(projects, f.move_to->0);
        let at = looked_up(projects, f.move_to->0);
        let k = choose|k: int| 0 <= k < projects.len() && (#[trigger] projects[k]).id == c.project_id;
        assert forall|j: int| 0 <= j < k implies (#[trigger] projects[j]).id != c.project_id by {
            assert(projects[j].id != projects[k].id);
        }
        crate::project::lemma_first_is(projects, |q: ProjectView| q.id == c.project_id, k);
        assert(origin(projects, c.project_id) == projects[k].name);
        if k < at {
            assert(projects[k].id != projects[at].id);
        } else if at < k {
            assert(projects[at].id != projects[k].id);
        }
    }
}

// ------------------------------------------------------------- FIELD=VALUE

/// What stands before the first `=` and what stands after it.
proof fn lemma_pair(key: Seq<char>, v: Seq<char>)
    requires
        !key.contains('='),
    ensures
        split_once(key + "="@ + v, '=') == Some((key, v)),
{
    reveal_strlit("=");
    let s = key + "="@ + v;
    let n = key.len() as int;
    assert(s[n] == '=');
    assert forall|i: int| 0 <= i < n implies #[trigger] s[i] != '=' by {
        assert(s[i] == key[i]);
    }
    lemma_first_of_at(s, '=', n);
    assert(s.take(n) =~= key);
    assert(s.skip(n + 1) =~= v);
}

/// Law: `FIELD=VALUE` sets that field of an edit to that value, whatever the
/// value holds, and no other field.
pub proof fn law_set_takes_the_field(f: EditView, v: Seq<char>)
    ensures
        with_pair(f, "title"@ + "="@ + v) == Ok::<EditView, RefusalView>(EditView { title: Some(v), ..f }),
        with_pair(f, "label"@ + "="@ + v) == Ok::<EditView, RefusalView>(EditView { label: Some(v), ..f }),
        with_pair(f, "outcome"@ + "="@ + v) == Ok::<EditView, RefusalView>(EditView { outcome: Some(v), ..f }),
        with_pair(f, "notes"@ + "="@ + v) == Ok::<EditView, RefusalView>(EditView { notes: Some(v), ..f }),
        with_pair(f, "project"@ + "="@ + v) == Ok::<EditView, RefusalView>(EditView { move_to: Some(v), ..f }),
        with_pair(f, "move"@ + "="@ + v) == Ok::<EditView, RefusalView>(EditView { move_to: Some(v), ..f }),
{
    reveal_strlit("title");
    reveal_strlit("label");
    reveal_strlit("outcome");
    reveal_strlit("notes");
    reveal_strlit("project");
    reveal_strlit("move");
    reveal_strlit("priority");
    reveal_strlit("status");
    lemma_pair("title"@, v);
    lemma_pair("label"@, v);
    lemma_pair("outcome"@, v);
    lemma_pair("notes"@, v);
    lemma_pair("project"@, v);
    lemma_pair("move"@, v);
    lemma_trim_fixed("title"@);
    lemma_trim_fixed("label"@);
    lemma_trim_fixed("outcome"@);
    lemma_trim_fixed("notes"@);
    lemma_trim_fixed("project"@);
    lemma_trim_fixed("move"@);
    assert("title"@[0] == 't' && "label"@[0] == 'l' && "outcome"@[0] == 'o' && "notes"@[0] == 'n' && "move"@[0] == 'm');
    assert("project"@[2] == 'o' && "priority"@[2] == 'i' && "status"@[0] == 's');
}

/// Law: a priority is set by its number, and a status by its name.
pub proof fn law_set_takes_priority_and_status(f: EditView, n: i32, s: Status)
    ensures
        with_pair(f, "priority"@ + "="@ + dec(n as int)) == Ok::<EditView, RefusalView>(
            EditView { priority: Some(n), ..f },
        ),
        with_pair(f, "status"@ + "="@ + status_name(s)) == Ok::<EditView, RefusalView>(
            EditView { status: Some(s), ..f },
        ),
{
    reveal_strlit("title");
    reveal_strlit("label");
    reveal_strlit("outcome");
    reveal_strlit("notes");
    reveal_strlit("priority");
    reveal_strlit("status");
    let d = dec(n as int);
    lemma_pair("priority"@, d);
    lemma_pair("status"@, status_name(s));
    lemma_trim_fixed("priority"@);
    lemma_trim_fixed("status"@);
    assert("title"@[0] == 't' && "label"@[0] == 'l' && "outcome"@[0] == 'o' && "notes"@[0] == 'n');
    assert("priority"@[0] == 'p' && "status"@[0] == 's');
    law_decimal_reads_back(n as int);
    lemma_dec_has_no_space(n as int);
    lemma_trim_fixed(d);
    crate::status::law_status_names_are_small(s);
    reveal_strlit("new");
    reveal_strlit("ready");
    reveal_strlit("in_progress");
    reveal_strlit("done");
    lemma_trim_fixed(status_name(s));
    if s != Status::New && status_name(s) == status_name(Status::New) {
        law_status_names_differ(s, Status::New);
    }
    if s != Status::Ready && status_name(s) == status_name(Status::Ready) {
        law_status_names_differ(s, Status::Ready);
    }
    if s != Status::InProgress && status_name(s) == status_name(Status::InProgress) {
        law_status_names_differ(s, Status::InProgress);
    }
}

/// Law: a move tells the project the card comes from: by its name, or by its
/// id where it is not registered.
pub proof fn law_move_tells_where_from(projects: Seq<ProjectView>, id: i64, k: int)
    requires
        forall|i: int, j: int| 0 <= i < j < projects.len() ==> (#[trigger] projects[i]).id != (#[trigger] projects[j]).id,
    ensures
        0 <= k < projects.len() && projects[k].id == id ==> crate::edit::origin(projects, id) == projects[k].name,
        (forall|i: int| 0 <= i < projects.len() ==> (#[trigger] projects[i]).id != id) ==> crate::edit::origin(projects, id)
            == dec(id as int),
{
    let f = |p: ProjectView| p.id == id;
    crate::project::lemma_first(projects, f);
    if 0 <= k < projects.len() && projects[k].id == id {
        assert forall|i: int| 0 <= i < k implies !f(#[trigger] projects[i]) by {
            assert(projects[i].id != projects[k].id);
        }
        crate::project::lemma_first_is(projects, f, k);
    }
}

/// A number is written without white space.
pub proof fn lemma_dec_has_no_space(n: int)
    ensures
        dec(n).len() > 0,
        !crate::text::is_space(dec(n)[0]),
        !crate::text::is_space(dec(n).last()),
{
    let m = if n < 0 { (-n) as nat } else { n as nat };
    crate::number::lemma_digits_read_back(m);
    let s = crate::number::digits(m);
    assert(s.len() > 0);
    assert(crate::number::is_digit(s[0]));
    assert(crate::number::is_digit(s[s.len() - 1]));
    if n < 0 {
        assert(dec(n)[0] == '-');
        assert(dec(n).last() == s[s.len() - 1]);
    }
}

} // verus!
