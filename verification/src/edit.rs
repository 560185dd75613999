//! Changing the fields of a card, all of them in one step.

use vstd::prelude::*;

use crate::card::{
    check_outcome, check_priority, check_title, in_range, outcome_refusal, priority_refusal, title_refusal, Card,
    CardView,
};
use crate::events::{difference, event_views, record_change, Event, EventView};
use crate::fold::fold_all;
use crate::lifecycle::{freed_events, record_freed};
use crate::notes::{note_views, reconcile, reconciled};
use crate::number::{dec, decimal, read_signed, signed_value, within};
use crate::path::opt_string;
use crate::project::{
    by_id, lemma_first_is, lemma_looked_up, lookup, looked_up, project_views, projects_sound, with_id, Project,
    ProjectView,
};
use crate::refusal::{Refusal, RefusalView};
use crate::status::{frees, law_status_names_differ, status_name, Status};
use crate::tags::{
    extend_with, extended, law_retagging_twice, leave_out, tags, tags_of, tags_of_all, tags_of_each, without,
};
use crate::text::{copy, cut_once, join, joined, same, split_once, texts, trim, trimmed};

verus! {

/// The fields to change; what is not given stays.
#[derive(Debug, PartialEq, Eq)]
pub struct EditFields {
    pub title: Option<String>,
    /// Replaces the tags.
    pub label: Option<String>,
    pub priority: Option<i32>,
    /// Replaces every note, one for each line.
    pub notes: Option<String>,
    pub outcome: Option<String>,
    pub status: Option<Status>,
    /// The project to move the card to, by name or `#id`.
    pub move_to: Option<String>,
    /// Who is editing.
    pub by: String,
    /// Takes a long title or outcome.
    pub force: bool,
    pub add_tags: Vec<String>,
    pub rm_tags: Vec<String>,
}

#[verifier::ext_equal]
pub struct EditView {
    pub title: Option<Seq<char>>,
    pub label: Option<Seq<char>>,
    pub priority: Option<i32>,
    pub notes: Option<Seq<char>>,
    pub outcome: Option<Seq<char>>,
    pub status: Option<Status>,
    pub move_to: Option<Seq<char>>,
    pub by: Seq<char>,
    pub force: bool,
    pub add_tags: Seq<Seq<char>>,
    pub rm_tags: Seq<Seq<char>>,
}

impl View for EditFields {
    type V = EditView;

    open spec fn view(&self) -> EditView {
        EditView {
            title: opt_string(self.title),
            label: opt_string(self.label),
            priority: self.priority,
            notes: opt_string(self.notes),
            outcome: opt_string(self.outcome),
            status: self.status,
            move_to: opt_string(self.move_to),
            by: self.by@,
            force: self.force,
            add_tags: texts(self.add_tags@),
            rm_tags: texts(self.rm_tags@),
        }
    }
}

/// An edit that changes nothing yet.
pub open spec fn no_edit() -> EditView {
    EditView {
        title: None,
        label: None,
        priority: None,
        notes: None,
        outcome: None,
        status: None,
        move_to: None,
        by: Seq::empty(),
        force: false,
        add_tags: Seq::empty(),
        rm_tags: Seq::empty(),
    }
}

impl Default for EditFields {
    fn default() -> (f: EditFields)
        ensures
            f@ == no_edit(),
    {
        let f = EditFields {
            title: None,
            label: None,
            priority: None,
            notes: None,
            outcome: None,
            status: None,
            move_to: None,
            by: String::new(),
            force: false,
            add_tags: Vec::new(),
            rm_tags: Vec::new(),
        };
        assert(f@ =~= no_edit());
        f
    }
}

// ------------------------------------------------------------- FIELD=VALUE

/// The status a name stands for, in either case of its letters.
pub open spec fn status_in_any_case(name: Seq<char>) -> Option<Status> {
    let low = fold_all(name);
    if low == status_name(Status::New) {
        Some(Status::New)
    } else if low == status_name(Status::Ready) {
        Some(Status::Ready)
    } else if low == status_name(Status::InProgress) {
        Some(Status::InProgress)
    } else if low == status_name(Status::Done) {
        Some(Status::Done)
    } else {
        None
    }
}

/// The edit with one field more, or why the pair names none.
pub open spec fn with_pair(f: EditView, pair: Seq<char>) -> Result<EditView, RefusalView> {
    match split_once(pair, '=') {
        None => Err(RefusalView::SetShape(pair)),
        Some((key, v)) => {
            let k = trim(key);
            if k == "title"@ {
                Ok(EditView { title: Some(v), ..f })
            } else if k == "label"@ {
                Ok(EditView { label: Some(v), ..f })
            } else if k == "priority"@ {
                match within(signed_value(trim(v)), i32::MIN as int, i32::MAX as int) {
                    Some(n) => Ok(EditView { priority: Some(n as i32), ..f }),
                    None => Err(RefusalView::BadPriority(v)),
                }
            } else if k == "outcome"@ {
                Ok(EditView { outcome: Some(v), ..f })
            } else if k == "notes"@ {
                Ok(EditView { notes: Some(v), ..f })
            } else if k == "status"@ {
                match status_in_any_case(trim(v)) {
                    Some(s) => Ok(EditView { status: Some(s), ..f }),
                    None => Err(RefusalView::BadStatus(v)),
                }
            } else if k == "project"@ || k == "move"@ {
                Ok(EditView { move_to: Some(v), ..f })
            } else {
                Err(RefusalView::UnknownSetField(k))
            }
        },
    }
}

fn any_case(name: &str) -> (r: Option<Status>)
    ensures
        r == status_in_any_case(name@),
{
    let r = Status::named_any_case(name);
    proof {
        match r {
            Some(s) => {
                assert forall|t: Status| fold_all(name@) == #[trigger] status_name(t) implies t == s by {
                    law_status_names_differ(s, t);
                }
            },
            None => {
                assert(fold_all(name@) != status_name(Status::New));
                assert(fold_all(name@) != status_name(Status::Ready));
                assert(fold_all(name@) != status_name(Status::InProgress));
                assert(fold_all(name@) != status_name(Status::Done));
            },
        }
    }
    r
}

/// Takes one `FIELD=VALUE` into the edit; a bad one changes nothing.
pub fn parse_set(f: &mut EditFields, pair: &str) -> (r: Result<(), Refusal>)
    ensures
        match r {
            Ok(()) => with_pair(old(f)@, pair@) == Ok::<EditView, RefusalView>(final(f)@),
            Err(e) => with_pair(old(f)@, pair@) == Err::<EditView, RefusalView>(e@) && *final(f) == *old(f),
        },
{
    let (key, v) = match cut_once(pair, '=') {
        Some(p) => p,
        None => {
            return Err(Refusal::SetShape(copy(pair)));
        },
    };
    let k = trimmed(key.as_str());
    if same(k.as_str(), "title") {
        f.title = Some(v);
    } else if same(k.as_str(), "label") {
        f.label = Some(v);
    } else if same(k.as_str(), "priority") {
        let t = trimmed(v.as_str());
        match read_signed(t.as_str(), i32::MIN as i64, i32::MAX as i64) {
            Some(n) => {
                f.priority = Some(n as i32);
            },
            None => {
                return Err(Refusal::BadPriority(v));
            },
        }
    } else if same(k.as_str(), "outcome") {
        f.outcome = Some(v);
    } else if same(k.as_str(), "notes") {
        f.notes = Some(v);
    } else if same(k.as_str(), "status") {
        let t = trimmed(v.as_str());
        match any_case(t.as_str()) {
            Some(s) => {
                f.status = Some(s);
            },
            None => {
                return Err(Refusal::BadStatus(v));
            },
        }
    } else if same(k.as_str(), "project") || same(k.as_str(), "move") {
        f.move_to = Some(v);
    } else {
        return Err(Refusal::UnknownSetField(k));
    }
    assert(with_pair(old(f)@, pair@) is Ok);
    assert(f@ =~= with_pair(old(f)@, pair@)->Ok_0);
    Ok(())
}

// ------------------------------------------------------------- the edit

/// The edit touches the tags.
pub open spec fn retags(f: EditView) -> bool {
    f.label is Some || f.add_tags.len() > 0 || f.rm_tags.len() > 0
}

/// The label after the edit: the tags replaced where a label is given, then
/// those to add added, then those to remove removed.
pub open spec fn new_label(label: Seq<char>, f: EditView) -> Seq<char> {
    let base = tags(
        match f.label {
            Some(l) => l,
            None => label,
        },
    );
    join(without(extended(base, tags_of_all(f.add_tags)), tags_of_all(f.rm_tags)), ","@)
}

/// The project the card moves to.
pub open spec fn destination(projects: Seq<ProjectView>, f: EditView) -> Option<ProjectView> {
    match f.move_to {
        Some(key) => if looked_up(projects, key) >= 0 {
            Some(projects[looked_up(projects, key)])
        } else {
            None
        },
        None => None,
    }
}

/// Nothing is to change.
pub open spec fn changes_nothing(f: EditView) -> bool {
    f.title is None && !retags(f) && f.priority is None && f.outcome is None && f.status is None && f.move_to is None
        && f.notes is None
}

pub open spec fn bad_title(f: EditView) -> Option<RefusalView> {
    match f.title {
        Some(t) => title_refusal(t, f.force),
        None => None,
    }
}

pub open spec fn bad_priority(f: EditView) -> Option<RefusalView> {
    match f.priority {
        Some(p) => priority_refusal(p),
        None => None,
    }
}

pub open spec fn bad_outcome(f: EditView) -> Option<RefusalView> {
    match f.outcome {
        Some(o) => outcome_refusal(o, f.force),
        None => None,
    }
}

/// Why the edit is refused, whichever card it is for.
pub open spec fn edit_refusal(projects: Seq<ProjectView>, f: EditView) -> Option<RefusalView> {
    if bad_title(f) is Some {
        bad_title(f)
    } else if bad_priority(f) is Some {
        bad_priority(f)
    } else if bad_outcome(f) is Some {
        bad_outcome(f)
    } else if f.move_to is Some && destination(projects, f) is None {
        Some(RefusalView::NoProject(f.move_to->0))
    } else if changes_nothing(f) {
        Some(RefusalView::NothingToChange)
    } else {
        None
    }
}

/// The card with its plain fields changed.
pub open spec fn refielded(projects: Seq<ProjectView>, c: CardView, f: EditView, now: Seq<char>) -> CardView {
    CardView {
        title: match f.title {
            Some(t) => trim(t),
            None => c.title,
        },
        label: if retags(f) { new_label(c.label, f) } else { c.label },
        priority: match f.priority {
            Some(p) => p,
            None => c.priority,
        },
        outcome: match f.outcome {
            Some(o) => o,
            None => c.outcome,
        },
        status: match f.status {
            Some(s) => s,
            None => c.status,
        },
        claimed_by: if f.status is Some && frees(f.status->0) { Seq::empty() } else { c.claimed_by },
        claimed_at: if f.status is Some && frees(f.status->0) { Seq::empty() } else { c.claimed_at },
        project_id: match destination(projects, f) {
            Some(p) => p.id,
            None => c.project_id,
        },
        project: match destination(projects, f) {
            Some(p) => p.name,
            None => c.project,
        },
        updated_at: now,
        ..c
    }
}

/// The card after the edit. Notes that are given replace the rows.
pub open spec fn edited(projects: Seq<ProjectView>, c: CardView, f: EditView, now: Seq<char>) -> CardView {
    let r = refielded(projects, c, f, now);
    match f.notes {
        Some(text) => reconciled(CardView { notes: text, entries: Seq::empty(), ..r }),
        None => r,
    }
}

/// The name of the card's project before a move.
pub open spec fn origin(projects: Seq<ProjectView>, id: i64) -> Seq<char> {
    if with_id(projects, id) >= 0 {
        projects[with_id(projects, id)].name
    } else {
        dec(id as int)
    }
}

pub open spec fn title_events(c: CardView, f: EditView, now: Seq<char>) -> Seq<EventView> {
    match f.title {
        Some(t) => difference(c.id, c.project_id, "title"@, c.title, trim(t), f.by, now),
        None => Seq::empty(),
    }
}

pub open spec fn label_events(c: CardView, f: EditView, now: Seq<char>) -> Seq<EventView> {
    if retags(f) {
        difference(c.id, c.project_id, "label"@, c.label, new_label(c.label, f), f.by, now)
    } else {
        Seq::empty()
    }
}

pub open spec fn priority_events(c: CardView, f: EditView, now: Seq<char>) -> Seq<EventView> {
    match f.priority {
        Some(p) => difference(c.id, c.project_id, "priority"@, dec(c.priority as int), dec(p as int), f.by, now),
        None => Seq::empty(),
    }
}

pub open spec fn outcome_events(c: CardView, f: EditView, now: Seq<char>) -> Seq<EventView> {
    match f.outcome {
        Some(o) => difference(c.id, c.project_id, "outcome"@, c.outcome, o, f.by, now),
        None => Seq::empty(),
    }
}

pub open spec fn status_events(c: CardView, f: EditView, now: Seq<char>) -> Seq<EventView> {
    match f.status {
        Some(s) => difference(c.id, c.project_id, "status"@, status_name(c.status), status_name(s), f.by, now)
            + freed_events(c, s, f.by, now),
        None => Seq::empty(),
    }
}

pub open spec fn project_events(projects: Seq<ProjectView>, c: CardView, f: EditView, now: Seq<char>) -> Seq<EventView> {
    match destination(projects, f) {
        Some(p) => difference(c.id, c.project_id, "move"@, origin(projects, c.project_id), p.name, f.by, now),
        None => Seq::empty(),
    }
}

pub open spec fn notes_events(c: CardView, f: EditView, now: Seq<char>) -> Seq<EventView> {
    match f.notes {
        Some(t) => difference(c.id, c.project_id, "notes"@, c.notes, t, f.by, now),
        None => Seq::empty(),
    }
}

/// What the edit leaves in the log: one event for each field that changed.
pub open spec fn edit_events(projects: Seq<ProjectView>, c: CardView, f: EditView, now: Seq<char>) -> Seq<EventView> {
    title_events(c, f, now) + label_events(c, f, now) + priority_events(c, f, now) + outcome_events(c, f, now)
        + status_events(c, f, now) + project_events(projects, c, f, now) + notes_events(c, f, now)
}

/// `v` with `name` at the end, where it has changed.
pub open spec fn with_name_if(v: Seq<Seq<char>>, changed: bool, name: Seq<char>) -> Seq<Seq<char>> {
    if changed {
        v.push(name)
    } else {
        v
    }
}

/// The names of the fields in which a card differs from what it was.
pub open spec fn changed_names(was: CardView, is: CardView) -> Seq<Seq<char>> {
    let v = with_name_if(Seq::empty(), is.title != was.title, "title"@);
    let v = with_name_if(v, is.label != was.label, "label"@);
    let v = with_name_if(v, is.priority != was.priority, "priority"@);
    let v = with_name_if(v, is.outcome != was.outcome, "outcome"@);
    let v = with_name_if(v, is.status != was.status, "status"@);
    let v = with_name_if(v, is.project_id != was.project_id, "project → "@ + is.project);
    with_name_if(v, is.notes != was.notes, "notes"@)
}

// ------------------------------------------------------------- laws

/// Law: a field that is not named stays as it was, and so do the card's id,
/// its age, its commits and where it was imported from.
pub proof fn law_unnamed_fields_stay(projects: Seq<ProjectView>, c: CardView, f: EditView, now: Seq<char>)
    ensures
        f.title is None ==> edited(projects, c, f, now).title == c.title,
        !retags(f) ==> edited(projects, c, f, now).label == c.label,
        f.priority is None ==> edited(projects, c, f, now).priority == c.priority,
        f.outcome is None ==> edited(projects, c, f, now).outcome == c.outcome,
        f.status is None ==> edited(projects, c, f, now).status == c.status && edited(projects, c, f, now).claimed_by
            == c.claimed_by && edited(projects, c, f, now).claimed_at == c.claimed_at,
        f.move_to is None ==> edited(projects, c, f, now).project_id == c.project_id && edited(
            projects,
            c,
            f,
            now,
        ).project == c.project,
        f.notes is None ==> edited(projects, c, f, now).notes == c.notes && edited(projects, c, f, now).entries
            == c.entries,
        edited(projects, c, f, now).id == c.id,
        edited(projects, c, f, now).created_at == c.created_at,
        edited(projects, c, f, now).commits == c.commits,
        edited(projects, c, f, now).legacy_id == c.legacy_id,
{
}

/// Law: an edit that is not refused keeps the priority in its range.
pub proof fn law_edit_keeps_range(projects: Seq<ProjectView>, c: CardView, f: EditView, now: Seq<char>)
    requires
        edit_refusal(projects, f) is None,
        in_range(c.priority),
    ensures
        in_range(edited(projects, c, f, now).priority),
{
}

/// Law: an edit made again changes no field but the time of change, names
/// none, and leaves nothing in the log.
pub proof fn law_edit_again_logs_nothing(
    projects: Seq<ProjectView>,
    last: i64,
    c: CardView,
    f: EditView,
    t: Seq<char>,
    now: Seq<char>,
)
    requires
        projects_sound(projects, last),
    ensures
        edit_events(projects, edited(projects, c, f, t), f, now) == Seq::<EventView>::empty(),
        edited(projects, edited(projects, c, f, t), f, now) == (CardView {
            updated_at: now,
            ..edited(projects, c, f, t)
        }),
        changed_names(edited(projects, c, f, t), edited(projects, edited(projects, c, f, t), f, now)) == Seq::<
            Seq<char>,
        >::empty(),
{
    let e = edited(projects, c, f, t);
    law_retagging_twice(c.label, f.add_tags, f.rm_tags);
    assert(new_label(new_label(c.label, f), f) == new_label(c.label, f));
    match destination(projects, f) {
        Some(p) => {
            lemma_looked_up(projects, f.move_to->0);
            let at = looked_up(projects, f.move_to->0);
            lemma_first_is(projects, |q: ProjectView| q.id == p.id, at);
            assert(origin(projects, p.id) == p.name);
        },
        None => {},
    }
    assert(e.label == if retags(f) { new_label(c.label, f) } else { c.label });
    assert(edit_events(projects, e, f, now) =~= Seq::<EventView>::empty());
}

// ------------------------------------------------------------- executable

fn retags_of(f: &EditFields) -> (r: bool)
    ensures
        r == retags(f@),
{
    assert(texts(f.add_tags@).len() == f.add_tags@.len());
    assert(texts(f.rm_tags@).len() == f.rm_tags@.len());
    f.label.is_some() || f.add_tags.len() > 0 || f.rm_tags.len() > 0
}

fn label_after(label: &str, f: &EditFields) -> (out: String)
    ensures
        out@ == new_label(label@, f@),
{
    let base = match &f.label {
        Some(l) => tags_of(l.as_str()),
        None => tags_of(label),
    };
    let more = tags_of_each(&f.add_tags);
    let drop = tags_of_each(&f.rm_tags);
    let wide = extend_with(base, &more);
    let left = leave_out(&wide, &drop);
    joined(&left, ",")
}

/// Whether the edit is refused, whichever card it is for. Gives the position
/// of the project the card moves to.
pub fn check_edit(projects: &Vec<Project>, f: &EditFields) -> (r: Result<Option<usize>, Refusal>)
    ensures
        match r {
            Ok(to) => edit_refusal(project_views(projects@), f@) is None && match to {
                Some(at) => at < projects@.len() && destination(project_views(projects@), f@) == Some(
                    projects@[at as int]@,
                ),
                None => destination(project_views(projects@), f@) is None,
            },
            Err(e) => edit_refusal(project_views(projects@), f@) == Some(e@),
        },
{
    match &f.title {
        Some(t) => {
            match check_title(t.as_str(), f.force) {
                Ok(()) => {},
                Err(e) => {
                    return Err(e);
                },
            }
        },
        None => {},
    }
    match f.priority {
        Some(p) => {
            match check_priority(p) {
                Ok(()) => {},
                Err(e) => {
                    return Err(e);
                },
            }
        },
        None => {},
    }
    match &f.outcome {
        Some(o) => {
            match check_outcome(o.as_str(), f.force) {
                Ok(()) => {},
                Err(e) => {
                    return Err(e);
                },
            }
        },
        None => {},
    }
    let to = match &f.move_to {
        Some(key) => match lookup(projects, key.as_str()) {
            Some(at) => {
                assert(project_views(projects@)[at as int] == projects@[at as int]@);
                Some(at)
            },
            None => {
                return Err(Refusal::NoProject(key.clone()));
            },
        },
        None => None,
    };
    if f.title.is_none() && !retags_of(f) && f.priority.is_none() && f.outcome.is_none() && f.status.is_none()
        && f.move_to.is_none() && f.notes.is_none() {
        return Err(Refusal::NothingToChange);
    }
    Ok(to)
}

fn push_name(v: &mut Vec<String>, changed: bool, name: &str)
    ensures
        texts(final(v)@) == with_name_if(texts(old(v)@), changed, name@),
{
    let ghost before = texts(v@);
    if changed {
        v.push(copy(name));
        assert(texts(v@) =~= before.push(name@));
    }
}

/// The names of the fields in which a card differs from what it was.
pub fn names_changed(was: &Card, is: &Card) -> (out: Vec<String>)
    ensures
        texts(out@) == changed_names(was@, is@),
{
    let mut v: Vec<String> = Vec::new();
    assert(texts(v@) =~= Seq::empty());
    push_name(&mut v, !same(is.title.as_str(), was.title.as_str()), "title");
    push_name(&mut v, !same(is.label.as_str(), was.label.as_str()), "label");
    push_name(&mut v, is.priority != was.priority, "priority");
    push_name(&mut v, !same(is.outcome.as_str(), was.outcome.as_str()), "outcome");
    push_name(&mut v, is.status != was.status, "status");
    let to = copy("project → ").concat(is.project.as_str());
    push_name(&mut v, is.project_id != was.project_id, to.as_str());
    push_name(&mut v, !same(is.notes.as_str(), was.notes.as_str()), "notes");
    v
}

fn log_title(card: &Card, f: &EditFields, log: &mut Vec<Event>, now: &str)
    ensures
        event_views(final(log)@) == event_views(old(log)@) + title_events(card@, f@, now@),
{
    match &f.title {
        Some(t) => {
            let t = trimmed(t.as_str());
            record_change(log, card.id, card.project_id, "title", card.title.as_str(), t.as_str(), f.by.as_str(), now);
        },
        None => {
            assert(event_views(log@) =~= event_views(log@) + Seq::empty());
        },
    }
}

fn log_label(card: &Card, f: &EditFields, log: &mut Vec<Event>, now: &str)
    ensures
        event_views(final(log)@) == event_views(old(log)@) + label_events(card@, f@, now@),
{
    if retags_of(f) {
        let l = label_after(card.label.as_str(), f);
        record_change(log, card.id, card.project_id, "label", card.label.as_str(), l.as_str(), f.by.as_str(), now);
    } else {
        assert(event_views(log@) =~= event_views(log@) + Seq::empty());
    }
}

fn log_priority(card: &Card, f: &EditFields, log: &mut Vec<Event>, now: &str)
    ensures
        event_views(final(log)@) == event_views(old(log)@) + priority_events(card@, f@, now@),
{
    match f.priority {
        Some(p) => {
            let before = decimal(card.priority as i64);
            let after = decimal(p as i64);
            record_change(
                log,
                card.id,
                card.project_id,
                "priority",
                before.as_str(),
                after.as_str(),
                f.by.as_str(),
                now,
            );
        },
        None => {
            assert(event_views(log@) =~= event_views(log@) + Seq::empty());
        },
    }
}

fn log_outcome(card: &Card, f: &EditFields, log: &mut Vec<Event>, now: &str)
    ensures
        event_views(final(log)@) == event_views(old(log)@) + outcome_events(card@, f@, now@),
{
    match &f.outcome {
        Some(o) => {
            record_change(
                log,
                card.id,
                card.project_id,
                "outcome",
                card.outcome.as_str(),
                o.as_str(),
                f.by.as_str(),
                now,
            );
        },
        None => {
            assert(event_views(log@) =~= event_views(log@) + Seq::empty());
        },
    }
}

fn log_status(card: &Card, f: &EditFields, log: &mut Vec<Event>, now: &str)
    ensures
        event_views(final(log)@) == event_views(old(log)@) + status_events(card@, f@, now@),
{
    let ghost start = event_views(log@);
    match f.status {
        Some(s) => {
            record_change(
                log,
                card.id,
                card.project_id,
                "status",
                card.status.as_str(),
                s.as_str(),
                f.by.as_str(),
                now,
            );
            record_freed(card, log, s, f.by.as_str(), now);
        },
        None => {},
    }
    assert(event_views(log@) =~= start + status_events(card@, f@, now@));
}

fn log_move(projects: &Vec<Project>, card: &Card, f: &EditFields, to: Option<usize>, log: &mut Vec<Event>, now: &str)
    requires
        match to {
            Some(at) => at < projects@.len() && destination(project_views(projects@), f@) == Some(
                projects@[at as int]@,
            ),
            None => destination(project_views(projects@), f@) is None,
        },
    ensures
        event_views(final(log)@) == event_views(old(log)@) + project_events(
            project_views(projects@),
            card@,
            f@,
            now@,
        ),
{
    match to {
        Some(at) => {
            let from = match by_id(projects, card.project_id) {
                Some(k) => {
                    assert(project_views(projects@)[k as int] == projects@[k as int]@);
                    projects[k].name.clone()
                },
                None => decimal(card.project_id),
            };
            record_change(
                log,
                card.id,
                card.project_id,
                "move",
                from.as_str(),
                projects[at].name.as_str(),
                f.by.as_str(),
                now,
            );
        },
        None => {
            assert(event_views(log@) =~= event_views(log@) + Seq::empty());
        },
    }
}

fn log_notes(card: &Card, f: &EditFields, log: &mut Vec<Event>, now: &str)
    ensures
        event_views(final(log)@) == event_views(old(log)@) + notes_events(card@, f@, now@),
{
    match &f.notes {
        Some(t) => {
            record_change(log, card.id, card.project_id, "notes", card.notes.as_str(), t.as_str(), f.by.as_str(), now);
        },
        None => {
            assert(event_views(log@) =~= event_views(log@) + Seq::empty());
        },
    }
}

/// Additions one after the other are one addition.
proof fn lemma_seven(
    s: Seq<EventView>,
    a: Seq<EventView>,
    b: Seq<EventView>,
    c: Seq<EventView>,
    d: Seq<EventView>,
    e: Seq<EventView>,
    f: Seq<EventView>,
    g: Seq<EventView>,
)
    ensures
        s + a + b + c + d + e + f + g == s + (a + b + c + d + e + f + g),
{
    assert(s + a + b + c + d + e + f + g =~= s + (a + b + c + d + e + f + g));
}

fn log_edit(projects: &Vec<Project>, card: &Card, f: &EditFields, to: Option<usize>, log: &mut Vec<Event>, now: &str)
    requires
        match to {
            Some(at) => at < projects@.len() && destination(project_views(projects@), f@) == Some(
                projects@[at as int]@,
            ),
            None => destination(project_views(projects@), f@) is None,
        },
    ensures
        event_views(final(log)@) == event_views(old(log)@) + edit_events(project_views(projects@), card@, f@, now@),
{
    proof {
        lemma_seven(
            event_views(log@),
            title_events(card@, f@, now@),
            label_events(card@, f@, now@),
            priority_events(card@, f@, now@),
            outcome_events(card@, f@, now@),
            status_events(card@, f@, now@),
            project_events(project_views(projects@), card@, f@, now@),
            notes_events(card@, f@, now@),
        );
    }
    log_title(card, f, log, now);
    log_label(card, f, log, now);
    log_priority(card, f, log, now);
    log_outcome(card, f, log, now);
    log_status(card, f, log, now);
    log_move(projects, card, f, to, log, now);
    log_notes(card, f, log, now);
}

/// Makes an edit that was checked.
pub fn make_edit(
    projects: &Vec<Project>,
    card: &mut Card,
    f: &EditFields,
    to: Option<usize>,
    log: &mut Vec<Event>,
    now: &str,
)
    requires
        match to {
            Some(at) => at < projects@.len() && destination(project_views(projects@), f@) == Some(
                projects@[at as int]@,
            ),
            None => destination(project_views(projects@), f@) is None,
        },
    ensures
        final(card)@ == edited(project_views(projects@), old(card)@, f@, now@),
        event_views(final(log)@) == event_views(old(log)@) + edit_events(
            project_views(projects@),
            old(card)@,
            f@,
            now@,
        ),
{
    let ghost pv = project_views(projects@);
    log_edit(projects, card, f, to, log, now);
    match &f.title {
        Some(t) => {
            card.title = trimmed(t.as_str());
        },
        None => {},
    }
    if retags_of(f) {
        card.label = label_after(card.label.as_str(), f);
    }
    match f.priority {
        Some(p) => {
            card.priority = p;
        },
        None => {},
    }
    match &f.outcome {
        Some(o) => {
            card.outcome = o.clone();
        },
        None => {},
    }
    match f.status {
        Some(s) => {
            card.status = s;
            if s.drops_claim() {
                card.claimed_by = String::new();
                card.claimed_at = String::new();
            }
        },
        None => {},
    }
    match to {
        Some(at) => {
            card.project_id = projects[at].id;
            card.project = projects[at].name.clone();
        },
        None => {},
    }
    card.updated_at = copy(now);
    assert(card@ =~= refielded(pv, old(card)@, f@, now@));
    match &f.notes {
        Some(text) => {
            card.notes = text.clone();
            card.entries = Vec::new();
            assert(note_views(card.entries@) =~= Seq::empty());
            reconcile(card);
        },
        None => {},
    }
}

/// Every field of one edit. Gives the names of the fields that changed and
/// whether the card moved to another project; a refused edit changes nothing.
pub fn apply_edit(projects: &Vec<Project>, card: &mut Card, f: &EditFields, log: &mut Vec<Event>, now: &str) -> (r:
    Result<(Vec<String>, bool), Refusal>)
    ensures
        ({
            let pv = project_views(projects@);
            match r {
                Ok((names, moved)) => {
                    &&& edit_refusal(pv, f@) is None
                    &&& texts(names@) == changed_names(old(card)@, final(card)@)
                    &&& moved == (final(card)@.project_id != old(card)@.project_id)
                    &&& final(card)@ == edited(pv, old(card)@, f@, now@)
                    &&& event_views(final(log)@) == event_views(old(log)@) + edit_events(pv, old(card)@, f@, now@)
                },
                Err(e) => edit_refusal(pv, f@) == Some(e@) && *final(card) == *old(card) && *final(log) == *old(log),
            }
        }),
{
    match check_edit(projects, f) {
        Ok(to) => {
            let was = card.clone();
            make_edit(projects, card, f, to, log, now);
            let moved = card.project_id != was.project_id;
            Ok((names_changed(&was, card), moved))
        },
        Err(e) => Err(e),
    }
}

} // verus!
