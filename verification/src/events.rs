//! The audit trail: one row for each change to a card.
//!
//! Notes say what an agent chose to write down; events say what happened to
//! the card, who did it and when. Rows are only ever added, and they outlive
//! the card.

use vstd::prelude::*;

use crate::number::{align_left, aligned_left};
use crate::text::{chars_of, copy, part, replace_char, replaced_char};

verus! {

/// One change. `before` and `after` are free text.
#[derive(Debug, PartialEq, Eq)]
pub struct Event {
    /// 0 until the row is stored.
    pub id: i64,
    pub card_id: i64,
    pub project_id: i64,
    pub kind: String,
    pub before: String,
    pub after: String,
    pub by: String,
    pub at: String,
}

/// What an event says.
#[verifier::ext_equal]
pub struct EventView {
    pub id: i64,
    pub card_id: i64,
    pub project_id: i64,
    pub kind: Seq<char>,
    pub before: Seq<char>,
    pub after: Seq<char>,
    pub by: Seq<char>,
    pub at: Seq<char>,
}

impl View for Event {
    type V = EventView;

    open spec fn view(&self) -> EventView {
        EventView {
            id: self.id,
            card_id: self.card_id,
            project_id: self.project_id,
            kind: self.kind@,
            before: self.before@,
            after: self.after@,
            by: self.by@,
            at: self.at@,
        }
    }
}

/// What each of several events says.
pub open spec fn event_views(v: Seq<Event>) -> Seq<EventView> {
    v.map_values(|e: Event| e@)
}

/// The event that a change leaves.
pub open spec fn event(
    card_id: i64,
    project_id: i64,
    kind: Seq<char>,
    before: Seq<char>,
    after: Seq<char>,
    by: Seq<char>,
    at: Seq<char>,
) -> EventView {
    EventView { id: 0, card_id, project_id, kind, before, after, by, at }
}

/// The event of a change, or none where nothing changed.
pub open spec fn difference(
    card_id: i64,
    project_id: i64,
    kind: Seq<char>,
    before: Seq<char>,
    after: Seq<char>,
    by: Seq<char>,
    at: Seq<char>,
) -> Seq<EventView> {
    if before == after {
        Seq::empty()
    } else {
        seq![event(card_id, project_id, kind, before, after, by, at)]
    }
}

/// The events of one card, oldest first.
pub open spec fn history(log: Seq<EventView>, card_id: i64) -> Seq<EventView>
    decreases log.len(),
{
    if log.len() == 0 {
        log
    } else if log.last().card_id == card_id {
        history(log.drop_last(), card_id).push(log.last())
    } else {
        history(log.drop_last(), card_id)
    }
}

/// A text on one line, cut when it is long.
pub open spec fn on_one_line(s: Seq<char>) -> Seq<char> {
    let flat = replace_char(s, '\n', " | "@);
    if flat.len() > 160 {
        flat.take(157) + "..."@
    } else {
        flat
    }
}

/// What changed, as a line says it.
pub open spec fn change_text(before: Seq<char>, after: Seq<char>) -> Seq<char> {
    if before.len() == 0 && after.len() == 0 {
        Seq::empty()
    } else if before.len() == 0 {
        "  → "@ + on_one_line(after)
    } else if after.len() == 0 {
        "  "@ + on_one_line(before) + " →"@
    } else {
        "  "@ + on_one_line(before) + " → "@ + on_one_line(after)
    }
}

/// The line that tells an event.
pub open spec fn event_line(e: EventView) -> Seq<char> {
    let who = if e.by.len() == 0 { Seq::empty() } else { "  by "@ + e.by };
    e.at + "  "@ + align_left(e.kind, 10) + change_text(e.before, e.after) + who
}

/// Law: what a log already holds of a card stays, in its place, whatever is
/// added after it.
pub proof fn law_history_only_grows(log: Seq<EventView>, more: Seq<EventView>, card_id: i64)
    ensures
        history(log + more, card_id) == history(log, card_id) + history(more, card_id),
    decreases more.len(),
{
    if more.len() == 0 {
        assert(log + more =~= log);
        assert(history(log, card_id) + history(more, card_id) =~= history(log, card_id));
    } else {
        law_history_only_grows(log, more.drop_last(), card_id);
        assert((log + more).drop_last() =~= log + more.drop_last());
        assert((log + more).last() == more.last());
        assert(history(log + more, card_id) =~= history(log, card_id) + history(more, card_id));
    }
}

impl Clone for Event {
    fn clone(&self) -> (r: Event)
        ensures
            r@ == self@,
    {
        Event {
            id: self.id,
            card_id: self.card_id,
            project_id: self.project_id,
            kind: self.kind.clone(),
            before: self.before.clone(),
            after: self.after.clone(),
            by: self.by.clone(),
            at: self.at.clone(),
        }
    }
}

/// Appends one event.
pub fn record(
    log: &mut Vec<Event>,
    card_id: i64,
    project_id: i64,
    kind: &str,
    before: &str,
    after: &str,
    by: &str,
    now: &str,
)
    ensures
        event_views(final(log)@) == event_views(old(log)@).push(
            event(card_id, project_id, kind@, before@, after@, by@, now@),
        ),
{
    let ghost start = event_views(log@);
    log.push(
        Event {
            id: 0,
            card_id,
            project_id,
            kind: copy(kind),
            before: copy(before),
            after: copy(after),
            by: copy(by),
            at: copy(now),
        },
    );
    assert(event_views(log@) =~= start.push(event(card_id, project_id, kind@, before@, after@, by@, now@)));
}

/// Appends one event where the value changed.
pub fn record_change(
    log: &mut Vec<Event>,
    card_id: i64,
    project_id: i64,
    kind: &str,
    before: &str,
    after: &str,
    by: &str,
    now: &str,
)
    ensures
        event_views(final(log)@) == event_views(old(log)@) + difference(
            card_id,
            project_id,
            kind@,
            before@,
            after@,
            by@,
            now@,
        ),
{
    let ghost start = event_views(log@);
    if !crate::text::same(before, after) {
        record(log, card_id, project_id, kind, before, after, by, now);
    }
    assert(event_views(log@) =~= start + difference(card_id, project_id, kind@, before@, after@, by@, now@));
}

/// Every event of one card, oldest first.
pub fn list(log: &Vec<Event>, card_id: i64) -> (out: Vec<Event>)
    ensures
        event_views(out@) == history(event_views(log@), card_id),
{
    let ghost all = event_views(log@);
    let mut out: Vec<Event> = Vec::new();
    let mut i: usize = 0;
    assert(event_views(out@) =~= history(all.take(0), card_id));
    while i < log.len()
        invariant
            i <= log@.len(),
            all == event_views(log@),
            event_views(out@) == history(all.take(i as int), card_id),
        decreases log.len() - i,
    {
        assert(all.take(i + 1).drop_last() =~= all.take(i as int));
        assert(all.take(i + 1).last() == log@[i as int]@);
        if log[i].card_id == card_id {
            let ghost start = event_views(out@);
            out.push(log[i].clone());
            assert(event_views(out@) =~= start.push(log@[i as int]@));
        }
        i = i + 1;
    }
    assert(all.take(i as int) =~= all);
    out
}

fn one_line(s: &str) -> (out: String)
    ensures
        out@ == on_one_line(s@),
{
    let flat = replaced_char(s, '\n', " | ");
    let v = chars_of(flat.as_str());
    if v.len() > 160 {
        assert(v@.subrange(0, 157) =~= flat@.take(157));
        part(&v, 0, 157).concat("...")
    } else {
        flat
    }
}

fn change_of(before: &str, after: &str) -> (out: String)
    ensures
        out@ == change_text(before@, after@),
{
    if before.is_empty() && after.is_empty() {
        String::new()
    } else if before.is_empty() {
        copy("  → ").concat(one_line(after).as_str())
    } else if after.is_empty() {
        copy("  ").concat(one_line(before).as_str()).concat(" →")
    } else {
        copy("  ").concat(one_line(before).as_str()).concat(" → ").concat(one_line(after).as_str())
    }
}

/// One line for one event, the shape `bl history` prints.
pub fn render_line(e: &Event) -> (out: String)
    ensures
        out@ == event_line(e@),
{
    let who = if e.by.as_str().is_empty() {
        String::new()
    } else {
        copy("  by ").concat(e.by.as_str())
    };
    let change = change_of(e.before.as_str(), e.after.as_str());
    copy(e.at.as_str()).concat("  ").concat(aligned_left(e.kind.as_str(), 10).as_str()).concat(
        change.as_str(),
    ).concat(who.as_str())
}

} // verus!
