//! What happens to one card: it is claimed, kept, released, moved, re-ranked,
//! reaped, aged and deleted.

use vstd::prelude::*;

use crate::card::{in_range, Card, CardView};
use crate::events::{difference, event, event_views, record, record_change, Event, EventView};
use crate::notes::{noted, note_views, reconcile, reconciled, Note, NoteView};
use crate::number::{dec, decimal, law_decimal_reads_back};
use crate::order::{is_before, text_before};
use crate::refusal::{Refusal, RefusalView};
use crate::status::{frees, status_name, Status};
use crate::text::{blank, copy, same};

verus! {

// ------------------------------------------------------------- claiming

/// The card waits to be worked and nobody holds it.
pub open spec fn claimable(c: CardView) -> bool {
    (c.status == Status::New || c.status == Status::Ready) && c.claimed_by.len() == 0
}

/// Why the card cannot be claimed.
pub open spec fn claim_refusal(c: CardView) -> Option<RefusalView> {
    if claimable(c) {
        None
    } else if c.status == Status::InProgress || c.claimed_by.len() > 0 {
        Some(RefusalView::Contended(c.id, if c.claimed_by.len() == 0 { "?"@ } else { c.claimed_by }))
    } else {
        Some(RefusalView::NotClaimable(c.id, c.status))
    }
}

/// The card once `by` holds it.
pub open spec fn claimed(c: CardView, by: Seq<char>, now: Seq<char>) -> CardView {
    CardView { status: Status::InProgress, claimed_by: by, claimed_at: now, updated_at: now, ..c }
}

/// What a claim leaves in the log.
pub open spec fn claim_events(c: CardView, by: Seq<char>, now: Seq<char>) -> Seq<EventView> {
    seq![
        event(c.id, c.project_id, "status"@, status_name(c.status), "in_progress"@, by, now),
        event(c.id, c.project_id, "claim"@, ""@, by, by, now),
    ]
}

/// Claims the card for an agent.
pub fn claim(card: &mut Card, log: &mut Vec<Event>, by: &str, now: &str) -> (r: Result<(), Refusal>)
    ensures
        match r {
            Ok(()) => {
                &&& claim_refusal(old(card)@) is None
                &&& final(card)@ == claimed(old(card)@, by@, now@)
                &&& event_views(final(log)@) == event_views(old(log)@) + claim_events(old(card)@, by@, now@)
            },
            Err(e) => claim_refusal(old(card)@) == Some(e@) && *final(card) == *old(card) && *final(log) == *old(log),
        },
{
    let free = card.claimed_by.as_str().is_empty();
    if free && (card.status == Status::New || card.status == Status::Ready) {
        let ghost start = event_views(log@);
        record(log, card.id, card.project_id, "status", card.status.as_str(), "in_progress", by, now);
        record(log, card.id, card.project_id, "claim", "", by, by, now);
        assert(event_views(log@) =~= start + claim_events(card@, by@, now@));
        card.status = Status::InProgress;
        card.claimed_by = copy(by);
        card.claimed_at = copy(now);
        card.updated_at = copy(now);
        return Ok(());
    }
    if card.status == Status::InProgress || !free {
        let who = if free {
            copy("?")
        } else {
            card.claimed_by.clone()
        };
        return Err(Refusal::Contended(card.id, who));
    }
    Err(Refusal::NotClaimable(card.id, card.status))
}

/// Why the card cannot be released.
pub open spec fn release_refusal(c: CardView, by: Option<Seq<char>>) -> Option<RefusalView> {
    match by {
        Some(agent) => if c.status == Status::InProgress && c.claimed_by == agent {
            None
        } else {
            Some(RefusalView::NotReleased(c.id, c.status, c.claimed_by, agent))
        },
        None => if c.status == Status::InProgress {
            None
        } else {
            Some(RefusalView::NotInProgress(c.id, c.status))
        },
    }
}

/// The card once nobody holds it any more.
pub open spec fn released(c: CardView, now: Seq<char>) -> CardView {
    CardView { status: Status::Ready, claimed_by: Seq::empty(), claimed_at: Seq::empty(), updated_at: now, ..c }
}

/// What a release leaves in the log.
pub open spec fn release_events(c: CardView, who: Seq<char>, now: Seq<char>) -> Seq<EventView> {
    seq![
        event(c.id, c.project_id, "status"@, status_name(c.status), "ready"@, who, now),
        event(c.id, c.project_id, "release"@, c.claimed_by, ""@, who, now),
    ]
}

/// The agent named, or nobody.
pub open spec fn who(by: Option<Seq<char>>) -> Seq<char> {
    match by {
        Some(agent) => agent,
        None => ""@,
    }
}

/// Gives the card back. Where `by` names an agent, only that agent's claim
/// is released.
pub fn release(card: &mut Card, log: &mut Vec<Event>, by: Option<&str>, now: &str) -> (r: Result<(), Refusal>)
    ensures
        ({
            let agent = crate::notes::opt_text(by);
            match r {
                Ok(()) => {
                    &&& release_refusal(old(card)@, agent) is None
                    &&& final(card)@ == released(old(card)@, now@)
                    &&& event_views(final(log)@) == event_views(old(log)@) + release_events(
                        old(card)@,
                        who(agent),
                        now@,
                    )
                },
                Err(e) => release_refusal(old(card)@, agent) == Some(e@) && *final(card) == *old(card) && *final(log)
                    == *old(log),
            }
        }),
{
    let agent = match by {
        Some(a) => {
            if !(card.status == Status::InProgress && same(card.claimed_by.as_str(), a)) {
                return Err(Refusal::NotReleased(card.id, card.status, card.claimed_by.clone(), copy(a)));
            }
            a
        },
        None => {
            if card.status != Status::InProgress {
                return Err(Refusal::NotInProgress(card.id, card.status));
            }
            ""
        },
    };
    let ghost start = event_views(log@);
    record(log, card.id, card.project_id, "status", card.status.as_str(), "ready", agent, now);
    record(log, card.id, card.project_id, "release", card.claimed_by.as_str(), "", agent, now);
    assert(event_views(log@) =~= start + release_events(card@, agent@, now@));
    free_up(card, now);
    Ok(())
}

fn free_up(card: &mut Card, now: &str)
    ensures
        final(card)@ == released(old(card)@, now@),
{
    card.status = Status::Ready;
    card.claimed_by = String::new();
    card.claimed_at = String::new();
    card.updated_at = copy(now);
}

/// The claim is this agent's, and alive.
pub open spec fn holds(c: CardView, by: Seq<char>) -> bool {
    c.status == Status::InProgress && c.claimed_by == by
}

/// Keeps a claim alive. `false`, and nothing done, where the agent does not
/// hold the card any more.
pub fn heartbeat(card: &mut Card, by: &str, now: &str) -> (kept: bool)
    ensures
        kept == holds(old(card)@, by@),
        final(card)@ == if kept {
            CardView { claimed_at: now@, ..old(card)@ }
        } else {
            old(card)@
        },
{
    if card.status == Status::InProgress && same(card.claimed_by.as_str(), by) {
        card.claimed_at = copy(now);
        true
    } else {
        false
    }
}

// ------------------------------------------------------------- reaping

/// The claim has not been renewed since the cutoff.
pub open spec fn stale(c: CardView, cutoff: Seq<char>) -> bool {
    c.status == Status::InProgress && c.claimed_at.len() > 0 && !text_before(cutoff, c.claimed_at)
}

/// The note that says why a claim was taken back.
pub open spec fn reap_note(c: CardView, now: Seq<char>) -> NoteView {
    NoteView {
        id: 0,
        kind: "reaped"@,
        author: Seq::empty(),
        body: "claim by "@ + c.claimed_by + " released: idle since "@ + c.claimed_at + " UTC"@,
        commit_sha: Seq::empty(),
        commit_subject: Seq::empty(),
        created_at: now,
    }
}

/// The card once its claim is taken back.
pub open spec fn reaped(c: CardView, now: Seq<char>) -> CardView {
    noted(released(c, now), reap_note(c, now), now)
}

/// What taking a claim back leaves in the log.
pub open spec fn reap_events(c: CardView, now: Seq<char>) -> Seq<EventView> {
    seq![
        event(c.id, c.project_id, "status"@, "in_progress"@, "ready"@, "reap"@, now),
        event(c.id, c.project_id, "reap"@, c.claimed_by, ""@, "reap"@, now),
    ]
}

/// Whether the claim has not been renewed since the cutoff.
pub fn is_stale(card: &Card, cutoff: &str) -> (r: bool)
    ensures
        r == stale(card@, cutoff@),
{
    card.status == Status::InProgress && !card.claimed_at.as_str().is_empty() && !is_before(
        cutoff,
        card.claimed_at.as_str(),
    )
}

/// Takes a claim back, with a note that says why.
pub fn reap(card: &mut Card, log: &mut Vec<Event>, now: &str)
    ensures
        final(card)@ == reaped(old(card)@, now@),
        event_views(final(log)@) == event_views(old(log)@) + reap_events(old(card)@, now@),
{
    let ghost start = event_views(log@);
    record(log, card.id, card.project_id, "status", "in_progress", "ready", "reap", now);
    record(log, card.id, card.project_id, "reap", card.claimed_by.as_str(), "", "reap", now);
    assert(event_views(log@) =~= start + reap_events(card@, now@));
    let body = copy("claim by ").concat(card.claimed_by.as_str()).concat(" released: idle since ").concat(
        card.claimed_at.as_str(),
    ).concat(" UTC");
    let n = Note {
        id: 0,
        kind: copy("reaped"),
        author: String::new(),
        body,
        commit_sha: String::new(),
        commit_subject: String::new(),
        created_at: copy(now),
    };
    assert(n@ =~= reap_note(card@, now@));
    free_up(card, now);
    let _added = crate::notes::add(card, n, false, now);
}

// ------------------------------------------------------------- moving

/// The card once its status is set. An empty outcome keeps the one there.
pub open spec fn moved(c: CardView, status: Status, outcome: Seq<char>, now: Seq<char>) -> CardView {
    CardView {
        status,
        outcome: if outcome.len() == 0 { c.outcome } else { outcome },
        claimed_by: if frees(status) { Seq::empty() } else { c.claimed_by },
        claimed_at: if frees(status) { Seq::empty() } else { c.claimed_at },
        updated_at: now,
        ..c
    }
}

/// What setting a status leaves in the log about the claim.
pub open spec fn freed_events(c: CardView, status: Status, by: Seq<char>, now: Seq<char>) -> Seq<EventView> {
    if frees(status) && c.claimed_by.len() > 0 {
        seq![event(c.id, c.project_id, "release"@, c.claimed_by, ""@, by, now)]
    } else {
        Seq::empty()
    }
}

/// What setting a status leaves in the log.
pub open spec fn move_events(c: CardView, status: Status, outcome: Seq<char>, by: Seq<char>, now: Seq<char>) -> Seq<
    EventView,
> {
    difference(c.id, c.project_id, "status"@, status_name(c.status), status_name(status), by, now) + freed_events(
        c,
        status,
        by,
        now,
    ) + if outcome.len() == 0 {
        Seq::empty()
    } else {
        difference(c.id, c.project_id, "outcome"@, c.outcome, outcome, by, now)
    }
}

/// Sets the status, and the outcome where one is given. Leaving
/// `in_progress` drops the claim.
pub fn set_status(card: &mut Card, log: &mut Vec<Event>, status: Status, outcome: &str, by: &str, now: &str)
    ensures
        final(card)@ == moved(old(card)@, status, outcome@, now@),
        event_views(final(log)@) == event_views(old(log)@) + move_events(old(card)@, status, outcome@, by@, now@),
{
    let ghost start = event_views(log@);
    let ghost a = difference(
        card.id,
        card.project_id,
        "status"@,
        status_name(card.status),
        status_name(status),
        by@,
        now@,
    );
    let ghost b = freed_events(card@, status, by@, now@);
    record_change(log, card.id, card.project_id, "status", card.status.as_str(), status.as_str(), by, now);
    record_freed(card, log, status, by, now);
    assert(event_views(log@) =~= start + (a + b));
    if !outcome.is_empty() {
        record_change(log, card.id, card.project_id, "outcome", card.outcome.as_str(), outcome, by, now);
        card.outcome = copy(outcome);
    }
    assert(event_views(log@) =~= start + move_events(old(card)@, status, outcome@, by@, now@));
    card.status = status;
    if status.drops_claim() {
        card.claimed_by = String::new();
        card.claimed_at = String::new();
    }
    card.updated_at = copy(now);
}

/// Notes that a claim was dropped, where one was.
pub fn record_freed(card: &Card, log: &mut Vec<Event>, status: Status, by: &str, now: &str)
    ensures
        event_views(final(log)@) == event_views(old(log)@) + freed_events(card@, status, by@, now@),
{
    let ghost start = event_views(log@);
    if status.drops_claim() && !card.claimed_by.as_str().is_empty() {
        record(log, card.id, card.project_id, "release", card.claimed_by.as_str(), "", by, now);
    }
    assert(event_views(log@) =~= start + freed_events(card@, status, by@, now@));
}

/// The card at another priority.
pub open spec fn ranked_at(c: CardView, priority: i32, now: Seq<char>) -> CardView {
    CardView { priority, updated_at: now, ..c }
}

/// What re-ranking leaves in the log.
pub open spec fn rank_events(c: CardView, priority: i32, by: Seq<char>, now: Seq<char>) -> Seq<EventView> {
    difference(c.id, c.project_id, "priority"@, dec(c.priority as int), dec(priority as int), by, now)
}

/// Sets the priority.
pub fn set_priority(card: &mut Card, log: &mut Vec<Event>, priority: i32, by: &str, now: &str)
    ensures
        final(card)@ == ranked_at(old(card)@, priority, now@),
        event_views(final(log)@) == event_views(old(log)@) + rank_events(old(card)@, priority, by@, now@),
{
    let before = decimal(card.priority as i64);
    let after = decimal(priority as i64);
    record_change(log, card.id, card.project_id, "priority", before.as_str(), after.as_str(), by, now);
    card.priority = priority;
    card.updated_at = copy(now);
}

// ------------------------------------------------------------- ageing

/// A priority taken down, but not below 0.
pub open spec fn aged(priority: int, amount: int) -> int {
    if priority - amount < 0 {
        0
    } else {
        priority - amount
    }
}

/// The card once it has aged.
pub open spec fn decayed(c: CardView, amount: int, now: Seq<char>) -> CardView {
    CardView { priority: aged(c.priority as int, amount) as i32, updated_at: now, ..c }
}

/// What ageing leaves in the log: the change of priority, where it changed.
pub open spec fn decay_events(c: CardView, amount: int, now: Seq<char>) -> Seq<EventView> {
    rank_events(c, decayed(c, amount, now).priority, ""@, now)
}

/// Takes the priority down, but not below 0.
pub fn decay(card: &mut Card, log: &mut Vec<Event>, amount: i32, now: &str)
    requires
        amount >= 0,
    ensures
        final(card)@ == decayed(old(card)@, amount as int, now@),
        event_views(final(log)@) == event_views(old(log)@) + decay_events(old(card)@, amount as int, now@),
{
    let p: i64 = card.priority as i64 - amount as i64;
    let left: i32 = if p < 0 {
        0
    } else {
        p as i32
    };
    set_priority(card, log, left, "", now);
}

// ------------------------------------------------------------- deleting

/// One note, as the record of a deleted card tells it.
pub open spec fn obituary_note(n: NoteView) -> Seq<char> {
    let author = if n.author.len() == 0 { Seq::empty() } else { " "@ + n.author };
    "\nnote "@ + n.created_at + " ["@ + n.kind + "]"@ + author + ": "@ + n.body
}

/// The notes, one after the other.
pub open spec fn obituary_notes(entries: Seq<NoteView>) -> Seq<char>
    decreases entries.len(),
{
    if entries.len() == 0 {
        Seq::empty()
    } else {
        obituary_notes(entries.drop_last()) + obituary_note(entries.last())
    }
}

/// Everything a card said, for the record of its deletion.
pub open spec fn obituary(c: CardView) -> Seq<char> {
    let label = if c.label.len() == 0 { Seq::empty() } else { "\nlabel: "@ + c.label };
    let outcome = if c.outcome.len() == 0 { Seq::empty() } else { "\noutcome: "@ + c.outcome };
    "title: "@ + c.title + "\nstatus: "@ + status_name(c.status) + "\npriority: "@ + dec(c.priority as int) + label
        + outcome + obituary_notes(reconciled(c).entries)
}

/// Why the card is not deleted.
pub open spec fn delete_refusal(c: CardView, force: bool) -> Option<RefusalView> {
    if c.claimed_by.len() > 0 && !force {
        Some(RefusalView::ClaimedCard(c.id, c.claimed_by))
    } else {
        None
    }
}

/// What a deletion leaves in the log.
pub open spec fn delete_event(c: CardView, why: Seq<char>, by: Seq<char>, now: Seq<char>) -> EventView {
    event(c.id, c.project_id, "deleted"@, obituary(c), why, by, now)
}

fn tell_note(n: &Note) -> (out: String)
    ensures
        out@ == obituary_note(n@),
{
    let author = if n.author.as_str().is_empty() {
        String::new()
    } else {
        copy(" ").concat(n.author.as_str())
    };
    copy("\nnote ").concat(n.created_at.as_str()).concat(" [").concat(n.kind.as_str()).concat("]").concat(
        author.as_str(),
    ).concat(": ").concat(n.body.as_str())
}

/// Everything a card said, for the record of its deletion.
pub fn obituary_of(card: &Card) -> (out: String)
    ensures
        out@ == obituary(card@),
{
    let mut whole = card.clone();
    reconcile(&mut whole);
    let ghost all = note_views(whole.entries@);
    let label = if card.label.as_str().is_empty() {
        String::new()
    } else {
        copy("\nlabel: ").concat(card.label.as_str())
    };
    let outcome = if card.outcome.as_str().is_empty() {
        String::new()
    } else {
        copy("\noutcome: ").concat(card.outcome.as_str())
    };
    let head = copy("title: ").concat(card.title.as_str()).concat("\nstatus: ").concat(card.status.as_str()).concat(
        "\npriority: ",
    ).concat(decimal(card.priority as i64).as_str()).concat(label.as_str()).concat(outcome.as_str());
    let mut told = String::new();
    let mut i: usize = 0;
    assert(obituary_notes(all.take(0)) =~= Seq::empty());
    while i < whole.entries.len()
        invariant
            i <= whole.entries@.len(),
            all == note_views(whole.entries@),
            told@ == obituary_notes(all.take(i as int)),
        decreases whole.entries.len() - i,
    {
        assert(all.take(i + 1).drop_last() =~= all.take(i as int));
        assert(all.take(i + 1).last() == whole.entries@[i as int]@);
        told = told.concat(tell_note(&whole.entries[i]).as_str());
        i = i + 1;
    }
    assert(all.take(i as int) =~= all);
    head.concat(told.as_str())
}

/// Whether the card may be deleted: a claimed one only when forced.
pub fn check_delete(card: &Card, force: bool) -> (r: Result<(), Refusal>)
    ensures
        match r {
            Ok(()) => delete_refusal(card@, force) is None,
            Err(e) => delete_refusal(card@, force) == Some(e@),
        },
{
    if !card.claimed_by.as_str().is_empty() && !force {
        return Err(Refusal::ClaimedCard(card.id, card.claimed_by.clone()));
    }
    Ok(())
}

// ------------------------------------------------------------- laws

/// Law: a card that one agent has claimed is contended for every other: two
/// agents cannot hold one card.
pub proof fn law_claim_excludes(c: CardView, by: Seq<char>, now: Seq<char>)
    requires
        !blank(by),
    ensures
        claim_refusal(claimed(c, by, now)) == Some(RefusalView::Contended(c.id, by)),
{
    assert(by.len() > 0);
}

/// Law: the agent that claimed a card can release it, and nobody else by
/// name; the card then can be claimed again, and only its status, its claim
/// and its time of change were touched.
pub proof fn law_release_undoes_claim(c: CardView, by: Seq<char>, other: Seq<char>, t: Seq<char>, now: Seq<char>)
    requires
        claimable(c),
        other != by,
    ensures
        release_refusal(claimed(c, by, t), Some(by)) is None,
        release_refusal(claimed(c, by, t), Some(other)) is Some,
        claimable(released(claimed(c, by, t), now)),
        released(claimed(c, by, t), now) == (CardView {
            status: Status::Ready,
            claimed_at: Seq::empty(),
            updated_at: now,
            ..c
        }),
{
    assert(c.claimed_by =~= Seq::empty());
}

/// Law: a claim kept alive after the cutoff is not stale, whatever it was
/// before.
pub proof fn law_heartbeat_defers_reaping(c: CardView, now: Seq<char>, cutoff: Seq<char>)
    requires
        text_before(cutoff, now),
    ensures
        !stale(CardView { claimed_at: now, ..c }, cutoff),
{
}

/// Law: a reaped card can be claimed again, and its last note says whose
/// claim was taken back.
pub proof fn law_reaped_card_is_free(c: CardView, now: Seq<char>)
    ensures
        claimable(reaped(c, now)),
        reaped(c, now).entries.last() == reap_note(c, now),
        !stale(reaped(c, now), now),
{
}

/// Law: a card set to any status but `in_progress` is held by nobody.
pub proof fn law_leaving_frees(c: CardView, status: Status, outcome: Seq<char>, now: Seq<char>)
    requires
        status != Status::InProgress,
    ensures
        moved(c, status, outcome, now).claimed_by.len() == 0,
        moved(c, status, outcome, now).claimed_at.len() == 0,
{
}

/// Law: ageing keeps a priority in its range, and never raises it.
pub proof fn law_decay_stays_in_range(c: CardView, amount: int, now: Seq<char>)
    requires
        in_range(c.priority),
        amount >= 0,
    ensures
        in_range(decayed(c, amount, now).priority),
        decayed(c, amount, now).priority <= c.priority,
{
}

/// Law: ageing that changes a priority leaves one event that tells the
/// change, and ageing that changes none leaves nothing.
pub proof fn law_decay_is_logged(c: CardView, amount: int, now: Seq<char>)
    ensures
        ({
            let left = decayed(c, amount, now).priority;
            decay_events(c, amount, now) == if left == c.priority {
                Seq::empty()
            } else {
                seq![
                    event(c.id, c.project_id, "priority"@, dec(c.priority as int), dec(left as int), ""@, now),
                ]
            }
        }),
{
    law_decimal_reads_back(c.priority as int);
    law_decimal_reads_back(decayed(c, amount, now).priority as int);
}

/// Law: ageing twice is ageing once by the sum.
pub proof fn law_decay_adds_up(c: CardView, a: int, b: int, t: Seq<char>, now: Seq<char>)
    requires
        in_range(c.priority),
        a >= 0,
        b >= 0,
    ensures
        decayed(decayed(c, a, t), b, now) == decayed(c, a + b, now),
{
}

} // verus!
