//! What each command that writes does to a store, told field by field: what
//! the card is afterwards, what stays, and what the log says.

use vstd::prelude::*;

use crate::backlog::{
    claim_card_refusal, claimed_in, heartbeat_refusal, rank_refusal, release_card_refusal, status_refusal, with_card,
    BacklogView,
};
use crate::card::{has_card, lemma_position, position, CardView};
use crate::events::EventView;
use crate::filing::{batch, created_in, deleted_in, draft_refusal, filed, fresh, titled, DraftView, Filed};
use crate::lifecycle::{
    claim_refusal, delete_refusal, move_events, moved, obituary, obituary_note, obituary_notes, rank_events,
    ranked_at, release_events, released, stale, who,
};
use crate::links::{without_card, LinkView};
use crate::notes::{adopted, mirror, parsed, reconciled, rendered, NoteView};
use crate::number::{dec, law_decimal_reads_back};
use crate::order::text_before;
use crate::project::ProjectView;
use crate::refusal::RefusalView;
use crate::select::Scope;
use crate::status::{law_status_names_differ, status_name, Status};
use crate::sweep::{aged_store, ages, decay_log, doomed_order, swept};
use crate::tags::{law_normal_idempotent, normal, tags};
use crate::text::{blank, contains, lines, nonblank, occurs_at, split, starts_with, trim, Sep};

verus! {

/// One card of the store is now another; all else but the log is as it was,
/// and the log only grew.
pub open spec fn only_card_changed(b: BacklogView, after: BacklogView, at: int) -> bool {
    &&& after.cards.len() == b.cards.len()
    &&& forall|i: int| 0 <= i < b.cards.len() && i != at ==> #[trigger] after.cards[i] == b.cards[i]
    &&& after.links == b.links
    &&& after.projects == b.projects
    &&& after.last_id == b.last_id
    &&& after.last_project == b.last_project
    &&& after.events.len() >= b.events.len()
    &&& forall|i: int| 0 <= i < b.events.len() ==> #[trigger] after.events[i] == b.events[i]
}

/// The event tells that something of this card went from one value to
/// another.
pub open spec fn tells(
    e: EventView,
    c: CardView,
    kind: Seq<char>,
    before: Seq<char>,
    after: Seq<char>,
    by: Seq<char>,
    at: Seq<char>,
) -> bool {
    &&& e.card_id == c.id
    &&& e.project_id == c.project_id
    &&& e.kind == kind
    &&& e.before == before
    &&& e.after == after
    &&& e.by == by
    &&& e.at == at
}

// ------------------------------------------------------------- claims

/// Law: an agent with a name can claim a card exactly where it is there,
/// waits to be worked and is held by nobody.
pub proof fn law_who_can_claim(b: BacklogView, id: i64, by: Seq<char>)
    ensures
        claim_card_refusal(b, id, by) is None <==> !blank(by) && has_card(b.cards, id) && b.cards[position(
            b.cards,
            id,
        )].claimed_by.len() == 0 && (b.cards[position(b.cards, id)].status == Status::New || b.cards[position(
            b.cards,
            id,
        )].status == Status::Ready),
        !blank(by) && !has_card(b.cards, id) ==> claim_card_refusal(b, id, by) == Some(RefusalView::NotFound(id)),
        blank(by) ==> claim_card_refusal(b, id, by) == Some(RefusalView::NoAgent),
{
}

/// Law: of a claim that is refused the agent hears who holds the card, or
/// that it is not to be worked.
pub proof fn law_refused_claim_says_why(c: CardView)
    ensures
        c.claimed_by.len() > 0 ==> claim_refusal(c) == Some(RefusalView::Contended(c.id, c.claimed_by)),
        c.claimed_by.len() == 0 && c.status == Status::InProgress ==> claim_refusal(c) == Some(
            RefusalView::Contended(c.id, "?"@),
        ),
        c.claimed_by.len() == 0 && c.status == Status::Done ==> claim_refusal(c) == Some(
            RefusalView::NotClaimable(c.id, Status::Done),
        ),
{
}

/// Law: a claimed card is in progress in the agent's hands from now on, is
/// otherwise the card it was, and the log tells both changes.
pub proof fn law_claim_gives_the_card(b: BacklogView, id: i64, by: Seq<char>, now: Seq<char>)
    requires
        claim_card_refusal(b, id, by) is None,
    ensures
        ({
            let at = position(b.cards, id);
            let after = claimed_in(b, at, by, now);
            let c = b.cards[at];
            let n = b.events.len() as int;
            &&& only_card_changed(b, after, at)
            &&& c.id == id
            &&& after.cards[at] == (CardView {
                status: Status::InProgress,
                claimed_by: by,
                claimed_at: now,
                updated_at: now,
                ..c
            })
            &&& after.events.len() == n + 2
            &&& tells(after.events[n], c, "status"@, status_name(c.status), "in_progress"@, by, now)
            &&& tells(after.events[n + 1], c, "claim"@, ""@, by, by, now)
        }),
{
    lemma_position(b.cards, id);
}

/// Law: a card in progress is released, by its agent where one is named;
/// nothing else is.
pub proof fn law_who_can_release(b: BacklogView, id: i64, by: Option<Seq<char>>)
    ensures
        release_card_refusal(b, id, by) is None <==> has_card(b.cards, id) && b.cards[position(b.cards, id)].status
            == Status::InProgress && (by is Some ==> b.cards[position(b.cards, id)].claimed_by == by->0),
{
}

/// Law: a released card is ready and in nobody's hands, and is otherwise the
/// card it was; the log tells whose claim it was.
pub proof fn law_release_gives_the_card_back(b: BacklogView, id: i64, by: Option<Seq<char>>, now: Seq<char>)
    requires
        release_card_refusal(b, id, by) is None,
    ensures
        ({
            let at = position(b.cards, id);
            let c = b.cards[at];
            let after = with_card(b, at, released(c, now), release_events(c, who(by), now));
            let n = b.events.len() as int;
            let actor = if by is Some { by->0 } else { ""@ };
            &&& only_card_changed(b, after, at)
            &&& after.cards[at] == (CardView {
                status: Status::Ready,
                claimed_by: Seq::empty(),
                claimed_at: Seq::empty(),
                updated_at: now,
                ..c
            })
            &&& after.events.len() == n + 2
            &&& tells(after.events[n], c, "status"@, "in_progress"@, "ready"@, actor, now)
            &&& tells(after.events[n + 1], c, "release"@, c.claimed_by, ""@, actor, now)
        }),
{
    lemma_position(b.cards, id);
}

/// Law: a claim is kept alive only by the agent that holds the card.
pub proof fn law_who_can_keep_a_claim(b: BacklogView, id: i64, by: Seq<char>)
    ensures
        heartbeat_refusal(b, id, by) is None <==> has_card(b.cards, id) && b.cards[position(b.cards, id)].status
            == Status::InProgress && b.cards[position(b.cards, id)].claimed_by == by,
        heartbeat_refusal(b, id, by) is Some ==> heartbeat_refusal(b, id, by) == Some(RefusalView::LostClaim(id, by)),
{
}

// ------------------------------------------------------------- reaping

/// Law: whether a claim is stale is a matter of its status and the time of
/// the claim alone: the card is in progress, and the time is given and not
/// after the cutoff. Nothing else that happened to the card counts.
pub proof fn law_stale_is_by_claim_time(c: CardView, d: CardView, cutoff: Seq<char>)
    ensures
        stale(c, cutoff) <==> c.status == Status::InProgress && c.claimed_at.len() > 0 && !text_before(
            cutoff,
            c.claimed_at,
        ),
        c.status == d.status && c.claimed_at == d.claimed_at ==> stale(c, cutoff) == stale(d, cutoff),
{
}

/// Law: a later cutoff spares no claim that an earlier one takes back.
pub proof fn law_later_cutoff_takes_more(c: CardView, cutoff: Seq<char>, later: Seq<char>)
    requires
        stale(c, cutoff),
        text_before(cutoff, later),
    ensures
        stale(c, later),
{
    if text_before(later, c.claimed_at) {
        crate::order::lemma_text_before_transitive(cutoff, later, c.claimed_at);
    }
}

/// Law: a reap releases every card in progress that lies in the scope and
/// whose claim is not after the cutoff, whatever else changed on it; it is
/// then ready and in nobody's hands, says in its last note whose claim was
/// taken back and since when it was idle, and is otherwise the card it was.
/// Every other card stays as it is.
pub proof fn law_reap_releases_stale_claims(b: BacklogView, scope: Scope, cutoff: Seq<char>, now: Seq<char>, i: int)
    requires
        0 <= i < b.cards.len(),
    ensures
        ({
            let c = b.cards[i];
            let d = swept(b, scope, cutoff, now).cards[i];
            let asked = match scope {
                Scope::Project(p) => c.project_id == p,
                Scope::ActiveProjects => exists|k: int|
                    0 <= k < b.projects.len() && (#[trigger] b.projects[k]).id == c.project_id && b.projects[k].active,
                Scope::Everything => true,
            };
            let idle = c.status == Status::InProgress && c.claimed_at.len() > 0 && !text_before(cutoff, c.claimed_at);
            &&& !(asked && idle) ==> d == c
            &&& asked && idle ==> {
                &&& d.status == Status::Ready
                &&& d.claimed_by.len() == 0
                &&& d.claimed_at.len() == 0
                &&& d.updated_at == now
                &&& d == (CardView {
                    status: d.status,
                    claimed_by: d.claimed_by,
                    claimed_at: d.claimed_at,
                    updated_at: d.updated_at,
                    notes: d.notes,
                    entries: d.entries,
                    ..c
                })
                &&& d.entries.len() > c.entries.len()
                &&& forall|k: int| 0 <= k < c.entries.len() ==> #[trigger] d.entries[k] == c.entries[k]
                &&& d.entries.last().kind == "reaped"@
                &&& d.entries.last().body == "claim by "@ + c.claimed_by + " released: idle since "@ + c.claimed_at
                    + " UTC"@
                &&& d.entries.last().author.len() == 0
                &&& d.entries.last().created_at == now
                &&& d.notes == mirror(d.entries)
            }
        }),
{
}

/// Law: a reap leaves links, projects and the earlier log as they are.
pub proof fn law_reap_touches_only_cards(b: BacklogView, scope: Scope, cutoff: Seq<char>, now: Seq<char>)
    ensures
        ({
            let after = swept(b, scope, cutoff, now);
            &&& after.cards.len() == b.cards.len()
            &&& after.links == b.links
            &&& after.projects == b.projects
            &&& after.last_id == b.last_id
            &&& after.last_project == b.last_project
            &&& after.events.len() == b.events.len() + 2 * doomed_order(b, scope, cutoff).len()
            &&& forall|k: int| 0 <= k < b.events.len() ==> #[trigger] after.events[k] == b.events[k]
        }),
{
    lemma_reap_log_len(b.cards, doomed_order(b, scope, cutoff), now);
}

proof fn lemma_reap_log_len(cards: Seq<CardView>, order: Seq<usize>, now: Seq<char>)
    ensures
        crate::sweep::reap_log(cards, order, now).len() == 2 * order.len(),
    decreases order.len(),
{
    if order.len() > 0 {
        lemma_reap_log_len(cards, order.drop_last(), now);
    }
}

/// Law: the log tells of every claim taken back: of the `k`th card reaped,
/// that it went from in progress to ready, and whose claim it was.
pub proof fn law_reap_is_logged(b: BacklogView, scope: Scope, cutoff: Seq<char>, now: Seq<char>, k: int)
    requires
        0 <= k < doomed_order(b, scope, cutoff).len(),
    ensures
        ({
            let log = swept(b, scope, cutoff, now).events;
            let c = b.cards[doomed_order(b, scope, cutoff)[k] as int];
            let n = b.events.len() + 2 * k;
            &&& n + 1 < log.len()
            &&& tells(log[n], c, "status"@, "in_progress"@, "ready"@, "reap"@, now)
            &&& tells(log[n + 1], c, "reap"@, c.claimed_by, ""@, "reap"@, now)
        }),
{
    let order = doomed_order(b, scope, cutoff);
    lemma_reap_log_len(b.cards, order, now);
    lemma_reap_log_at(b.cards, order, now, k);
}

proof fn lemma_reap_log_at(cards: Seq<CardView>, order: Seq<usize>, now: Seq<char>, k: int)
    requires
        0 <= k < order.len(),
    ensures
        ({
            let log = crate::sweep::reap_log(cards, order, now);
            let c = cards[order[k] as int];
            &&& log.len() == 2 * order.len()
            &&& tells(log[2 * k], c, "status"@, "in_progress"@, "ready"@, "reap"@, now)
            &&& tells(log[2 * k + 1], c, "reap"@, c.claimed_by, ""@, "reap"@, now)
        }),
    decreases order.len(),
{
    lemma_reap_log_len(cards, order, now);
    lemma_reap_log_len(cards, order.drop_last(), now);
    if k < order.len() - 1 {
        lemma_reap_log_at(cards, order.drop_last(), now, k);
        assert(order.drop_last()[k] == order[k]);
    }
}

// ------------------------------------------------------------- moving and ranking

/// Law: a status is set on any card that is there; an outcome of more than
/// 300 characters has to be forced.
pub proof fn law_when_a_status_is_set(b: BacklogView, id: i64, outcome: Seq<char>, force: bool)
    ensures
        status_refusal(b, id, outcome, force) is None <==> has_card(b.cards, id) && (outcome.len() <= 300 || force),
{
}

/// Law: a card set to a status has it, keeps its outcome unless one is given,
/// keeps its claim only where it stays in progress, and is otherwise the card
/// it was. Each change is in the log, and nothing that did not change.
pub proof fn law_status_is_set(
    b: BacklogView,
    id: i64,
    status: Status,
    outcome: Seq<char>,
    by: Seq<char>,
    now: Seq<char>,
)
    requires
        has_card(b.cards, id),
    ensures
        ({
            let at = position(b.cards, id);
            let c = b.cards[at];
            let after = with_card(b, at, moved(c, status, outcome, now), move_events(c, status, outcome, by, now));
            let d = after.cards[at];
            let log = after.events.skip(b.events.len() as int);
            &&& only_card_changed(b, after, at)
            &&& d.status == status
            &&& d.outcome == if outcome.len() > 0 { outcome } else { c.outcome }
            &&& status == Status::InProgress ==> d.claimed_by == c.claimed_by && d.claimed_at == c.claimed_at
            &&& status != Status::InProgress ==> d.claimed_by.len() == 0 && d.claimed_at.len() == 0
            &&& d.updated_at == now
            &&& d == (CardView {
                status: d.status,
                outcome: d.outcome,
                claimed_by: d.claimed_by,
                claimed_at: d.claimed_at,
                updated_at: d.updated_at,
                ..c
            })
            &&& c.status != status <==> exists|k: int|
                0 <= k < log.len() && tells(
                    #[trigger] log[k],
                    c,
                    "status"@,
                    status_name(c.status),
                    status_name(status),
                    by,
                    now,
                )
            &&& c.claimed_by.len() > 0 && status != Status::InProgress <==> exists|k: int|
                0 <= k < log.len() && tells(#[trigger] log[k], c, "release"@, c.claimed_by, ""@, by, now)
            &&& outcome.len() > 0 && outcome != c.outcome <==> exists|k: int|
                0 <= k < log.len() && tells(#[trigger] log[k], c, "outcome"@, c.outcome, outcome, by, now)
            &&& log.len() == (if c.status != status { 1int } else { 0 }) + (if c.claimed_by.len() > 0 && status
                != Status::InProgress { 1int } else { 0 }) + (if outcome.len() > 0 && outcome != c.outcome { 1int } else { 0 })
        }),
{
    let at = position(b.cards, id);
    let c = b.cards[at];
    lemma_position(b.cards, id);
    reveal_strlit("status");
    reveal_strlit("release");
    reveal_strlit("outcome");
    assert("status"@.len() == 6 && "release"@.len() == 7 && "outcome"@.len() == 7);
    assert("release"@[0] == 'r' && "outcome"@[0] == 'o');
    if c.status != status && status_name(c.status) == status_name(status) {
        law_status_names_differ(c.status, status);
    }
    let more = move_events(c, status, outcome, by, now);
    let after = with_card(b, at, moved(c, status, outcome, now), more);
    let log = after.events.skip(b.events.len() as int);
    assert(log =~= more);
    let n = if c.status != status { 1int } else { 0 };
    let m = n + if c.claimed_by.len() > 0 && status != Status::InProgress { 1int } else { 0 };
    if c.status != status {
        assert(log[0].kind == "status"@);
        assert(tells(log[0], c, "status"@, status_name(c.status), status_name(status), by, now));
    }
    if c.claimed_by.len() > 0 && status != Status::InProgress {
        assert(log[n].kind == "release"@);
        assert(tells(log[n], c, "release"@, c.claimed_by, ""@, by, now));
    }
    if outcome.len() > 0 && outcome != c.outcome {
        assert(log[m].kind == "outcome"@);
        assert(tells(log[m], c, "outcome"@, c.outcome, outcome, by, now));
    }
}

/// Law: a priority is set on any card that is there, from 0 to 10000.
pub proof fn law_when_a_priority_is_set(b: BacklogView, id: i64, priority: i32)
    ensures
        rank_refusal(b, id, priority) is None <==> has_card(b.cards, id) && 0 <= priority <= 10000,
{
}

/// Law: a card set to a priority has it and is otherwise the card it was; the
/// log tells a change of priority, and no more.
pub proof fn law_priority_is_set(b: BacklogView, id: i64, priority: i32, by: Seq<char>, now: Seq<char>)
    requires
        has_card(b.cards, id),
    ensures
        ({
            let at = position(b.cards, id);
            let c = b.cards[at];
            let after = with_card(b, at, ranked_at(c, priority, now), rank_events(c, priority, by, now));
            let n = b.events.len() as int;
            &&& only_card_changed(b, after, at)
            &&& after.cards[at] == (CardView { priority, updated_at: now, ..c })
            &&& priority == c.priority ==> after.events == b.events
            &&& priority != c.priority ==> after.events.len() == n + 1 && tells(
                after.events[n],
                c,
                "priority"@,
                dec(c.priority as int),
                dec(priority as int),
                by,
                now,
            )
        }),
{
    let at = position(b.cards, id);
    let c = b.cards[at];
    lemma_position(b.cards, id);
    law_decimal_reads_back(c.priority as int);
    law_decimal_reads_back(priority as int);
    let after = with_card(b, at, ranked_at(c, priority, now), rank_events(c, priority, by, now));
    if priority == c.priority {
        assert(after.events =~= b.events);
    }
}

// ------------------------------------------------------------- ageing

/// Law: ageing takes the amount off the priority of every card that is not
/// done and lies in the scope, but leaves no priority below 0; of such a card
/// only the time of change is new beside it. Every other card stays.
pub proof fn law_decay_ages_open_cards(b: BacklogView, scope: Scope, amount: int, now: Seq<char>, i: int)
    requires
        0 <= i < b.cards.len(),
        0 <= b.cards[i].priority,
        0 <= amount,
    ensures
        ({
            let c = b.cards[i];
            let d = aged_store(b, scope, amount, now).cards[i];
            let asked = match scope {
                Scope::Project(p) => c.project_id == p,
                Scope::ActiveProjects => exists|k: int|
                    0 <= k < b.projects.len() && (#[trigger] b.projects[k]).id == c.project_id && b.projects[k].active,
                Scope::Everything => true,
            };
            &&& asked && c.status != Status::Done ==> {
                &&& d.priority >= 0
                &&& c.priority >= amount ==> d.priority == c.priority - amount
                &&& c.priority < amount ==> d.priority == 0
                &&& d == (CardView { priority: d.priority, updated_at: now, ..c })
            }
            &&& !(asked && c.status != Status::Done) ==> d == c
        }),
{
}

/// Law: ageing leaves links, projects and the earlier log as they are.
pub proof fn law_decay_touches_only_cards(b: BacklogView, scope: Scope, amount: int, now: Seq<char>)
    ensures
        ({
            let after = aged_store(b, scope, amount, now);
            &&& after.cards.len() == b.cards.len()
            &&& after.links == b.links
            &&& after.projects == b.projects
            &&& after.last_id == b.last_id
            &&& after.last_project == b.last_project
            &&& after.events.len() >= b.events.len()
            &&& forall|k: int| 0 <= k < b.events.len() ==> #[trigger] after.events[k] == b.events[k]
        }),
{
}

/// Law: ageing is in the log for each card whose priority it changed, with
/// the priority before and after, and for no other.
pub proof fn law_decay_is_told(b: BacklogView, scope: Scope, amount: int, now: Seq<char>, i: int)
    ensures
        ({
            let after = aged_store(b, scope, amount, now);
            let n = b.events.len() as int;
            &&& 0 <= i < b.cards.len() && after.cards[i].priority != b.cards[i].priority ==> exists|k: int|
                n <= k < after.events.len() && tells(
                    #[trigger] after.events[k],
                    b.cards[i],
                    "priority"@,
                    dec(b.cards[i].priority as int),
                    dec(after.cards[i].priority as int),
                    ""@,
                    now,
                )
            &&& n <= i < after.events.len() ==> exists|j: int|
                0 <= j < b.cards.len() && (#[trigger] after.cards[j]).priority != b.cards[j].priority && tells(
                    after.events[i],
                    b.cards[j],
                    "priority"@,
                    dec(b.cards[j].priority as int),
                    dec(after.cards[j].priority as int),
                    ""@,
                    now,
                )
        }),
{
    let after = aged_store(b, scope, amount, now);
    let n = b.events.len() as int;
    let log = decay_log(b.projects, scope, b.cards, amount, now);
    if 0 <= i < b.cards.len() && after.cards[i].priority != b.cards[i].priority {
        let k = lemma_decay_told(b.projects, scope, b.cards, amount, now, i);
        assert(after.events[n + k] == log[k]);
    }
    if n <= i < after.events.len() {
        assert(after.events[i] == log[i - n]);
        let j = lemma_decay_tells(b.projects, scope, b.cards, amount, now, i - n);
        assert(after.cards[j] == crate::lifecycle::decayed(b.cards[j], amount, now));
    }
}

/// The event tells that the card has aged.
spec fn tells_ageing(e: EventView, c: CardView, amount: int, now: Seq<char>) -> bool {
    let d = crate::lifecycle::decayed(c, amount, now);
    d.priority != c.priority && tells(e, c, "priority"@, dec(c.priority as int), dec(d.priority as int), ""@, now)
}

proof fn lemma_decay_told(
    projects: Seq<ProjectView>,
    scope: Scope,
    cards: Seq<CardView>,
    amount: int,
    now: Seq<char>,
    i: int,
) -> (k: int)
    requires
        0 <= i < cards.len(),
        ages(projects, scope, cards[i]),
        crate::lifecycle::decayed(cards[i], amount, now).priority != cards[i].priority,
    ensures
        0 <= k < decay_log(projects, scope, cards, amount, now).len(),
        tells_ageing(decay_log(projects, scope, cards, amount, now)[k], cards[i], amount, now),
    decreases cards.len(),
{
    let before = decay_log(projects, scope, cards.drop_last(), amount, now);
    if i == cards.len() - 1 {
        let (p, q) = (cards[i].priority as int, crate::lifecycle::decayed(cards[i], amount, now).priority as int);
        if dec(p) == dec(q) {
            law_decimal_reads_back(p);
            law_decimal_reads_back(q);
        }
        before.len() as int
    } else {
        lemma_decay_told(projects, scope, cards.drop_last(), amount, now, i)
    }
}

proof fn lemma_decay_tells(
    projects: Seq<ProjectView>,
    scope: Scope,
    cards: Seq<CardView>,
    amount: int,
    now: Seq<char>,
    k: int,
) -> (j: int)
    requires
        0 <= k < decay_log(projects, scope, cards, amount, now).len(),
    ensures
        0 <= j < cards.len(),
        ages(projects, scope, cards[j]),
        tells_ageing(decay_log(projects, scope, cards, amount, now)[k], cards[j], amount, now),
    decreases cards.len(),
{
    let before = decay_log(projects, scope, cards.drop_last(), amount, now);
    if k < before.len() {
        lemma_decay_tells(projects, scope, cards.drop_last(), amount, now, k)
    } else {
        cards.len() - 1
    }
}

// ------------------------------------------------------------- filing

/// Law: a card is filed where its priority lies from 0 to 10000 and its title
/// says something, in 120 characters or fewer unless it is forced.
pub proof fn law_when_a_card_is_filed(d: DraftView, force: bool)
    ensures
        draft_refusal(d, force) is None <==> 0 <= d.priority <= 10000 && !blank(d.title) && (trim(d.title).len() <= 120
            || force),
{
}

/// Law: a card that is filed is new, has the title, the tags, the priority
/// and the project of its draft, dates from now, and is in nobody's hands.
/// It gets an id that no card had; the other cards stay, and the log tells
/// that it was made.
pub proof fn law_filed_card_is_its_draft(b: BacklogView, d: DraftView, by: Seq<char>, now: Seq<char>)
    requires
        b.last_id < i64::MAX,
    ensures
        ({
            let after = created_in(b, d, by, now);
            let n = b.cards.len() as int;
            let c = after.cards[n];
            &&& after.cards.len() == n + 1
            &&& forall|i: int| 0 <= i < n ==> #[trigger] after.cards[i] == b.cards[i]
            &&& c.id == b.last_id + 1
            &&& after.last_id == c.id
            &&& c.title == trim(d.title)
            &&& tags(c.label) == tags(d.label)
            &&& normal(c.label) == c.label
            &&& c.status == Status::New
            &&& c.priority == d.priority
            &&& c.outcome.len() == 0
            &&& c.claimed_by.len() == 0
            &&& c.claimed_at.len() == 0
            &&& c.commits.len() == 0
            &&& c.created_at == now
            &&& c.updated_at == now
            &&& c.project_id == d.project_id
            &&& c.project == d.project
            &&& c.legacy_id is None
            &&& after.links == b.links
            &&& after.projects == b.projects
            &&& after.last_project == b.last_project
            &&& after.events.len() == b.events.len() + 1
            &&& forall|k: int| 0 <= k < b.events.len() ==> #[trigger] after.events[k] == b.events[k]
            &&& tells(after.events.last(), c, "created"@, ""@, c.title, by, now)
        }),
{
    law_normal_idempotent(d.label);
}

/// Law: the notes of a card that is filed are those of its draft: one for
/// each line of text that is not blank, then those that come with a kind, in
/// order, by the one who files it.
pub proof fn law_filed_card_has_its_notes(b: BacklogView, d: DraftView, by: Seq<char>, now: Seq<char>)
    ensures
        ({
            let c = created_in(b, d, by, now).cards.last();
            let ls = nonblank(lines(d.notes));
            let n = ls.len() as int;
            &&& c.entries.len() == n + d.typed.len()
            &&& forall|k: int| 0 <= k < n ==> #[trigger] c.entries[k] == parsed(ls[k], now)
            &&& forall|k: int|
                0 <= k < d.typed.len() ==> (#[trigger] d.typed[k]).0 == c.entries[n + k].kind && d.typed[k].1
                    == c.entries[n + k].body && c.entries[n + k].author == by && c.entries[n + k].created_at == now
                    && c.entries[n + k].commit_sha.len() == 0
            &&& d.typed.len() == 0 ==> c.notes == d.notes
        }),
{
    let none = Seq::<char>::empty();
    let nl = Sep::Char('\n');
    assert(split(none, nl) =~= seq![none]);
    assert(lines(none) =~= Seq::<Seq<char>>::empty());
    assert(nonblank(lines(none)) =~= Seq::<Seq<char>>::empty());
    let e = Seq::<NoteView>::empty();
    assert(e.map_values(|n: NoteView| rendered(n)) =~= Seq::<Seq<char>>::empty());
    assert(mirror(e) =~= none);
    let ls = nonblank(lines(d.notes));
    assert(ls.skip(0) =~= ls);
    let id = (b.last_id + 1) as i64;
    let c = reconciled(fresh(d, id, now));
    assert(c.entries =~= adopted(ls, now));
    let k0 = created_in(b, d, by, now).cards.last();
    assert(k0 == filed(d, id, by, now));
    assert forall|k: int| 0 <= k < ls.len() implies #[trigger] k0.entries[k] == parsed(ls[k], now) by {
        assert(c.entries[k] == parsed(ls[k], now));
    }
}

/// Law: a title is taken as present exactly where a card of that project has
/// it; of several the lowest id is told.
pub proof fn law_titled_is_the_first_of_its_title(cards: Seq<CardView>, title: Seq<char>, project: i64)
    ensures
        titled(cards, title, project) is None <==> forall|k: int|
            0 <= k < cards.len() ==> !((#[trigger] cards[k]).title == title && cards[k].project_id == project),
        titled(cards, title, project) is Some ==> exists|k: int|
            0 <= k < cards.len() && (#[trigger] cards[k]).id == titled(cards, title, project)->0 && cards[k].title
                == title && cards[k].project_id == project,
        forall|k: int|
            0 <= k < cards.len() && (#[trigger] cards[k]).title == title && cards[k].project_id == project ==> titled(
                cards,
                title,
                project,
            )->0 <= cards[k].id,
    decreases cards.len(),
{
    if cards.len() > 0 {
        let front = cards.drop_last();
        law_titled_is_the_first_of_its_title(front, title, project);
        let (r, q) = (titled(cards, title, project), titled(front, title, project));
        assert forall|k: int| 0 <= k < front.len() implies #[trigger] front[k] == cards[k] by {}
        let last = cards[cards.len() - 1];
        if q is Some {
            let k = choose|k: int|
                0 <= k < front.len() && (#[trigger] front[k]).id == q->0 && front[k].title == title && front[k].project_id
                    == project;
            assert(cards[k] == front[k]);
        }
        assert forall|k: int|
            0 <= k < cards.len() && (#[trigger] cards[k]).title == title && cards[k].project_id == project implies r is Some
            && r->0 <= cards[k].id by {
            if k < front.len() {
                assert(front[k].title == title);
            }
        }
    }
}

/// Law: of many drafts filed together each becomes a card of its own with the
/// draft's title, priority and project, under the id that is told of it; or,
/// where only what is absent is wanted, is told the id of a card that has the
/// title in that project already. No card that was there changes.
pub proof fn law_batch_files_each_draft(
    b: BacklogView,
    drafts: Seq<DraftView>,
    if_absent: bool,
    by: Seq<char>,
    now: Seq<char>,
    k: int,
)
    requires
        drafts.len() <= i64::MAX - b.last_id,
        0 <= k < drafts.len(),
    ensures
        ({
            let (after, done) = batch(b, drafts, if_absent, by, now);
            let d = drafts[k];
            &&& done.len() == drafts.len()
            &&& done[k] matches Filed::Created(id) ==> b.last_id < id && exists|i: int|
                b.cards.len() <= i < after.cards.len() && (#[trigger] after.cards[i]).id == id && after.cards[i].title
                    == trim(d.title) && after.cards[i].priority == d.priority && after.cards[i].project_id
                    == d.project_id && tags(after.cards[i].label) == tags(d.label) && after.cards[i].status
                    == Status::New
            &&& done[k] matches Filed::Existing(id) ==> if_absent && exists|i: int|
                0 <= i < after.cards.len() && (#[trigger] after.cards[i]).id == id && after.cards[i].title == trim(
                    d.title,
                ) && after.cards[i].project_id == d.project_id
            &&& !if_absent ==> done[k] is Created
        }),
    decreases drafts.len(),
{
    let front = drafts.drop_last();
    let (mid, before) = batch(b, front, if_absent, by, now);
    let (after, done) = batch(b, drafts, if_absent, by, now);
    lemma_batch_grows(b, front, if_absent, by, now);
    lemma_batch_grows(b, drafts, if_absent, by, now);
    assert forall|i: int| 0 <= i < mid.cards.len() implies #[trigger] mid.cards[i] == after.cards[i] by {}
    if k < front.len() {
        law_batch_files_each_draft(b, front, if_absent, by, now, k);
        assert(front[k] == drafts[k]);
        assert(done[k] == before[k]);
        match done[k] {
            Filed::Created(id) => {
                let i = choose|i: int|
                    b.cards.len() <= i < mid.cards.len() && (#[trigger] mid.cards[i]).id == id && mid.cards[i].title
                        == trim(drafts[k].title) && mid.cards[i].priority == drafts[k].priority
                        && mid.cards[i].project_id == drafts[k].project_id && tags(mid.cards[i].label) == tags(
                        drafts[k].label,
                    ) && mid.cards[i].status == Status::New;
                assert(after.cards[i] == mid.cards[i]);
            },
            Filed::Existing(id) => {
                let i = choose|i: int|
                    0 <= i < mid.cards.len() && (#[trigger] mid.cards[i]).id == id && mid.cards[i].title == trim(
                        drafts[k].title,
                    ) && mid.cards[i].project_id == drafts[k].project_id;
                assert(after.cards[i] == mid.cards[i]);
            },
        }
    } else {
        let d = drafts[k];
        law_titled_is_the_first_of_its_title(mid.cards, trim(d.title), d.project_id);
        match done[k] {
            Filed::Created(id) => {
                law_filed_card_is_its_draft(mid, d, by, now);
                assert(after.cards[mid.cards.len() as int].id == id);
            },
            Filed::Existing(id) => {
                let i = choose|i: int|
                    0 <= i < mid.cards.len() && (#[trigger] mid.cards[i]).id == id && mid.cards[i].title == trim(
                        d.title,
                    ) && mid.cards[i].project_id == d.project_id;
                assert(after.cards[i] == mid.cards[i]);
            },
        }
    }
}

proof fn lemma_batch_grows(b: BacklogView, drafts: Seq<DraftView>, if_absent: bool, by: Seq<char>, now: Seq<char>)
    requires
        drafts.len() <= i64::MAX - b.last_id,
    ensures
        ({
            let (after, done) = batch(b, drafts, if_absent, by, now);
            &&& done.len() == drafts.len()
            &&& b.cards.len() <= after.cards.len()
            &&& forall|i: int| 0 <= i < b.cards.len() ==> #[trigger] after.cards[i] == b.cards[i]
            &&& b.last_id <= after.last_id <= b.last_id + drafts.len()
            &&& after.links == b.links
            &&& after.projects == b.projects
        }),
    decreases drafts.len(),
{
    if drafts.len() > 0 {
        lemma_batch_grows(b, drafts.drop_last(), if_absent, by, now);
        let (mid, _) = batch(b, drafts.drop_last(), if_absent, by, now);
        let (after, _) = batch(b, drafts, if_absent, by, now);
        assert forall|i: int| 0 <= i < b.cards.len() implies #[trigger] after.cards[i] == b.cards[i] by {
            assert(mid.cards[i] == b.cards[i]);
        }
    }
}

/// Law: many drafts filed together leave the cards, links and projects that
/// were there, and where repeats are wanted too, each is a card more.
pub proof fn law_batch_only_adds(b: BacklogView, drafts: Seq<DraftView>, if_absent: bool, by: Seq<char>, now: Seq<char>)
    requires
        drafts.len() <= i64::MAX - b.last_id,
    ensures
        ({
            let (after, done) = batch(b, drafts, if_absent, by, now);
            &&& done.len() == drafts.len()
            &&& b.cards.len() <= after.cards.len()
            &&& forall|i: int| 0 <= i < b.cards.len() ==> #[trigger] after.cards[i] == b.cards[i]
            &&& after.links == b.links
            &&& after.projects == b.projects
            &&& !if_absent ==> after.cards.len() == b.cards.len() + drafts.len()
        }),
{
    lemma_batch_grows(b, drafts, if_absent, by, now);
    if !if_absent {
        lemma_batch_files_all(b, drafts, by, now);
    }
}

proof fn lemma_batch_files_all(b: BacklogView, drafts: Seq<DraftView>, by: Seq<char>, now: Seq<char>)
    ensures
        batch(b, drafts, false, by, now).0.cards.len() == b.cards.len() + drafts.len(),
    decreases drafts.len(),
{
    if drafts.len() > 0 {
        lemma_batch_files_all(b, drafts.drop_last(), by, now);
    }
}

// ------------------------------------------------------------- deleting

/// Law: a card that nobody holds can be deleted; a held one only when forced.
pub proof fn law_when_a_card_is_deleted(c: CardView, force: bool)
    ensures
        delete_refusal(c, force) is None <==> c.claimed_by.len() == 0 || force,
        delete_refusal(c, force) is Some ==> delete_refusal(c, force) == Some(
            RefusalView::ClaimedCard(c.id, c.claimed_by),
        ),
{
}

/// Law: a deletion takes the one card and the links that touch it, and
/// nothing more; the log tells what the card said, and why it went.
pub proof fn law_deletion_takes_one_card(b: BacklogView, id: i64, why: Seq<char>, by: Seq<char>, now: Seq<char>)
    requires
        has_card(b.cards, id),
    ensures
        ({
            let at = position(b.cards, id);
            let after = deleted_in(b, id, why, by, now);
            &&& after.cards.len() == b.cards.len() - 1
            &&& forall|i: int| 0 <= i < at ==> #[trigger] after.cards[i] == b.cards[i]
            &&& forall|i: int| at <= i < after.cards.len() ==> #[trigger] after.cards[i] == b.cards[i + 1]
            &&& forall|l: LinkView| #[trigger]
                after.links.contains(l) <==> b.links.contains(l) && l.from != id && l.to != id
            &&& after.projects == b.projects
            &&& after.last_id == b.last_id
            &&& after.last_project == b.last_project
            &&& after.events.len() == b.events.len() + 1
            &&& forall|k: int| 0 <= k < b.events.len() ==> #[trigger] after.events[k] == b.events[k]
            &&& tells(after.events.last(), b.cards[at], "deleted"@, obituary(b.cards[at]), why, by, now)
        }),
{
    lemma_position(b.cards, id);
    lemma_links_left(b.links, id);
}

proof fn lemma_links_left(links: Seq<LinkView>, id: i64)
    ensures
        forall|l: LinkView| #[trigger]
            without_card(links, id).contains(l) <==> links.contains(l) && l.from != id && l.to != id,
    decreases links.len(),
{
    if links.len() > 0 {
        let front = links.drop_last();
        lemma_links_left(front, id);
        let (now, before) = (without_card(links, id), without_card(front, id));
        let last = links.last();
        assert forall|l: LinkView| #[trigger] now.contains(l) <==> links.contains(l) && l.from != id && l.to != id by {
            if links.contains(l) && l.from != id && l.to != id {
                let k = choose|k: int| 0 <= k < links.len() && links[k] == l;
                if k < front.len() {
                    assert(front[k] == l);
                    assert(before.contains(l));
                    let j = choose|j: int| 0 <= j < before.len() && before[j] == l;
                    assert(now[j] == l);
                } else {
                    assert(now[now.len() - 1] == l);
                }
            }
            if now.contains(l) {
                let k = choose|k: int| 0 <= k < now.len() && now[k] == l;
                if k < before.len() {
                    assert(before[k] == l);
                    assert(before.contains(l));
                    let j = choose|j: int| 0 <= j < front.len() && front[j] == l;
                    assert(links[j] == l);
                } else {
                    assert(links[links.len() - 1] == l);
                }
            }
        }
    }
}

/// Law: what a deleted card said is kept: its title, its status, its
/// priority, its label and its outcome.
pub proof fn law_obituary_tells_the_card(c: CardView)
    ensures
        starts_with(obituary(c), "title: "@ + c.title + "\nstatus: "@ + status_name(c.status) + "\npriority: "@),
        contains(obituary(c), "\npriority: "@ + dec(c.priority as int)),
        c.label.len() > 0 ==> contains(obituary(c), "\nlabel: "@ + c.label),
        c.outcome.len() > 0 ==> contains(obituary(c), "\noutcome: "@ + c.outcome),
{
    let label = if c.label.len() == 0 { Seq::empty() } else { "\nlabel: "@ + c.label };
    let outcome = if c.outcome.len() == 0 { Seq::empty() } else { "\noutcome: "@ + c.outcome };
    let head = "title: "@ + c.title + "\nstatus: "@ + status_name(c.status);
    let mark = "\npriority: "@;
    let rank = dec(c.priority as int);
    let told = obituary_notes(reconciled(c).entries);
    let all = obituary(c);
    assert(all == head + mark + rank + label + outcome + told);
    assert(starts_with(all, head + mark)) by {
        assert(all.subrange(0, (head + mark).len() as int) =~= head + mark);
    }
    assert(contains(all, mark + rank)) by {
        lemma_part_is_there(head, mark + rank, label + outcome + told);
        assert(all =~= head + (mark + rank) + (label + outcome + told));
    }
    assert(contains(all, label)) by {
        lemma_part_is_there(head + mark + rank, label, outcome + told);
        assert(all =~= head + mark + rank + label + (outcome + told));
    }
    assert(contains(all, outcome)) by {
        lemma_part_is_there(head + mark + rank + label, outcome, told);
    }
}

/// Law: what a deleted card said is kept: every note of it, with its time,
/// its kind and its author.
pub proof fn law_obituary_tells_the_notes(c: CardView, k: int)
    requires
        0 <= k < c.entries.len(),
    ensures
        ({
            let n = c.entries[k];
            let author = if n.author.len() > 0 { " "@ + n.author } else { Seq::empty() };
            contains(obituary(c), "\nnote "@ + n.created_at + " ["@ + n.kind + "]"@ + author + ": "@ + n.body)
        }),
{
    let e = reconciled(c).entries;
    assert(e[k] == c.entries[k]);
    let told = obituary_notes(e);
    let (before, after) = lemma_obituary_has_note(e, k);
    let one = obituary_note(e[k]);
    let all = obituary(c);
    let head = all.take(all.len() - told.len());
    assert(all =~= head + told);
    lemma_part_is_there(head + before, one, after);
    assert(all =~= head + before + one + after);
}

/// A part of a text stands in it.
pub proof fn lemma_part_is_there(a: Seq<char>, part: Seq<char>, c: Seq<char>)
    ensures
        contains(a + part + c, part),
{
    let all = a + part + c;
    assert(all.subrange(a.len() as int, (a.len() + part.len()) as int) =~= part);
    assert(occurs_at(all, part, a.len() as int));
}

proof fn lemma_obituary_has_note(entries: Seq<NoteView>, k: int) -> (r: (Seq<char>, Seq<char>))
    requires
        0 <= k < entries.len(),
    ensures
        obituary_notes(entries) == r.0 + obituary_note(entries[k]) + r.1,
    decreases entries.len(),
{
    let front = entries.drop_last();
    if k == entries.len() - 1 {
        assert(obituary_notes(entries) =~= obituary_notes(front) + obituary_note(entries[k]) + Seq::<char>::empty());
        (obituary_notes(front), Seq::empty())
    } else {
        let (a, b) = lemma_obituary_has_note(front, k);
        assert(front[k] == entries[k]);
        let c = b + obituary_note(entries.last());
        assert(obituary_notes(entries) =~= a + obituary_note(entries[k]) + c);
        (a, c)
    }
}

} // verus!
