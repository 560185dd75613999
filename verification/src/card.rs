//! The card: one piece of work on the board.

use vstd::prelude::*;

use crate::notes::{copy_notes, note_views, Note, NoteView};
use crate::refusal::{Refusal, RefusalView};
use crate::status::Status;
use crate::text::{blank, count, is_blank, trim, trimmed};

verus! {

/// One card.
#[derive(Debug, PartialEq, Eq)]
pub struct Card {
    pub id: i64,
    pub title: String,
    /// The notes as one text, a rendered mirror of `entries`.
    pub notes: String,
    /// The tags, as `a,b,c`.
    pub label: String,
    pub status: Status,
    pub priority: i32,
    pub outcome: String,
    /// The agent that holds the card; empty when nobody does.
    pub claimed_by: String,
    pub claimed_at: String,
    /// One `sha\tsubject` per line, oldest first.
    pub commits: String,
    pub created_at: String,
    pub updated_at: String,
    pub project_id: i64,
    /// The project's name.
    pub project: String,
    /// The id the card had in the database it was imported from.
    pub legacy_id: Option<i64>,
    /// The notes as rows, oldest first.
    pub entries: Vec<Note>,
}

/// What a card says.
#[verifier::ext_equal]
pub struct CardView {
    pub id: i64,
    pub title: Seq<char>,
    pub notes: Seq<char>,
    pub label: Seq<char>,
    pub status: Status,
    pub priority: i32,
    pub outcome: Seq<char>,
    pub claimed_by: Seq<char>,
    pub claimed_at: Seq<char>,
    pub commits: Seq<char>,
    pub created_at: Seq<char>,
    pub updated_at: Seq<char>,
    pub project_id: i64,
    pub project: Seq<char>,
    pub legacy_id: Option<i64>,
    pub entries: Seq<NoteView>,
}

impl View for Card {
    type V = CardView;

    open spec fn view(&self) -> CardView {
        CardView {
            id: self.id,
            title: self.title@,
            notes: self.notes@,
            label: self.label@,
            status: self.status,
            priority: self.priority,
            outcome: self.outcome@,
            claimed_by: self.claimed_by@,
            claimed_at: self.claimed_at@,
            commits: self.commits@,
            created_at: self.created_at@,
            updated_at: self.updated_at@,
            project_id: self.project_id,
            project: self.project@,
            legacy_id: self.legacy_id,
            entries: note_views(self.entries@),
        }
    }
}

impl Clone for Card {
    fn clone(&self) -> (r: Card)
        ensures
            r@ == self@,
    {
        Card {
            id: self.id,
            title: self.title.clone(),
            notes: self.notes.clone(),
            label: self.label.clone(),
            status: self.status,
            priority: self.priority,
            outcome: self.outcome.clone(),
            claimed_by: self.claimed_by.clone(),
            claimed_at: self.claimed_at.clone(),
            commits: self.commits.clone(),
            created_at: self.created_at.clone(),
            updated_at: self.updated_at.clone(),
            project_id: self.project_id,
            project: self.project.clone(),
            legacy_id: self.legacy_id,
            entries: copy_notes(&self.entries),
        }
    }
}

/// What each of several cards says.
pub open spec fn card_views(v: Seq<Card>) -> Seq<CardView> {
    v.map_values(|c: Card| c@)
}

/// The longest title taken without being forced.
pub const TITLE_MAX: usize = 120;

/// The longest outcome taken without being forced.
pub const OUTCOME_MAX: usize = 300;

/// The highest priority.
pub const PRIORITY_MAX: i32 = 10000;

/// A priority a card may have.
pub open spec fn in_range(priority: i32) -> bool {
    0 <= priority <= PRIORITY_MAX
}

/// Why a title is refused.
pub open spec fn title_refusal(title: Seq<char>, force: bool) -> Option<RefusalView> {
    if blank(title) {
        Some(RefusalView::EmptyTitle)
    } else if trim(title).len() > TITLE_MAX && !force {
        Some(RefusalView::LongTitle(trim(title).len()))
    } else {
        None
    }
}

/// Why an outcome is refused.
pub open spec fn outcome_refusal(outcome: Seq<char>, force: bool) -> Option<RefusalView> {
    if outcome.len() > OUTCOME_MAX && !force {
        Some(RefusalView::LongOutcome(outcome.len()))
    } else {
        None
    }
}

/// Why a priority is refused.
pub open spec fn priority_refusal(priority: i32) -> Option<RefusalView> {
    if in_range(priority) {
        None
    } else {
        Some(RefusalView::PriorityRange)
    }
}

/// Titles are headlines: not empty, and not long unless forced.
pub fn check_title(title: &str, force: bool) -> (r: Result<(), Refusal>)
    ensures
        match r {
            Ok(()) => title_refusal(title@, force) is None,
            Err(e) => title_refusal(title@, force) == Some(e@),
        },
{
    if is_blank(title) {
        return Err(Refusal::EmptyTitle);
    }
    let kept = trimmed(title);
    let n: usize = count(kept.as_str());
    if n > TITLE_MAX && !force {
        return Err(Refusal::LongTitle(n));
    }
    Ok(())
}

/// Outcomes are headlines too: not long unless forced.
pub fn check_outcome(outcome: &str, force: bool) -> (r: Result<(), Refusal>)
    ensures
        match r {
            Ok(()) => outcome_refusal(outcome@, force) is None,
            Err(e) => outcome_refusal(outcome@, force) == Some(e@),
        },
{
    let n: usize = count(outcome);
    if n > OUTCOME_MAX && !force {
        return Err(Refusal::LongOutcome(n));
    }
    Ok(())
}

/// A priority lies between 0 and 10000.
pub fn check_priority(priority: i32) -> (r: Result<(), Refusal>)
    ensures
        match r {
            Ok(()) => priority_refusal(priority) is None,
            Err(e) => priority_refusal(priority) == Some(e@),
        },
{
    if 0 <= priority && priority <= PRIORITY_MAX {
        Ok(())
    } else {
        Err(Refusal::PriorityRange)
    }
}

/// The position of the first card with this id, or -1.
pub open spec fn position(cards: Seq<CardView>, id: i64) -> int
    decreases cards.len(),
{
    if cards.len() == 0 {
        -1
    } else if position(cards.drop_last(), id) >= 0 {
        position(cards.drop_last(), id)
    } else if cards.last().id == id {
        cards.len() - 1
    } else {
        -1
    }
}

/// There is a card with this id.
pub open spec fn has_card(cards: Seq<CardView>, id: i64) -> bool {
    position(cards, id) >= 0
}

/// The position found is a card with that id, and the first one.
pub proof fn lemma_position(cards: Seq<CardView>, id: i64)
    ensures
        -1 <= position(cards, id) < cards.len(),
        position(cards, id) >= 0 ==> cards[position(cards, id)].id == id,
        forall|k: int|
            0 <= k < cards.len() && (position(cards, id) < 0 || k < position(cards, id)) ==> (
            #[trigger] cards[k]).id != id,
    decreases cards.len(),
{
    if cards.len() > 0 {
        lemma_position(cards.drop_last(), id);
        let p = position(cards, id);
        let q = position(cards.drop_last(), id);
        if q >= 0 {
            assert(cards.drop_last()[q] == cards[q]);
        }
        assert forall|k: int| 0 <= k < cards.len() && (p < 0 || k < p) implies (#[trigger] cards[k]).id != id by {
            if k < cards.len() - 1 {
                assert(cards.drop_last()[k] == cards[k]);
            }
        }
    }
}

/// A card with that id, and none before it, is where the id is found.
pub proof fn lemma_position_is(cards: Seq<CardView>, id: i64, at: int)
    requires
        0 <= at < cards.len(),
        cards[at].id == id,
        forall|k: int| 0 <= k < at ==> (#[trigger] cards[k]).id != id,
    ensures
        position(cards, id) == at,
{
    lemma_position(cards, id);
    let p = position(cards, id);
    if p < 0 {
        assert(cards[at].id != id);
    } else if p < at {
        assert(cards[p].id != id);
    } else if at < p {
        assert(cards[at].id != id);
    }
}

/// Where the card with this id stands.
pub fn find_card(cards: &Vec<Card>, id: i64) -> (r: Option<usize>)
    ensures
        match r {
            Some(at) => position(card_views(cards@), id) == at && at < cards@.len() && cards@[at as int].id == id,
            None => position(card_views(cards@), id) < 0,
        },
{
    let ghost all = card_views(cards@);
    let mut i: usize = 0;
    while i < cards.len()
        invariant
            i <= cards@.len(),
            all == card_views(cards@),
            forall|k: int| 0 <= k < i ==> (#[trigger] all[k]).id != id,
        decreases cards.len() - i,
    {
        assert(all[i as int] == cards@[i as int]@);
        if cards[i].id == id {
            proof {
                lemma_position_is(all, id, i as int);
            }
            return Some(i);
        }
        i = i + 1;
    }
    proof {
        lemma_position(all, id);
        if position(all, id) >= 0 {
            assert(all[position(all, id)].id != id);
        }
    }
    None
}

} // verus!
