//! The backlog: the cards, links, projects and events of one store, and what
//! each command does to them.

use vstd::prelude::*;

use crate::card::{
    card_views, check_outcome, check_priority, find_card, has_card, in_range, lemma_position, outcome_refusal, position,
    priority_refusal, Card, CardView,
};
use crate::edit::{
    changed_names, check_edit, edit_events, edit_refusal, edited, make_edit, names_changed, EditFields, EditView,
};
use crate::events::{event_views, Event, EventView};
use crate::lifecycle::{
    claim_events, claim_refusal, claimed, holds, move_events, moved, rank_events, ranked_at, release_events,
    release_refusal, released, who,
};
use crate::links::{held_back, lemma_same_cards_sound, link_views, links_sound, Link, LinkKind, LinkView};
use crate::notes::opt_text;
use crate::project::{project_views, projects_sound, Project, ProjectView};
use crate::refusal::{Refusal, RefusalView};
use crate::status::Status;
use crate::text::{blank, copy, is_blank, texts};

verus! {

/// Everything in one store.
#[derive(Debug, PartialEq, Eq)]
pub struct Backlog {
    /// The highest id a card ever had.
    pub last_id: i64,
    /// The highest id a project ever had.
    pub last_project: i64,
    pub projects: Vec<Project>,
    pub cards: Vec<Card>,
    pub links: Vec<Link>,
    pub events: Vec<Event>,
}

/// What a backlog holds.
#[verifier::ext_equal]
pub struct BacklogView {
    pub last_id: i64,
    pub last_project: i64,
    pub projects: Seq<ProjectView>,
    pub cards: Seq<CardView>,
    pub links: Seq<LinkView>,
    pub events: Seq<EventView>,
}

impl View for Backlog {
    type V = BacklogView;

    open spec fn view(&self) -> BacklogView {
        BacklogView {
            last_id: self.last_id,
            last_project: self.last_project,
            projects: project_views(self.projects@),
            cards: card_views(self.cards@),
            links: link_views(self.links@),
            events: event_views(self.events@),
        }
    }
}

// ------------------------------------------------------------- soundness

/// No id twice, none above the highest one, and every priority in range.
pub open spec fn cards_sound(cards: Seq<CardView>, last: i64) -> bool {
    &&& forall|i: int, j: int| 0 <= i < j < cards.len() ==> (#[trigger] cards[i]).id != (#[trigger] cards[j]).id
    &&& forall|i: int|
        0 <= i < cards.len() ==> 0 < (#[trigger] cards[i]).id <= last && in_range(cards[i].priority)
}

/// What holds of every store that commands have made.
pub open spec fn sound(b: BacklogView) -> bool {
    &&& 0 <= b.last_id
    &&& 0 <= b.last_project
    &&& cards_sound(b.cards, b.last_id)
    &&& projects_sound(b.projects, b.last_project)
    &&& links_sound(b.cards, b.links)
}

/// The same ids in the same places.
pub open spec fn same_ids(a: Seq<CardView>, b: Seq<CardView>) -> bool {
    a.len() == b.len() && forall|i: int| 0 <= i < a.len() ==> (#[trigger] a[i]).id == b[i].id
}

/// With the same ids in the same places, each card is found where it was.
pub proof fn lemma_same_ids(a: Seq<CardView>, b: Seq<CardView>)
    requires
        same_ids(a, b),
    ensures
        forall|id: i64| #[trigger] position(a, id) == position(b, id),
        forall|id: i64| #[trigger] has_card(a, id) == has_card(b, id),
{
    assert forall|id: i64| #[trigger] position(a, id) == position(b, id) by {
        lemma_position(a, id);
        lemma_position(b, id);
        let p = position(a, id);
        let q = position(b, id);
        if p >= 0 {
            assert(b[p].id == a[p].id);
            if q < 0 || p < q {
                assert(b[p].id != id);
            }
        }
        if q >= 0 {
            assert(a[q].id == b[q].id);
            if p < 0 || q < p {
                assert(a[q].id != id);
            }
        }
    }
    assert forall|id: i64| #[trigger] has_card(a, id) == has_card(b, id) by {
        assert(position(a, id) == position(b, id));
    }
}

/// Changing cards in place, with their ids kept and their priorities in
/// range, keeps a store sound.
pub proof fn lemma_in_place_sound(b: BacklogView, c: BacklogView)
    requires
        sound(b),
        same_ids(b.cards, c.cards),
        forall|i: int| 0 <= i < c.cards.len() ==> in_range((#[trigger] c.cards[i]).priority),
        c.links == b.links,
        c.projects == b.projects,
        c.last_id == b.last_id,
        c.last_project == b.last_project,
    ensures
        sound(c),
{
    lemma_same_ids(b.cards, c.cards);
    assert forall|i: int, j: int| 0 <= i < j < c.cards.len() implies (#[trigger] c.cards[i]).id != (
    #[trigger] c.cards[j]).id by {
        assert(b.cards[i].id == c.cards[i].id && b.cards[j].id == c.cards[j].id);
    }
    assert forall|i: int| 0 <= i < c.cards.len() implies 0 < (#[trigger] c.cards[i]).id <= c.last_id && in_range(
        c.cards[i].priority,
    ) by {
        assert(b.cards[i].id == c.cards[i].id);
    }
    assert forall|x: i64| #[trigger] has_card(b.cards, x) implies has_card(c.cards, x) by {
        assert(has_card(b.cards, x) == has_card(c.cards, x));
    }
    lemma_same_cards_sound(b.cards, c.cards, b.links);
}

/// The store with one card changed, and events added.
pub open spec fn with_card(b: BacklogView, at: int, c: CardView, more: Seq<EventView>) -> BacklogView {
    BacklogView { cards: b.cards.update(at, c), events: b.events + more, ..b }
}

/// Changing one card, with its id kept and its priority in range, keeps a
/// store sound.
pub proof fn lemma_with_card_sound(b: BacklogView, at: int, c: CardView, more: Seq<EventView>)
    requires
        sound(b),
        0 <= at < b.cards.len(),
        c.id == b.cards[at].id,
        in_range(b.cards[at].priority) ==> in_range(c.priority),
    ensures
        sound(with_card(b, at, c, more)),
{
    let d = with_card(b, at, c, more);
    assert forall|i: int| 0 <= i < d.cards.len() implies in_range((#[trigger] d.cards[i]).priority) by {
        assert(in_range(b.cards[i].priority));
    }
    lemma_in_place_sound(b, d);
}

// ------------------------------------------------------------- claims

/// Why a claim is refused.
pub open spec fn claim_card_refusal(b: BacklogView, id: i64, by: Seq<char>) -> Option<RefusalView> {
    if blank(by) {
        Some(RefusalView::NoAgent)
    } else if !has_card(b.cards, id) {
        Some(RefusalView::NotFound(id))
    } else {
        claim_refusal(b.cards[position(b.cards, id)])
    }
}

/// The store once the card is claimed.
pub open spec fn claimed_in(b: BacklogView, at: int, by: Seq<char>, now: Seq<char>) -> BacklogView {
    with_card(b, at, claimed(b.cards[at], by, now), claim_events(b.cards[at], by, now))
}

/// Why a release is refused.
pub open spec fn release_card_refusal(b: BacklogView, id: i64, by: Option<Seq<char>>) -> Option<RefusalView> {
    if !has_card(b.cards, id) {
        Some(RefusalView::NotFound(id))
    } else {
        release_refusal(b.cards[position(b.cards, id)], by)
    }
}

impl Backlog {
    /// A store with nothing in it.
    pub fn new() -> (b: Backlog)
        ensures
            sound(b@),
            b@ == (BacklogView {
                last_id: 0,
                last_project: 0,
                projects: Seq::empty(),
                cards: Seq::empty(),
                links: Seq::empty(),
                events: Seq::empty(),
            }),
    {
        let b = Backlog {
            last_id: 0,
            last_project: 0,
            projects: Vec::new(),
            cards: Vec::new(),
            links: Vec::new(),
            events: Vec::new(),
        };
        assert(b@ =~= BacklogView {
            last_id: 0,
            last_project: 0,
            projects: Seq::empty(),
            cards: Seq::empty(),
            links: Seq::empty(),
            events: Seq::empty(),
        });
        proof {
            assert forall|x: i64, y: i64| !#[trigger] crate::links::blocks(b@.links, x, y) by {}
        }
        b
    }

    /// Claims a card for an agent: it must be `new` or `ready`, and free.
    pub fn claim(&mut self, id: i64, by: &str, now: &str) -> (r: Result<(), Refusal>)
        ensures
            match r {
                Ok(()) => claim_card_refusal(old(self)@, id, by@) is None && final(self)@ == claimed_in(
                    old(self)@,
                    position(old(self)@.cards, id),
                    by@,
                    now@,
                ),
                Err(e) => claim_card_refusal(old(self)@, id, by@) == Some(e@) && final(self)@ == old(self)@,
            },
            sound(old(self)@) ==> sound(final(self)@),
    {
        if is_blank(by) {
            return Err(Refusal::NoAgent);
        }
        match find_card(&self.cards, id) {
            None => Err(Refusal::NotFound(id)),
            Some(at) => self.claim_at(at, by, now),
        }
    }

    fn claim_at(&mut self, at: usize, by: &str, now: &str) -> (r: Result<(), Refusal>)
        requires
            at < old(self)@.cards.len(),
        ensures
            match r {
                Ok(()) => claim_refusal(old(self)@.cards[at as int]) is None && final(self)@ == claimed_in(
                    old(self)@,
                    at as int,
                    by@,
                    now@,
                ),
                Err(e) => claim_refusal(old(self)@.cards[at as int]) == Some(e@) && final(self)@ == old(self)@,
            },
            sound(old(self)@) ==> sound(final(self)@),
    {
        let ghost before = self@;
        let ghost cards = self.cards@;
        assert(before.cards[at as int] == cards[at as int]@);
        let r = crate::lifecycle::claim(&mut self.cards[at], &mut self.events, by, now);
        assert(self.cards@ =~= cards.update(at as int, self.cards@[at as int]));
        assert(self@.cards =~= before.cards.update(at as int, self.cards@[at as int]@));
        proof {
            if r is Ok {
                if sound(before) {
                    lemma_with_card_sound(
                        before,
                        at as int,
                        claimed(before.cards[at as int], by@, now@),
                        claim_events(before.cards[at as int], by@, now@),
                    );
                }
            } else {
                assert(self@.cards =~= before.cards);
                assert(self@ =~= before);
            }
        }
        r
    }

    /// Gives a card back. Where `by` names an agent, only that agent's claim
    /// is released.
    pub fn release(&mut self, id: i64, by: Option<&str>, now: &str) -> (r: Result<(), Refusal>)
        ensures
            ({
                let b = old(self)@;
                let at = position(b.cards, id);
                match r {
                    Ok(()) => release_card_refusal(b, id, opt_text(by)) is None && final(self)@ == with_card(
                        b,
                        at,
                        released(b.cards[at], now@),
                        release_events(b.cards[at], who(opt_text(by)), now@),
                    ),
                    Err(e) => release_card_refusal(b, id, opt_text(by)) == Some(e@) && final(self)@ == b,
                }
            }),
            sound(old(self)@) ==> sound(final(self)@),
    {
        let at: usize = match find_card(&self.cards, id) {
            None => {
                return Err(Refusal::NotFound(id));
            },
            Some(at) => at,
        };
        let ghost before = self@;
        let ghost cards = self.cards@;
        assert(before.cards[at as int] == cards[at as int]@);
        let r = crate::lifecycle::release(&mut self.cards[at], &mut self.events, by, now);
        assert(self.cards@ =~= cards.update(at as int, self.cards@[at as int]));
        assert(self@.cards =~= before.cards.update(at as int, self.cards@[at as int]@));
        proof {
            if r is Ok {
                if sound(before) {
                    lemma_with_card_sound(
                        before,
                        at as int,
                        released(before.cards[at as int], now@),
                        release_events(before.cards[at as int], who(opt_text(by)), now@),
                    );
                }
            } else {
                assert(self@.cards =~= before.cards);
                assert(self@ =~= before);
            }
        }
        r
    }
}

// ------------------------------------------------------------- one card

/// Why a heartbeat is refused: the agent does not hold the card.
pub open spec fn heartbeat_refusal(b: BacklogView, id: i64, by: Seq<char>) -> Option<RefusalView> {
    if has_card(b.cards, id) && holds(b.cards[position(b.cards, id)], by) {
        None
    } else {
        Some(RefusalView::LostClaim(id, by))
    }
}

/// Why a status is not set.
pub open spec fn status_refusal(b: BacklogView, id: i64, outcome: Seq<char>, force: bool) -> Option<RefusalView> {
    if outcome_refusal(outcome, force) is Some {
        outcome_refusal(outcome, force)
    } else if !has_card(b.cards, id) {
        Some(RefusalView::NotFound(id))
    } else {
        None
    }
}

/// Why a card is not ranked anew.
pub open spec fn rank_refusal(b: BacklogView, id: i64, priority: i32) -> Option<RefusalView> {
    if priority_refusal(priority) is Some {
        priority_refusal(priority)
    } else if !has_card(b.cards, id) {
        Some(RefusalView::NotFound(id))
    } else {
        None
    }
}

/// Why an edit of a card is refused.
pub open spec fn edit_card_refusal(b: BacklogView, id: i64, f: EditView) -> Option<RefusalView> {
    if !has_card(b.cards, id) {
        Some(RefusalView::NotFound(id))
    } else {
        edit_refusal(b.projects, f)
    }
}

/// The store once the card is edited.
pub open spec fn edited_in(b: BacklogView, id: i64, f: EditView, now: Seq<char>) -> BacklogView {
    let at = position(b.cards, id);
    with_card(b, at, edited(b.projects, b.cards[at], f, now), edit_events(b.projects, b.cards[at], f, now))
}

/// The first of the ids that no card has.
pub open spec fn first_missing(cards: Seq<CardView>, ids: Seq<i64>) -> Option<i64>
    decreases ids.len(),
{
    if ids.len() == 0 {
        None
    } else if first_missing(cards, ids.drop_last()) is Some {
        first_missing(cards, ids.drop_last())
    } else if !has_card(cards, ids.last()) {
        Some(ids.last())
    } else {
        None
    }
}

/// Why an edit of several cards is refused: the first one missing, else the
/// edit itself, else another one missing.
pub open spec fn bulk_refusal(b: BacklogView, ids: Seq<i64>, f: EditView) -> Option<RefusalView> {
    if ids.len() == 0 {
        None
    } else if !has_card(b.cards, ids[0]) {
        Some(RefusalView::NotFound(ids[0]))
    } else if edit_refusal(b.projects, f) is Some {
        edit_refusal(b.projects, f)
    } else {
        match first_missing(b.cards, ids) {
            Some(id) => Some(RefusalView::NotFound(id)),
            None => None,
        }
    }
}

/// The store once each of the cards is edited, one after the other.
pub open spec fn bulk_edited(b: BacklogView, ids: Seq<i64>, f: EditView, now: Seq<char>) -> BacklogView
    decreases ids.len(),
{
    if ids.len() == 0 {
        b
    } else {
        edited_in(bulk_edited(b, ids.drop_last(), f, now), ids.last(), f, now)
    }
}

/// An edit keeps ids, projects, links and counters, and a sound store sound.
pub proof fn lemma_edited_in(b: BacklogView, id: i64, f: EditView, now: Seq<char>)
    requires
        has_card(b.cards, id),
        edit_refusal(b.projects, f) is None,
    ensures
        same_ids(b.cards, edited_in(b, id, f, now).cards),
        edited_in(b, id, f, now).projects == b.projects,
        sound(b) ==> sound(edited_in(b, id, f, now)),
{
    lemma_position(b.cards, id);
    let at = position(b.cards, id);
    if sound(b) {
        lemma_with_card_sound(
            b,
            at,
            edited(b.projects, b.cards[at], f, now),
            edit_events(b.projects, b.cards[at], f, now),
        );
    }
}

impl Backlog {
    /// Keeps a claim alive while a long job runs.
    pub fn heartbeat(&mut self, id: i64, by: &str, now: &str) -> (r: Result<(), Refusal>)
        ensures
            ({
                let b = old(self)@;
                let at = position(b.cards, id);
                match r {
                    Ok(()) => heartbeat_refusal(b, id, by@) is None && final(self)@ == with_card(
                        b,
                        at,
                        CardView { claimed_at: now@, ..b.cards[at] },
                        Seq::empty(),
                    ),
                    Err(e) => heartbeat_refusal(b, id, by@) == Some(e@) && final(self)@ == b,
                }
            }),
            sound(old(self)@) ==> sound(final(self)@),
    {
        let at: usize = match find_card(&self.cards, id) {
            None => {
                return Err(Refusal::LostClaim(id, copy(by)));
            },
            Some(at) => at,
        };
        let ghost before = self@;
        let ghost cards = self.cards@;
        assert(before.cards[at as int] == cards[at as int]@);
        let kept = crate::lifecycle::heartbeat(&mut self.cards[at], by, now);
        assert(self.cards@ =~= cards.update(at as int, self.cards@[at as int]));
        assert(self@.cards =~= before.cards.update(at as int, self.cards@[at as int]@));
        if kept {
            proof {
                let c = CardView { claimed_at: now@, ..before.cards[at as int] };
                assert(self@ =~= with_card(before, at as int, c, Seq::empty()));
                if sound(before) {
                    lemma_with_card_sound(before, at as int, c, Seq::empty());
                }
            }
            Ok(())
        } else {
            assert(self@.cards =~= before.cards);
            assert(self@ =~= before);
            Err(Refusal::LostClaim(id, copy(by)))
        }
    }

    /// Sets a card's status, and its outcome where one is given.
    pub fn set_status(&mut self, id: i64, status: Status, outcome: &str, by: &str, force: bool, now: &str) -> (r: Result<
        (),
        Refusal,
    >)
        ensures
            ({
                let b = old(self)@;
                let at = position(b.cards, id);
                match r {
                    Ok(()) => status_refusal(b, id, outcome@, force) is None && final(self)@ == with_card(
                        b,
                        at,
                        moved(b.cards[at], status, outcome@, now@),
                        move_events(b.cards[at], status, outcome@, by@, now@),
                    ),
                    Err(e) => status_refusal(b, id, outcome@, force) == Some(e@) && final(self)@ == b,
                }
            }),
            sound(old(self)@) ==> sound(final(self)@),
    {
        match check_outcome(outcome, force) {
            Ok(()) => {},
            Err(e) => {
                return Err(e);
            },
        }
        let at: usize = match find_card(&self.cards, id) {
            None => {
                return Err(Refusal::NotFound(id));
            },
            Some(at) => at,
        };
        let ghost before = self@;
        let ghost cards = self.cards@;
        assert(before.cards[at as int] == cards[at as int]@);
        crate::lifecycle::set_status(&mut self.cards[at], &mut self.events, status, outcome, by, now);
        assert(self.cards@ =~= cards.update(at as int, self.cards@[at as int]));
        assert(self@.cards =~= before.cards.update(at as int, self.cards@[at as int]@));
        proof {
            if sound(before) {
                lemma_with_card_sound(
                    before,
                    at as int,
                    moved(before.cards[at as int], status, outcome@, now@),
                    move_events(before.cards[at as int], status, outcome@, by@, now@),
                );
            }
        }
        Ok(())
    }

    /// Sets a card's priority.
    pub fn set_priority(&mut self, id: i64, priority: i32, by: &str, now: &str) -> (r: Result<(), Refusal>)
        ensures
            ({
                let b = old(self)@;
                let at = position(b.cards, id);
                match r {
                    Ok(()) => rank_refusal(b, id, priority) is None && final(self)@ == with_card(
                        b,
                        at,
                        ranked_at(b.cards[at], priority, now@),
                        rank_events(b.cards[at], priority, by@, now@),
                    ),
                    Err(e) => rank_refusal(b, id, priority) == Some(e@) && final(self)@ == b,
                }
            }),
            sound(old(self)@) ==> sound(final(self)@),
    {
        match check_priority(priority) {
            Ok(()) => {},
            Err(e) => {
                return Err(e);
            },
        }
        let at: usize = match find_card(&self.cards, id) {
            None => {
                return Err(Refusal::NotFound(id));
            },
            Some(at) => at,
        };
        let ghost before = self@;
        let ghost cards = self.cards@;
        assert(before.cards[at as int] == cards[at as int]@);
        crate::lifecycle::set_priority(&mut self.cards[at], &mut self.events, priority, by, now);
        assert(self.cards@ =~= cards.update(at as int, self.cards@[at as int]));
        assert(self@.cards =~= before.cards.update(at as int, self.cards@[at as int]@));
        proof {
            if sound(before) {
                lemma_with_card_sound(
                    before,
                    at as int,
                    ranked_at(before.cards[at as int], priority, now@),
                    rank_events(before.cards[at as int], priority, by@, now@),
                );
            }
        }
        Ok(())
    }

    /// Edits one card. Gives the names of the fields that changed and whether
    /// the card moved to another project.
    pub fn edit(&mut self, id: i64, f: &EditFields, now: &str) -> (r: Result<(Vec<String>, bool), Refusal>)
        ensures
            match r {
                Ok((names, moved)) => {
                    let at = position(old(self)@.cards, id);
                    let was = old(self)@.cards[at];
                    let is = final(self)@.cards[at];
                    &&& edit_card_refusal(old(self)@, id, f@) is None
                    &&& texts(names@) == changed_names(was, is)
                    &&& moved == (is.project_id != was.project_id)
                    &&& final(self)@ == edited_in(old(self)@, id, f@, now@)
                },
                Err(e) => edit_card_refusal(old(self)@, id, f@) == Some(e@) && final(self)@ == old(self)@,
            },
            sound(old(self)@) ==> sound(final(self)@),
    {
        let at: usize = match find_card(&self.cards, id) {
            None => {
                return Err(Refusal::NotFound(id));
            },
            Some(at) => at,
        };
        match check_edit(&self.projects, f) {
            Err(e) => Err(e),
            Ok(to) => {
                let was = self.cards[at].clone();
                assert(was@ == old(self)@.cards[at as int]);
                self.edit_at(at, id, f, to, now);
                assert(self@.cards.len() == self.cards@.len());
                assert(self@.cards[at as int] == self.cards@[at as int]@);
                let moved = self.cards[at].project_id != was.project_id;
                Ok((names_changed(&was, &self.cards[at]), moved))
            },
        }
    }

    fn edit_at(&mut self, at: usize, id: i64, f: &EditFields, to: Option<usize>, now: &str)
        requires
            at == position(old(self)@.cards, id),
            at < old(self)@.cards.len(),
            edit_refusal(old(self)@.projects, f@) is None,
            match to {
                Some(k) => k < old(self)@.projects.len() && crate::edit::destination(old(self)@.projects, f@) == Some(
                    old(self)@.projects[k as int],
                ),
                None => crate::edit::destination(old(self)@.projects, f@) is None,
            },
        ensures
            final(self)@ == edited_in(old(self)@, id, f@, now@),
            sound(old(self)@) ==> sound(final(self)@),
            final(self).projects == old(self).projects,
    {
        let ghost before = self@;
        let ghost cards = self.cards@;
        assert(before.cards[at as int] == cards[at as int]@);
        make_edit(&self.projects, &mut self.cards[at], f, to, &mut self.events, now);
        assert(self.cards@ =~= cards.update(at as int, self.cards@[at as int]));
        assert(self@.cards =~= before.cards.update(at as int, self.cards@[at as int]@));
        assert(self@ =~= edited_in(before, id, f@, now@));
        proof {
            lemma_edited_in(before, id, f@, now@);
        }
    }

    /// The same edit on several cards, all of them or none. Gives the names
    /// of the fields that changed on the first card.
    pub fn bulk_edit(&mut self, ids: &Vec<i64>, f: &EditFields, now: &str) -> (r: Result<Vec<String>, Refusal>)
        ensures
            match r {
                Ok(names) => {
                    &&& bulk_refusal(old(self)@, ids@, f@) is None
                    &&& final(self)@ == bulk_edited(old(self)@, ids@, f@, now@)
                    &&& texts(names@) == if ids@.len() == 0 {
                        Seq::empty()
                    } else {
                        let was = old(self)@.cards[position(old(self)@.cards, ids@[0])];
                        changed_names(was, edited(old(self)@.projects, was, f@, now@))
                    }
                },
                Err(e) => bulk_refusal(old(self)@, ids@, f@) == Some(e@) && final(self)@ == old(self)@,
            },
            sound(old(self)@) ==> sound(final(self)@),
    {
        let ghost before = self@;
        if ids.len() == 0 {
            let none: Vec<String> = Vec::new();
            assert(texts(none@) =~= Seq::empty());
            return Ok(none);
        }
        let head: usize = match find_card(&self.cards, ids[0]) {
            Some(at) => at,
            None => {
                return Err(Refusal::NotFound(ids[0]));
            },
        };
        let to = match check_edit(&self.projects, f) {
            Err(e) => {
                return Err(e);
            },
            Ok(to) => to,
        };
        match self.missing(ids) {
            Some(id) => {
                return Err(Refusal::NotFound(id));
            },
            None => {},
        }
        let was = self.cards[head].clone();
        let ghost first = edited(before.projects, was@, f@, now@);
        assert(was@ == before.cards[head as int]);
        let mut names: Vec<String> = Vec::new();
        let ghost projects = self.projects;
        let mut i: usize = 0;
        assert(ids@.take(0) =~= Seq::<i64>::empty());
        while i < ids.len()
            invariant
                i <= ids@.len(),
                self@ == bulk_edited(before, ids@.take(i as int), f@, now@),
                self.projects == projects,
                before.projects == project_views(projects@),
                same_ids(before.cards, self@.cards),
                forall|k: int| 0 <= k < ids@.len() ==> has_card(before.cards, #[trigger] ids@[k]),
                edit_refusal(before.projects, f@) is None,
                match to {
                    Some(k) => k < projects@.len() && crate::edit::destination(before.projects, f@) == Some(
                        projects@[k as int]@,
                    ),
                    None => crate::edit::destination(before.projects, f@) is None,
                },
                sound(before) ==> sound(self@),
                head == position(before.cards, ids@[0]),
                head < before.cards.len(),
                was@ == before.cards[head as int],
                first == edited(before.projects, was@, f@, now@),
                i > 0 ==> texts(names@) == changed_names(was@, first),
            decreases ids.len() - i,
        {
            let id: i64 = ids[i];
            assert(ids@.take(i + 1).drop_last() =~= ids@.take(i as int));
            assert(ids@.take(i + 1).last() == id);
            proof {
                lemma_same_ids(before.cards, self@.cards);
                assert(has_card(before.cards, ids@[i as int]));
                assert(has_card(self@.cards, id));
                lemma_edited_in(self@, id, f@, now@);
            }
            match find_card(&self.cards, id) {
                Some(at) => {
                    assert(self@.projects == before.projects);
                    proof {
                        if to is Some {
                            assert(self@.projects[to->0 as int] == projects@[to->0 as int]@);
                        }
                    }
                    self.edit_at(at, id, f, to, now);
                    if i == 0 {
                        assert(ids@.take(0) =~= Seq::<i64>::empty());
                        assert(self@.cards.len() == self.cards@.len());
                        assert(self@.cards[head as int] == self.cards@[head as int]@);
                        names = names_changed(&was, &self.cards[head]);
                    }
                },
                None => {},
            }
            i = i + 1;
        }
        assert(ids@.take(i as int) =~= ids@);
        Ok(names)
    }

    fn missing(&self, ids: &Vec<i64>) -> (r: Option<i64>)
        ensures
            r == first_missing(self@.cards, ids@),
            r is None ==> forall|k: int| 0 <= k < ids@.len() ==> has_card(self@.cards, #[trigger] ids@[k]),
    {
        let ghost cv = self@.cards;
        let mut r: Option<i64> = None;
        let mut i: usize = 0;
        while i < ids.len()
            invariant
                i <= ids@.len(),
                cv == self@.cards,
                r == first_missing(cv, ids@.take(i as int)),
                r is None ==> forall|k: int| 0 <= k < i ==> has_card(cv, #[trigger] ids@[k]),
            decreases ids.len() - i,
        {
            assert(ids@.take(i + 1).drop_last() =~= ids@.take(i as int));
            assert(ids@.take(i + 1).last() == ids@[i as int]);
            if r.is_none() && find_card(&self.cards, ids[i]).is_none() {
                r = Some(ids[i]);
            }
            i = i + 1;
        }
        assert(ids@.take(i as int) =~= ids@);
        r
    }
}

// ------------------------------------------------------------- laws

/// Law: once the last thing a card waits on is done, the card is no longer
/// held back.
pub proof fn law_last_blocker_done_lets_go(b: BacklogView, blocker: i64, waiting: i64, outcome: Seq<char>, now: Seq<char>)
    requires
        has_card(b.cards, blocker),
        forall|k: int|
            0 <= k < b.links.len() && (#[trigger] b.links[k]).kind == LinkKind::Blocks && b.links[k].to == waiting
                && b.links[k].from != blocker && has_card(b.cards, b.links[k].from) ==> b.cards[position(
                b.cards,
                b.links[k].from,
            )].status == Status::Done,
    ensures
        ({
            let at = position(b.cards, blocker);
            let c = with_card(b, at, moved(b.cards[at], Status::Done, outcome, now), Seq::empty());
            !held_back(c.cards, c.links, waiting)
        }),
{
    let at = position(b.cards, blocker);
    let cards = b.cards.update(at, moved(b.cards[at], Status::Done, outcome, now));
    lemma_position(b.cards, blocker);
    lemma_same_ids(b.cards, cards);
    if held_back(cards, b.links, waiting) {
        let k = choose|k: int|
            0 <= k < b.links.len() && (#[trigger] b.links[k]).kind == LinkKind::Blocks && b.links[k].to == waiting
                && has_card(cards, b.links[k].from) && cards[position(cards, b.links[k].from)].status != Status::Done;
        let from = b.links[k].from;
        assert(has_card(b.cards, from) && position(b.cards, from) == position(cards, from));
        lemma_position(b.cards, from);
        if from != blocker {
            assert(b.cards[position(b.cards, from)].status == Status::Done);
        }
    }
}

} // verus!
