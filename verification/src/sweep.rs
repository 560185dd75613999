//! What commands do to many cards at once: taking the next one, taking back
//! claims that nobody keeps alive, and ageing.

use vstd::prelude::*;

use crate::backlog::{
    claimed_in, lemma_in_place_sound, lemma_same_ids, lemma_with_card_sound, same_ids, sound, Backlog, BacklogView,
};
use crate::card::{card_views, has_card, in_range, lemma_position, position, CardView};
use crate::events::EventView;
use crate::lifecycle::{claim_events, claimable, claimed, decay_events, decayed, is_stale, reap_events, reaped, stale};
use crate::links::{held_back, LinkKind};
use crate::notes::opt_text;
use crate::project::ProjectView;
use crate::refusal::{Refusal, RefusalView};
use crate::select::{in_scope, lemma_kept, next, next_position, numbered, numbering, offers, within_scope, Scope};
use crate::status::Status;
use crate::text::{blank, is_blank};

verus! {

// ------------------------------------------------------------- next

/// The agent named, where one is.
pub open spec fn agent_given(by: Option<Seq<char>>) -> bool {
    by is Some && !blank(by->0)
}

/// The position of the card that a claim of the next one takes.
pub open spec fn next_free(b: BacklogView, scope: Scope, label: Option<Seq<char>>, ready_only: bool) -> Option<usize> {
    next_position(b.cards, b.links, b.projects, scope, label, ready_only, true)
}

/// Which cards a claim of the next one could take.
pub open spec fn free_offers(b: BacklogView, scope: Scope, label: Option<Seq<char>>, ready_only: bool) -> Seq<bool> {
    offers(b.cards, b.links, b.projects, scope, label, ready_only, true)
}

/// Claiming a card changes nothing about which cards wait on something.
proof fn lemma_claim_holds_nothing_back(b: BacklogView, at: int, by: Seq<char>, now: Seq<char>, id: i64)
    requires
        0 <= at < b.cards.len(),
        claimable(b.cards[at]),
    ensures
        held_back(claimed_in(b, at, by, now).cards, b.links, id) == held_back(b.cards, b.links, id),
{
    let d = claimed_in(b, at, by, now);
    assert(same_ids(b.cards, d.cards));
    lemma_same_ids(b.cards, d.cards);
    assert forall|k: int| 0 <= k < b.links.len() implies has_card(d.cards, (#[trigger] b.links[k]).from) == has_card(
        b.cards,
        b.links[k].from,
    ) && (has_card(b.cards, b.links[k].from) ==> (d.cards[position(d.cards, b.links[k].from)].status == Status::Done)
        == (b.cards[position(b.cards, b.links[k].from)].status == Status::Done)) by {
        let from = b.links[k].from;
        assert(position(b.cards, from) == position(d.cards, from));
        assert(has_card(b.cards, from) == has_card(d.cards, from));
        lemma_position(b.cards, from);
    }
    if held_back(b.cards, b.links, id) {
        let k = choose|k: int|
            0 <= k < b.links.len() && (#[trigger] b.links[k]).kind == LinkKind::Blocks && b.links[k].to == id
                && has_card(b.cards, b.links[k].from) && b.cards[position(b.cards, b.links[k].from)].status
                != Status::Done;
        assert(b.links[k].kind == LinkKind::Blocks && has_card(d.cards, b.links[k].from));
    }
    if held_back(d.cards, b.links, id) {
        let k = choose|k: int|
            0 <= k < b.links.len() && (#[trigger] b.links[k]).kind == LinkKind::Blocks && b.links[k].to == id
                && has_card(d.cards, b.links[k].from) && d.cards[position(d.cards, b.links[k].from)].status
                != Status::Done;
        assert(b.links[k].kind == LinkKind::Blocks && has_card(b.cards, b.links[k].from));
    }
}

/// Law: claiming a card takes that card out of what is offered next, and
/// no other. Two agents that claim one after the other get different cards,
/// or none.
pub proof fn law_claim_takes_one_offer(
    b: BacklogView,
    scope: Scope,
    label: Option<Seq<char>>,
    ready_only: bool,
    at: int,
    by: Seq<char>,
    now: Seq<char>,
)
    requires
        0 <= at < b.cards.len(),
        claimable(b.cards[at]),
    ensures
        free_offers(claimed_in(b, at, by, now), scope, label, ready_only) == free_offers(
            b,
            scope,
            label,
            ready_only,
        ).update(at, false),
        b.cards.len() <= usize::MAX ==> next_free(claimed_in(b, at, by, now), scope, label, ready_only) != Some(
            at as usize,
        ),
{
    let d = claimed_in(b, at, by, now);
    let before = free_offers(b, scope, label, ready_only);
    let after = free_offers(d, scope, label, ready_only);
    assert forall|j: int| 0 <= j < after.len() implies #[trigger] after[j] == before.update(at, false)[j] by {
        if j != at {
            assert(d.cards[j] == b.cards[j]);
            lemma_claim_holds_nothing_back(b, at, by, now, b.cards[j].id);
        }
    }
    assert(after =~= before.update(at, false));
    if b.cards.len() <= usize::MAX {
        crate::select::law_ranking(d.cards, after, 1);
        let found = crate::select::ranking(d.cards, after, 1);
        if found.len() > 0 {
            assert(after[found[0] as int]);
        }
    }
}

impl Backlog {
    /// Claims the next card for an agent: of those that may be offered, the
    /// highest ranked. Gives its id; none where none may be offered.
    pub fn next_claim(
        &mut self,
        scope: Scope,
        label: Option<&str>,
        ready_only: bool,
        by: Option<&str>,
        now: &str,
    ) -> (r: Result<Option<i64>, Refusal>)
        ensures
            ({
                let b = old(self)@;
                let n = next_free(b, scope, opt_text(label), ready_only);
                match r {
                    Ok(Some(id)) => {
                        &&& agent_given(opt_text(by))
                        &&& n is Some
                        &&& n->0 < b.cards.len()
                        &&& id == b.cards[n->0 as int].id
                        &&& final(self)@ == claimed_in(b, n->0 as int, by->0@, now@)
                    },
                    Ok(None) => agent_given(opt_text(by)) && n is None && final(self)@ == b,
                    Err(e) => !agent_given(opt_text(by)) && e@ == RefusalView::ClaimNeedsAgent && final(self)@ == b,
                }
            }),
            sound(old(self)@) ==> sound(final(self)@),
    {
        let agent = match by {
            Some(a) => {
                if is_blank(a) {
                    return Err(Refusal::ClaimNeedsAgent);
                }
                a
            },
            None => {
                return Err(Refusal::ClaimNeedsAgent);
            },
        };
        match next(&self.cards, &self.links, &self.projects, scope, label, ready_only, true) {
            None => Ok(None),
            Some(at) => {
                let ghost before = self@;
                let ghost cards = self.cards@;
                assert(before.cards[at as int] == cards[at as int]@);
                assert(claimable(before.cards[at as int]));
                let id: i64 = self.cards[at].id;
                let r = crate::lifecycle::claim(&mut self.cards[at], &mut self.events, agent, now);
                assert(self.cards@ =~= cards.update(at as int, self.cards@[at as int]));
                assert(self@.cards =~= before.cards.update(at as int, self.cards@[at as int]@));
                proof {
                    assert(r is Ok);
                    if sound(before) {
                        lemma_with_card_sound(
                            before,
                            at as int,
                            claimed(before.cards[at as int], agent@, now@),
                            claim_events(before.cards[at as int], agent@, now@),
                        );
                    }
                }
                Ok(Some(id))
            },
        }
    }
}

// ------------------------------------------------------------- reap

/// The claim is to be taken back: it is stale, and the card in the scope.
pub open spec fn doomed(projects: Seq<ProjectView>, scope: Scope, cutoff: Seq<char>, c: CardView) -> bool {
    stale(c, cutoff) && in_scope(projects, scope, c)
}

/// Which claims are to be taken back.
pub open spec fn doomed_flags(b: BacklogView, scope: Scope, cutoff: Seq<char>) -> Seq<bool> {
    b.cards.map_values(|c: CardView| doomed(b.projects, scope, cutoff, c))
}

/// The cards whose claims are to be taken back, lowest id first.
pub open spec fn doomed_order(b: BacklogView, scope: Scope, cutoff: Seq<char>) -> Seq<usize> {
    numbering(b.cards, doomed_flags(b, scope, cutoff))
}

/// What taking back several claims leaves in the log.
pub open spec fn reap_log(cards: Seq<CardView>, order: Seq<usize>, now: Seq<char>) -> Seq<EventView>
    decreases order.len(),
{
    if order.len() == 0 {
        Seq::empty()
    } else {
        reap_log(cards, order.drop_last(), now) + reap_events(cards[order.last() as int], now)
    }
}

/// The cards once those at some positions are reaped.
pub open spec fn reaped_at(cards: Seq<CardView>, order: Seq<usize>, now: Seq<char>) -> Seq<CardView> {
    Seq::new(
        cards.len(),
        |i: int| if exists|k: int| 0 <= k < order.len() && #[trigger] order[k] == i { reaped(cards[i], now) } else {
            cards[i]
        },
    )
}

/// The store once the stale claims are taken back.
pub open spec fn swept(b: BacklogView, scope: Scope, cutoff: Seq<char>, now: Seq<char>) -> BacklogView {
    BacklogView {
        cards: b.cards.map_values(
            |c: CardView| if doomed(b.projects, scope, cutoff, c) { reaped(c, now) } else { c },
        ),
        events: b.events + reap_log(b.cards, doomed_order(b, scope, cutoff), now),
        ..b
    }
}

/// Law: once the stale claims are taken back none is left in the scope, and
/// a claim that was renewed in time is not touched.
pub proof fn law_reaping_spares_live_claims(b: BacklogView, scope: Scope, cutoff: Seq<char>, now: Seq<char>)
    ensures
        swept(b, scope, cutoff, now).cards.len() == b.cards.len(),
        forall|i: int|
            0 <= i < b.cards.len() ==> !doomed(
                b.projects,
                scope,
                cutoff,
                #[trigger] swept(b, scope, cutoff, now).cards[i],
            ),
        forall|i: int|
            0 <= i < b.cards.len() && !stale(#[trigger] b.cards[i], cutoff) ==> swept(b, scope, cutoff, now).cards[i]
                == b.cards[i],
{
}

impl Backlog {
    /// The cards whose claims are to be taken back: their positions, lowest
    /// id first.
    pub fn stale_cards(&self, scope: Scope, cutoff: &str) -> (out: Vec<usize>)
        ensures
            out@ == doomed_order(self@, scope, cutoff@),
            forall|k: int|
                0 <= k < out@.len() ==> (#[trigger] out@[k]) < self@.cards.len() && doomed_flags(
                    self@,
                    scope,
                    cutoff@,
                )[out@[k] as int],
    {
        let ghost cv = self@.cards;
        let ghost flags = doomed_flags(self@, scope, cutoff@);
        let mut keep: Vec<bool> = Vec::new();
        let mut i: usize = 0;
        while i < self.cards.len()
            invariant
                i <= self.cards@.len(),
                cv == card_views(self.cards@),
                cv == self@.cards,
                flags == doomed_flags(self@, scope, cutoff@),
                keep@ == flags.take(i as int),
            decreases self.cards.len() - i,
        {
            assert(cv[i as int] == self.cards@[i as int]@);
            let k = is_stale(&self.cards[i], cutoff) && within_scope(&self.projects, scope, &self.cards[i]);
            assert(k == flags[i as int]);
            keep.push(k);
            assert(flags.take(i + 1) =~= flags.take(i as int).push(flags[i as int]));
            i = i + 1;
        }
        assert(flags.take(i as int) =~= flags);
        numbered(&self.cards, &keep)
    }

    /// Takes back every claim in the scope that has not been renewed since
    /// the cutoff, each with a note that says why.
    pub fn reap(&mut self, scope: Scope, cutoff: &str, now: &str) -> (n: usize)
        ensures
            final(self)@ == swept(old(self)@, scope, cutoff@, now@),
            n == doomed_order(old(self)@, scope, cutoff@).len(),
            sound(old(self)@) ==> sound(final(self)@),
    {
        let ghost before = self@;
        let total: usize = self.cards.len();
        let ghost whole = crate::order::sorted_order(
            crate::select::id_keys(before.cards),
            crate::order::Texts::Ascending,
        );
        let order = self.stale_cards(scope, cutoff);
        proof {
            assert(before.cards.len() == total);
            crate::order::lemma_order_exists(
                crate::select::id_keys(before.cards),
                crate::order::Texts::Ascending,
            );
            lemma_kept(whole, doomed_flags(before, scope, cutoff@));
            crate::order::lemma_covers(whole, before.cards.len() as int);
        }
        let mut k: usize = 0;
        assert(self@.cards =~= reaped_at(before.cards, order@.take(0), now@));
        assert(self@.events =~= before.events + reap_log(before.cards, order@.take(0), now@));
        while k < order.len()
            invariant
                k <= order@.len(),
                order@.no_duplicates(),
                forall|j: int| 0 <= j < order@.len() ==> (#[trigger] order@[j]) < before.cards.len(),
                self@.cards == reaped_at(before.cards, order@.take(k as int), now@),
                self@.events == before.events + reap_log(before.cards, order@.take(k as int), now@),
                self@.projects == before.projects,
                self@.links == before.links,
                self@.last_id == before.last_id,
                self@.last_project == before.last_project,
            decreases order.len() - k,
        {
            let at: usize = order[k];
            let ghost cards = self.cards@;
            let ghost views = self@.cards;
            let ghost taken = order@.take(k as int);
            assert(order@[k as int] < before.cards.len());
            assert(views.len() == before.cards.len());
            assert(views[at as int] == cards[at as int]@);
            assert(views[at as int] == before.cards[at as int]) by {
                if exists|j: int| 0 <= j < taken.len() && #[trigger] taken[j] == at as int {
                    let j = choose|j: int| 0 <= j < taken.len() && #[trigger] taken[j] == at as int;
                    assert(order@[j] == order@[k as int]);
                }
            }
            crate::lifecycle::reap(&mut self.cards[at], &mut self.events, now);
            assert(self.cards@ =~= cards.update(at as int, self.cards@[at as int]));
            assert(self@.cards =~= views.update(at as int, reaped(before.cards[at as int], now@)));
            let ghost more = order@.take(k + 1);
            assert(more.drop_last() =~= taken);
            assert(more.last() == at);
            assert forall|i: int| 0 <= i < before.cards.len() implies #[trigger] self@.cards[i] == reaped_at(
                before.cards,
                more,
                now@,
            )[i] by {
                if i == at {
                    assert(more[k as int] == i);
                } else if exists|j: int| 0 <= j < taken.len() && #[trigger] taken[j] == i {
                    let j = choose|j: int| 0 <= j < taken.len() && #[trigger] taken[j] == i;
                    assert(more[j] == i);
                } else if exists|j: int| 0 <= j < more.len() && #[trigger] more[j] == i {
                    let j = choose|j: int| 0 <= j < more.len() && #[trigger] more[j] == i;
                    if j < k {
                        assert(taken[j] == i);
                    }
                }
            }
            assert(self@.cards =~= reaped_at(before.cards, more, now@));
            assert(self@.events =~= before.events + reap_log(before.cards, more, now@));
            k = k + 1;
        }
        assert(order@.take(k as int) =~= order@);
        proof {
            let flags = doomed_flags(before, scope, cutoff@);
            let wanted = swept(before, scope, cutoff@, now@);
            assert forall|i: int| 0 <= i < before.cards.len() implies #[trigger] self@.cards[i] == wanted.cards[i] by {
                if flags[i] {
                    assert(whole.contains(i as usize));
                    assert(order@.contains(i as usize));
                    let j = choose|j: int| 0 <= j < order@.len() && order@[j] == i as usize;
                    assert(order@[j] == i);
                } else if exists|j: int| 0 <= j < order@.len() && #[trigger] order@[j] == i {
                    let j = choose|j: int| 0 <= j < order@.len() && #[trigger] order@[j] == i;
                    assert(flags[order@[j] as int]);
                }
            }
            assert(self@.cards =~= wanted.cards);
            assert(self@ =~= wanted);
            if sound(before) {
                assert forall|i: int| 0 <= i < self@.cards.len() implies in_range((#[trigger] self@.cards[i]).priority) by {
                    assert(in_range(before.cards[i].priority));
                }
                lemma_in_place_sound(before, self@);
            }
        }
        order.len()
    }
}

// ------------------------------------------------------------- decay

/// The card ages: it is not done, and in the scope.
pub open spec fn ages(projects: Seq<ProjectView>, scope: Scope, c: CardView) -> bool {
    c.status != Status::Done && in_scope(projects, scope, c)
}

/// How many cards age.
pub open spec fn ageing(projects: Seq<ProjectView>, scope: Scope, cards: Seq<CardView>) -> nat
    decreases cards.len(),
{
    if cards.len() == 0 {
        0
    } else {
        ageing(projects, scope, cards.drop_last()) + if ages(projects, scope, cards.last()) {
            1nat
        } else {
            0nat
        }
    }
}

/// What ageing leaves in the log, card by card.
pub open spec fn decay_log(
    projects: Seq<ProjectView>,
    scope: Scope,
    cards: Seq<CardView>,
    amount: int,
    now: Seq<char>,
) -> Seq<EventView>
    decreases cards.len(),
{
    if cards.len() == 0 {
        Seq::empty()
    } else {
        decay_log(projects, scope, cards.drop_last(), amount, now) + if ages(projects, scope, cards.last()) {
            decay_events(cards.last(), amount, now)
        } else {
            Seq::empty()
        }
    }
}

/// The store once the cards have aged.
pub open spec fn aged_store(b: BacklogView, scope: Scope, amount: int, now: Seq<char>) -> BacklogView {
    BacklogView {
        cards: b.cards.map_values(
            |c: CardView| if ages(b.projects, scope, c) { decayed(c, amount, now) } else { c },
        ),
        events: b.events + decay_log(b.projects, scope, b.cards, amount, now),
        ..b
    }
}

impl Backlog {
    /// Takes the priority of every card in the scope that is not done down
    /// by an amount, but not below 0, and logs every priority that changed.
    /// Gives how many cards aged.
    pub fn decay(&mut self, scope: Scope, amount: i32, now: &str) -> (r: Result<usize, Refusal>)
        ensures
            match r {
                Ok(n) => amount >= 0 && final(self)@ == aged_store(old(self)@, scope, amount as int, now@) && n
                    == ageing(old(self)@.projects, scope, old(self)@.cards),
                Err(e) => amount < 0 && e@ == RefusalView::NegativeAmount && final(self)@ == old(self)@,
            },
            sound(old(self)@) ==> sound(final(self)@),
    {
        if amount < 0 {
            return Err(Refusal::NegativeAmount);
        }
        let ghost before = self@;
        let ghost wanted = aged_store(before, scope, amount as int, now@);
        let mut n: usize = 0;
        let mut i: usize = 0;
        let total: usize = self.cards.len();
        assert(self@.cards =~= wanted.cards.take(0) + before.cards.skip(0));
        assert(self@.events =~= before.events + Seq::empty());
        while i < total
            invariant
                i <= total,
                total == before.cards.len(),
                amount >= 0,
                wanted == aged_store(before, scope, amount as int, now@),
                self@.cards == wanted.cards.take(i as int) + before.cards.skip(i as int),
                self@.events == before.events + decay_log(
                    before.projects,
                    scope,
                    before.cards.take(i as int),
                    amount as int,
                    now@,
                ),
                self@.projects == before.projects,
                self@.links == before.links,
                self@.last_id == before.last_id,
                self@.last_project == before.last_project,
                n == ageing(before.projects, scope, before.cards.take(i as int)),
                n <= i,
            decreases total - i,
        {
            let ghost cards = self.cards@;
            let ghost views = self@.cards;
            assert(views.len() == total);
            assert(views[i as int] == cards[i as int]@);
            assert(views[i as int] == before.cards[i as int]);
            assert(before.cards.take(i + 1).drop_last() =~= before.cards.take(i as int));
            assert(before.cards.take(i + 1).last() == before.cards[i as int]);
            let takes_part = self.cards[i].status != Status::Done && within_scope(
                &self.projects,
                scope,
                &self.cards[i],
            );
            let ghost logged = decay_log(before.projects, scope, before.cards.take(i as int), amount as int, now@);
            if takes_part {
                crate::lifecycle::decay(&mut self.cards[i], &mut self.events, amount, now);
                assert(self.cards@ =~= cards.update(i as int, self.cards@[i as int]));
                let ghost more = decay_events(before.cards[i as int], amount as int, now@);
                assert(self@.events =~= before.events + (logged + more));
                n = n + 1;
            } else {
                assert(logged + Seq::empty() =~= logged);
            }
            assert(self@.cards =~= views.update(i as int, wanted.cards[i as int]));
            assert(self@.cards =~= wanted.cards.take(i + 1) + before.cards.skip(i + 1));
            i = i + 1;
        }
        assert(before.cards.take(i as int) =~= before.cards);
        assert(self@.cards =~= wanted.cards);
        assert(self@ =~= wanted);
        proof {
            if sound(before) {
                assert forall|k: int| 0 <= k < self@.cards.len() implies in_range((#[trigger] self@.cards[k]).priority) by {
                    assert(in_range(before.cards[k].priority));
                }
                lemma_in_place_sound(before, self@);
            }
        }
        Ok(n)
    }
}

} // verus!
