//! Filing new cards and deleting cards filed in error.

use vstd::prelude::*;

use crate::backlog::{cards_sound, sound, Backlog, BacklogView};
use crate::card::{
    card_views, check_priority, check_title, find_card, has_card, in_range, lemma_position, position,
    priority_refusal, title_refusal, Card, CardView,
};
use crate::events::{event, history, record, EventView};
use crate::lifecycle::{check_delete, delete_event, delete_refusal, obituary_of};
use crate::links::{drop_all, lemma_drop_all_sound, lemma_same_cards_sound, without_card};
use crate::notes::{note_views, rebuild_blob, reconcile, reconciled, with_entries, Note, NoteView};
use crate::refusal::{Refusal, RefusalView};
use crate::status::Status;
use crate::tags::{normal, normalize_tags};
use crate::text::{copy, same, trim, trimmed};

verus! {

/// A note of a card to be filed.
#[derive(Debug, PartialEq, Eq)]
pub struct DraftNote {
    pub kind: String,
    pub body: String,
}

/// A card to be filed.
#[derive(Debug, PartialEq, Eq)]
pub struct Draft {
    pub title: String,
    pub label: String,
    pub priority: i32,
    /// Notes as a text, one for each line.
    pub notes: String,
    /// Notes with their kinds.
    pub typed: Vec<DraftNote>,
    pub project_id: i64,
    pub project: String,
}

#[verifier::ext_equal]
pub struct DraftView {
    pub title: Seq<char>,
    pub label: Seq<char>,
    pub priority: i32,
    pub notes: Seq<char>,
    pub typed: Seq<(Seq<char>, Seq<char>)>,
    pub project_id: i64,
    pub project: Seq<char>,
}

impl View for Draft {
    type V = DraftView;

    open spec fn view(&self) -> DraftView {
        DraftView {
            title: self.title@,
            label: self.label@,
            priority: self.priority,
            notes: self.notes@,
            typed: self.typed@.map_values(|n: DraftNote| (n.kind@, n.body@)),
            project_id: self.project_id,
            project: self.project@,
        }
    }
}

/// What each of several drafts says.
pub open spec fn draft_views(v: Seq<Draft>) -> Seq<DraftView> {
    v.map_values(|d: Draft| d@)
}

/// What became of a draft.
#[derive(Clone, Copy, Debug, PartialEq, Eq, Structural)]
pub enum Filed {
    /// Filed under this id.
    Created(i64),
    /// The card with this id already has the title.
    Existing(i64),
}

// ------------------------------------------------------------- filing

/// Why a card is not filed.
pub open spec fn draft_refusal(d: DraftView, force: bool) -> Option<RefusalView> {
    if priority_refusal(d.priority) is Some {
        priority_refusal(d.priority)
    } else {
        title_refusal(d.title, force)
    }
}

/// The lowest id of a card with this title in this project.
pub open spec fn titled(cards: Seq<CardView>, title: Seq<char>, project: i64) -> Option<i64>
    decreases cards.len(),
{
    if cards.len() == 0 {
        None
    } else {
        let best = titled(cards.drop_last(), title, project);
        let c = cards.last();
        if c.title == title && c.project_id == project && (best is None || c.id < best->0) {
            Some(c.id)
        } else {
            best
        }
    }
}

/// The rows of notes that come with their kinds.
pub open spec fn typed_rows(typed: Seq<(Seq<char>, Seq<char>)>, by: Seq<char>, now: Seq<char>) -> Seq<NoteView> {
    typed.map_values(
        |n: (Seq<char>, Seq<char>)|
            NoteView {
                id: 0,
                kind: n.0,
                author: by,
                body: n.1,
                commit_sha: Seq::empty(),
                commit_subject: Seq::empty(),
                created_at: now,
            },
    )
}

/// The bare card of a draft.
pub open spec fn fresh(d: DraftView, id: i64, now: Seq<char>) -> CardView {
    CardView {
        id,
        title: trim(d.title),
        notes: d.notes,
        label: normal(d.label),
        status: Status::New,
        priority: d.priority,
        outcome: Seq::empty(),
        claimed_by: Seq::empty(),
        claimed_at: Seq::empty(),
        commits: Seq::empty(),
        created_at: now,
        updated_at: now,
        project_id: d.project_id,
        project: d.project,
        legacy_id: None,
        entries: Seq::empty(),
    }
}

/// The card a draft becomes, notes included.
pub open spec fn filed(d: DraftView, id: i64, by: Seq<char>, now: Seq<char>) -> CardView {
    let c = reconciled(fresh(d, id, now));
    if d.typed.len() == 0 {
        c
    } else {
        with_entries(c, c.entries + typed_rows(d.typed, by, now), now)
    }
}

/// What filing a card leaves in the log.
pub open spec fn created_event(d: DraftView, id: i64, by: Seq<char>, now: Seq<char>) -> EventView {
    event(id, d.project_id, "created"@, ""@, trim(d.title), by, now)
}

/// The store once a draft is filed under the next id.
pub open spec fn created_in(b: BacklogView, d: DraftView, by: Seq<char>, now: Seq<char>) -> BacklogView {
    let id = (b.last_id + 1) as i64;
    BacklogView {
        last_id: id,
        cards: b.cards.push(filed(d, id, by, now)),
        events: b.events.push(created_event(d, id, by, now)),
        ..b
    }
}

/// A draft stands for a card that is there already.
pub open spec fn already_there(b: BacklogView, d: DraftView, if_absent: bool) -> bool {
    if_absent && titled(b.cards, trim(d.title), d.project_id) is Some
}

/// A card more is found beside those that were there.
pub proof fn lemma_more_cards(cards: Seq<CardView>, c: CardView)
    ensures
        forall|x: i64| #[trigger] has_card(cards, x) ==> has_card(cards.push(c), x) && position(cards.push(c), x)
            == position(cards, x),
        has_card(cards.push(c), c.id),
{
    assert(cards.push(c).drop_last() =~= cards);
    assert(cards.push(c).last() == c);
}

proof fn lemma_created_sound(b: BacklogView, d: DraftView, by: Seq<char>, now: Seq<char>)
    requires
        sound(b),
        b.last_id < i64::MAX,
        in_range(d.priority),
    ensures
        sound(created_in(b, d, by, now)),
{
    let e = created_in(b, d, by, now);
    let id = (b.last_id + 1) as i64;
    let c = filed(d, id, by, now);
    lemma_more_cards(b.cards, c);
    lemma_same_cards_sound(b.cards, e.cards, b.links);
    assert forall|i: int, j: int| 0 <= i < j < e.cards.len() implies (#[trigger] e.cards[i]).id != (
    #[trigger] e.cards[j]).id by {
        assert(e.cards[i] == b.cards[i]);
        if j < b.cards.len() {
            assert(e.cards[j] == b.cards[j]);
        }
    }
    assert forall|i: int| 0 <= i < e.cards.len() implies 0 < (#[trigger] e.cards[i]).id <= e.last_id && in_range(
        e.cards[i].priority,
    ) by {
        if i < b.cards.len() {
            assert(e.cards[i] == b.cards[i]);
        }
    }
}

fn find_titled(cards: &Vec<Card>, title: &str, project: i64) -> (r: Option<i64>)
    ensures
        r == titled(card_views(cards@), title@, project),
{
    let ghost cv = card_views(cards@);
    let mut best: Option<i64> = None;
    let mut i: usize = 0;
    while i < cards.len()
        invariant
            i <= cards@.len(),
            cv == card_views(cards@),
            best == titled(cv.take(i as int), title@, project),
        decreases cards.len() - i,
    {
        assert(cv.take(i + 1).drop_last() =~= cv.take(i as int));
        assert(cv.take(i + 1).last() == cards@[i as int]@);
        if cards[i].project_id == project && same(cards[i].title.as_str(), title) {
            best = match best {
                Some(b) => if cards[i].id < b {
                    Some(cards[i].id)
                } else {
                    Some(b)
                },
                None => Some(cards[i].id),
            };
        }
        i = i + 1;
    }
    assert(cv.take(i as int) =~= cv);
    best
}

fn make_card(d: &Draft, id: i64, by: &str, now: &str) -> (c: Card)
    ensures
        c@ == filed(d@, id, by@, now@),
{
    let mut c = Card {
        id,
        title: trimmed(d.title.as_str()),
        notes: d.notes.clone(),
        label: normalize_tags(d.label.as_str()),
        status: Status::New,
        priority: d.priority,
        outcome: String::new(),
        claimed_by: String::new(),
        claimed_at: String::new(),
        commits: String::new(),
        created_at: copy(now),
        updated_at: copy(now),
        project_id: d.project_id,
        project: d.project.clone(),
        legacy_id: None,
        entries: Vec::new(),
    };
    assert(c@ =~= fresh(d@, id, now@));
    reconcile(&mut c);
    assert(d@.typed.len() == d.typed@.len());
    if d.typed.len() == 0 {
        return c;
    }
    let ghost base = c@;
    let ghost rows = typed_rows(d@.typed, by@, now@);
    let mut i: usize = 0;
    assert(c@.entries =~= base.entries + rows.take(0));
    assert(c@ =~= CardView { entries: base.entries + rows.take(0), ..base });
    while i < d.typed.len()
        invariant
            i <= d.typed@.len(),
            rows == typed_rows(d@.typed, by@, now@),
            d@.typed.len() == d.typed@.len(),
            c@ == (CardView { entries: base.entries + rows.take(i as int), ..base }),
        decreases d.typed.len() - i,
    {
        let n = Note {
            id: 0,
            kind: d.typed[i].kind.clone(),
            author: copy(by),
            body: d.typed[i].body.clone(),
            commit_sha: String::new(),
            commit_subject: String::new(),
            created_at: copy(now),
        };
        assert(n@ =~= rows[i as int]);
        let ghost before = note_views(c.entries@);
        c.entries.push(n);
        assert(note_views(c.entries@) =~= before.push(rows[i as int]));
        assert(rows.take(i + 1) =~= rows.take(i as int).push(rows[i as int]));
        assert(c@.entries =~= base.entries + rows.take(i + 1));
        assert(c@ =~= CardView { entries: base.entries + rows.take(i + 1), ..base });
        i = i + 1;
    }
    assert(rows.take(i as int) =~= rows);
    rebuild_blob(&mut c, now);
    c
}

/// Whether a draft can be filed.
pub fn check_draft(d: &Draft, force: bool) -> (r: Result<(), Refusal>)
    ensures
        match r {
            Ok(()) => draft_refusal(d@, force) is None,
            Err(e) => draft_refusal(d@, force) == Some(e@),
        },
{
    match check_priority(d.priority) {
        Ok(()) => check_title(d.title.as_str(), force),
        Err(e) => Err(e),
    }
}

impl Backlog {
    fn file(&mut self, d: &Draft, by: &str, now: &str) -> (id: i64)
        requires
            old(self)@.last_id < i64::MAX,
            in_range(d@.priority),
        ensures
            final(self)@ == created_in(old(self)@, d@, by@, now@),
            id == old(self)@.last_id + 1,
            sound(old(self)@) ==> sound(final(self)@),
    {
        let ghost before = self@;
        let id: i64 = self.last_id + 1;
        let c = make_card(d, id, by, now);
        record(&mut self.events, id, d.project_id, "created", "", c.title.as_str(), by, now);
        self.cards.push(c);
        self.last_id = id;
        assert(c@.title == trim(d@.title));
        assert(self@.cards =~= before.cards.push(filed(d@, id, by@, now@)));
        assert(self@ =~= created_in(before, d@, by@, now@));
        proof {
            if sound(before) {
                lemma_created_sound(before, d@, by@, now@);
            }
        }
        id
    }

    /// Files a card. With `if_absent`, a card with the same title in the
    /// same project is reported instead.
    pub fn create(&mut self, d: &Draft, if_absent: bool, force: bool, by: &str, now: &str) -> (r: Result<Filed, Refusal>)
        ensures
            ({
                let b = old(self)@;
                match r {
                    Ok(Filed::Existing(id)) => draft_refusal(d@, force) is None && if_absent && titled(
                        b.cards,
                        trim(d@.title),
                        d@.project_id,
                    ) == Some(id) && final(self)@ == b,
                    Ok(Filed::Created(id)) => draft_refusal(d@, force) is None && !already_there(b, d@, if_absent)
                        && b.last_id < i64::MAX && id == b.last_id + 1 && final(self)@ == created_in(b, d@, by@, now@),
                    Err(e) => final(self)@ == b && if draft_refusal(d@, force) is Some {
                        draft_refusal(d@, force) == Some(e@)
                    } else {
                        !already_there(b, d@, if_absent) && b.last_id == i64::MAX && e@ == RefusalView::StoreFull
                    },
                }
            }),
            sound(old(self)@) ==> sound(final(self)@),
    {
        match check_draft(d, force) {
            Ok(()) => {},
            Err(e) => {
                return Err(e);
            },
        }
        if if_absent {
            let title = trimmed(d.title.as_str());
            match find_titled(&self.cards, title.as_str(), d.project_id) {
                Some(id) => {
                    return Ok(Filed::Existing(id));
                },
                None => {},
            }
        }
        if self.last_id == i64::MAX {
            return Err(Refusal::StoreFull);
        }
        Ok(Filed::Created(self.file(d, by, now)))
    }
}

// ------------------------------------------------------------- many at once

/// Why drafts are not filed: the first bad one, or too few ids left.
pub open spec fn batch_refusal(b: BacklogView, drafts: Seq<DraftView>) -> Option<RefusalView> {
    if first_bad(drafts) is Some {
        first_bad(drafts)
    } else if drafts.len() > i64::MAX - b.last_id {
        Some(RefusalView::StoreFull)
    } else {
        None
    }
}

/// Why the first bad draft is refused.
pub open spec fn first_bad(drafts: Seq<DraftView>) -> Option<RefusalView>
    decreases drafts.len(),
{
    if drafts.len() == 0 {
        None
    } else if first_bad(drafts.drop_last()) is Some {
        first_bad(drafts.drop_last())
    } else {
        draft_refusal(drafts.last(), false)
    }
}

/// The store once one draft of a batch is dealt with, and what became of it.
pub open spec fn batch_step(b: BacklogView, d: DraftView, if_absent: bool, by: Seq<char>, now: Seq<char>) -> (
    BacklogView,
    Filed,
) {
    match titled(b.cards, trim(d.title), d.project_id) {
        Some(id) if if_absent => (b, Filed::Existing(id)),
        _ => (created_in(b, d, by, now), Filed::Created((b.last_id + 1) as i64)),
    }
}

/// The store once a batch is dealt with, and what became of each draft.
pub open spec fn batch(b: BacklogView, drafts: Seq<DraftView>, if_absent: bool, by: Seq<char>, now: Seq<char>) -> (
    BacklogView,
    Seq<Filed>,
)
    decreases drafts.len(),
{
    if drafts.len() == 0 {
        (b, Seq::empty())
    } else {
        let (mid, done) = batch(b, drafts.drop_last(), if_absent, by, now);
        let (end, what) = batch_step(mid, drafts.last(), if_absent, by, now);
        (end, done.push(what))
    }
}

fn check_drafts(drafts: &Vec<Draft>) -> (r: Result<(), Refusal>)
    ensures
        match r {
            Ok(()) => first_bad(draft_views(drafts@)) is None && forall|k: int|
                0 <= k < drafts@.len() ==> in_range((#[trigger] drafts@[k])@.priority),
            Err(e) => first_bad(draft_views(drafts@)) == Some(e@),
        },
{
    let ghost all = draft_views(drafts@);
    let mut i: usize = 0;
    while i < drafts.len()
        invariant
            i <= drafts@.len(),
            all == draft_views(drafts@),
            first_bad(all.take(i as int)) is None,
            forall|k: int| 0 <= k < i ==> in_range((#[trigger] drafts@[k])@.priority),
        decreases drafts.len() - i,
    {
        assert(all.take(i + 1).drop_last() =~= all.take(i as int));
        assert(all.take(i + 1).last() == drafts@[i as int]@);
        match check_draft(&drafts[i], false) {
            Ok(()) => {},
            Err(e) => {
                proof {
                    lemma_first_bad(all, i + 1);
                }
                return Err(e);
            },
        }
        i = i + 1;
    }
    assert(all.take(i as int) =~= all);
    Ok(())
}

proof fn lemma_first_bad(drafts: Seq<DraftView>, n: int)
    requires
        0 <= n <= drafts.len(),
        first_bad(drafts.take(n)) is Some,
    ensures
        first_bad(drafts) == first_bad(drafts.take(n)),
    decreases drafts.len() - n,
{
    if n == drafts.len() {
        assert(drafts.take(n) =~= drafts);
    } else {
        assert(drafts.take(n + 1).drop_last() =~= drafts.take(n));
        lemma_first_bad(drafts, n + 1);
    }
}

impl Backlog {
    /// Files many cards in one step: all of them, or none.
    pub fn file_all(&mut self, drafts: &Vec<Draft>, if_absent: bool, by: &str, now: &str) -> (r: Result<
        Vec<Filed>,
        Refusal,
    >)
        ensures
            match r {
                Ok(out) => batch_refusal(old(self)@, draft_views(drafts@)) is None && (final(self)@, out@) == batch(
                    old(self)@,
                    draft_views(drafts@),
                    if_absent,
                    by@,
                    now@,
                ),
                Err(e) => batch_refusal(old(self)@, draft_views(drafts@)) == Some(e@) && final(self)@ == old(self)@,
            },
            sound(old(self)@) ==> sound(final(self)@),
    {
        let ghost before = self@;
        let ghost all = draft_views(drafts@);
        match check_drafts(drafts) {
            Ok(()) => {},
            Err(e) => {
                return Err(e);
            },
        }
        if drafts.len() as i128 > i64::MAX as i128 - self.last_id as i128 {
            return Err(Refusal::StoreFull);
        }
        let mut out: Vec<Filed> = Vec::new();
        let mut i: usize = 0;
        assert(all.take(0) =~= Seq::empty());
        while i < drafts.len()
            invariant
                i <= drafts@.len(),
                all == draft_views(drafts@),
                (self@, out@) == batch(before, all.take(i as int), if_absent, by@, now@),
                forall|k: int| 0 <= k < drafts@.len() ==> in_range((#[trigger] drafts@[k])@.priority),
                drafts@.len() <= i64::MAX - before.last_id,
                self@.last_id <= before.last_id + i,
                sound(before) ==> sound(self@),
            decreases drafts.len() - i,
        {
            assert(all.take(i + 1).drop_last() =~= all.take(i as int));
            assert(all.take(i + 1).last() == drafts@[i as int]@);
            let d = &drafts[i];
            assert(in_range(drafts@[i as int]@.priority));
            let title = trimmed(d.title.as_str());
            let there = find_titled(&self.cards, title.as_str(), d.project_id);
            match there {
                Some(id) => {
                    if if_absent {
                        out.push(Filed::Existing(id));
                    } else {
                        let id: i64 = self.file(d, by, now);
                        out.push(Filed::Created(id));
                    }
                },
                None => {
                    let id: i64 = self.file(d, by, now);
                    out.push(Filed::Created(id));
                },
            }
            i = i + 1;
        }
        assert(all.take(i as int) =~= all);
        Ok(out)
    }
}

// ------------------------------------------------------------- deleting

/// Why a card is not deleted.
pub open spec fn delete_card_refusal(b: BacklogView, id: i64, force: bool) -> Option<RefusalView> {
    if !has_card(b.cards, id) {
        Some(RefusalView::NotFound(id))
    } else {
        delete_refusal(b.cards[position(b.cards, id)], force)
    }
}

/// The store once the card is gone, with its links; what it said stays in
/// the log.
pub open spec fn deleted_in(b: BacklogView, id: i64, why: Seq<char>, by: Seq<char>, now: Seq<char>) -> BacklogView {
    let at = position(b.cards, id);
    BacklogView {
        cards: b.cards.remove(at),
        links: without_card(b.links, id),
        events: b.events.push(delete_event(b.cards[at], why, by, now)),
        ..b
    }
}

/// The other cards are still found.
pub proof fn lemma_fewer_cards(cards: Seq<CardView>, at: int)
    requires
        0 <= at < cards.len(),
    ensures
        forall|x: i64| x != cards[at].id && #[trigger] has_card(cards, x) ==> has_card(cards.remove(at), x),
        forall|x: i64| #[trigger] has_card(cards.remove(at), x) ==> has_card(cards, x),
{
    let rest = cards.remove(at);
    assert forall|x: i64| x != cards[at].id && #[trigger] has_card(cards, x) implies has_card(rest, x) by {
        lemma_position(cards, x);
        lemma_position(rest, x);
        let p = position(cards, x);
        if p < at {
            assert(rest[p] == cards[p]);
        } else {
            assert(rest[p - 1] == cards[p]);
        }
    }
    assert forall|x: i64| #[trigger] has_card(rest, x) implies has_card(cards, x) by {
        lemma_position(cards, x);
        lemma_position(rest, x);
        let p = position(rest, x);
        if p < at {
            assert(rest[p] == cards[p]);
        } else {
            assert(rest[p] == cards[p + 1]);
        }
    }
}

pub proof fn lemma_deleted_sound(b: BacklogView, id: i64, why: Seq<char>, by: Seq<char>, now: Seq<char>)
    requires
        sound(b),
        has_card(b.cards, id),
    ensures
        sound(deleted_in(b, id, why, by, now)),
{
    lemma_position(b.cards, id);
    let at = position(b.cards, id);
    let d = deleted_in(b, id, why, by, now);
    lemma_fewer_cards(b.cards, at);
    lemma_drop_all_sound(b.cards, d.cards, b.links, id);
    assert forall|i: int| 0 <= i < d.cards.len() implies (#[trigger] d.cards[i]) == b.cards[if i < at {
        i
    } else {
        i + 1
    }] by {}
    assert(cards_sound(d.cards, d.last_id)) by {
        assert forall|i: int, j: int| 0 <= i < j < d.cards.len() implies (#[trigger] d.cards[i]).id != (
        #[trigger] d.cards[j]).id by {
            let a = if i < at { i } else { i + 1 };
            let c = if j < at { j } else { j + 1 };
            assert(b.cards[a].id != b.cards[c].id);
        }
        assert forall|i: int| 0 <= i < d.cards.len() implies 0 < (#[trigger] d.cards[i]).id <= d.last_id && in_range(
            d.cards[i].priority,
        ) by {
            let a = if i < at { i } else { i + 1 };
            assert(0 < b.cards[a].id <= b.last_id);
        }
    }
}

/// Law: a deleted card is gone, together with its links, and every other
/// card stays.
pub proof fn law_deleted_is_gone(b: BacklogView, id: i64, why: Seq<char>, by: Seq<char>, now: Seq<char>)
    requires
        sound(b),
        has_card(b.cards, id),
    ensures
        !has_card(deleted_in(b, id, why, by, now).cards, id),
        forall|x: i64| x != id && #[trigger] has_card(b.cards, x) ==> has_card(
            deleted_in(b, id, why, by, now).cards,
            x,
        ),
        links_free_of(deleted_in(b, id, why, by, now).links, id),
{
    lemma_position(b.cards, id);
    let at = position(b.cards, id);
    let rest = b.cards.remove(at);
    lemma_fewer_cards(b.cards, at);
    lemma_position(rest, id);
    if has_card(rest, id) {
        let p = position(rest, id);
        let q = if p < at { p } else { p + 1 };
        assert(rest[p] == b.cards[q]);
        if q < at {
            assert(b.cards[q].id != b.cards[at].id);
        } else {
            assert(b.cards[at].id != b.cards[q].id);
        }
    }
    crate::links::lemma_without_card(b.links, id);
}

/// No link touches the card.
pub open spec fn links_free_of(links: Seq<crate::links::LinkView>, id: i64) -> bool {
    forall|k: int| 0 <= k < links.len() ==> (#[trigger] links[k]).from != id && links[k].to != id
}

/// Law: what happened to a card stays in its history after it is deleted,
/// and the deletion, with everything the card said, is the last thing there.
pub proof fn law_history_survives_deletion(b: BacklogView, id: i64, why: Seq<char>, by: Seq<char>, now: Seq<char>)
    requires
        has_card(b.cards, id),
    ensures
        history(deleted_in(b, id, why, by, now).events, id) == history(b.events, id).push(
            delete_event(b.cards[position(b.cards, id)], why, by, now),
        ),
{
    lemma_position(b.cards, id);
    let e = delete_event(b.cards[position(b.cards, id)], why, by, now);
    assert(b.events.push(e).drop_last() =~= b.events);
    assert(b.events.push(e).last() == e);
}

/// Law: an id is never given twice: the next card gets one that no card has
/// or had, also after a deletion.
pub proof fn law_ids_are_not_reused(
    b: BacklogView,
    gone: i64,
    d: DraftView,
    why: Seq<char>,
    by: Seq<char>,
    now: Seq<char>,
)
    requires
        sound(b),
        b.last_id < i64::MAX,
        has_card(b.cards, gone),
    ensures
        !has_card(b.cards, created_in(b, d, by, now).last_id),
        created_in(deleted_in(b, gone, why, by, now), d, by, now).last_id != gone,
        !has_card(b.cards, created_in(deleted_in(b, gone, why, by, now), d, by, now).last_id),
{
    lemma_position(b.cards, gone);
    let id = (b.last_id + 1) as i64;
    lemma_position(b.cards, id);
    if has_card(b.cards, id) {
        assert(b.cards[position(b.cards, id)].id <= b.last_id);
    }
    assert(b.cards[position(b.cards, gone)].id <= b.last_id);
}

impl Backlog {
    /// Removes a card and its links, and keeps what it said in the log. A
    /// claimed card is removed only when forced. Gives the card.
    pub fn delete(&mut self, id: i64, why: &str, force: bool, by: &str, now: &str) -> (r: Result<Card, Refusal>)
        ensures
            match r {
                Ok(c) => delete_card_refusal(old(self)@, id, force) is None && c@ == old(self)@.cards[position(
                    old(self)@.cards,
                    id,
                )] && final(self)@ == deleted_in(old(self)@, id, why@, by@, now@),
                Err(e) => delete_card_refusal(old(self)@, id, force) == Some(e@) && final(self)@ == old(self)@,
            },
            sound(old(self)@) ==> sound(final(self)@),
    {
        let ghost before = self@;
        let at: usize = match find_card(&self.cards, id) {
            None => {
                return Err(Refusal::NotFound(id));
            },
            Some(at) => at,
        };
        assert(before.cards[at as int] == self.cards@[at as int]@);
        match check_delete(&self.cards[at], force) {
            Ok(()) => {},
            Err(e) => {
                return Err(e);
            },
        }
        let told = obituary_of(&self.cards[at]);
        let project: i64 = self.cards[at].project_id;
        record(&mut self.events, id, project, "deleted", told.as_str(), why, by, now);
        drop_all(&mut self.links, id);
        let c = self.cards.remove(at);
        assert(self@.cards =~= before.cards.remove(at as int));
        assert(self@ =~= deleted_in(before, id, why@, by@, now@));
        proof {
            if sound(before) {
                lemma_deleted_sound(before, id, why@, by@, now@);
            }
        }
        Ok(c)
    }
}

} // verus!
