//! Which refusal comes of what, where a request has more than one fault.

use vstd::prelude::*;

use crate::backlog::{
    bulk_refusal, claim_card_refusal, edit_card_refusal, first_missing, heartbeat_refusal, rank_refusal,
    release_card_refusal, status_refusal, BacklogView,
};
use crate::card::{has_card, outcome_refusal, position, priority_refusal, title_refusal, CardView};
use crate::edit::{edit_refusal, with_pair, EditView};
use crate::filing::{batch_refusal, delete_card_refusal, draft_refusal, first_bad, DraftView};
use crate::import::{came_before, import_refusal, known_target, target_id, SourceView};
use crate::jot::{home_of, note_refusal, reword_refusal};
use crate::links::{link_refusal, reaches, LinkKind};
use crate::project::{add_refusal, chosen_name, lemma_first, looked_up, with_name, with_path, ProjectView};
use crate::reading::{goes_before, in_reach, law_next_is_the_best_workable, workable};
use crate::refusal::{is_contention, RefusalView};
use crate::registry::{register_refusal, remove_refusal};
use crate::relate::relate_refusal;
use crate::select::Scope;
use crate::status::Status;
use crate::sweep::{ageing, agent_given, next_free};
use crate::tending::law_project_cards_are_counted;
use crate::text::{blank, lemma_first_of, lemma_trim, trim};

verus! {

// ------------------------------------------------------------- fields

/// Law: a title must say something, and takes a hundred and twenty
/// characters unless it is forced; the white space round it does not count.
pub proof fn law_what_is_wrong_with_a_title(title: Seq<char>, force: bool)
    ensures
        blank(title) ==> title_refusal(title, force) == Some(RefusalView::EmptyTitle),
        !blank(title) && trim(title).len() > 120 && !force ==> title_refusal(title, force) == Some(
            RefusalView::LongTitle(trim(title).len()),
        ),
        !blank(title) && (trim(title).len() <= 120 || force) ==> title_refusal(title, force) is None,
{
}

/// Law: an outcome takes three hundred characters unless it is forced.
pub proof fn law_what_is_wrong_with_an_outcome(outcome: Seq<char>, force: bool)
    ensures
        outcome.len() > 300 && !force ==> outcome_refusal(outcome, force) == Some(RefusalView::LongOutcome(outcome.len())),
        outcome.len() <= 300 || force ==> outcome_refusal(outcome, force) is None,
{
}

/// Law: a priority lies between nothing and ten thousand.
pub proof fn law_what_is_wrong_with_a_priority(priority: i32)
    ensures
        0 <= priority <= 10000 ==> priority_refusal(priority) is None,
        priority < 0 || priority > 10000 ==> priority_refusal(priority) == Some(RefusalView::PriorityRange),
{
}

// ------------------------------------------------------------- cards

/// Law: a draft is refused for its priority, then for its title.
pub proof fn law_what_is_wrong_with_a_draft(d: DraftView, force: bool)
    ensures
        d.priority < 0 || d.priority > 10000 ==> draft_refusal(d, force) == Some(RefusalView::PriorityRange),
        0 <= d.priority <= 10000 ==> draft_refusal(d, force) == title_refusal(d.title, force),
{
}

/// Law: several drafts are refused for the first bad one, and then where
/// there are fewer ids left than drafts.
pub proof fn law_what_is_wrong_with_drafts(b: BacklogView, drafts: Seq<DraftView>, k: int)
    ensures
        0 <= k < drafts.len() && draft_refusal(drafts[k], false) is Some && (forall|j: int|
            0 <= j < k ==> draft_refusal(#[trigger] drafts[j], false) is None) ==> batch_refusal(b, drafts)
            == draft_refusal(drafts[k], false),
        (forall|j: int| 0 <= j < drafts.len() ==> draft_refusal(#[trigger] drafts[j], false) is None) ==> batch_refusal(
            b,
            drafts,
        ) == if drafts.len() > i64::MAX - b.last_id {
            Some(RefusalView::StoreFull)
        } else {
            None
        },
{
    lemma_first_bad(drafts, k);
}

proof fn lemma_first_bad(drafts: Seq<DraftView>, k: int)
    ensures
        0 <= k < drafts.len() && draft_refusal(drafts[k], false) is Some && (forall|j: int|
            0 <= j < k ==> draft_refusal(#[trigger] drafts[j], false) is None) ==> first_bad(drafts) == draft_refusal(
            drafts[k],
            false,
        ),
        (forall|j: int| 0 <= j < drafts.len() ==> draft_refusal(#[trigger] drafts[j], false) is None) ==> first_bad(
            drafts,
        ) is None,
    decreases drafts.len(),
{
    if drafts.len() > 0 {
        let front = drafts.drop_last();
        lemma_first_bad(front, k);
        assert forall|j: int| 0 <= j < front.len() implies #[trigger] front[j] == drafts[j] by {}
        let n = drafts.len() - 1;
        assert(drafts.last() == drafts[n]);
        if forall|j: int| 0 <= j < n ==> draft_refusal(#[trigger] drafts[j], false) is None {
            assert forall|j: int| 0 <= j < front.len() implies draft_refusal(#[trigger] front[j], false) is None by {
                assert(front[j] == drafts[j]);
            }
        }
        if 0 <= k < n && (forall|j: int| 0 <= j < k ==> draft_refusal(#[trigger] drafts[j], false) is None) {
            assert forall|j: int| 0 <= j < k implies draft_refusal(#[trigger] front[j], false) is None by {
                assert(front[j] == drafts[j]);
            }
            assert(front[k] == drafts[k]);
        }
    }
}

/// Law: a claim needs an agent, then the card, and then that nobody works on
/// it; a heartbeat needs all of that to be the agent's own.
pub proof fn law_what_is_wrong_with_a_claim(b: BacklogView, id: i64, by: Seq<char>)
    ensures
        blank(by) ==> claim_card_refusal(b, id, by) == Some(RefusalView::NoAgent),
        !blank(by) && !has_card(b.cards, id) ==> claim_card_refusal(b, id, by) == Some(RefusalView::NotFound(id)),
        !has_card(b.cards, id) ==> heartbeat_refusal(b, id, by) == Some(RefusalView::LostClaim(id, by)),
        has_card(b.cards, id) ==> (heartbeat_refusal(b, id, by) is None <==> b.cards[position(b.cards, id)].status
            == Status::InProgress && b.cards[position(b.cards, id)].claimed_by == by),
        heartbeat_refusal(b, id, by) is Some ==> heartbeat_refusal(b, id, by) == Some(RefusalView::LostClaim(id, by)),
        agent_given(None) == false,
        agent_given(Some(by)) <==> trim(by).len() > 0,
{
    lemma_trim(by);
}

/// Law: a release needs the card, and that it is in progress; where an agent
/// is named, that the claim is that agent's.
pub proof fn law_what_is_wrong_with_a_release(b: BacklogView, id: i64, by: Seq<char>)
    ensures
        ({
            let c = b.cards[position(b.cards, id)];
            let working = c.status == Status::InProgress;
            &&& !has_card(b.cards, id) ==> release_card_refusal(b, id, None) == Some(RefusalView::NotFound(id))
            &&& !has_card(b.cards, id) ==> release_card_refusal(b, id, Some(by)) == Some(RefusalView::NotFound(id))
            &&& has_card(b.cards, id) && working ==> release_card_refusal(b, id, None) is None
            &&& has_card(b.cards, id) && !working ==> release_card_refusal(b, id, None) == Some(
                RefusalView::NotInProgress(c.id, c.status),
            )
            &&& has_card(b.cards, id) && working && c.claimed_by == by ==> release_card_refusal(b, id, Some(by)) is None
            &&& has_card(b.cards, id) && !(working && c.claimed_by == by) ==> release_card_refusal(b, id, Some(by))
                == Some(RefusalView::NotReleased(c.id, c.status, c.claimed_by, by))
        }),
{
}

/// Law: setting a status is refused for its outcome before it is for its
/// card, and so is ranking for the priority.
pub proof fn law_what_is_wrong_with_a_change(b: BacklogView, id: i64, outcome: Seq<char>, priority: i32, force: bool)
    ensures
        outcome.len() > 300 && !force ==> status_refusal(b, id, outcome, force) == Some(
            RefusalView::LongOutcome(outcome.len()),
        ),
        (outcome.len() <= 300 || force) && !has_card(b.cards, id) ==> status_refusal(b, id, outcome, force) == Some(
            RefusalView::NotFound(id),
        ),
        priority < 0 || priority > 10000 ==> rank_refusal(b, id, priority) == Some(RefusalView::PriorityRange),
        0 <= priority <= 10000 && !has_card(b.cards, id) ==> rank_refusal(b, id, priority) == Some(
            RefusalView::NotFound(id),
        ),
{
}

/// Law: a deletion needs the card, and force where it is claimed.
pub proof fn law_what_is_wrong_with_a_deletion(b: BacklogView, id: i64, force: bool)
    ensures
        ({
            let c = b.cards[position(b.cards, id)];
            &&& !has_card(b.cards, id) ==> delete_card_refusal(b, id, force) == Some(RefusalView::NotFound(id))
            &&& has_card(b.cards, id) && c.claimed_by.len() > 0 && !force ==> delete_card_refusal(b, id, force) == Some(
                RefusalView::ClaimedCard(c.id, c.claimed_by),
            )
            &&& has_card(b.cards, id) && (c.claimed_by.len() == 0 || force) ==> delete_card_refusal(b, id, force) is None
        }),
{
}

/// Law: an edit is refused for its title, then its priority, then its
/// outcome, then the project it names, and then where it changes nothing.
pub proof fn law_what_is_wrong_with_an_edit(projects: Seq<ProjectView>, f: EditView)
    ensures
        ({
            let title = f.title is Some && title_refusal(f.title->0, f.force) is Some;
            let rank = f.priority is Some && (f.priority->0 < 0 || f.priority->0 > 10000);
            let outcome = f.outcome is Some && f.outcome->0.len() > 300 && !f.force;
            let place = f.move_to is Some && looked_up(projects, f.move_to->0) < 0;
            let empty = f == (EditView {
                title: None,
                label: None,
                add_tags: f.add_tags,
                rm_tags: f.rm_tags,
                priority: None,
                outcome: None,
                status: None,
                move_to: None,
                notes: None,
                ..f
            }) && f.add_tags.len() == 0 && f.rm_tags.len() == 0;
            let r = edit_refusal(projects, f);
            &&& title ==> r == title_refusal(f.title->0, f.force)
            &&& !title && rank ==> r == Some(RefusalView::PriorityRange)
            &&& !title && !rank && outcome ==> r == Some(RefusalView::LongOutcome(f.outcome->0.len()))
            &&& !title && !rank && !outcome && place ==> r == Some(RefusalView::NoProject(f.move_to->0))
            &&& !title && !rank && !outcome && !place && empty ==> r == Some(RefusalView::NothingToChange)
            &&& !title && !rank && !outcome && !place && !empty ==> r is None
        }),
{
}

/// Law: an edit of one card needs the card first; an edit of several needs
/// the first card, then to be in order, and then every other card.
pub proof fn law_what_is_wrong_with_an_edit_of_cards(b: BacklogView, ids: Seq<i64>, f: EditView, k: int)
    requires
        ids.len() > 0,
    ensures
        !has_card(b.cards, ids[0]) ==> edit_card_refusal(b, ids[0], f) == Some(RefusalView::NotFound(ids[0])),
        has_card(b.cards, ids[0]) ==> edit_card_refusal(b, ids[0], f) == edit_refusal(b.projects, f),
        !has_card(b.cards, ids[0]) ==> bulk_refusal(b, ids, f) == Some(RefusalView::NotFound(ids[0])),
        has_card(b.cards, ids[0]) && edit_refusal(b.projects, f) is Some ==> bulk_refusal(b, ids, f) == edit_refusal(
            b.projects,
            f,
        ),
        edit_refusal(b.projects, f) is None && 0 <= k < ids.len() && !has_card(b.cards, ids[k]) && (forall|j: int|
            0 <= j < k ==> has_card(b.cards, #[trigger] ids[j])) ==> bulk_refusal(b, ids, f) == Some(
            RefusalView::NotFound(ids[k]),
        ),
        edit_refusal(b.projects, f) is None && (forall|j: int| 0 <= j < ids.len() ==> has_card(b.cards, #[trigger] ids[j]))
            ==> bulk_refusal(b, ids, f) is None,
{
    lemma_first_missing(b.cards, ids, k);
}

proof fn lemma_first_missing(cards: Seq<CardView>, ids: Seq<i64>, k: int)
    ensures
        0 <= k < ids.len() && !has_card(cards, ids[k]) && (forall|j: int| 0 <= j < k ==> has_card(cards, #[trigger] ids[j]))
            ==> first_missing(cards, ids) == Some(ids[k]),
        (forall|j: int| 0 <= j < ids.len() ==> has_card(cards, #[trigger] ids[j])) ==> first_missing(cards, ids) is None,
    decreases ids.len(),
{
    if ids.len() > 0 {
        let front = ids.drop_last();
        lemma_first_missing(cards, front, k);
        let n = ids.len() - 1;
        assert(ids.last() == ids[n]);
        if forall|j: int| 0 <= j < n ==> has_card(cards, #[trigger] ids[j]) {
            assert forall|j: int| 0 <= j < front.len() implies has_card(cards, #[trigger] front[j]) by {
                assert(front[j] == ids[j]);
            }
        }
        if 0 <= k < n && (forall|j: int| 0 <= j < k ==> has_card(cards, #[trigger] ids[j])) {
            assert forall|j: int| 0 <= j < k implies has_card(cards, #[trigger] front[j]) by {
                assert(front[j] == ids[j]);
            }
            assert(front[k] == ids[k]);
        }
    }
}

/// Law: a pair without `=` has no shape, one with a field that is not known
/// names that, and a priority or a status that is none names it.
pub proof fn law_what_is_wrong_with_a_pair(f: EditView, k: Seq<char>, v: Seq<char>)
    requires
        forall|i: int| 0 <= i < k.len() ==> #[trigger] k[i] != '=',
    ensures
        with_pair(f, k) == Err::<EditView, RefusalView>(RefusalView::SetShape(k)),
        trim(k) != "title"@ && trim(k) != "label"@ && trim(k) != "priority"@ && trim(k) != "outcome"@ && trim(k)
            != "notes"@ && trim(k) != "status"@ && trim(k) != "project"@ && trim(k) != "move"@ ==> with_pair(
            f,
            k + seq!['='] + v,
        ) == Err::<EditView, RefusalView>(RefusalView::UnknownSetField(trim(k))),
        trim(k) == "priority"@ && crate::number::signed_value(trim(v)) is None ==> with_pair(f, k + seq!['='] + v) == Err::<
            EditView,
            RefusalView,
        >(RefusalView::BadPriority(v)),
        trim(k) == "status"@ && (forall|s: Status| crate::fold::fold_all(trim(v)) != #[trigger] crate::status::status_name(s))
            ==> with_pair(f, k + seq!['='] + v) == Err::<EditView, RefusalView>(RefusalView::BadStatus(v)),
{
    lemma_first_of(k, '=');
    let e = k + seq!['='] + v;
    let n = k.len() as int;
    assert(e[n] == '=');
    assert forall|i: int| 0 <= i < n implies #[trigger] e[i] != '=' by {
        assert(e[i] == k[i]);
    }
    crate::text::lemma_first_of_at(e, '=', n);
    assert(e.take(n) =~= k);
    assert(e.skip(n + 1) =~= v);
    reveal_strlit("title");
    reveal_strlit("label");
    reveal_strlit("priority");
    reveal_strlit("outcome");
    reveal_strlit("notes");
    reveal_strlit("status");
    assert("priority"@.len() == 8 && "status"@.len() == 6 && "title"@.len() == 5 && "label"@.len() == 5 && "notes"@.len()
        == 5 && "outcome"@.len() == 7);
    if forall|s: Status| crate::fold::fold_all(trim(v)) != #[trigger] crate::status::status_name(s) {
        assert(crate::fold::fold_all(trim(v)) != crate::status::status_name(Status::New));
        assert(crate::fold::fold_all(trim(v)) != crate::status::status_name(Status::Ready));
        assert(crate::fold::fold_all(trim(v)) != crate::status::status_name(Status::InProgress));
        assert(crate::fold::fold_all(trim(v)) != crate::status::status_name(Status::Done));
    }
}

// ------------------------------------------------------------- notes and links

/// Law: a note must say something, and then needs its card; a correction
/// must correct something, and then needs its note.
pub proof fn law_what_is_wrong_with_a_note(b: BacklogView, id: i64, text: Seq<char>, t: Option<Seq<char>>, kind: Option<Seq<char>>)
    ensures
        blank(text) ==> note_refusal(b, id, text) == Some(RefusalView::EmptyNote),
        !blank(text) && !has_card(b.cards, id) ==> note_refusal(b, id, text) == Some(RefusalView::NotFound(id)),
        t is None && kind is None ==> reword_refusal(b, id, t, kind) == Some(RefusalView::NoteUnchanged),
        (t is Some || kind is Some) && home_of(b.cards, id) < 0 ==> reword_refusal(b, id, t, kind) == Some(
            RefusalView::NoNote(id),
        ),
        (t is Some || kind is Some) && home_of(b.cards, id) >= 0 ==> reword_refusal(b, id, t, kind) is None,
{
}

/// Law: a link needs a kind there is, two cards, both of them there, and for
/// a card to block another that the other does not hold it up already. Of two
/// related cards the lower id is looked for first.
pub proof fn law_what_is_wrong_with_a_link(b: BacklogView, from: i64, name: Seq<char>, kind: LinkKind, to: i64)
    ensures
        ({
            let r = link_refusal(b.cards, b.links, from, kind, to);
            let (f, t) = if kind == LinkKind::Related && to < from { (to, from) } else { (from, to) };
            &&& from == to ==> r == Some(RefusalView::SelfLink)
            &&& from != to && !has_card(b.cards, f) ==> r == Some(RefusalView::NotFound(f))
            &&& from != to && has_card(b.cards, f) && !has_card(b.cards, t) ==> r == Some(RefusalView::NotFound(t))
            &&& from != to && has_card(b.cards, from) && has_card(b.cards, to) && kind == LinkKind::Blocks && reaches(
                b.links,
                to,
                from,
            ) ==> r == Some(RefusalView::LinkCycle(from, to))
            &&& name == "blocks"@ ==> relate_refusal(b, from, name, to) == link_refusal(
                b.cards,
                b.links,
                from,
                LinkKind::Blocks,
                to,
            )
            &&& name != "blocks"@ && name != "child_of"@ && name != "related"@ ==> relate_refusal(b, from, name, to)
                == Some(RefusalView::UnknownLinkKind(name))
        }),
{
}

// ------------------------------------------------------------- projects

/// Law: a directory is refused where it is none, then where it is a
/// project's already, and then where another project has its name; the
/// refusal tells which project that is.
pub proof fn law_what_is_wrong_with_a_directory(b: BacklogView, path: Seq<char>, is_dir: bool, name: Option<Seq<char>>, k: int)
    requires
        0 <= k < b.projects.len(),
        forall|i: int, j: int|
            0 <= i < j < b.projects.len() ==> (#[trigger] b.projects[i]).path != (#[trigger] b.projects[j]).path
                && b.projects[i].name != b.projects[j].name,
    ensures
        ({
            let r = register_refusal(b, path, is_dir, name);
            let p = b.projects[k];
            &&& !is_dir ==> r == Some(RefusalView::NotDirectory(path))
            &&& is_dir && p.path == path ==> r == Some(RefusalView::PathTaken(path, p.name, p.id))
            &&& is_dir && (forall|i: int| 0 <= i < b.projects.len() ==> (#[trigger] b.projects[i]).path != path) && p.name
                == chosen_name(path, name) ==> r == Some(RefusalView::NameTaken(p.name, p.path, p.id))
            &&& add_refusal(b.projects, path, is_dir, name) is None && b.last_project == i64::MAX ==> r == Some(
                RefusalView::StoreFull,
            )
            &&& add_refusal(b.projects, path, is_dir, name) is None && b.last_project < i64::MAX ==> r is None
        }),
{
    let n = chosen_name(path, name);
    lemma_first(b.projects, |p: ProjectView| p.path == path);
    lemma_first(b.projects, |p: ProjectView| p.name == n);
    let at = with_path(b.projects, path);
    if at >= 0 && b.projects[k].path == path {
        if at < k {
            assert(b.projects[at].path != b.projects[k].path);
        }
        if k < at {
            assert(b.projects[k].path != b.projects[at].path);
        }
    }
    let named = with_name(b.projects, n);
    if named >= 0 && b.projects[k].name == n {
        if named < k {
            assert(b.projects[named].name != b.projects[k].name);
        }
        if k < named {
            assert(b.projects[k].name != b.projects[named].name);
        }
    }
}

/// Law: a project that is not there is not removed; one that has cards is
/// told with how many, unless it is forced.
pub proof fn law_what_is_wrong_with_a_removal(b: BacklogView, key: Seq<char>)
    ensures
        ({
            let at = looked_up(b.projects, key);
            let p = b.projects[at];
            let n = b.cards.filter(|c: CardView| c.project_id == p.id).len();
            &&& at < 0 ==> remove_refusal(b, key, false) == Some(RefusalView::NoProject(key)) && remove_refusal(b, key, true)
                == Some(RefusalView::NoProject(key))
            &&& at >= 0 && n > 0 ==> remove_refusal(b, key, false) == Some(RefusalView::ProjectHasCards(p.name, n))
            &&& at >= 0 ==> remove_refusal(b, key, true) is None
        }),
{
    let p = b.projects[looked_up(b.projects, key)];
    law_project_cards_are_counted(b.cards, p.id);
    lemma_same_filter(b.cards, p);
}

proof fn lemma_same_filter(cards: Seq<CardView>, p: ProjectView)
    ensures
        cards.filter(|c: CardView| c.project_id == p.id).len() == crate::registry::total_of(cards, p.id),
    decreases cards.len(),
{
    reveal(Seq::filter);
    if cards.len() > 0 {
        lemma_same_filter(cards.drop_last(), p);
    }
}

/// Law: an import into a project that is there is refused only for a card
/// out of range that is still to come, or for want of ids.
pub proof fn law_what_is_wrong_with_an_import(
    b: BacklogView,
    name: Option<Seq<char>>,
    info: SourceView,
    is_dir: bool,
    source: Seq<CardView>,
)
    requires
        known_target(b.projects, name, info) >= 0,
    ensures
        ({
            let r = import_refusal(b, name, info, is_dir, source);
            let id = target_id(b, name, info);
            let bad = exists|k: int|
                0 <= k < source.len() && ((#[trigger] source[k]).priority < 0 || source[k].priority > 10000)
                    && !came_before(b.cards, id, source[k]);
            &&& bad ==> r == Some(RefusalView::PriorityRange)
            &&& !bad ==> r is None || r == Some(RefusalView::StoreFull)
        }),
{
}

// ------------------------------------------------------------- the next card

/// Law: a claim of the next card takes one that can be claimed, the best of
/// them, and takes none only where there is none.
pub proof fn law_next_claim_can_be_made(b: BacklogView, scope: Scope, label: Option<Seq<char>>, ready_only: bool, i: int)
    requires
        0 <= i < b.cards.len() <= usize::MAX,
    ensures
        ({
            let n = next_free(b, scope, label, ready_only);
            let works = workable(b.cards, b.links, b.projects, scope, label, ready_only, true, b.cards[i]);
            &&& works ==> n is Some
            &&& n matches Some(at) ==> {
                let c = b.cards[at as int];
                &&& at < b.cards.len()
                &&& c.status == Status::New || c.status == Status::Ready
                &&& c.claimed_by.len() == 0
                &&& ready_only ==> c.status == Status::Ready
                &&& in_reach(b.projects, scope, c)
                &&& works && i != at ==> goes_before(b.cards, at as int, i)
            }
        }),
{
    law_next_is_the_best_workable(b.cards, b.links, b.projects, scope, label, ready_only, true, i);
}

// ------------------------------------------------------------- counts

/// Law: the cards that age are counted: those that are not done and of the
/// project asked for.
pub proof fn law_ageing_cards_are_counted(projects: Seq<ProjectView>, scope: Scope, cards: Seq<CardView>)
    ensures
        ageing(projects, scope, cards) == cards.filter(
            |c: CardView| c.status != Status::Done && in_reach(projects, scope, c),
        ).len(),
    decreases cards.len(),
{
    reveal(Seq::filter);
    if cards.len() > 0 {
        law_ageing_cards_are_counted(projects, scope, cards.drop_last());
        crate::reading::lemma_asked(projects, scope, None, cards.last());
    }
}

/// Law: an agent is told to take another card exactly where somebody else
/// holds the claim.
pub proof fn law_contention(c: CardView)
    ensures
        ({
            let r = crate::lifecycle::claim_refusal(c);
            let open = c.status == Status::New || c.status == Status::Ready;
            &&& r is Some && is_contention(r->0) <==> c.status == Status::InProgress || c.claimed_by.len() > 0
            &&& r is Some && !is_contention(r->0) <==> c.status == Status::Done && c.claimed_by.len() == 0
            &&& r is None <==> open && c.claimed_by.len() == 0
        }),
{
}

} // verus!
