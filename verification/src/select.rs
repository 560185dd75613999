//! Which cards a command reads: the scope, the filters, the ranking.

use vstd::prelude::*;

use crate::card::{card_views, Card, CardView};
use crate::fold::fold_all;
use crate::links::{held_back, is_held_back, link_views, Link, LinkView};
use crate::notes::{opt_text, NoteView};
use crate::order::{key_views, sorted, sorted_order, Key, KeyView, Texts};
use crate::project::{project_views, Project, ProjectView};
use crate::status::{status_name, Status};
use crate::tags::{passes, passes_filter};
use crate::text::{
    among, chars_of, contains, has, keep_nonempty, lines, lines_of, nonempty, part, pieces, split, texts, trim,
    trimmed, Sep,
};

verus! {

// ------------------------------------------------------------- scope

/// The cards a command may read.
#[derive(Clone, Copy, Debug, PartialEq, Eq, Structural)]
pub enum Scope {
    /// Those of one project.
    Project(i64),
    /// Those of every active project.
    ActiveProjects,
    /// All of them.
    Everything,
}

/// The scope of a read: the current project, else every active one; a
/// database that is not the central store is read whole.
pub open spec fn scope_of(project: Option<i64>, all: bool, central: bool) -> Scope {
    if project is Some && !all {
        Scope::Project(project->0)
    } else if central {
        Scope::ActiveProjects
    } else {
        Scope::Everything
    }
}

/// The project is there, and active.
pub open spec fn is_active(projects: Seq<ProjectView>, id: i64) -> bool {
    exists|k: int| 0 <= k < projects.len() && (#[trigger] projects[k]).id == id && projects[k].active
}

/// The card lies in the scope.
pub open spec fn in_scope(projects: Seq<ProjectView>, scope: Scope, c: CardView) -> bool {
    match scope {
        Scope::Project(id) => c.project_id == id,
        Scope::ActiveProjects => is_active(projects, c.project_id),
        Scope::Everything => true,
    }
}

/// Law: a parked project is left out of what reads across projects: none of
/// its cards is offered as the next one, listed or put on the board.
pub proof fn law_parked_project_is_left_out(
    cards: Seq<CardView>,
    links: Seq<LinkView>,
    projects: Seq<ProjectView>,
    at: int,
    c: CardView,
    label: Option<Seq<char>>,
    status: Option<Seq<char>>,
    ready_only: bool,
    claim: bool,
)
    requires
        0 <= at < projects.len(),
        !projects[at].active,
        forall|k: int| 0 <= k < projects.len() && k != at ==> (#[trigger] projects[k]).id != projects[at].id,
        c.project_id == projects[at].id,
    ensures
        !in_scope(projects, Scope::ActiveProjects, c),
        !offered(cards, links, projects, Scope::ActiveProjects, label, ready_only, claim, c),
        !listed(projects, Scope::ActiveProjects, label, status, c),
{
}

/// The scope of a read.
pub fn scope(project: Option<i64>, all: bool, central: bool) -> (r: Scope)
    ensures
        r == scope_of(project, all, central),
{
    match project {
        Some(id) => {
            if !all {
                return Scope::Project(id);
            }
        },
        None => {},
    }
    if central {
        Scope::ActiveProjects
    } else {
        Scope::Everything
    }
}

/// Whether the card lies in the scope.
pub fn within_scope(projects: &Vec<Project>, scope: Scope, card: &Card) -> (r: bool)
    ensures
        r == in_scope(project_views(projects@), scope, card@),
{
    match scope {
        Scope::Project(id) => card.project_id == id,
        Scope::ActiveProjects => {
            let ghost all = project_views(projects@);
            let mut i: usize = 0;
            while i < projects.len()
                invariant
                    i <= projects@.len(),
                    all == project_views(projects@),
                    scope == Scope::ActiveProjects,
                    forall|k: int| 0 <= k < i ==> !((#[trigger] all[k]).id == card.project_id && all[k].active),
                decreases projects.len() - i,
            {
                assert(all[i as int] == projects@[i as int]@);
                if projects[i].id == card.project_id && projects[i].active {
                    return true;
                }
                i = i + 1;
            }
            false
        },
        Scope::Everything => true,
    }
}

// ------------------------------------------------------------- ranking

/// What cards are ranked by: priority, highest first, then age.
pub open spec fn rank_keys(cards: Seq<CardView>) -> Seq<KeyView> {
    cards.map_values(|c: CardView| KeyView { number: -(c.priority as int), text: c.created_at })
}

/// What cards are numbered by.
pub open spec fn id_keys(cards: Seq<CardView>) -> Seq<KeyView> {
    cards.map_values(|c: CardView| KeyView { number: c.id as int, text: Seq::empty() })
}

/// The positions for which the flag is set.
pub open spec fn kept(order: Seq<usize>, keep: Seq<bool>) -> Seq<usize>
    decreases order.len(),
{
    if order.len() == 0 {
        order
    } else if keep[order.last() as int] {
        kept(order.drop_last(), keep).push(order.last())
    } else {
        kept(order.drop_last(), keep)
    }
}

/// The first `limit` of them; all of them where the limit is negative.
pub open spec fn limited(v: Seq<usize>, limit: int) -> Seq<usize> {
    if 0 <= limit < v.len() {
        v.take(limit)
    } else {
        v
    }
}

/// The positions of the cards to keep, highest ranked first.
pub open spec fn ranking(cards: Seq<CardView>, keep: Seq<bool>, limit: int) -> Seq<usize> {
    limited(kept(sorted_order(rank_keys(cards), Texts::Ascending), keep), limit)
}

/// The positions of the cards to keep, lowest id first.
pub open spec fn numbering(cards: Seq<CardView>, keep: Seq<bool>) -> Seq<usize> {
    kept(sorted_order(id_keys(cards), Texts::Ascending), keep)
}

/// One card ranks above another: by priority, then by age, then by place.
pub open spec fn outranks(cards: Seq<CardView>, i: int, j: int) -> bool {
    crate::order::comes_before(rank_keys(cards), Texts::Ascending, i, j)
}

/// What `kept` leaves: the flagged positions, in the same order.
pub proof fn lemma_kept(order: Seq<usize>, keep: Seq<bool>)
    requires
        order.no_duplicates(),
    ensures
        kept(order, keep).no_duplicates(),
        forall|k: int|
            0 <= k < kept(order, keep).len() ==> order.contains(#[trigger] kept(order, keep)[k])
                && keep[kept(order, keep)[k] as int],
        forall|x: usize| #[trigger] order.contains(x) && keep[x as int] ==> kept(order, keep).contains(x),
    decreases order.len(),
{
    if order.len() > 0 {
        let front = order.drop_last();
        let last = order.last();
        assert(front.no_duplicates());
        lemma_kept(front, keep);
        let now = kept(order, keep);
        let before = kept(front, keep);
        assert forall|k: int| 0 <= k < now.len() implies order.contains(#[trigger] now[k]) && keep[now[k] as int] by {
            if k < before.len() {
                assert(now[k] == before[k]);
                assert(front.contains(before[k]));
                let j = choose|j: int| 0 <= j < front.len() && front[j] == before[k];
                assert(order[j] == now[k]);
            } else {
                assert(order[order.len() - 1] == now[k]);
            }
        }
        assert(now.no_duplicates()) by {
            assert forall|a: int, b: int| 0 <= a < now.len() && 0 <= b < now.len() && a != b implies now[a] != now[b] by {
                if keep[last as int] {
                    if a == before.len() as int || b == before.len() as int {
                        let o = if a == before.len() as int { b } else { a };
                        assert(now[o] == before[o]);
                        assert(front.contains(before[o]));
                        let j = choose|j: int| 0 <= j < front.len() && front[j] == before[o];
                        assert(order[j] == before[o]);
                        assert(order[order.len() - 1] == last);
                    } else {
                        assert(now[a] == before[a] && now[b] == before[b]);
                    }
                }
            }
        }
        assert forall|x: usize| #[trigger] order.contains(x) && keep[x as int] implies now.contains(x) by {
            let j = choose|j: int| 0 <= j < order.len() && order[j] == x;
            if j < front.len() {
                assert(front[j] == x);
                assert(front.contains(x));
                assert(before.contains(x));
                let k = choose|k: int| 0 <= k < before.len() && before[k] == x;
                assert(now[k] == x);
            } else {
                assert(now[now.len() - 1] == x);
            }
        }
    }
}

/// The order among those left is the order there was.
pub proof fn lemma_kept_in_order(keys: Seq<KeyView>, texts: Texts, order: Seq<usize>, keep: Seq<bool>)
    requires
        crate::order::in_order(keys, texts, order),
        order.no_duplicates(),
    ensures
        crate::order::in_order(keys, texts, kept(order, keep)),
    decreases order.len(),
{
    if order.len() > 0 {
        let front = order.drop_last();
        assert(front.no_duplicates());
        assert(crate::order::in_order(keys, texts, front)) by {
            assert forall|a: int, b: int| 0 <= a < b < front.len() implies crate::order::comes_before(
                keys,
                texts,
                #[trigger] front[a] as int,
                #[trigger] front[b] as int,
            ) by {
                assert(crate::order::comes_before(keys, texts, order[a] as int, order[b] as int));
            }
        }
        lemma_kept_in_order(keys, texts, front, keep);
        lemma_kept(front, keep);
        let now = kept(order, keep);
        let before = kept(front, keep);
        assert forall|a: int, b: int| 0 <= a < b < now.len() implies crate::order::comes_before(
            keys,
            texts,
            #[trigger] now[a] as int,
            #[trigger] now[b] as int,
        ) by {
            assert(now[a] == before[a]);
            if b < before.len() {
                assert(now[b] == before[b]);
            } else {
                assert(front.contains(before[a]));
                let j = choose|j: int| 0 <= j < front.len() && front[j] == before[a];
                assert(order[j] == now[a]);
                assert(order[order.len() - 1] == now[b]);
            }
        }
    }
}

/// Law: a listing holds only cards to keep, none twice, each ranked above
/// those after it; and every card to keep that it leaves out ranks below all
/// it holds, and is left out only because the limit was reached.
pub proof fn law_ranking(cards: Seq<CardView>, keep: Seq<bool>, limit: int)
    requires
        keep.len() == cards.len(),
        cards.len() <= usize::MAX,
    ensures
        ranking(cards, keep, limit).no_duplicates(),
        forall|k: int|
            0 <= k < ranking(cards, keep, limit).len() ==> (#[trigger] ranking(cards, keep, limit)[k]) < cards.len()
                && keep[ranking(cards, keep, limit)[k] as int],
        forall|a: int, b: int|
            0 <= a < b < ranking(cards, keep, limit).len() ==> outranks(
                cards,
                #[trigger] ranking(cards, keep, limit)[a] as int,
                #[trigger] ranking(cards, keep, limit)[b] as int,
            ),
        forall|x: usize|
            x < cards.len() && #[trigger] keep[x as int] && !ranking(cards, keep, limit).contains(x) ==> limit >= 0
                && ranking(cards, keep, limit).len() == limit && forall|k: int|
                0 <= k < ranking(cards, keep, limit).len() ==> outranks(
                    cards,
                    #[trigger] ranking(cards, keep, limit)[k] as int,
                    x as int,
                ),
{
    let keys = rank_keys(cards);
    let order = sorted_order(keys, Texts::Ascending);
    crate::order::lemma_order_exists(keys, Texts::Ascending);
    let all = kept(order, keep);
    let out = ranking(cards, keep, limit);
    lemma_kept(order, keep);
    lemma_kept_in_order(keys, Texts::Ascending, order, keep);
    assert forall|k: int| 0 <= k < out.len() implies (#[trigger] out[k]) < cards.len() && keep[out[k] as int] by {
        assert(out[k] == all[k]);
        assert(order.contains(all[k]));
    }
    assert forall|a: int, b: int| 0 <= a < b < out.len() implies outranks(
        cards,
        #[trigger] out[a] as int,
        #[trigger] out[b] as int,
    ) by {
        assert(out[a] == all[a] && out[b] == all[b]);
    }
    assert forall|x: usize| x < cards.len() && #[trigger] keep[x as int] && !out.contains(x) implies limit >= 0
        && out.len() == limit && forall|k: int|
        0 <= k < out.len() ==> outranks(cards, #[trigger] out[k] as int, x as int) by {
        crate::order::lemma_covers(order, cards.len() as int);
        assert(order.contains(x));
        assert(all.contains(x));
        let j = choose|j: int| 0 <= j < all.len() && all[j] == x;
        if !(0 <= limit < all.len()) || j < limit {
            assert(out[j] == x);
            assert(false);
        }
        assert forall|k: int| 0 <= k < out.len() implies outranks(cards, #[trigger] out[k] as int, x as int) by {
            assert(out[k] == all[k]);
            assert(crate::order::comes_before(keys, Texts::Ascending, all[k] as int, all[j] as int));
        }
    }
}

fn keep_flagged(order: &Vec<usize>, keep: &Vec<bool>) -> (out: Vec<usize>)
    requires
        forall|k: int| 0 <= k < order@.len() ==> (#[trigger] order@[k]) < keep@.len(),
    ensures
        out@ == kept(order@, keep@),
{
    let mut out: Vec<usize> = Vec::new();
    let mut i: usize = 0;
    while i < order.len()
        invariant
            i <= order@.len(),
            forall|k: int| 0 <= k < order@.len() ==> (#[trigger] order@[k]) < keep@.len(),
            out@ == kept(order@.take(i as int), keep@),
        decreases order.len() - i,
    {
        assert(order@.take(i + 1).drop_last() =~= order@.take(i as int));
        assert(order@.take(i + 1).last() == order@[i as int]);
        let p: usize = order[i];
        if keep[p] {
            out.push(p);
        }
        i = i + 1;
    }
    assert(order@.take(i as int) =~= order@);
    out
}

/// The positions of the cards to keep, highest ranked first.
pub fn ranked(cards: &Vec<Card>, keep: &Vec<bool>, limit: i64) -> (out: Vec<usize>)
    requires
        keep@.len() == cards@.len(),
    ensures
        out@ == ranking(card_views(cards@), keep@, limit as int),
{
    let ghost wanted = rank_keys(card_views(cards@));
    let mut keys: Vec<Key> = Vec::new();
    let mut i: usize = 0;
    while i < cards.len()
        invariant
            i <= cards@.len(),
            wanted == rank_keys(card_views(cards@)),
            key_views(keys@) == wanted.take(i as int),
        decreases cards.len() - i,
    {
        let ghost before = key_views(keys@);
        let k = Key { number: -(cards[i].priority as i128), text: cards[i].created_at.clone() };
        assert(k@ == wanted[i as int]);
        keys.push(k);
        assert(key_views(keys@) =~= before.push(k@));
        assert(wanted.take(i + 1) =~= wanted.take(i as int).push(wanted[i as int]));
        i = i + 1;
    }
    assert(wanted.take(i as int) =~= wanted);
    let order = sorted(&keys, Texts::Ascending);
    let all = keep_flagged(&order, keep);
    let mut out: Vec<usize> = Vec::new();
    let mut j: usize = 0;
    while j < all.len() && (limit < 0 || (j as u64) < limit as u64)
        invariant
            j <= all@.len(),
            limit >= 0 ==> j <= limit,
            out@ == all@.take(j as int),
        decreases all.len() - j,
    {
        out.push(all[j]);
        assert(all@.take(j + 1) =~= all@.take(j as int).push(all@[j as int]));
        j = j + 1;
    }
    assert(all@.take(all@.len() as int) =~= all@);
    out
}

/// The positions of the cards to keep, lowest id first.
pub fn numbered(cards: &Vec<Card>, keep: &Vec<bool>) -> (out: Vec<usize>)
    requires
        keep@.len() == cards@.len(),
    ensures
        out@ == numbering(card_views(cards@), keep@),
        forall|k: int| 0 <= k < out@.len() ==> (#[trigger] out@[k]) < cards@.len() && keep@[out@[k] as int],
{
    let ghost wanted = id_keys(card_views(cards@));
    let mut keys: Vec<Key> = Vec::new();
    let mut i: usize = 0;
    while i < cards.len()
        invariant
            i <= cards@.len(),
            wanted == id_keys(card_views(cards@)),
            key_views(keys@) == wanted.take(i as int),
        decreases cards.len() - i,
    {
        let ghost before = key_views(keys@);
        let k = Key { number: cards[i].id as i128, text: String::new() };
        assert(k@ == wanted[i as int]);
        keys.push(k);
        assert(key_views(keys@) =~= before.push(k@));
        assert(wanted.take(i + 1) =~= wanted.take(i as int).push(wanted[i as int]));
        i = i + 1;
    }
    assert(wanted.take(i as int) =~= wanted);
    let order = sorted(&keys, Texts::Ascending);
    proof {
        lemma_kept(order@, keep@);
    }
    let out = keep_flagged(&order, keep);
    assert forall|k: int| 0 <= k < out@.len() implies (#[trigger] out@[k]) < cards@.len() && keep@[out@[k] as int] by {
        assert(order@.contains(out@[k]));
    }
    out
}

// ------------------------------------------------------------- listing

/// The names in a comma-separated list.
pub open spec fn name_list(s: Seq<char>) -> Seq<Seq<char>> {
    nonempty(split(s, Sep::Char(',')).map_values(|p: Seq<char>| trim(p)))
}

/// The names in a comma-separated list.
pub fn names_of(s: &str) -> (out: Vec<String>)
    ensures
        texts(out@) == name_list(s@),
{
    let all = pieces(s, Sep::Char(','));
    let ghost wanted = split(s@, Sep::Char(',')).map_values(|p: Seq<char>| trim(p));
    let mut out: Vec<String> = Vec::new();
    let mut i: usize = 0;
    while i < all.len()
        invariant
            i <= all@.len(),
            texts(all@) == split(s@, Sep::Char(',')),
            wanted == split(s@, Sep::Char(',')).map_values(|p: Seq<char>| trim(p)),
            texts(out@) == wanted.take(i as int),
        decreases all.len() - i,
    {
        let ghost before = texts(out@);
        assert(texts(all@)[i as int] == all@[i as int]@);
        out.push(trimmed(all[i].as_str()));
        assert(texts(out@) =~= before.push(wanted[i as int]));
        assert(wanted.take(i + 1) =~= wanted.take(i as int).push(wanted[i as int]));
        i = i + 1;
    }
    assert(wanted.take(i as int) =~= wanted);
    keep_nonempty(out)
}

/// The card passes a tag filter, where there is one.
pub open spec fn label_ok(c: CardView, label: Option<Seq<char>>) -> bool {
    match label {
        Some(l) => passes(c.label, l),
        None => true,
    }
}

/// The card has one of the statuses asked for: any where the list is empty,
/// all but `done` where no list is given.
pub open spec fn status_ok(c: CardView, status: Option<Seq<char>>) -> bool {
    match status {
        Some(s) => name_list(s).len() == 0 || name_list(s).contains(status_name(c.status)),
        None => c.status != Status::Done,
    }
}

/// The card is listed.
pub open spec fn listed(
    projects: Seq<ProjectView>,
    scope: Scope,
    label: Option<Seq<char>>,
    status: Option<Seq<char>>,
    c: CardView,
) -> bool {
    in_scope(projects, scope, c) && label_ok(c, label) && status_ok(c, status)
}

fn has_label(card: &Card, label: Option<&str>) -> (r: bool)
    ensures
        r == label_ok(card@, opt_text(label)),
{
    match label {
        Some(l) => passes_filter(card.label.as_str(), l),
        None => true,
    }
}

/// The cards `bl list` shows: their positions, highest ranked first.
pub fn list(
    cards: &Vec<Card>,
    projects: &Vec<Project>,
    scope: Scope,
    label: Option<&str>,
    status: Option<&str>,
    limit: i64,
) -> (out: Vec<usize>)
    ensures
        out@ == ranking(
            card_views(cards@),
            card_views(cards@).map_values(
                |c: CardView| listed(project_views(projects@), scope, opt_text(label), opt_text(status), c),
            ),
            limit as int,
        ),
{
    let ghost cv = card_views(cards@);
    let ghost pv = project_views(projects@);
    let ghost flags = cv.map_values(|c: CardView| listed(pv, scope, opt_text(label), opt_text(status), c));
    let names: Vec<String> = match status {
        Some(s) => names_of(s),
        None => Vec::new(),
    };
    let mut keep: Vec<bool> = Vec::new();
    let mut i: usize = 0;
    while i < cards.len()
        invariant
            i <= cards@.len(),
            cv == card_views(cards@),
            pv == project_views(projects@),
            status is Some ==> texts(names@) == name_list(status->0@),
            flags == cv.map_values(|c: CardView| listed(pv, scope, opt_text(label), opt_text(status), c)),
            keep@ == flags.take(i as int),
        decreases cards.len() - i,
    {
        let c = &cards[i];
        assert(cv[i as int] == c@);
        let status_fits = match status {
            Some(_) => {
                assert(texts(names@).len() == names@.len());
                names.len() == 0 || among(&names, c.status.as_str())
            },
            None => c.status != Status::Done,
        };
        let k = within_scope(projects, scope, c) && has_label(c, label) && status_fits;
        assert(k == flags[i as int]);
        keep.push(k);
        assert(flags.take(i + 1) =~= flags.take(i as int).push(flags[i as int]));
        i = i + 1;
    }
    assert(flags.take(i as int) =~= flags);
    ranked(cards, &keep, limit)
}

// ------------------------------------------------------------- board

/// The cards of the scope, whatever their status: their positions, highest
/// ranked first.
pub open spec fn board_positions(projects: Seq<ProjectView>, scope: Scope, cards: Seq<CardView>) -> Seq<usize> {
    ranking(cards, cards.map_values(|c: CardView| in_scope(projects, scope, c)), -1)
}

/// The cards the board shows: their positions, highest ranked first.
pub fn on_board(cards: &Vec<Card>, projects: &Vec<Project>, scope: Scope) -> (out: Vec<usize>)
    ensures
        out@ == board_positions(project_views(projects@), scope, card_views(cards@)),
{
    let ghost cv = card_views(cards@);
    let ghost pv = project_views(projects@);
    let ghost flags = cv.map_values(|c: CardView| in_scope(pv, scope, c));
    let mut keep: Vec<bool> = Vec::new();
    let mut i: usize = 0;
    while i < cards.len()
        invariant
            i <= cards@.len(),
            cv == card_views(cards@),
            pv == project_views(projects@),
            flags == cv.map_values(|c: CardView| in_scope(pv, scope, c)),
            keep@ == flags.take(i as int),
        decreases cards.len() - i,
    {
        assert(cv[i as int] == cards@[i as int]@);
        keep.push(within_scope(projects, scope, &cards[i]));
        assert(flags.take(i + 1) =~= flags.take(i as int).push(flags[i as int]));
        i = i + 1;
    }
    assert(flags.take(i as int) =~= flags);
    ranked(cards, &keep, -1)
}

// ------------------------------------------------------------- next

/// The card may be offered as the next one: it is `ready`, or `new` where
/// those are wanted, lies in the scope, passes the filter, waits on nothing
/// that is not done, and, where it is to be claimed, is held by nobody.
pub open spec fn offered(
    cards: Seq<CardView>,
    links: Seq<LinkView>,
    projects: Seq<ProjectView>,
    scope: Scope,
    label: Option<Seq<char>>,
    ready_only: bool,
    claim: bool,
    c: CardView,
) -> bool {
    &&& c.status == Status::Ready || (!ready_only && c.status == Status::New)
    &&& claim ==> c.claimed_by.len() == 0
    &&& in_scope(projects, scope, c)
    &&& label_ok(c, label)
    &&& !held_back(cards, links, c.id)
}

/// Which cards may be offered.
pub open spec fn offers(
    cards: Seq<CardView>,
    links: Seq<LinkView>,
    projects: Seq<ProjectView>,
    scope: Scope,
    label: Option<Seq<char>>,
    ready_only: bool,
    claim: bool,
) -> Seq<bool> {
    cards.map_values(|c: CardView| offered(cards, links, projects, scope, label, ready_only, claim, c))
}

/// The position of the card to take next.
pub open spec fn next_position(
    cards: Seq<CardView>,
    links: Seq<LinkView>,
    projects: Seq<ProjectView>,
    scope: Scope,
    label: Option<Seq<char>>,
    ready_only: bool,
    claim: bool,
) -> Option<usize> {
    let found = ranking(cards, offers(cards, links, projects, scope, label, ready_only, claim), 1);
    if found.len() > 0 {
        Some(found[0])
    } else {
        None
    }
}

/// The position of the card to take next: of those that may be offered, the
/// highest ranked; none exactly where none may be offered.
pub fn next(
    cards: &Vec<Card>,
    links: &Vec<Link>,
    projects: &Vec<Project>,
    scope: Scope,
    label: Option<&str>,
    ready_only: bool,
    claim: bool,
) -> (r: Option<usize>)
    ensures
        ({
            let cv = card_views(cards@);
            let flags = offers(
                cv,
                link_views(links@),
                project_views(projects@),
                scope,
                opt_text(label),
                ready_only,
                claim,
            );
            &&& r == next_position(
                cv,
                link_views(links@),
                project_views(projects@),
                scope,
                opt_text(label),
                ready_only,
                claim,
            )
            &&& match r {
                Some(at) => at < cards@.len() && flags[at as int] && forall|j: int|
                    0 <= j < cards@.len() && j != at && #[trigger] flags[j] ==> outranks(cv, at as int, j),
                None => forall|j: int| 0 <= j < cards@.len() ==> !#[trigger] flags[j],
            }
        }),
{
    let ghost cv = card_views(cards@);
    let ghost pv = project_views(projects@);
    let ghost lv = link_views(links@);
    let ghost flags = offers(cv, lv, pv, scope, opt_text(label), ready_only, claim);
    let mut keep: Vec<bool> = Vec::new();
    let mut i: usize = 0;
    while i < cards.len()
        invariant
            i <= cards@.len(),
            cv == card_views(cards@),
            pv == project_views(projects@),
            lv == link_views(links@),
            flags == offers(cv, lv, pv, scope, opt_text(label), ready_only, claim),
            keep@ == flags.take(i as int),
        decreases cards.len() - i,
    {
        let c = &cards[i];
        assert(cv[i as int] == c@);
        let k = (c.status == Status::Ready || (!ready_only && c.status == Status::New)) && (!claim
            || c.claimed_by.as_str().is_empty()) && within_scope(projects, scope, c) && has_label(c, label)
            && !is_held_back(cards, links, c.id);
        assert(k == flags[i as int]);
        keep.push(k);
        assert(flags.take(i + 1) =~= flags.take(i as int).push(flags[i as int]));
        i = i + 1;
    }
    assert(flags.take(i as int) =~= flags);
    let found = ranked(cards, &keep, 1);
    proof {
        law_ranking(cv, flags, 1);
        assert forall|j: int| 0 <= j < cards@.len() && #[trigger] flags[j] implies found@.len() > 0 && (found@[0]
            == j || outranks(cv, found@[0] as int, j)) by {
            let x = j as usize;
            assert(flags[x as int]);
            if found@.contains(x) {
                let k = choose|k: int| 0 <= k < found@.len() && found@[k] == x;
                if k > 0 {
                    assert(outranks(cv, found@[0] as int, found@[k] as int));
                }
            } else {
                assert(outranks(cv, found@[0] as int, x as int));
            }
        }
    }
    if found.len() > 0 {
        assert(found@[0] < cards@.len());
        Some(found[0])
    } else {
        None
    }
}

// ------------------------------------------------------------- search

/// What `str::to_lowercase` of std makes of a text.
pub uninterp spec fn lowercase(s: Seq<char>) -> Seq<char>;

/// Only ASCII characters.
pub open spec fn is_ascii_text(s: Seq<char>) -> bool {
    forall|i: int| 0 <= i < s.len() ==> (#[trigger] s[i] as int) < 128
}

/// `str::to_lowercase` of std: the lowercase equivalent of the text by
/// Unicode, a function of the text alone. Of a text of ASCII characters it
/// is the text with `A` to `Z` made small; of other texts nothing more is
/// said.
#[verifier::external_body]
fn lowered(s: &str) -> (out: String)
    ensures
        out@ == lowercase(s@),
        is_ascii_text(s@) ==> out@ == fold_all(s@),
{
    s.to_lowercase()
}

/// Each of the texts in lowercase.
pub open spec fn lowercase_all(v: Seq<Seq<char>>) -> Seq<Seq<char>> {
    v.map_values(|s: Seq<char>| lowercase(s))
}

/// Each of the texts in lowercase.
pub fn lowered_all(v: &Vec<String>) -> (out: Vec<String>)
    ensures
        texts(out@) == lowercase_all(texts(v@)),
        forall|k: int|
            0 <= k < v@.len() && is_ascii_text((#[trigger] v@[k])@) ==> lowercase(v@[k]@) == fold_all(v@[k]@),
{
    let ghost wanted = lowercase_all(texts(v@));
    let mut out: Vec<String> = Vec::new();
    let mut i: usize = 0;
    while i < v.len()
        invariant
            i <= v@.len(),
            wanted == lowercase_all(texts(v@)),
            texts(out@) == wanted.take(i as int),
            forall|k: int|
                0 <= k < i && is_ascii_text((#[trigger] v@[k])@) ==> lowercase(v@[k]@) == fold_all(v@[k]@),
        decreases v.len() - i,
    {
        let ghost before = texts(out@);
        out.push(lowered(v[i].as_str()));
        assert(texts(out@) =~= before.push(wanted[i as int]));
        assert(wanted.take(i + 1) =~= wanted.take(i as int).push(wanted[i as int]));
        i = i + 1;
    }
    assert(wanted.take(i as int) =~= wanted);
    out
}

/// The texts of a card that a search reads: its title, its notes, its
/// outcome, its label, and what each of its rows says.
pub open spec fn card_texts(c: CardView) -> Seq<Seq<char>> {
    seq![c.title, c.notes, c.outcome, c.label] + c.entries.map_values(|n: NoteView| n.body)
}

/// The word stands in one of the texts.
pub open spec fn stands_in(ts: Seq<Seq<char>>, word: Seq<char>) -> bool {
    exists|k: int| 0 <= k < ts.len() && contains(#[trigger] ts[k], word)
}

/// Every word stands in one of the texts.
pub open spec fn all_stand_in(ts: Seq<Seq<char>>, words: Seq<Seq<char>>) -> bool {
    forall|k: int| 0 <= k < words.len() ==> stands_in(ts, #[trigger] words[k])
}

/// The card, of which a search reads `ts`, is found: it lies in the scope,
/// every word is on it, it passes the filter, and it is open where only open
/// ones are wanted.
pub open spec fn found(
    projects: Seq<ProjectView>,
    scope: Scope,
    ts: Seq<Seq<char>>,
    words: Seq<Seq<char>>,
    label: Option<Seq<char>>,
    open: bool,
    c: CardView,
) -> bool {
    in_scope(projects, scope, c) && all_stand_in(ts, words) && label_ok(c, label) && (open ==> c.status != Status::Done)
}

/// Which cards are found; `ts` holds what a search reads of each.
pub open spec fn finds(
    projects: Seq<ProjectView>,
    scope: Scope,
    cards: Seq<CardView>,
    ts: Seq<Seq<Seq<char>>>,
    words: Seq<Seq<char>>,
    label: Option<Seq<char>>,
    open: bool,
) -> Seq<bool> {
    Seq::new(cards.len(), |i: int| found(projects, scope, ts[i], words, label, open, cards[i]))
}

/// What several lists of strings hold.
pub open spec fn text_lists(v: Seq<Vec<String>>) -> Seq<Seq<Seq<char>>> {
    v.map_values(|l: Vec<String>| texts(l@))
}

/// What a search reads of each card, in lowercase.
pub open spec fn lowercase_cards(cards: Seq<CardView>) -> Seq<Seq<Seq<char>>> {
    cards.map_values(|c: CardView| lowercase_all(card_texts(c)))
}

/// Of a text in ASCII, `lowercase` is the text with `A` to `Z` made small.
pub open spec fn folds(s: Seq<char>) -> bool {
    is_ascii_text(s) ==> lowercase(s) == fold_all(s)
}

/// The texts of a card that a search reads.
pub fn texts_on(card: &Card) -> (out: Vec<String>)
    ensures
        texts(out@) == card_texts(card@),
{
    let mut out: Vec<String> = Vec::new();
    out.push(card.title.clone());
    out.push(card.notes.clone());
    out.push(card.outcome.clone());
    out.push(card.label.clone());
    let ghost all = card_texts(card@);
    assert(texts(out@) =~= all.take(4));
    let mut i: usize = 0;
    while i < card.entries.len()
        invariant
            i <= card.entries@.len(),
            all == card_texts(card@),
            texts(out@) == all.take(4 + i as int),
        decreases card.entries.len() - i,
    {
        let ghost before = texts(out@);
        out.push(card.entries[i].body.clone());
        assert(card@.entries[i as int] == card.entries@[i as int]@);
        assert(all[4 + i as int] == card.entries@[i as int]@.body);
        assert(texts(out@) =~= before.push(all[4 + i as int]));
        assert(all.take(4 + i as int + 1) =~= all.take(4 + i as int).push(all[4 + i as int]));
        i = i + 1;
    }
    assert(all.take(4 + i as int) =~= all);
    out
}

fn word_stands(ts: &Vec<String>, word: &str) -> (r: bool)
    ensures
        r == stands_in(texts(ts@), word@),
{
    let mut i: usize = 0;
    while i < ts.len()
        invariant
            i <= ts@.len(),
            forall|k: int| 0 <= k < i ==> !contains(#[trigger] texts(ts@)[k], word@),
        decreases ts.len() - i,
    {
        assert(texts(ts@)[i as int] == ts@[i as int]@);
        if has(ts[i].as_str(), word) {
            return true;
        }
        i = i + 1;
    }
    false
}

fn words_stand(ts: &Vec<String>, words: &Vec<String>) -> (r: bool)
    ensures
        r == all_stand_in(texts(ts@), texts(words@)),
{
    let mut i: usize = 0;
    while i < words.len()
        invariant
            i <= words@.len(),
            forall|k: int| 0 <= k < i ==> stands_in(texts(ts@), #[trigger] texts(words@)[k]),
        decreases words.len() - i,
    {
        assert(texts(words@)[i as int] == words@[i as int]@);
        if !word_stands(ts, words[i].as_str()) {
            return false;
        }
        i = i + 1;
    }
    true
}

/// The cards on which every one of the words stands: their positions,
/// highest ranked first. `lows` holds, card by card, the texts that are
/// read, in the case the words are given in.
pub fn search_lowered(
    cards: &Vec<Card>,
    projects: &Vec<Project>,
    scope: Scope,
    lows: &Vec<Vec<String>>,
    words: &Vec<String>,
    label: Option<&str>,
    open: bool,
    limit: i64,
) -> (out: Vec<usize>)
    requires
        lows@.len() == cards@.len(),
    ensures
        out@ == ranking(
            card_views(cards@),
            finds(
                project_views(projects@),
                scope,
                card_views(cards@),
                text_lists(lows@),
                texts(words@),
                opt_text(label),
                open,
            ),
            limit as int,
        ),
{
    let ghost cv = card_views(cards@);
    let ghost pv = project_views(projects@);
    let ghost lv = text_lists(lows@);
    let ghost flags = finds(pv, scope, cv, lv, texts(words@), opt_text(label), open);
    let mut keep: Vec<bool> = Vec::new();
    let mut i: usize = 0;
    while i < cards.len()
        invariant
            i <= cards@.len(),
            lows@.len() == cards@.len(),
            cv == card_views(cards@),
            pv == project_views(projects@),
            lv == text_lists(lows@),
            flags == finds(pv, scope, cv, lv, texts(words@), opt_text(label), open),
            keep@ == flags.take(i as int),
        decreases cards.len() - i,
    {
        let c = &cards[i];
        assert(cv[i as int] == c@);
        assert(lv[i as int] == texts(lows@[i as int]@));
        let k = within_scope(projects, scope, c) && words_stand(&lows[i], words) && has_label(c, label) && (!open
            || c.status != Status::Done);
        assert(k == flags[i as int]);
        keep.push(k);
        assert(flags.take(i + 1) =~= flags.take(i as int).push(flags[i as int]));
        i = i + 1;
    }
    assert(flags.take(i as int) =~= flags);
    ranked(cards, &keep, limit)
}

/// The cards `bl search` finds: those on which every word stands, whatever
/// the case of its letters; their positions, highest ranked first.
pub fn search(
    cards: &Vec<Card>,
    projects: &Vec<Project>,
    scope: Scope,
    query: &Vec<String>,
    label: Option<&str>,
    open: bool,
    limit: i64,
) -> (out: Vec<usize>)
    ensures
        out@ == ranking(
            card_views(cards@),
            finds(
                project_views(projects@),
                scope,
                card_views(cards@),
                lowercase_cards(card_views(cards@)),
                lowercase_all(texts(query@)),
                opt_text(label),
                open,
            ),
            limit as int,
        ),
        forall|k: int| 0 <= k < query@.len() ==> folds(#[trigger] texts(query@)[k]),
        forall|i: int, k: int|
            0 <= i < cards@.len() && 0 <= k < card_texts(card_views(cards@)[i]).len() ==> folds(
                #[trigger] card_texts(card_views(cards@)[i])[k],
            ),
{
    let ghost cv = card_views(cards@);
    let ghost wanted = lowercase_cards(cv);
    let words = lowered_all(query);
    assert forall|k: int| 0 <= k < query@.len() implies folds(#[trigger] texts(query@)[k]) by {
        assert(texts(query@)[k] == query@[k]@);
    }
    let mut lows: Vec<Vec<String>> = Vec::new();
    let mut i: usize = 0;
    while i < cards.len()
        invariant
            i <= cards@.len(),
            cv == card_views(cards@),
            wanted == lowercase_cards(cv),
            lows@.len() == i,
            text_lists(lows@) == wanted.take(i as int),
            forall|j: int, k: int|
                0 <= j < i && 0 <= k < card_texts(cv[j]).len() ==> folds(#[trigger] card_texts(cv[j])[k]),
        decreases cards.len() - i,
    {
        let ghost before = text_lists(lows@);
        let ts = texts_on(&cards[i]);
        let low = lowered_all(&ts);
        assert(cv[i as int] == cards@[i as int]@);
        assert(wanted[i as int] == texts(low@));
        assert forall|k: int| 0 <= k < card_texts(cv[i as int]).len() implies folds(
            #[trigger] card_texts(cv[i as int])[k],
        ) by {
            assert(texts(ts@)[k] == ts@[k]@);
        }
        lows.push(low);
        assert(text_lists(lows@) =~= before.push(wanted[i as int]));
        assert(wanted.take(i + 1) =~= wanted.take(i as int).push(wanted[i as int]));
        i = i + 1;
    }
    assert(wanted.take(i as int) =~= wanted);
    search_lowered(cards, projects, scope, &lows, &words, label, open, limit)
}

/// One of the words stands in the text.
pub open spec fn any_in(text: Seq<char>, words: Seq<Seq<char>>) -> bool {
    exists|k: int| 0 <= k < words.len() && contains(text, #[trigger] words[k])
}

/// A line short enough to show.
pub open spec fn shown_line(line: Seq<char>) -> Seq<char> {
    if line.len() > 140 {
        line.take(137) + "..."@
    } else {
        line
    }
}

/// The lines that hold a word, each judged by its lowercase form.
pub open spec fn hits(ls: Seq<Seq<char>>, lows: Seq<Seq<char>>, words: Seq<Seq<char>>) -> Seq<Seq<char>>
    decreases ls.len(),
{
    if ls.len() == 0 {
        ls
    } else if any_in(lows[ls.len() - 1], words) {
        hits(ls.drop_last(), lows, words).push(shown_line(ls.last()))
    } else {
        hits(ls.drop_last(), lows, words)
    }
}

/// The first four.
pub open spec fn first_four(v: Seq<Seq<char>>) -> Seq<Seq<char>> {
    if v.len() > 4 {
        v.take(4)
    } else {
        v
    }
}

/// The lines of a card's notes and outcome, trimmed, without the empty ones.
pub open spec fn card_lines(c: CardView) -> Seq<Seq<char>> {
    nonempty((lines(c.notes) + lines(c.outcome)).map_values(|l: Seq<char>| trim(l)))
}

fn any_word_in(text: &str, words: &Vec<String>) -> (r: bool)
    ensures
        r == any_in(text@, texts(words@)),
{
    let mut i: usize = 0;
    while i < words.len()
        invariant
            i <= words@.len(),
            forall|k: int| 0 <= k < i ==> !contains(text@, #[trigger] texts(words@)[k]),
        decreases words.len() - i,
    {
        assert(texts(words@)[i as int] == words@[i as int]@);
        if has(text, words[i].as_str()) {
            return true;
        }
        i = i + 1;
    }
    false
}

/// The lines that hold a word, each judged by its lowercase form; four at
/// most, each cut where it is long.
pub fn lines_with(ls: &Vec<String>, lows: &Vec<String>, words: &Vec<String>) -> (out: Vec<String>)
    requires
        lows@.len() == ls@.len(),
    ensures
        texts(out@) == first_four(hits(texts(ls@), texts(lows@), texts(words@))),
{
    let ghost lv = texts(ls@);
    let ghost wv = texts(lows@);
    let mut all: Vec<String> = Vec::new();
    let mut i: usize = 0;
    assert(texts(all@) =~= hits(lv.take(0), wv, texts(words@)));
    while i < ls.len()
        invariant
            i <= ls@.len(),
            lows@.len() == ls@.len(),
            lv == texts(ls@),
            wv == texts(lows@),
            texts(all@) == hits(lv.take(i as int), wv, texts(words@)),
        decreases ls.len() - i,
    {
        assert(lv.take(i + 1).drop_last() =~= lv.take(i as int));
        assert(lv.take(i + 1).last() == ls@[i as int]@);
        assert(wv[i as int] == lows@[i as int]@);
        if any_word_in(lows[i].as_str(), words) {
            let ghost before = texts(all@);
            let v = chars_of(ls[i].as_str());
            let shown = if v.len() > 140 {
                assert(v@.subrange(0, 137) =~= ls@[i as int]@.take(137));
                part(&v, 0, 137).concat("...")
            } else {
                ls[i].clone()
            };
            all.push(shown);
            assert(texts(all@) =~= before.push(shown_line(lv[i as int])));
        }
        i = i + 1;
    }
    assert(lv.take(i as int) =~= lv);
    let ghost whole = texts(all@);
    if all.len() > 4 {
        all.truncate(4);
        assert(texts(all@) =~= whole.take(4));
    }
    all
}

/// The lines of a card's notes and outcome, trimmed, without the empty ones.
pub fn lines_on(card: &Card) -> (out: Vec<String>)
    ensures
        texts(out@) == card_lines(card@),
{
    let mut ls = lines_of(card.notes.as_str());
    let mut more = lines_of(card.outcome.as_str());
    let ghost (a, b) = (ls@, more@);
    ls.append(&mut more);
    assert(texts(ls@) =~= texts(a) + texts(b));
    let ghost wanted = texts(ls@).map_values(|l: Seq<char>| trim(l));
    let mut out: Vec<String> = Vec::new();
    let mut i: usize = 0;
    while i < ls.len()
        invariant
            i <= ls@.len(),
            wanted == texts(ls@).map_values(|l: Seq<char>| trim(l)),
            texts(out@) == wanted.take(i as int),
        decreases ls.len() - i,
    {
        let ghost before = texts(out@);
        out.push(trimmed(ls[i].as_str()));
        assert(texts(out@) =~= before.push(wanted[i as int]));
        assert(wanted.take(i + 1) =~= wanted.take(i as int).push(wanted[i as int]));
        i = i + 1;
    }
    assert(wanted.take(i as int) =~= wanted);
    keep_nonempty(out)
}

/// The lines of a card that hold a search term, so that a hit shows why it
/// matched.
pub fn matching_lines(card: &Card, terms: &Vec<String>) -> (out: Vec<String>)
    ensures
        texts(out@) == first_four(
            hits(card_lines(card@), lowercase_all(card_lines(card@)), lowercase_all(texts(terms@))),
        ),
{
    let ls = lines_on(card);
    let lows = lowered_all(&ls);
    let words = lowered_all(terms);
    assert(texts(lows@).len() == lows@.len() && texts(ls@).len() == ls@.len());
    lines_with(&ls, &lows, &words)
}

} // verus!
