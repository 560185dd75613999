//! What each command that reads gives, told by the cards it gives: that
//! every card given was asked for, that no card asked for is left out, and
//! in which order they come.

use vstd::prelude::*;

use crate::card::{has_card, position, CardView};
use crate::condition::{holds_of, selected, ConditionView, NumberField, Relation, TextField};
use crate::links::{LinkKind, LinkView};
use crate::order::{comes_before, lemma_covers, lemma_order_exists, sorted_order, text_before, Texts};
use crate::project::ProjectView;
use crate::select::{
    board_positions, card_texts, finds, first_four, hits, id_keys, law_ranking, lemma_kept, listed, lowercase,
    lowercase_all, lowercase_cards, name_list, next_position, numbering, offers, rank_keys, ranking, scope_of,
    shown_line, Scope,
};
use crate::status::{status_name, Status};
use crate::sweep::{doomed_flags, doomed_order};
use crate::tags::tags;
use crate::text::{contains, cuts, join, lemma_split_join, nonempty, trim, Sep};

verus! {

// ------------------------------------------------------------- what is asked for

/// The card is of the project asked for, or of an active one, or any card is
/// asked for.
pub open spec fn in_reach(projects: Seq<ProjectView>, scope: Scope, c: CardView) -> bool {
    &&& scope matches Scope::Project(p) ==> c.project_id == p
    &&& scope == Scope::ActiveProjects ==> exists|k: int|
        0 <= k < projects.len() && (#[trigger] projects[k]).active && projects[k].id == c.project_id
}

/// The card has a tag asked for; where no tag is named, it has no label.
pub open spec fn tagged_so(label: Option<Seq<char>>, c: CardView) -> bool {
    label matches Some(l) ==> if tags(l).len() > 0 {
        exists|t: Seq<char>| #[trigger] tags(c.label).contains(t) && tags(l).contains(t)
    } else {
        c.label.len() == 0
    }
}

/// The higher priority first, then the older card, then the one that stands
/// first.
pub open spec fn goes_before(cards: Seq<CardView>, i: int, j: int) -> bool {
    let (a, b) = (cards[i], cards[j]);
    &&& a.priority >= b.priority
    &&& a.priority == b.priority ==> !text_before(b.created_at, a.created_at)
    &&& a.priority == b.priority && a.created_at == b.created_at ==> i < j
}

/// Law: the scope of a read is the project at hand; where there is none, or
/// all are asked for, every active project of the store, or the whole of a
/// single file.
pub proof fn law_scope_of_a_read(project: Option<i64>, all: bool, central: bool)
    ensures
        project is Some && !all ==> scope_of(project, all, central) == Scope::Project(project->0),
        project is None || all ==> scope_of(project, all, central) == if central {
            Scope::ActiveProjects
        } else {
            Scope::Everything
        },
{
}

/// Law: a text stands before another where at the first place they differ
/// its character is the smaller one, or where it ends there.
pub proof fn law_text_order_is_by_first_difference(p: Seq<char>, a: Seq<char>, b: Seq<char>)
    ensures
        a.len() > 0 && b.len() > 0 && a[0] != b[0] ==> text_before(p + a, p + b) == (a[0] < b[0]),
        a.len() == 0 && b.len() > 0 ==> text_before(p + a, p + b),
        b.len() == 0 ==> !text_before(p + a, p + b),
    decreases p.len(),
{
    if p.len() == 0 {
        assert(p + a =~= a && p + b =~= b);
    } else {
        let q = p.drop_first();
        law_text_order_is_by_first_difference(q, a, b);
        assert((p + a).drop_first() =~= q + a);
        assert((p + b).drop_first() =~= q + b);
        assert((p + a)[0] == p[0] && (p + b)[0] == p[0]);
    }
}

proof fn lemma_outranks(cards: Seq<CardView>, i: int, j: int)
    requires
        0 <= i < cards.len(),
        0 <= j < cards.len(),
        comes_before(rank_keys(cards), Texts::Ascending, i, j),
    ensures
        goes_before(cards, i, j),
{
    let (a, b) = (cards[i], cards[j]);
    assert(rank_keys(cards)[i].text == a.created_at && rank_keys(cards)[j].text == b.created_at);
    if text_before(a.created_at, b.created_at) && text_before(b.created_at, a.created_at) {
        crate::order::lemma_text_before_transitive(a.created_at, b.created_at, a.created_at);
        crate::order::lemma_text_before_irreflexive(a.created_at);
    }
    crate::order::lemma_text_before_irreflexive(a.created_at);
}

/// Law: cards come by priority, the highest first, and the older first where
/// two are equal; none comes twice, at most as many as allowed come, and one
/// that is left out for want of room would have come after all that came.
pub proof fn law_ranked_by_priority(cards: Seq<CardView>, keep: Seq<bool>, limit: int)
    requires
        keep.len() == cards.len(),
        cards.len() <= usize::MAX,
    ensures
        ({
            let out = ranking(cards, keep, limit);
            &&& out.no_duplicates()
            &&& limit >= 0 ==> out.len() <= limit
            &&& forall|k: int| 0 <= k < out.len() ==> (#[trigger] out[k]) < cards.len() && keep[out[k] as int]
            &&& forall|a: int, b: int|
                0 <= a < b < out.len() ==> goes_before(cards, #[trigger] out[a] as int, #[trigger] out[b] as int)
            &&& forall|i: int|
                0 <= i < cards.len() && #[trigger] keep[i] && !out.contains(i as usize) ==> limit >= 0 && out.len()
                    == limit && forall|k: int|
                    0 <= k < out.len() ==> goes_before(cards, #[trigger] out[k] as int, i)
        }),
{
    law_ranking(cards, keep, limit);
    let out = ranking(cards, keep, limit);
    assert forall|a: int, b: int| 0 <= a < b < out.len() implies goes_before(
        cards,
        #[trigger] out[a] as int,
        #[trigger] out[b] as int,
    ) by {
        assert(crate::select::outranks(cards, out[a] as int, out[b] as int));
        lemma_outranks(cards, out[a] as int, out[b] as int);
    }
    assert forall|i: int| 0 <= i < cards.len() && #[trigger] keep[i] && !out.contains(i as usize) implies limit >= 0
        && out.len() == limit && forall|k: int| 0 <= k < out.len() ==> goes_before(cards, #[trigger] out[k] as int, i) by {
        let x = i as usize;
        assert(keep[x as int]);
        assert forall|k: int| 0 <= k < out.len() implies goes_before(cards, #[trigger] out[k] as int, i) by {
            assert(crate::select::outranks(cards, out[k] as int, x as int));
            lemma_outranks(cards, out[k] as int, i);
        }
    }
}

// ------------------------------------------------------------- listing

/// Law: names joined by commas are read back as those names.
pub proof fn law_names_read_back(v: Seq<Seq<char>>)
    requires
        v.len() > 0,
        forall|k: int|
            0 <= k < v.len() ==> (#[trigger] v[k]).len() > 0 && trim(v[k]) == v[k] && !v[k].contains(','),
    ensures
        name_list(join(v, ","@)) == v,
{
    reveal_strlit(",");
    assert(","@ =~= seq![',']);
    assert forall|k: int, i: int| 0 <= k < v.len() && 0 <= i < v[k].len() implies !cuts(
        Sep::Char(','),
        #[trigger] v[k][i],
    ) by {
        assert(!v[k].contains(','));
    }
    lemma_split_join(v, ',', Sep::Char(','));
    assert(v.map_values(|p: Seq<char>| trim(p)) =~= v);
    lemma_nonempty_all(v);
}

proof fn lemma_nonempty_all(v: Seq<Seq<char>>)
    requires
        forall|k: int| 0 <= k < v.len() ==> (#[trigger] v[k]).len() > 0,
    ensures
        nonempty(v) == v,
    decreases v.len(),
{
    if v.len() > 0 {
        let w = v.drop_last();
        assert forall|k: int| 0 <= k < w.len() implies (#[trigger] w[k]).len() > 0 by {
            assert(w[k] == v[k]);
        }
        lemma_nonempty_all(w);
        assert(v[v.len() - 1].len() > 0);
        assert(w.push(v.last()) =~= v);
    }
}

/// The card has a status asked for: one of those named, any where none is,
/// and any but done where nothing is said of it.
pub open spec fn stands_so(status: Option<Seq<char>>, c: CardView) -> bool {
    &&& status is None ==> c.status != Status::Done
    &&& status matches Some(s) ==> name_list(s).len() > 0 ==> name_list(s).contains(status_name(c.status))
}

/// Law: a listing gives cards of the scope, with a tag and a status asked
/// for, by priority; of those it leaves out only what there is no room for.
pub proof fn law_list_gives_what_is_asked(
    cards: Seq<CardView>,
    projects: Seq<ProjectView>,
    scope: Scope,
    label: Option<Seq<char>>,
    status: Option<Seq<char>>,
    limit: int,
    i: int,
)
    requires
        0 <= i < cards.len() <= usize::MAX,
    ensures
        ({
            let out = ranking(cards, cards.map_values(|c: CardView| listed(projects, scope, label, status, c)), limit);
            let c = cards[i];
            let asked = in_reach(projects, scope, c) && tagged_so(label, c) && stands_so(status, c);
            &&& out.contains(i as usize) ==> asked
            &&& asked && limit < 0 ==> out.contains(i as usize)
            &&& asked && !out.contains(i as usize) ==> out.len() == limit && forall|k: int|
                0 <= k < out.len() ==> goes_before(cards, #[trigger] out[k] as int, i)
            &&& limit >= 0 ==> out.len() <= limit
            &&& forall|a: int, b: int|
                0 <= a < b < out.len() ==> goes_before(cards, #[trigger] out[a] as int, #[trigger] out[b] as int)
        }),
{
    let keep = cards.map_values(|c: CardView| listed(projects, scope, label, status, c));
    law_ranked_by_priority(cards, keep, limit);
    let out = ranking(cards, keep, limit);
    lemma_asked(projects, scope, label, cards[i]);
    if out.contains(i as usize) {
        let k = choose|k: int| 0 <= k < out.len() && out[k] == i as usize;
        assert(keep[out[k] as int]);
    }
    assert(keep[i] == listed(projects, scope, label, status, cards[i]));
}

/// What the readers test of scope and tags is what was asked for.
pub proof fn lemma_asked(projects: Seq<ProjectView>, scope: Scope, label: Option<Seq<char>>, c: CardView)
    ensures
        crate::select::in_scope(projects, scope, c) == in_reach(projects, scope, c),
        crate::select::label_ok(c, label) == tagged_so(label, c),
{
    match label {
        Some(l) => {
            if crate::tags::passes(c.label, l) && tags(l).len() > 0 {
                let t = choose|t: Seq<char>| #[trigger] tags(l).contains(t) && crate::tags::carries(c.label, t);
                assert(tags(c.label).contains(t));
            }
            if tags(l).len() > 0 && tagged_so(label, c) {
                let t = choose|t: Seq<char>| #[trigger] tags(c.label).contains(t) && tags(l).contains(t);
                assert(crate::tags::carries(c.label, t));
            }
        },
        None => {},
    }
}

// ------------------------------------------------------------- the board

/// Law: the board is drawn of every card in the scope, whatever its status,
/// each once, by priority.
pub proof fn law_board_has_every_card(projects: Seq<ProjectView>, scope: Scope, cards: Seq<CardView>, i: int)
    requires
        0 <= i < cards.len() <= usize::MAX,
    ensures
        ({
            let out = board_positions(projects, scope, cards);
            &&& out.contains(i as usize) <==> in_reach(projects, scope, cards[i])
            &&& out.no_duplicates()
            &&& forall|a: int, b: int|
                0 <= a < b < out.len() ==> goes_before(cards, #[trigger] out[a] as int, #[trigger] out[b] as int)
        }),
{
    let keep = cards.map_values(|c: CardView| crate::select::in_scope(projects, scope, c));
    law_ranked_by_priority(cards, keep, -1);
    let out = board_positions(projects, scope, cards);
    lemma_asked(projects, scope, None, cards[i]);
    if out.contains(i as usize) {
        let k = choose|k: int| 0 <= k < out.len() && out[k] == i as usize;
        assert(keep[out[k] as int]);
    }
    assert(keep[i] == crate::select::in_scope(projects, scope, cards[i]));
}

// ------------------------------------------------------------- the next card

/// The card can be worked next: it is ready, or new where those are wanted,
/// in the scope, with a tag asked for, free where it is to be claimed, and
/// every card that blocks it and is there is done.
pub open spec fn workable(
    cards: Seq<CardView>,
    links: Seq<LinkView>,
    projects: Seq<ProjectView>,
    scope: Scope,
    label: Option<Seq<char>>,
    ready_only: bool,
    claim: bool,
    c: CardView,
) -> bool {
    &&& c.status != Status::Done && c.status != Status::InProgress
    &&& ready_only ==> c.status == Status::Ready
    &&& claim ==> c.claimed_by.len() == 0
    &&& in_reach(projects, scope, c)
    &&& tagged_so(label, c)
    &&& forall|k: int|
        0 <= k < links.len() && (#[trigger] links[k]).kind == LinkKind::Blocks && links[k].to == c.id && has_card(
            cards,
            links[k].from,
        ) ==> cards[position(cards, links[k].from)].status == Status::Done
}

/// Law: the next card is one that can be worked, and no card that can be
/// worked goes before it; there is none only where no card can be worked.
pub proof fn law_next_is_the_best_workable(
    cards: Seq<CardView>,
    links: Seq<LinkView>,
    projects: Seq<ProjectView>,
    scope: Scope,
    label: Option<Seq<char>>,
    ready_only: bool,
    claim: bool,
    i: int,
)
    requires
        0 <= i < cards.len() <= usize::MAX,
    ensures
        ({
            let n = next_position(cards, links, projects, scope, label, ready_only, claim);
            let works = workable(cards, links, projects, scope, label, ready_only, claim, cards[i]);
            &&& n is None ==> !works
            &&& n matches Some(at) ==> {
                &&& at < cards.len()
                &&& workable(cards, links, projects, scope, label, ready_only, claim, cards[at as int])
                &&& works && i != at ==> goes_before(cards, at as int, i)
            }
        }),
{
    let keep = offers(cards, links, projects, scope, label, ready_only, claim);
    law_ranked_by_priority(cards, keep, 1);
    let out = ranking(cards, keep, 1);
    let n = next_position(cards, links, projects, scope, label, ready_only, claim);
    lemma_workable(cards, links, projects, scope, label, ready_only, claim, cards[i]);
    if n is Some {
        let at = out[0] as int;
        lemma_workable(cards, links, projects, scope, label, ready_only, claim, cards[at]);
        assert(keep[at]);
    }
    if keep[i] {
        if out.contains(i as usize) {
            let k = choose|k: int| 0 <= k < out.len() && out[k] == i as usize;
            assert(k == 0);
        } else {
            assert(out.len() == 1);
            assert(goes_before(cards, out[0] as int, i));
        }
    }
}

proof fn lemma_workable(
    cards: Seq<CardView>,
    links: Seq<LinkView>,
    projects: Seq<ProjectView>,
    scope: Scope,
    label: Option<Seq<char>>,
    ready_only: bool,
    claim: bool,
    c: CardView,
)
    ensures
        crate::select::offered(cards, links, projects, scope, label, ready_only, claim, c) == workable(
            cards,
            links,
            projects,
            scope,
            label,
            ready_only,
            claim,
            c,
        ),
{
    lemma_asked(projects, scope, label, c);
    if crate::links::held_back(cards, links, c.id) {
        let k = choose|k: int|
            0 <= k < links.len() && (#[trigger] links[k]).kind == LinkKind::Blocks && links[k].to == c.id && has_card(
                cards,
                links[k].from,
            ) && cards[position(cards, links[k].from)].status != Status::Done;
        assert(links[k].kind == LinkKind::Blocks);
    }
}

// ------------------------------------------------------------- search

/// The word stands on the card, in whatever case: in its title, its notes,
/// its outcome, its label, or what one of its rows says.
pub open spec fn says(c: CardView, word: Seq<char>) -> bool {
    let w = lowercase(word);
    ||| contains(lowercase(c.title), w)
    ||| contains(lowercase(c.notes), w)
    ||| contains(lowercase(c.outcome), w)
    ||| contains(lowercase(c.label), w)
    ||| exists|k: int| 0 <= k < c.entries.len() && contains(lowercase((#[trigger] c.entries[k]).body), w)
}

/// Law: a search gives cards of the scope it was asked for and no others, on
/// each of which every word stands, with a tag asked for, and open where only
/// those are wanted; by priority; of those it leaves out only what there is
/// no room for.
pub proof fn law_search_gives_what_is_asked(
    cards: Seq<CardView>,
    projects: Seq<ProjectView>,
    scope: Scope,
    query: Seq<Seq<char>>,
    label: Option<Seq<char>>,
    open: bool,
    limit: int,
    i: int,
)
    requires
        0 <= i < cards.len() <= usize::MAX,
    ensures
        ({
            let found = finds(projects, scope, cards, lowercase_cards(cards), lowercase_all(query), label, open);
            let out = ranking(cards, found, limit);
            let c = cards[i];
            let asked = in_reach(projects, scope, c) && tagged_so(label, c) && (open ==> c.status != Status::Done)
                && forall|k: int| 0 <= k < query.len() ==> says(c, #[trigger] query[k]);
            &&& out.contains(i as usize) ==> asked
            &&& asked && limit < 0 ==> out.contains(i as usize)
            &&& asked && !out.contains(i as usize) ==> out.len() == limit && forall|k: int|
                0 <= k < out.len() ==> goes_before(cards, #[trigger] out[k] as int, i)
            &&& limit >= 0 ==> out.len() <= limit
            &&& forall|a: int, b: int|
                0 <= a < b < out.len() ==> goes_before(cards, #[trigger] out[a] as int, #[trigger] out[b] as int)
        }),
{
    let lows = lowercase_cards(cards);
    let words = lowercase_all(query);
    let keep = finds(projects, scope, cards, lows, words, label, open);
    law_ranked_by_priority(cards, keep, limit);
    let out = ranking(cards, keep, limit);
    let c = cards[i];
    lemma_asked(projects, scope, label, c);
    if out.contains(i as usize) {
        let k = choose|k: int| 0 <= k < out.len() && out[k] == i as usize;
        assert(keep[out[k] as int]);
    }
    assert(lows[i] == lowercase_all(card_texts(c)));
    assert forall|k: int| 0 <= k < query.len() implies crate::select::stands_in(lows[i], #[trigger] words[k]) == says(
        c,
        query[k],
    ) by {
        lemma_says(c, query[k]);
    }
    if keep[i] {
        assert forall|k: int| 0 <= k < query.len() implies says(c, #[trigger] query[k]) by {
            assert(crate::select::stands_in(lows[i], words[k]));
        }
    }
    if forall|k: int| 0 <= k < query.len() ==> says(c, #[trigger] query[k]) {
        assert forall|k: int| 0 <= k < words.len() implies crate::select::stands_in(lows[i], #[trigger] words[k]) by {
            assert(says(c, query[k]));
        }
    }
}

proof fn lemma_says(c: CardView, word: Seq<char>)
    ensures
        crate::select::stands_in(lowercase_all(card_texts(c)), lowercase(word)) == says(c, word),
{
    let ts = card_texts(c);
    let lows = lowercase_all(ts);
    let w = lowercase(word);
    assert(ts[0] == c.title && ts[1] == c.notes && ts[2] == c.outcome && ts[3] == c.label);
    assert(lows[0] == lowercase(c.title) && lows[1] == lowercase(c.notes));
    assert(lows[2] == lowercase(c.outcome) && lows[3] == lowercase(c.label));
    assert forall|k: int| 0 <= k < c.entries.len() implies #[trigger] lows[4 + k] == lowercase(c.entries[k].body) by {
        assert(ts[4 + k] == c.entries[k].body);
    }
    if crate::select::stands_in(lows, w) {
        let k = choose|k: int| 0 <= k < lows.len() && contains(#[trigger] lows[k], w);
        if k >= 4 {
            assert(lows[4 + (k - 4)] == lowercase(c.entries[k - 4].body));
        }
    }
    if exists|k: int| 0 <= k < c.entries.len() && contains(lowercase((#[trigger] c.entries[k]).body), w) {
        let k = choose|k: int| 0 <= k < c.entries.len() && contains(lowercase((#[trigger] c.entries[k]).body), w);
        assert(contains(lows[4 + k], w));
    }
}

/// Law: the lines shown of a card that was found are lines in which a word
/// stands, in their order, and every such line is shown as long as there are
/// no more than four.
pub proof fn law_shown_lines_hold_a_word(ls: Seq<Seq<char>>, lows: Seq<Seq<char>>, words: Seq<Seq<char>>, i: int)
    requires
        lows.len() == ls.len(),
        0 <= i < ls.len(),
    ensures
        ({
            let all = hits(ls, lows, words);
            let hit = exists|k: int| 0 <= k < words.len() && contains(lows[i], #[trigger] words[k]);
            &&& hit ==> all.contains(shown_line(ls[i]))
            &&& first_four(all).len() <= 4
            &&& all.len() <= 4 ==> first_four(all) == all
            &&& all.len() > 4 ==> first_four(all) == all.take(4)
            &&& ls[i].len() <= 140 ==> shown_line(ls[i]) == ls[i]
            &&& ls[i].len() > 140 ==> shown_line(ls[i]) == ls[i].take(137) + "..."@
        }),
{
    lemma_hits(ls, lows, words, i);
}

proof fn lemma_hits(ls: Seq<Seq<char>>, lows: Seq<Seq<char>>, words: Seq<Seq<char>>, i: int)
    requires
        ls.len() <= lows.len(),
        0 <= i < ls.len(),
    ensures
        (exists|k: int| 0 <= k < words.len() && contains(lows[i], #[trigger] words[k])) ==> hits(ls, lows, words).contains(
            shown_line(ls[i]),
        ),
    decreases ls.len(),
{
    if exists|k: int| 0 <= k < words.len() && contains(lows[i], #[trigger] words[k]) {
        let front = ls.drop_last();
        let (all, before) = (hits(ls, lows, words), hits(front, lows, words));
        if i == ls.len() - 1 {
            assert(crate::select::any_in(lows[i], words));
            assert(all[all.len() - 1] == shown_line(ls[i]));
        } else {
            lemma_hits(front, lows, words, i);
            assert(front[i] == ls[i]);
            let j = choose|j: int| 0 <= j < before.len() && before[j] == shown_line(ls[i]);
            assert(all[j] == shown_line(ls[i]));
        }
    }
}

/// Law: a line without any of the words is not among those shown: each line
/// shown comes from one in which a word stands.
pub proof fn law_no_line_without_a_word(ls: Seq<Seq<char>>, lows: Seq<Seq<char>>, words: Seq<Seq<char>>, k: int)
    requires
        ls.len() <= lows.len(),
        0 <= k < hits(ls, lows, words).len(),
    ensures
        exists|i: int|
            0 <= i < ls.len() && hits(ls, lows, words)[k] == shown_line(#[trigger] ls[i]) && exists|w: int|
                0 <= w < words.len() && contains(lows[i], #[trigger] words[w]),
    decreases ls.len(),
{
    if ls.len() > 0 {
        let front = ls.drop_last();
        let (all, before) = (hits(ls, lows, words), hits(front, lows, words));
        if k < before.len() {
            law_no_line_without_a_word(front, lows, words, k);
            let i = choose|i: int|
                0 <= i < front.len() && before[k] == shown_line(#[trigger] front[i]) && exists|w: int|
                    0 <= w < words.len() && contains(lows[i], #[trigger] words[w]);
            assert(ls[i] == front[i]);
            assert(all[k] == before[k]);
        } else {
            let i = ls.len() - 1;
            assert(all[k] == shown_line(ls[i]));
        }
    }
}

// ------------------------------------------------------------- by id

/// The positions of the cards to keep come by id, each once, and all of them.
pub proof fn lemma_numbering(cards: Seq<CardView>, keep: Seq<bool>)
    requires
        keep.len() == cards.len(),
        cards.len() <= usize::MAX,
    ensures
        ({
            let out = numbering(cards, keep);
            &&& out.no_duplicates()
            &&& forall|k: int| 0 <= k < out.len() ==> (#[trigger] out[k]) < cards.len() && keep[out[k] as int]
            &&& forall|i: int| 0 <= i < cards.len() && #[trigger] keep[i] ==> out.contains(i as usize)
            &&& forall|a: int, b: int|
                0 <= a < b < out.len() ==> cards[#[trigger] out[a] as int].id <= cards[#[trigger] out[b] as int].id
        }),
{
    let keys = id_keys(cards);
    let order = sorted_order(keys, Texts::Ascending);
    lemma_order_exists(keys, Texts::Ascending);
    lemma_covers(order, cards.len() as int);
    lemma_kept(order, keep);
    crate::select::lemma_kept_in_order(keys, Texts::Ascending, order, keep);
    let out = numbering(cards, keep);
    assert forall|k: int| 0 <= k < out.len() implies (#[trigger] out[k]) < cards.len() && keep[out[k] as int] by {
        assert(order.contains(out[k]));
    }
    assert forall|i: int| 0 <= i < cards.len() && #[trigger] keep[i] implies out.contains(i as usize) by {
        assert(order.contains(i as usize));
        assert(keep[(i as usize) as int]);
    }
    assert forall|a: int, b: int| 0 <= a < b < out.len() implies cards[#[trigger] out[a] as int].id <= cards[
        #[trigger] out[b] as int].id by {
        assert(comes_before(keys, Texts::Ascending, out[a] as int, out[b] as int));
        assert(out[a] < cards.len() && out[b] < cards.len());
    }
}

/// Law: conditions select the cards of the scope of which each of them
/// holds, all of those, lowest id first.
pub proof fn law_where_selects_what_holds(
    cards: Seq<CardView>,
    projects: Seq<ProjectView>,
    scope: Scope,
    conds: Seq<ConditionView>,
    i: int,
)
    requires
        0 <= i < cards.len() <= usize::MAX,
    ensures
        ({
            let out = numbering(cards, cards.map_values(|c: CardView| selected(projects, scope, conds, c)));
            let c = cards[i];
            &&& out.contains(i as usize) <==> in_reach(projects, scope, c) && forall|k: int|
                0 <= k < conds.len() ==> holds_of(#[trigger] conds[k], c)
            &&& out.no_duplicates()
            &&& forall|a: int, b: int|
                0 <= a < b < out.len() ==> cards[#[trigger] out[a] as int].id <= cards[#[trigger] out[b] as int].id
        }),
{
    let keep = cards.map_values(|c: CardView| selected(projects, scope, conds, c));
    lemma_numbering(cards, keep);
    let out = numbering(cards, keep);
    lemma_asked(projects, scope, None, cards[i]);
    if out.contains(i as usize) {
        let k = choose|k: int| 0 <= k < out.len() && out[k] == i as usize;
        assert(keep[out[k] as int]);
    }
    assert(keep[i] == selected(projects, scope, conds, cards[i]));
}

/// Law: a condition on a number compares the field it names by the sign it
/// was given with.
pub proof fn law_number_conditions(c: CardView, n: i64)
    ensures
        holds_of(ConditionView::Number(NumberField::Priority, Relation::Below, n), c) <==> c.priority < n,
        holds_of(ConditionView::Number(NumberField::Priority, Relation::Above, n), c) <==> c.priority > n,
        holds_of(ConditionView::Number(NumberField::Priority, Relation::AtMost, n), c) <==> c.priority <= n,
        holds_of(ConditionView::Number(NumberField::Priority, Relation::AtLeast, n), c) <==> c.priority >= n,
        holds_of(ConditionView::Number(NumberField::Priority, Relation::Equals, n), c) <==> c.priority == n,
        holds_of(ConditionView::Number(NumberField::Priority, Relation::Differs, n), c) <==> c.priority != n,
        holds_of(ConditionView::Number(NumberField::Id, Relation::Below, n), c) <==> c.id < n,
        holds_of(ConditionView::Number(NumberField::Id, Relation::Above, n), c) <==> c.id > n,
        holds_of(ConditionView::Number(NumberField::Id, Relation::AtMost, n), c) <==> c.id <= n,
        holds_of(ConditionView::Number(NumberField::Id, Relation::AtLeast, n), c) <==> c.id >= n,
        holds_of(ConditionView::Number(NumberField::Id, Relation::Equals, n), c) <==> c.id == n,
        holds_of(ConditionView::Number(NumberField::Id, Relation::Differs, n), c) <==> c.id != n,
{
}

/// Law: a condition on a text holds of the cards whose field is that text,
/// and the opposite one of all others; so with a tag and a project.
pub proof fn law_text_conditions(c: CardView, t: Seq<char>, p: i64)
    ensures
        holds_of(ConditionView::Text(TextField::Status, true, t), c) <==> status_name(c.status) == t,
        holds_of(ConditionView::Text(TextField::ClaimedBy, true, t), c) <==> c.claimed_by == t,
        holds_of(ConditionView::Text(TextField::Title, true, t), c) <==> c.title == t,
        holds_of(ConditionView::Text(TextField::Outcome, true, t), c) <==> c.outcome == t,
        crate::tags::is_tag(t) ==> (holds_of(ConditionView::Tag(true, t), c) <==> tags(c.label).contains(t)),
        holds_of(ConditionView::Project(true, p), c) <==> c.project_id == p,
        forall|f: TextField| #[trigger]
            holds_of(ConditionView::Text(f, false, t), c) != holds_of(ConditionView::Text(f, true, t), c),
        holds_of(ConditionView::Tag(false, t), c) != holds_of(ConditionView::Tag(true, t), c),
        holds_of(ConditionView::Project(false, p), c) != holds_of(ConditionView::Project(true, p), c),
{
}

/// Law: the claims a reap takes back are those that are stale and in the
/// scope, all of them, lowest id first.
pub proof fn law_reap_order(
    b: crate::backlog::BacklogView,
    scope: Scope,
    cutoff: Seq<char>,
    i: int,
)
    requires
        0 <= i < b.cards.len() <= usize::MAX,
    ensures
        ({
            let out = doomed_order(b, scope, cutoff);
            let c = b.cards[i];
            &&& out.contains(i as usize) <==> in_reach(b.projects, scope, c) && c.status == Status::InProgress
                && c.claimed_at.len() > 0 && !text_before(cutoff, c.claimed_at)
            &&& out.no_duplicates()
            &&& forall|x: int, y: int|
                0 <= x < y < out.len() ==> b.cards[#[trigger] out[x] as int].id <= b.cards[#[trigger] out[y] as int].id
        }),
{
    let keep = doomed_flags(b, scope, cutoff);
    lemma_numbering(b.cards, keep);
    let out = doomed_order(b, scope, cutoff);
    lemma_asked(b.projects, scope, None, b.cards[i]);
    if out.contains(i as usize) {
        let k = choose|k: int| 0 <= k < out.len() && out[k] == i as usize;
        assert(keep[out[k] as int]);
    }
    assert(keep[i] == crate::sweep::doomed(b.projects, scope, cutoff, b.cards[i]));
}

} // verus!
