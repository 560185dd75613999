//! What becomes of notes, links and projects, told by what is there
//! afterwards.

use vstd::prelude::*;

use crate::backlog::{with_card, BacklogView};
use crate::card::{has_card, lemma_position, position, CardView};
use crate::commits::with_commit;
use crate::jot::{
    home_of, jotted, lemma_home_of, lemma_row_stays, new_note, note_refusal, reword_refusal, reworded_in, struck_in,
};
use crate::links::{
    ascending, ends, has_link, in_role, joins, kind_name, law_ascending, link_refusal, other_end, reaches, rels,
    rels_in, without_link, LinkKind, LinkView, RelView, Role,
};
use crate::notes::{already_noted, lemma_row_of, mirror, reconciled, rendered, row_of, NoteView};
use crate::number::dec;
use crate::order::{comes_before, lemma_order_exists, text_before, Texts};
use crate::project::{
    add_refusal, chosen_name, lemma_first, lemma_first_is, listing_keys, listing_order, looked_up, with_name,
    with_path, ProjectView,
};
use crate::registry::{open_of, registered_in, remove_refusal, total_of, with_project};
use crate::relate::{related_in, unrelated_in};
use crate::status::Status;
use crate::text::{blank, trim, trim_end};
use crate::writing::{only_card_changed, tells};

verus! {

// ------------------------------------------------------------- notes

/// Law: a note is taken where it says something and its card is there.
pub proof fn law_when_a_note_is_taken(b: BacklogView, id: i64, text: Seq<char>)
    ensures
        note_refusal(b, id, text) is None <==> !blank(text) && has_card(b.cards, id),
{
}

/// Law: a note that is added is the last row of its card, with its kind, its
/// author, its text, its commit and its time; the rows that were there stay,
/// the mirror tells all of them, and the card is otherwise the card it was.
pub proof fn law_note_is_added(
    b: BacklogView,
    id: i64,
    kind: Seq<char>,
    by: Seq<char>,
    text: Seq<char>,
    commit: Option<(Seq<char>, Seq<char>)>,
    now: Seq<char>,
)
    requires
        has_card(b.cards, id),
    ensures
        ({
            let at = position(b.cards, id);
            let c = b.cards[at];
            let after = with_card(b, at, jotted(c, new_note(kind, by, text, commit, now), commit, now), Seq::empty());
            let d = after.cards[at];
            let n = d.entries.last();
            &&& only_card_changed(b, after, at)
            &&& after.events == b.events
            &&& d.entries.len() > c.entries.len()
            &&& forall|k: int| 0 <= k < c.entries.len() ==> #[trigger] d.entries[k] == c.entries[k]
            &&& n.kind == kind
            &&& n.author == by
            &&& n.body == trim_end(text)
            &&& n.created_at == now
            &&& commit matches Some(pair) ==> n.commit_sha == pair.0 && n.commit_subject == pair.1 && d.commits
                == with_commit(c.commits, pair.0, pair.1)
            &&& commit is None ==> n.commit_sha.len() == 0 && n.commit_subject.len() == 0 && d.commits == c.commits
            &&& d.notes == mirror(d.entries)
            &&& d == (CardView { entries: d.entries, notes: d.notes, commits: d.commits, updated_at: now, ..c })
        }),
{
    let at = position(b.cards, id);
    lemma_position(b.cards, id);
    let c = b.cards[at];
    let after = with_card(b, at, jotted(c, new_note(kind, by, text, commit, now), commit, now), Seq::empty());
    assert(after.events =~= b.events);
}

/// Law: a note counts as there where a row of the card has the same text and
/// the same kind.
pub proof fn law_same_note_is_there(entries: Seq<NoteView>, kind: Seq<char>, body: Seq<char>, k: int)
    ensures
        0 <= k < entries.len() && entries[k].kind == kind && entries[k].body == body ==> already_noted(
            entries,
            kind,
            body,
        ),
        already_noted(entries, kind, body) ==> exists|j: int|
            0 <= j < entries.len() && (#[trigger] entries[j]).kind == kind && entries[j].body == body,
{
}

/// Law: a note that is corrected has the text and the kind given, and keeps
/// what is not given, its author, its commit and its time; every other row
/// and every other card stays, and the log tells each change.
pub proof fn law_note_is_corrected(
    b: BacklogView,
    note_id: i64,
    text: Option<Seq<char>>,
    kind: Option<Seq<char>>,
    by: Seq<char>,
    now: Seq<char>,
)
    requires
        reword_refusal(b, note_id, text, kind) is None,
    ensures
        ({
            let at = home_of(b.cards, note_id);
            let c = b.cards[at];
            let after = reworded_in(b, note_id, text, kind, by, now);
            let d = after.cards[at];
            let k = row_of(c.entries, note_id);
            let was = c.entries[k];
            let is = d.entries[k];
            let log = after.events.skip(b.events.len() as int);
            &&& text is Some || kind is Some
            &&& 0 <= at < b.cards.len()
            &&& 0 <= k < c.entries.len()
            &&& was.id == note_id
            &&& only_card_changed(b, after, at)
            &&& is == (NoteView { body: is.body, kind: is.kind, ..was })
            &&& is.body == if text is Some { text->0 } else { was.body }
            &&& is.kind == if kind is Some { kind->0 } else { was.kind }
            &&& d.entries.len() >= c.entries.len()
            &&& forall|j: int| 0 <= j < c.entries.len() && j != k ==> #[trigger] d.entries[j] == c.entries[j]
            &&& d.notes == mirror(d.entries)
            &&& d == (CardView { entries: d.entries, notes: d.notes, updated_at: now, ..c })
            &&& is.body != was.body ==> log.len() > 0 && tells(log[0], c, "note_edit"@, was.body, is.body, by, now)
            &&& is.kind != was.kind ==> log.len() > 0 && tells(log.last(), c, "note_kind"@, was.kind, is.kind, by, now)
            &&& log.len() == (if is.body != was.body { 1int } else { 0 }) + (if is.kind != was.kind { 1int } else { 0 })
        }),
{
    let at = home_of(b.cards, note_id);
    lemma_home_of(b.cards, note_id);
    let c = b.cards[at];
    lemma_row_of(c.entries, note_id);
    lemma_row_stays(c, note_id);
    let k = row_of(c.entries, note_id);
    let e = reconciled(c);
    assert(e.entries[k] == c.entries[k]);
    let after = reworded_in(b, note_id, text, kind, by, now);
    let more = crate::jot::reword_events(c, c.entries[k], text, kind, by, now);
    assert(after.events.skip(b.events.len() as int) =~= more);
    assert forall|j: int| 0 <= j < c.entries.len() && j != k implies #[trigger] after.cards[at].entries[j] == c.entries[j] by {
        assert(e.entries[j] == c.entries[j]);
    }
}

/// Law: a note that is removed is gone; the rows before it and after it stay
/// in their order, and the log keeps its line.
pub proof fn law_note_is_removed(b: BacklogView, note_id: i64, by: Seq<char>, now: Seq<char>)
    requires
        home_of(b.cards, note_id) >= 0,
    ensures
        ({
            let at = home_of(b.cards, note_id);
            let c = b.cards[at];
            let after = struck_in(b, note_id, by, now);
            let d = after.cards[at];
            let k = row_of(c.entries, note_id);
            let n = b.events.len() as int;
            &&& 0 <= at < b.cards.len()
            &&& 0 <= k < c.entries.len()
            &&& c.entries[k].id == note_id
            &&& only_card_changed(b, after, at)
            &&& d.entries.len() >= c.entries.len() - 1
            &&& forall|j: int| 0 <= j < k ==> #[trigger] d.entries[j] == c.entries[j]
            &&& forall|j: int| k <= j < c.entries.len() - 1 ==> #[trigger] d.entries[j] == c.entries[j + 1]
            &&& d.notes == mirror(d.entries)
            &&& d == (CardView { entries: d.entries, notes: d.notes, updated_at: now, ..c })
            &&& after.events.len() == n + 1
            &&& tells(after.events[n], c, "note_rm"@, rendered(c.entries[k]), ""@, by, now)
        }),
{
    let at = home_of(b.cards, note_id);
    lemma_home_of(b.cards, note_id);
    let c = b.cards[at];
    lemma_row_of(c.entries, note_id);
    lemma_row_stays(c, note_id);
    let k = row_of(c.entries, note_id);
    let e = reconciled(c);
    let d = struck_in(b, note_id, by, now).cards[at];
    assert forall|j: int| 0 <= j < k implies #[trigger] d.entries[j] == c.entries[j] by {
        assert(e.entries[j] == c.entries[j]);
    }
    assert forall|j: int| k <= j < c.entries.len() - 1 implies #[trigger] d.entries[j] == c.entries[j + 1] by {
        assert(e.entries[j + 1] == c.entries[j + 1]);
    }
}

/// Law: a note is found by its id exactly where some card has a row with it.
pub proof fn law_note_is_found_by_its_id(cards: Seq<CardView>, note_id: i64, i: int, k: int)
    requires
        0 <= i < cards.len(),
        0 <= k < cards[i].entries.len(),
        cards[i].entries[k].id == note_id,
    ensures
        home_of(cards, note_id) >= 0,
{
    lemma_home_of(cards, note_id);
    lemma_row_of(cards[i].entries, note_id);
    if home_of(cards, note_id) < 0 {
        assert(row_of(cards[i].entries, note_id) < 0);
        assert(cards[i].entries[k].id != note_id);
    }
}

// ------------------------------------------------------------- links

/// Law: two cards are linked where they are two, both are there, and, for a
/// card to block another, the other does not already hold it up.
pub proof fn law_when_cards_are_linked(cards: Seq<CardView>, links: Seq<LinkView>, from: i64, kind: LinkKind, to: i64)
    ensures
        link_refusal(cards, links, from, kind, to) is None <==> from != to && has_card(cards, from) && has_card(cards, to)
            && (kind == LinkKind::Blocks ==> !reaches(links, to, from)),
{
}

/// Law: a link that is made is there, from the one card to the other, or for
/// related cards from the lower id to the higher; what was there stays, it is
/// not made twice, and a new one is in the log.
pub proof fn law_link_is_made(b: BacklogView, from: i64, kind: LinkKind, to: i64, by: Seq<char>, now: Seq<char>)
    requires
        link_refusal(b.cards, b.links, from, kind, to) is None,
    ensures
        ({
            let after = related_in(b, from, kind, to, by, now);
            let (f, t) = if kind == LinkKind::Related && to < from { (to, from) } else { (from, to) };
            let there = exists|k: int|
                0 <= k < b.links.len() && (#[trigger] b.links[k]).from == f && b.links[k].kind == kind && b.links[k].to == t;
            let n = b.links.len() as int;
            &&& there ==> after == b
            &&& !there ==> {
                &&& after.links.len() == n + 1
                &&& forall|k: int| 0 <= k < n ==> #[trigger] after.links[k] == b.links[k]
                &&& after.links[n] == (LinkView { from: f, kind, to: t, actor: by, created_at: now })
                &&& after.events.len() == b.events.len() + 1
                &&& tells(
                    after.events.last(),
                    b.cards[position(b.cards, f)],
                    "link"@,
                    ""@,
                    kind_name(kind) + " #"@ + dec(t as int),
                    by,
                    now,
                )
            }
            &&& after.cards == b.cards
            &&& after.projects == b.projects
            &&& after.last_id == b.last_id
            &&& forall|k: int| 0 <= k < b.events.len() ==> #[trigger] after.events[k] == b.events[k]
        }),
{
    let (f, t) = ends(kind, from, to);
    lemma_position(b.cards, f);
    if has_link(b.links, f, kind, t) {
        let k = choose|k: int| 0 <= k < b.links.len() && joins(#[trigger] b.links[k], f, kind, t);
        assert(b.links[k].from == f);
    }
    if exists|k: int|
        0 <= k < b.links.len() && (#[trigger] b.links[k]).from == f && b.links[k].kind == kind && b.links[k].to == t {
        let k = choose|k: int|
            0 <= k < b.links.len() && (#[trigger] b.links[k]).from == f && b.links[k].kind == kind && b.links[k].to == t;
        assert(joins(b.links[k], f, kind, t));
    }
}

/// Law: a link that is taken away is gone, and no other is.
pub proof fn law_link_is_taken_away(b: BacklogView, from: i64, kind: LinkKind, to: i64, by: Seq<char>, now: Seq<char>, l: LinkView)
    ensures
        ({
            let after = unrelated_in(b, from, kind, to, by, now);
            let (f, t) = if kind == LinkKind::Related && to < from { (to, from) } else { (from, to) };
            &&& after.links.contains(l) <==> b.links.contains(l) && !(l.from == f && l.kind == kind && l.to == t)
            &&& after.cards == b.cards
            &&& after.projects == b.projects
            &&& after.last_id == b.last_id
            &&& forall|k: int| 0 <= k < b.events.len() ==> #[trigger] after.events[k] == b.events[k]
            &&& b.links.contains(l) && l.from == f && l.kind == kind && l.to == t ==> {
                &&& after.events.len() == b.events.len() + 1
                &&& has_card(b.cards, f) ==> tells(
                    after.events.last(),
                    b.cards[position(b.cards, f)],
                    "unlink"@,
                    kind_name(kind) + " #"@ + dec(t as int),
                    ""@,
                    by,
                    now,
                )
            }
            &&& !has_link(b.links, f, kind, t) ==> after.events == b.events
        }),
{
    let (f, t) = ends(kind, from, to);
    if has_card(b.cards, f) {
        lemma_position(b.cards, f);
    }
    if b.links.contains(l) && l.from == f && l.kind == kind && l.to == t {
        let k = choose|k: int| 0 <= k < b.links.len() && b.links[k] == l;
        assert(joins(b.links[k], f, kind, t));
    }
    lemma_left(b.links, f, kind, t, l);
    if !has_link(b.links, f, kind, t) && b.links.contains(l) {
        let k = choose|k: int| 0 <= k < b.links.len() && b.links[k] == l;
        assert(!joins(b.links[k], f, kind, t));
    }
}

proof fn lemma_left(links: Seq<LinkView>, from: i64, kind: LinkKind, to: i64, l: LinkView)
    ensures
        without_link(links, from, kind, to).contains(l) <==> links.contains(l) && !joins(l, from, kind, to),
    decreases links.len(),
{
    if links.len() > 0 {
        let front = links.drop_last();
        lemma_left(front, from, kind, to, l);
        let (now, before) = (without_link(links, from, kind, to), without_link(front, from, kind, to));
        if now.contains(l) {
            let k = choose|k: int| 0 <= k < now.len() && now[k] == l;
            if k < before.len() {
                assert(before[k] == l);
                assert(before.contains(l));
                let j = choose|j: int| 0 <= j < front.len() && front[j] == l;
                assert(links[j] == l);
            } else {
                assert(links[links.len() - 1] == l);
            }
        }
        if links.contains(l) && !joins(l, from, kind, to) {
            let k = choose|k: int| 0 <= k < links.len() && links[k] == l;
            if k < front.len() {
                assert(front[k] == l);
                let j = choose|j: int| 0 <= j < before.len() && before[j] == l;
                assert(now[j] == l);
            } else {
                assert(now[now.len() - 1] == l);
            }
        }
    }
}

/// The link shows the one card to the other in this role.
pub open spec fn relates(l: LinkView, id: i64, role: Role, other: i64) -> bool {
    &&& role == Role::BlockedBy ==> l.kind == LinkKind::Blocks && l.from == other && l.to == id
    &&& role == Role::Blocks ==> l.kind == LinkKind::Blocks && l.from == id && l.to == other
    &&& role == Role::ChildOf ==> l.kind == LinkKind::ChildOf && l.from == id && l.to == other
    &&& role == Role::ParentOf ==> l.kind == LinkKind::ChildOf && l.from == other && l.to == id
    &&& role == Role::Related ==> l.kind == LinkKind::Related && ((l.from == id && l.to == other) || (l.from == other
        && l.to == id))
}

proof fn lemma_in_role(cards: Seq<CardView>, links: Seq<LinkView>, id: i64, role: Role, other: i64)
    requires
        forall|k: int| 0 <= k < links.len() ==> (#[trigger] links[k]).from != links[k].to,
    ensures
        in_role(cards, links, id, role).contains(other) <==> has_card(cards, other) && exists|k: int|
            0 <= k < links.len() && relates(#[trigger] links[k], id, role, other),
    decreases links.len(),
{
    if links.len() > 0 {
        let front = links.drop_last();
        assert forall|k: int| 0 <= k < front.len() implies (#[trigger] front[k]).from != front[k].to by {
            assert(front[k] == links[k]);
        }
        lemma_in_role(cards, front, id, role, other);
        let (now, before) = (in_role(cards, links, id, role), in_role(cards, front, id, role));
        let last = links[links.len() - 1];
        assert(last.from != last.to);
        if now.contains(other) {
            let k = choose|k: int| 0 <= k < now.len() && now[k] == other;
            if k < before.len() {
                assert(before[k] == other);
                assert(before.contains(other));
                let j = choose|j: int| 0 <= j < front.len() && relates(#[trigger] front[j], id, role, other);
                assert(relates(links[j], id, role, other));
            } else {
                assert(relates(last, id, role, other));
            }
        }
        if has_card(cards, other) && exists|k: int| 0 <= k < links.len() && relates(#[trigger] links[k], id, role, other) {
            let k = choose|k: int| 0 <= k < links.len() && relates(#[trigger] links[k], id, role, other);
            if k < front.len() {
                assert(relates(front[k], id, role, other));
                let j = choose|j: int| 0 <= j < before.len() && before[j] == other;
                assert(now[j] == other);
            } else {
                assert(other_end(last, id, role) == Some(other));
                assert(now[now.len() - 1] == other);
            }
        }
    }
}

/// Law: what is told of a card's relations are the cards linked to it that
/// are there, each in the role the link gives it, with the title and the
/// status it has.
pub proof fn law_relations_are_the_links(cards: Seq<CardView>, links: Seq<LinkView>, id: i64, role: Role, other: i64)
    requires
        forall|k: int| 0 <= k < links.len() ==> (#[trigger] links[k]).from != links[k].to,
    ensures
        (exists|r: RelView| #[trigger] rels(cards, links, id).contains(r) && r.rel == role && r.id == other) <==> has_card(
            cards,
            other,
        ) && exists|k: int| 0 <= k < links.len() && relates(#[trigger] links[k], id, role, other),
        forall|r: RelView| #[trigger]
            rels(cards, links, id).contains(r) && r.rel == role && r.id == other ==> r.title == cards[position(
                cards,
                other,
            )].title && r.status == cards[position(cards, other)].status,
{
    lemma_in_role(cards, links, id, role, other);
    let all = rels(cards, links, id);
    let part = rels_in(cards, links, id, role);
    let ids = in_role(cards, links, id, role);
    let up = ascending(ids);
    law_ascending(ids);
    assert(up.contains(other) <==> ids.contains(other)) by {
        up.to_multiset_ensures();
        ids.to_multiset_ensures();
        assert(up.to_multiset().count(other) == ids.to_multiset().count(other));
    }
    if up.contains(other) {
        let k = choose|k: int| 0 <= k < up.len() && up[k] == other;
        let r = part[k];
        assert(r.rel == role && r.id == other);
        lemma_part_of_rels(cards, links, id, role, k);
        assert(all.contains(r));
    }
    assert forall|r: RelView| #[trigger] all.contains(r) && r.rel == role && r.id == other implies up.contains(other)
        && r.title == cards[position(cards, other)].title && r.status == cards[position(cards, other)].status by {
        let i = choose|i: int| 0 <= i < all.len() && all[i] == r;
        let k = lemma_rel_is_of_its_role(cards, links, id, i);
        assert(part[k] == r);
        assert(up[k] == other);
    }
}

/// A relation in one role is among all relations.
proof fn lemma_part_of_rels(cards: Seq<CardView>, links: Seq<LinkView>, id: i64, role: Role, k: int)
    requires
        0 <= k < rels_in(cards, links, id, role).len(),
    ensures
        rels(cards, links, id).contains(rels_in(cards, links, id, role)[k]),
{
    let a = rels_in(cards, links, id, Role::BlockedBy);
    let b = rels_in(cards, links, id, Role::Blocks);
    let c = rels_in(cards, links, id, Role::ChildOf);
    let d = rels_in(cards, links, id, Role::ParentOf);
    let e = rels_in(cards, links, id, Role::Related);
    let all = rels(cards, links, id);
    let at = match role {
        Role::BlockedBy => k,
        Role::Blocks => a.len() + k,
        Role::ChildOf => a.len() + b.len() + k,
        Role::ParentOf => a.len() + b.len() + c.len() + k,
        Role::Related => a.len() + b.len() + c.len() + d.len() + k,
    };
    assert(all[at] == rels_in(cards, links, id, role)[k]);
}

/// Where a relation stands among those of its role.
proof fn lemma_rel_is_of_its_role(cards: Seq<CardView>, links: Seq<LinkView>, id: i64, i: int) -> (k: int)
    requires
        0 <= i < rels(cards, links, id).len(),
    ensures
        ({
            let r = rels(cards, links, id)[i];
            &&& 0 <= k < rels_in(cards, links, id, r.rel).len()
            &&& rels_in(cards, links, id, r.rel)[k] == r
        }),
{
    let a = rels_in(cards, links, id, Role::BlockedBy);
    let b = rels_in(cards, links, id, Role::Blocks);
    let c = rels_in(cards, links, id, Role::ChildOf);
    let d = rels_in(cards, links, id, Role::ParentOf);
    let e = rels_in(cards, links, id, Role::Related);
    let r = rels(cards, links, id)[i];
    let (i1, i2) = (a.len() as int, (a.len() + b.len()) as int);
    let (i3, i4) = (i2 + c.len(), i2 + c.len() + d.len());
    if i < i1 {
        assert(r == a[i]);
        i
    } else if i < i2 {
        assert(r == b[i - i1]);
        i - i1
    } else if i < i3 {
        assert(r == c[i - i2]);
        i - i2
    } else if i < i4 {
        assert(r == d[i - i3]);
        i - i3
    } else {
        assert(r == e[i - i4]);
        i - i4
    }
}

// ------------------------------------------------------------- projects

/// Law: a directory is registered where it is one, is no project's yet, and
/// its name is free.
pub proof fn law_when_a_directory_is_registered(projects: Seq<ProjectView>, path: Seq<char>, is_dir: bool, name: Option<Seq<char>>)
    ensures
        add_refusal(projects, path, is_dir, name) is None <==> is_dir && forall|k: int|
            0 <= k < projects.len() ==> (#[trigger] projects[k]).path != path && projects[k].name != chosen_name(
                path,
                name,
            ),
        name is Some && !blank(name->0) ==> chosen_name(path, name) == trim(name->0),
        (name is None || blank(name->0)) && crate::path::base_name(path) is Some ==> chosen_name(path, name)
            == crate::path::base_name(path)->0,
        (name is None || blank(name->0)) && crate::path::base_name(path) is None ==> chosen_name(path, name) == "project"@,
{
    let n = chosen_name(path, name);
    lemma_first(projects, |p: ProjectView| p.path == path);
    lemma_first(projects, |p: ProjectView| p.name == n);
    if add_refusal(projects, path, is_dir, name) is Some && is_dir {
        let at = with_path(projects, path);
        if at >= 0 {
            assert(projects[at].path == path);
        } else {
            assert(projects[with_name(projects, n)].name == n);
        }
    }
}

/// Law: a registered directory is an active project of its own, under an id
/// that no project had; the projects and the cards that were there stay.
pub proof fn law_directory_is_registered(b: BacklogView, path: Seq<char>, name: Option<Seq<char>>, now: Seq<char>)
    requires
        b.last_project < i64::MAX,
    ensures
        ({
            let after = registered_in(b, path, name, now);
            let n = b.projects.len() as int;
            let p = after.projects[n];
            &&& after.projects.len() == n + 1
            &&& forall|k: int| 0 <= k < n ==> #[trigger] after.projects[k] == b.projects[k]
            &&& p.id == b.last_project + 1
            &&& after.last_project == p.id
            &&& p.path == path
            &&& p.name == chosen_name(path, name)
            &&& p.active
            &&& p.autoexport.len() == 0
            &&& p.created_at == now
            &&& after.cards == b.cards
            &&& after.links == b.links
            &&& after.events == b.events
            &&& after.last_id == b.last_id
        }),
{
}

/// Law: a change of one project leaves the others, and the cards.
pub proof fn law_project_change_touches_one(b: BacklogView, at: int, p: ProjectView, k: int)
    requires
        0 <= at < b.projects.len(),
        0 <= k < b.projects.len(),
    ensures
        ({
            let after = with_project(b, at, p);
            &&& after.projects.len() == b.projects.len()
            &&& after.projects[k] == if k == at { p } else { b.projects[k] }
            &&& after.cards == b.cards
            &&& after.links == b.links
            &&& after.events == b.events
            &&& after.last_id == b.last_id
            &&& after.last_project == b.last_project
        }),
{
}

/// Law: a project is meant by its name, and where no project has that name by
/// its id; what means none is neither.
pub proof fn law_project_is_meant_by_name_or_id(projects: Seq<ProjectView>, key: Seq<char>, k: int)
    requires
        0 <= k < projects.len(),
        forall|i: int, j: int| 0 <= i < j < projects.len() ==> (#[trigger] projects[i]).name != (#[trigger] projects[j]).name
            && projects[i].id != projects[j].id,
    ensures
        projects[k].name == trim(key) ==> looked_up(projects, key) == k,
        (forall|i: int| 0 <= i < projects.len() ==> (#[trigger] projects[i]).name != trim(key)) && crate::number::signed_value(
            crate::text::strip_start(trim(key), '#'),
        ) == Some(projects[k].id as int) ==> looked_up(projects, key) == k,
        looked_up(projects, key) >= 0 ==> projects[looked_up(projects, key)].name == trim(key)
            || crate::number::signed_value(crate::text::strip_start(trim(key), '#')) == Some(
            projects[looked_up(projects, key)].id as int,
        ),
{
    let t = trim(key);
    let f = |p: ProjectView| p.name == t;
    lemma_first(projects, f);
    if projects[k].name == t {
        assert forall|i: int| 0 <= i < k implies !f(#[trigger] projects[i]) by {
            assert(projects[i].name != projects[k].name);
        }
        lemma_first_is(projects, f, k);
    }
    match crate::number::signed_value(crate::text::strip_start(t, '#')) {
        Some(n) => {
            if i64::MIN <= n <= i64::MAX {
                let id = n as i64;
                let g = |p: ProjectView| p.id == id;
                lemma_first(projects, g);
                if projects[k].id == id {
                    assert forall|i: int| 0 <= i < k implies !g(#[trigger] projects[i]) by {
                        assert(projects[i].id != projects[k].id);
                    }
                    lemma_first_is(projects, g, k);
                }
            }
        },
        None => {},
    }
}

/// Law: projects are listed with the active ones first, each part by name,
/// and each once.
pub proof fn law_projects_are_listed_by_name(projects: Seq<ProjectView>, i: int, j: int)
    requires
        projects.len() <= usize::MAX,
        0 <= i < j < projects.len(),
    ensures
        ({
            let order = listing_order(projects);
            let (p, q) = (projects[order[i] as int], projects[order[j] as int]);
            &&& order.len() == projects.len()
            &&& order[i] < projects.len() && order[j] < projects.len()
            &&& order[i] != order[j]
            &&& q.active ==> p.active
            &&& p.active == q.active ==> !text_before(q.name, p.name)
        }),
{
    let keys = listing_keys(projects);
    let order = listing_order(projects);
    lemma_order_exists(keys, Texts::Ascending);
    let (x, y) = (order[i] as int, order[j] as int);
    assert(order[i] < projects.len() && order[j] < projects.len());
    assert(comes_before(keys, Texts::Ascending, x, y));
    let (a, b) = (projects[x].name, projects[y].name);
    assert(keys[x].text == a && keys[y].text == b);
    if text_before(a, b) && text_before(b, a) {
        crate::order::lemma_text_before_transitive(a, b, a);
    }
    crate::order::lemma_text_before_irreflexive(a);
}

/// Law: the cards of a project are counted, and those of them that are not
/// done.
pub proof fn law_project_cards_are_counted(cards: Seq<CardView>, project: i64)
    ensures
        total_of(cards, project) == cards.filter(|c: CardView| c.project_id == project).len(),
        open_of(cards, project) == cards.filter(
            |c: CardView| c.project_id == project && c.status != Status::Done,
        ).len(),
    decreases cards.len(),
{
    reveal(Seq::filter);
    if cards.len() > 0 {
        law_project_cards_are_counted(cards.drop_last(), project);
    }
}

/// Law: a project without cards is removed, one with cards only when forced.
pub proof fn law_when_a_project_is_removed(b: BacklogView, key: Seq<char>, force: bool)
    ensures
        remove_refusal(b, key, force) is None <==> looked_up(b.projects, key) >= 0 && (force || b.cards.filter(
            |c: CardView| c.project_id == b.projects[looked_up(b.projects, key)].id,
        ).len() == 0),
{
    if looked_up(b.projects, key) >= 0 {
        let id = b.projects[looked_up(b.projects, key)].id;
        law_project_cards_are_counted(b.cards, id);
        assert(b.cards.filter(|c: CardView| c.project_id == id) == b.cards.filter(
            |c: CardView| c.project_id == b.projects[looked_up(b.projects, key)].id,
        )) by {
            lemma_filters_agree(b.cards, id, b.projects, looked_up(b.projects, key));
        }
    }
}

proof fn lemma_filters_agree(cards: Seq<CardView>, id: i64, projects: Seq<ProjectView>, at: int)
    requires
        projects[at].id == id,
    ensures
        cards.filter(|c: CardView| c.project_id == id) == cards.filter(|c: CardView| c.project_id == projects[at].id),
    decreases cards.len(),
{
    reveal(Seq::filter);
    if cards.len() > 0 {
        lemma_filters_agree(cards.drop_last(), id, projects, at);
    }
}

} // verus!
