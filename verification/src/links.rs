//! Relations between cards: `blocks`, `child_of` and `related`.
//!
//! A card with an open blocker is not offered as the next one, so work can be
//! ordered on the board. `child_of` groups cards under another; `related` is a
//! plain cross-reference, stored once, lowest id first.

use vstd::prelude::*;

use crate::card::{card_views, find_card, has_card, position, Card, CardView};
use crate::refusal::{Refusal, RefusalView};
use crate::status::Status;
use crate::text::{copy, same};

verus! {

#[derive(Clone, Copy, Debug, PartialEq, Eq, Structural)]
pub enum LinkKind {
    Blocks,
    ChildOf,
    Related,
}

/// The name a kind of link is stored under.
pub open spec fn kind_name(kind: LinkKind) -> Seq<char> {
    match kind {
        LinkKind::Blocks => "blocks"@,
        LinkKind::ChildOf => "child_of"@,
        LinkKind::Related => "related"@,
    }
}

/// The kind of link with this name.
pub open spec fn named_kind(name: Seq<char>) -> Option<LinkKind> {
    if name == kind_name(LinkKind::Blocks) {
        Some(LinkKind::Blocks)
    } else if name == kind_name(LinkKind::ChildOf) {
        Some(LinkKind::ChildOf)
    } else if name == kind_name(LinkKind::Related) {
        Some(LinkKind::Related)
    } else {
        None
    }
}

/// One relation, `from` to `to`.
#[derive(Debug, PartialEq, Eq)]
pub struct Link {
    pub from: i64,
    pub kind: LinkKind,
    pub to: i64,
    pub actor: String,
    pub created_at: String,
}

/// What a link says.
#[verifier::ext_equal]
pub struct LinkView {
    pub from: i64,
    pub kind: LinkKind,
    pub to: i64,
    pub actor: Seq<char>,
    pub created_at: Seq<char>,
}

impl View for Link {
    type V = LinkView;

    open spec fn view(&self) -> LinkView {
        LinkView {
            from: self.from,
            kind: self.kind,
            to: self.to,
            actor: self.actor@,
            created_at: self.created_at@,
        }
    }
}

impl Clone for Link {
    fn clone(&self) -> (r: Link)
        ensures
            r@ == self@,
    {
        Link {
            from: self.from,
            kind: self.kind,
            to: self.to,
            actor: self.actor.clone(),
            created_at: self.created_at.clone(),
        }
    }
}

/// What each of several links says.
pub open spec fn link_views(v: Seq<Link>) -> Seq<LinkView> {
    v.map_values(|l: Link| l@)
}

// ------------------------------------------------------------- vocabulary

/// The ends of a link in the order they are stored.
pub open spec fn ends(kind: LinkKind, from: i64, to: i64) -> (i64, i64) {
    if kind == LinkKind::Related && from > to {
        (to, from)
    } else {
        (from, to)
    }
}

/// The link joins these two, in this order.
pub open spec fn joins(l: LinkView, from: i64, kind: LinkKind, to: i64) -> bool {
    l.from == from && l.kind == kind && l.to == to
}

/// There is such a link.
pub open spec fn has_link(links: Seq<LinkView>, from: i64, kind: LinkKind, to: i64) -> bool {
    exists|k: int| 0 <= k < links.len() && joins(#[trigger] links[k], from, kind, to)
}

/// `a` blocks `b`.
pub open spec fn blocks(links: Seq<LinkView>, a: i64, b: i64) -> bool {
    has_link(links, a, LinkKind::Blocks, b)
}

/// Each card of the path blocks the one after it.
pub open spec fn path(links: Seq<LinkView>, p: Seq<i64>) -> bool {
    p.len() > 0 && forall|i: int| 0 <= i < p.len() - 1 ==> blocks(links, #[trigger] p[i], p[i + 1])
}

/// `b` is `a`, or waits on `a`, directly or through other cards.
pub open spec fn reaches(links: Seq<LinkView>, a: i64, b: i64) -> bool {
    exists|p: Seq<i64>| #[trigger] path(links, p) && p[0] == a && p.last() == b
}

/// No card waits on itself through others.
pub open spec fn acyclic(links: Seq<LinkView>) -> bool {
    forall|a: i64, b: i64| #[trigger] blocks(links, a, b) ==> !reaches(links, b, a)
}

/// The links without those between these two.
pub open spec fn without_link(links: Seq<LinkView>, from: i64, kind: LinkKind, to: i64) -> Seq<LinkView>
    decreases links.len(),
{
    if links.len() == 0 {
        links
    } else if joins(links.last(), from, kind, to) {
        without_link(links.drop_last(), from, kind, to)
    } else {
        without_link(links.drop_last(), from, kind, to).push(links.last())
    }
}

/// The links that do not touch this card.
pub open spec fn without_card(links: Seq<LinkView>, id: i64) -> Seq<LinkView>
    decreases links.len(),
{
    if links.len() == 0 {
        links
    } else if links.last().from == id || links.last().to == id {
        without_card(links.drop_last(), id)
    } else {
        without_card(links.drop_last(), id).push(links.last())
    }
}

/// Why a link is refused.
pub open spec fn link_refusal(
    cards: Seq<CardView>,
    links: Seq<LinkView>,
    from: i64,
    kind: LinkKind,
    to: i64,
) -> Option<RefusalView> {
    let (f, t) = ends(kind, from, to);
    if from == to {
        Some(RefusalView::SelfLink)
    } else if !has_card(cards, f) {
        Some(RefusalView::NotFound(f))
    } else if !has_card(cards, t) {
        Some(RefusalView::NotFound(t))
    } else if kind == LinkKind::Blocks && reaches(links, t, f) {
        Some(RefusalView::LinkCycle(f, t))
    } else {
        None
    }
}

/// What the links are once this one is made.
pub open spec fn linked(
    links: Seq<LinkView>,
    from: i64,
    kind: LinkKind,
    to: i64,
    by: Seq<char>,
    now: Seq<char>,
) -> Seq<LinkView> {
    let (f, t) = ends(kind, from, to);
    if has_link(links, f, kind, t) {
        links
    } else {
        links.push(LinkView { from: f, kind, to: t, actor: by, created_at: now })
    }
}

/// Something this card waits on is not done.
pub open spec fn held_back(cards: Seq<CardView>, links: Seq<LinkView>, id: i64) -> bool {
    exists|k: int|
        0 <= k < links.len() && (#[trigger] links[k]).kind == LinkKind::Blocks && links[k].to == id && has_card(
            cards,
            links[k].from,
        ) && cards[position(cards, links[k].from)].status != Status::Done
}

/// What holds of the links of a store: none twice, none from a card to
/// itself, `related` lowest first, both ends there, and no card waiting on
/// itself.
pub open spec fn links_sound(cards: Seq<CardView>, links: Seq<LinkView>) -> bool {
    &&& forall|i: int, j: int|
        0 <= i < j < links.len() ==> !joins(#[trigger] links[i], (#[trigger] links[j]).from, links[j].kind, links[j].to)
    &&& forall|i: int| 0 <= i < links.len() ==> link_sound(cards, #[trigger] links[i])
    &&& acyclic(links)
}

pub open spec fn link_sound(cards: Seq<CardView>, l: LinkView) -> bool {
    &&& l.from != l.to
    &&& l.kind == LinkKind::Related ==> l.from < l.to
    &&& has_card(cards, l.from)
    &&& has_card(cards, l.to)
}

// ------------------------------------------------------------- relations of a card

/// How another card relates to one.
#[derive(Clone, Copy, Debug, PartialEq, Eq, Structural)]
pub enum Role {
    BlockedBy,
    Blocks,
    ChildOf,
    ParentOf,
    Related,
}

/// The name of a role.
pub open spec fn role_name(role: Role) -> Seq<char> {
    match role {
        Role::BlockedBy => "blocked_by"@,
        Role::Blocks => "blocks"@,
        Role::ChildOf => "child_of"@,
        Role::ParentOf => "parent_of"@,
        Role::Related => "related"@,
    }
}

/// The words a role gets in text output.
pub open spec fn role_words(role: Role) -> Seq<char> {
    match role {
        Role::BlockedBy => "blocked by"@,
        Role::Blocks => "blocks"@,
        Role::ChildOf => "child of"@,
        Role::ParentOf => "children"@,
        Role::Related => "related"@,
    }
}

/// The card at the other end, where the link gives it this role.
pub open spec fn other_end(l: LinkView, id: i64, role: Role) -> Option<i64> {
    match role {
        Role::BlockedBy => if l.kind == LinkKind::Blocks && l.to == id { Some(l.from) } else { None },
        Role::Blocks => if l.kind == LinkKind::Blocks && l.from == id { Some(l.to) } else { None },
        Role::ChildOf => if l.kind == LinkKind::ChildOf && l.from == id { Some(l.to) } else { None },
        Role::ParentOf => if l.kind == LinkKind::ChildOf && l.to == id { Some(l.from) } else { None },
        Role::Related => if l.kind == LinkKind::Related && l.from == id {
            Some(l.to)
        } else if l.kind == LinkKind::Related && l.to == id {
            Some(l.from)
        } else {
            None
        },
    }
}

/// The cards in this role, as the links name them.
pub open spec fn in_role(cards: Seq<CardView>, links: Seq<LinkView>, id: i64, role: Role) -> Seq<i64>
    decreases links.len(),
{
    if links.len() == 0 {
        Seq::empty()
    } else {
        let before = in_role(cards, links.drop_last(), id, role);
        match other_end(links.last(), id, role) {
            Some(other) => if has_card(cards, other) { before.push(other) } else { before },
            None => before,
        }
    }
}

/// `x` put where it belongs in a list that ascends.
pub open spec fn placed(v: Seq<i64>, x: i64) -> Seq<i64>
    decreases v.len(),
{
    if v.len() == 0 || v.last() <= x {
        v.push(x)
    } else {
        placed(v.drop_last(), x).push(v.last())
    }
}

/// The same numbers, in ascending order.
pub open spec fn ascending(v: Seq<i64>) -> Seq<i64>
    decreases v.len(),
{
    if v.len() == 0 {
        v
    } else {
        placed(ascending(v.drop_last()), v.last())
    }
}

/// One relation as seen from a card.
#[derive(Debug, PartialEq, Eq)]
pub struct Rel {
    pub rel: Role,
    pub id: i64,
    pub title: String,
    pub status: Status,
}

#[verifier::ext_equal]
pub struct RelView {
    pub rel: Role,
    pub id: i64,
    pub title: Seq<char>,
    pub status: Status,
}

impl View for Rel {
    type V = RelView;

    open spec fn view(&self) -> RelView {
        RelView { rel: self.rel, id: self.id, title: self.title@, status: self.status }
    }
}

pub open spec fn rel_views(v: Seq<Rel>) -> Seq<RelView> {
    v.map_values(|r: Rel| r@)
}

/// What is said of another card.
pub open spec fn rel_of(cards: Seq<CardView>, role: Role, other: i64) -> RelView {
    let c = cards[position(cards, other)];
    RelView { rel: role, id: other, title: c.title, status: c.status }
}

/// The relations in one role, lowest id first.
pub open spec fn rels_in(cards: Seq<CardView>, links: Seq<LinkView>, id: i64, role: Role) -> Seq<RelView> {
    ascending(in_role(cards, links, id, role)).map_values(|other: i64| rel_of(cards, role, other))
}

/// Everything linked to a card: what it waits on, what waits on it, its
/// parent, its children, then related cards.
pub open spec fn rels(cards: Seq<CardView>, links: Seq<LinkView>, id: i64) -> Seq<RelView> {
    rels_in(cards, links, id, Role::BlockedBy) + rels_in(cards, links, id, Role::Blocks) + rels_in(
        cards,
        links,
        id,
        Role::ChildOf,
    ) + rels_in(cards, links, id, Role::ParentOf) + rels_in(cards, links, id, Role::Related)
}

// ------------------------------------------------------------- facts

/// A path, and one step more.
proof fn lemma_step(links: Seq<LinkView>, a: i64, b: i64, c: i64)
    requires
        reaches(links, a, b),
        blocks(links, b, c),
    ensures
        reaches(links, a, c),
{
    let p = choose|p: Seq<i64>| #[trigger] path(links, p) && p[0] == a && p.last() == b;
    let q = p.push(c);
    assert forall|i: int| 0 <= i < q.len() - 1 implies blocks(links, #[trigger] q[i], q[i + 1]) by {
        if i < p.len() - 1 {
            assert(q[i] == p[i] && q[i + 1] == p[i + 1]);
            assert(blocks(links, p[i], p[i + 1]));
        }
    }
    assert(path(links, q));
    assert(q[0] == a && q.last() == c);
}

/// Everything reaches itself.
proof fn lemma_reaches_self(links: Seq<LinkView>, a: i64)
    ensures
        reaches(links, a, a),
{
    let p = seq![a];
    assert(path(links, p));
    assert(p[0] == a && p.last() == a);
}

/// The front of a path is a path.
proof fn lemma_front(links: Seq<LinkView>, p: Seq<i64>)
    requires
        path(links, p),
        p.len() > 1,
    ensures
        path(links, p.drop_last()),
        p.drop_last()[0] == p[0],
        blocks(links, p[p.len() - 2], p.last()),
{
    let q = p.drop_last();
    assert forall|i: int| 0 <= i < q.len() - 1 implies blocks(links, #[trigger] q[i], q[i + 1]) by {
        assert(blocks(links, p[i], p[i + 1]));
    }
    assert(blocks(links, p[p.len() - 2], p[p.len() - 2 + 1]));
}

/// Two paths end to end.
proof fn lemma_through(links: Seq<LinkView>, a: i64, p: Seq<i64>)
    requires
        path(links, p),
        reaches(links, a, p[0]),
    ensures
        reaches(links, a, p.last()),
    decreases p.len(),
{
    if p.len() > 1 {
        lemma_front(links, p);
        lemma_through(links, a, p.drop_last());
        assert(p.drop_last().last() == p[p.len() - 2]);
        lemma_step(links, a, p[p.len() - 2], p.last());
    }
}

/// Reaching is transitive.
pub proof fn lemma_reaches_transitive(links: Seq<LinkView>, a: i64, b: i64, c: i64)
    requires
        reaches(links, a, b),
        reaches(links, b, c),
    ensures
        reaches(links, a, c),
{
    let p = choose|p: Seq<i64>| #[trigger] path(links, p) && p[0] == b && p.last() == c;
    lemma_through(links, a, p);
}

/// Fewer links reach no further.
proof fn lemma_fewer_links(few: Seq<LinkView>, many: Seq<LinkView>, a: i64, b: i64)
    requires
        forall|x: i64, y: i64| #[trigger] blocks(few, x, y) ==> blocks(many, x, y),
        reaches(few, a, b),
    ensures
        reaches(many, a, b),
{
    let p = choose|p: Seq<i64>| #[trigger] path(few, p) && p[0] == a && p.last() == b;
    assert forall|i: int| 0 <= i < p.len() - 1 implies blocks(many, #[trigger] p[i], p[i + 1]) by {
        assert(blocks(few, p[i], p[i + 1]));
    }
    assert(path(many, p));
}

/// Taking `blocks` links away closes no loop.
proof fn lemma_fewer_acyclic(few: Seq<LinkView>, many: Seq<LinkView>)
    requires
        acyclic(many),
        forall|x: i64, y: i64| #[trigger] blocks(few, x, y) ==> blocks(many, x, y),
    ensures
        acyclic(few),
{
    assert forall|a: i64, b: i64| #[trigger] blocks(few, a, b) implies !reaches(few, b, a) by {
        assert(blocks(many, a, b));
        if reaches(few, b, a) {
            lemma_fewer_links(few, many, b, a);
        }
    }
}

/// With one `blocks` link more, a path either was there before or leads
/// through the new link.
proof fn lemma_new_path(links: Seq<LinkView>, more: Seq<LinkView>, f: i64, t: i64, p: Seq<i64>)
    requires
        forall|x: i64, y: i64| #[trigger] blocks(more, x, y) ==> blocks(links, x, y) || (x == f && y == t),
        path(more, p),
    ensures
        reaches(links, p[0], p.last()) || (reaches(links, p[0], f) && reaches(links, t, p.last())),
    decreases p.len(),
{
    if p.len() == 1 {
        lemma_reaches_self(links, p[0]);
    } else {
        lemma_front(more, p);
        let q = p.drop_last();
        lemma_new_path(links, more, f, t, q);
        let x = q.last();
        let y = p.last();
        assert(blocks(more, x, y));
        if blocks(links, x, y) {
            if reaches(links, p[0], x) {
                lemma_step(links, p[0], x, y);
            } else {
                lemma_step(links, t, x, y);
            }
        } else {
            lemma_reaches_self(links, t);
            assert(x == f && y == t);
            // either the front reaches the new link's start directly, or it
            // had already gone through it
            if !reaches(links, p[0], x) {
                assert(reaches(links, p[0], f));
            }
        }
    }
}

/// Law: a `blocks` link that is not refused closes no loop, so the cards
/// that wait on one another can always be worked in some order.
pub proof fn law_linking_keeps_acyclic(links: Seq<LinkView>, l: LinkView)
    requires
        acyclic(links),
        l.from != l.to,
        l.kind == LinkKind::Blocks ==> !reaches(links, l.to, l.from),
    ensures
        acyclic(links.push(l)),
{
    let more = links.push(l);
    assert forall|x: i64, y: i64| #[trigger] blocks(more, x, y) implies blocks(links, x, y) || (l.kind
        == LinkKind::Blocks && x == l.from && y == l.to) by {
        let k = choose|k: int| 0 <= k < more.len() && joins(#[trigger] more[k], x, LinkKind::Blocks, y);
        if k < links.len() {
            assert(joins(links[k], x, LinkKind::Blocks, y));
        }
    }
    if l.kind != LinkKind::Blocks {
        lemma_fewer_acyclic(more, links);
    } else {
        let (f, t) = (l.from, l.to);
        assert forall|a: i64, b: i64| #[trigger] blocks(more, a, b) implies !reaches(more, b, a) by {
            if reaches(more, b, a) {
                let p = choose|p: Seq<i64>| #[trigger] path(more, p) && p[0] == b && p.last() == a;
                lemma_new_path(links, more, f, t, p);
                if blocks(links, a, b) {
                    if !reaches(links, b, a) {
                        lemma_step(links, t, a, b);
                        lemma_reaches_transitive(links, t, b, f);
                    }
                } else {
                    assert(a == f && b == t);
                }
            }
        }
    }
}

/// What is left without some links was there before.
pub proof fn lemma_without_link(links: Seq<LinkView>, from: i64, kind: LinkKind, to: i64)
    ensures
        forall|k: int|
            0 <= k < without_link(links, from, kind, to).len() ==> links.contains(
                #[trigger] without_link(links, from, kind, to)[k],
            ) && !joins(without_link(links, from, kind, to)[k], from, kind, to),
        without_link(links, from, kind, to).len() <= links.len(),
        !has_link(links, from, kind, to) ==> without_link(links, from, kind, to) == links,
    decreases links.len(),
{
    if links.len() > 0 {
        let front = links.drop_last();
        lemma_without_link(front, from, kind, to);
        let rest = without_link(links, from, kind, to);
        let short = without_link(front, from, kind, to);
        assert forall|k: int| 0 <= k < rest.len() implies links.contains(#[trigger] rest[k]) && !joins(
            rest[k],
            from,
            kind,
            to,
        ) by {
            if k < short.len() {
                assert(rest[k] == short[k]);
                assert(front.contains(short[k]));
                let j = choose|j: int| 0 <= j < front.len() && front[j] == short[k];
                assert(links[j] == rest[k]);
            } else {
                assert(links[links.len() - 1] == rest[k]);
            }
        }
        if !has_link(links, from, kind, to) {
            assert(!joins(links[links.len() - 1], from, kind, to));
            assert(!has_link(front, from, kind, to)) by {
                if has_link(front, from, kind, to) {
                    let k = choose|k: int| 0 <= k < front.len() && joins(#[trigger] front[k], from, kind, to);
                    assert(joins(links[k], from, kind, to));
                }
            }
            assert(short.push(links.last()) =~= links);
        }
    }
}

/// Law: taking away the link that was just made gives the links back as
/// they were.
pub proof fn law_unlink_undoes_link(
    links: Seq<LinkView>,
    from: i64,
    kind: LinkKind,
    to: i64,
    by: Seq<char>,
    now: Seq<char>,
)
    requires
        !has_link(links, ends(kind, from, to).0, kind, ends(kind, from, to).1),
    ensures
        without_link(
            linked(links, from, kind, to, by, now),
            ends(kind, from, to).0,
            kind,
            ends(kind, from, to).1,
        ) == links,
{
    let (f, t) = ends(kind, from, to);
    lemma_without_link(links, f, kind, t);
    assert(linked(links, from, kind, to, by, now).drop_last() =~= links);
}

/// Which links are left keeps their order, and nothing is doubled.
proof fn lemma_without_link_sound(cards: Seq<CardView>, links: Seq<LinkView>, from: i64, kind: LinkKind, to: i64)
    requires
        links_sound(cards, links),
    ensures
        links_sound(cards, without_link(links, from, kind, to)),
    decreases links.len(),
{
    let rest = without_link(links, from, kind, to);
    lemma_without_link(links, from, kind, to);
    lemma_without_link_distinct(links, from, kind, to);
    assert forall|i: int| 0 <= i < rest.len() implies link_sound(cards, #[trigger] rest[i]) by {
        let j = choose|j: int| 0 <= j < links.len() && links[j] == rest[i];
        assert(link_sound(cards, links[j]));
    }
    assert forall|x: i64, y: i64| #[trigger] blocks(rest, x, y) implies blocks(links, x, y) by {
        let k = choose|k: int| 0 <= k < rest.len() && joins(#[trigger] rest[k], x, LinkKind::Blocks, y);
        let j = choose|j: int| 0 <= j < links.len() && links[j] == rest[k];
        assert(joins(links[j], x, LinkKind::Blocks, y));
    }
    lemma_fewer_acyclic(rest, links);
}

pub open spec fn none_twice(links: Seq<LinkView>) -> bool {
    forall|i: int, j: int|
        0 <= i < j < links.len() ==> !joins(#[trigger] links[i], (#[trigger] links[j]).from, links[j].kind, links[j].to)
}

proof fn lemma_without_link_distinct(links: Seq<LinkView>, from: i64, kind: LinkKind, to: i64)
    requires
        none_twice(links),
    ensures
        none_twice(without_link(links, from, kind, to)),
    decreases links.len(),
{
    if links.len() > 0 {
        let front = links.drop_last();
        assert(none_twice(front)) by {
            assert forall|i: int, j: int| 0 <= i < j < front.len() implies !joins(
                #[trigger] front[i],
                (#[trigger] front[j]).from,
                front[j].kind,
                front[j].to,
            ) by {
                assert(!joins(links[i], links[j].from, links[j].kind, links[j].to));
            }
        }
        lemma_without_link_distinct(front, from, kind, to);
        lemma_without_link(front, from, kind, to);
        let short = without_link(front, from, kind, to);
        let rest = without_link(links, from, kind, to);
        assert forall|i: int, j: int| 0 <= i < j < rest.len() implies !joins(
            #[trigger] rest[i],
            (#[trigger] rest[j]).from,
            rest[j].kind,
            rest[j].to,
        ) by {
            assert(rest[i] == short[i]);
            if j < short.len() {
                assert(rest[j] == short[j]);
            } else {
                assert(rest[j] == links[links.len() - 1]);
                assert(front.contains(short[i]));
                let k = choose|k: int| 0 <= k < front.len() && front[k] == short[i];
                assert(links[k] == rest[i]);
            }
        }
    }
}

/// What is left without a card's links was there before, and does not touch
/// the card.
pub proof fn lemma_without_card(links: Seq<LinkView>, id: i64)
    ensures
        forall|k: int|
            0 <= k < without_card(links, id).len() ==> links.contains(#[trigger] without_card(links, id)[k])
                && without_card(links, id)[k].from != id && without_card(links, id)[k].to != id,
        none_twice(links) ==> none_twice(without_card(links, id)),
    decreases links.len(),
{
    if links.len() > 0 {
        let front = links.drop_last();
        lemma_without_card(front, id);
        let rest = without_card(links, id);
        let short = without_card(front, id);
        assert forall|k: int| 0 <= k < rest.len() implies links.contains(#[trigger] rest[k]) && rest[k].from != id
            && rest[k].to != id by {
            if k < short.len() {
                assert(rest[k] == short[k]);
                assert(front.contains(short[k]));
                let j = choose|j: int| 0 <= j < front.len() && front[j] == short[k];
                assert(links[j] == rest[k]);
            } else {
                assert(links[links.len() - 1] == rest[k]);
            }
        }
        if none_twice(links) {
            assert(none_twice(front)) by {
                assert forall|i: int, j: int| 0 <= i < j < front.len() implies !joins(
                    #[trigger] front[i],
                    (#[trigger] front[j]).from,
                    front[j].kind,
                    front[j].to,
                ) by {
                    assert(!joins(links[i], links[j].from, links[j].kind, links[j].to));
                }
            }
            assert forall|i: int, j: int| 0 <= i < j < rest.len() implies !joins(
                #[trigger] rest[i],
                (#[trigger] rest[j]).from,
                rest[j].kind,
                rest[j].to,
            ) by {
                assert(rest[i] == short[i]);
                if j < short.len() {
                    assert(rest[j] == short[j]);
                } else {
                    assert(rest[j] == links[links.len() - 1]);
                    assert(front.contains(short[i]));
                    let k = choose|k: int| 0 <= k < front.len() && front[k] == short[i];
                    assert(links[k] == rest[i]);
                }
            }
        }
    }
}

/// The links stay sound where a card goes together with its links.
pub proof fn lemma_drop_all_sound(cards: Seq<CardView>, fewer: Seq<CardView>, links: Seq<LinkView>, id: i64)
    requires
        links_sound(cards, links),
        forall|x: i64| x != id && #[trigger] has_card(cards, x) ==> has_card(fewer, x),
    ensures
        links_sound(fewer, without_card(links, id)),
{
    let rest = without_card(links, id);
    lemma_without_card(links, id);
    assert(none_twice(links));
    assert forall|i: int| 0 <= i < rest.len() implies link_sound(fewer, #[trigger] rest[i]) by {
        assert(links.contains(rest[i]));
        let j = choose|j: int| 0 <= j < links.len() && links[j] == rest[i];
        assert(link_sound(cards, links[j]));
    }
    assert forall|x: i64, y: i64| #[trigger] blocks(rest, x, y) implies blocks(links, x, y) by {
        let k = choose|k: int| 0 <= k < rest.len() && joins(#[trigger] rest[k], x, LinkKind::Blocks, y);
        assert(links.contains(rest[k]));
        let j = choose|j: int| 0 <= j < links.len() && links[j] == rest[k];
        assert(joins(links[j], x, LinkKind::Blocks, y));
    }
    lemma_fewer_acyclic(rest, links);
}

/// The links stay sound where the same cards are still there.
pub proof fn lemma_same_cards_sound(cards: Seq<CardView>, others: Seq<CardView>, links: Seq<LinkView>)
    requires
        links_sound(cards, links),
        forall|x: i64| #[trigger] has_card(cards, x) ==> has_card(others, x),
    ensures
        links_sound(others, links),
{
    assert forall|i: int| 0 <= i < links.len() implies link_sound(others, #[trigger] links[i]) by {
        assert(link_sound(cards, links[i]));
    }
}

proof fn lemma_linked_sound(
    cards: Seq<CardView>,
    links: Seq<LinkView>,
    from: i64,
    kind: LinkKind,
    to: i64,
    by: Seq<char>,
    now: Seq<char>,
)
    requires
        links_sound(cards, links),
        link_refusal(cards, links, from, kind, to) is None,
    ensures
        links_sound(cards, linked(links, from, kind, to, by, now)),
{
    let (f, t) = ends(kind, from, to);
    if !has_link(links, f, kind, t) {
        let l = LinkView { from: f, kind, to: t, actor: by, created_at: now };
        law_linking_keeps_acyclic(links, l);
        let more = links.push(l);
        assert forall|i: int, j: int| 0 <= i < j < more.len() implies !joins(
            #[trigger] more[i],
            (#[trigger] more[j]).from,
            more[j].kind,
            more[j].to,
        ) by {
            assert(more[i] == links[i]);
            if j < links.len() {
                assert(!joins(links[i], links[j].from, links[j].kind, links[j].to));
            } else {
                assert(!joins(links[i], f, kind, t));
            }
        }
        assert forall|i: int| 0 <= i < more.len() implies link_sound(cards, #[trigger] more[i]) by {
            if i < links.len() {
                assert(link_sound(cards, links[i]));
            }
        }
    }
}

/// Law: the list in ascending order ascends, and holds the same numbers.
pub proof fn law_ascending(v: Seq<i64>)
    ensures
        forall|i: int, j: int| 0 <= i < j < ascending(v).len() ==> ascending(v)[i] <= ascending(v)[j],
        ascending(v).to_multiset() == v.to_multiset(),
    decreases v.len(),
{
    if v.len() > 0 {
        law_ascending(v.drop_last());
        let front = ascending(v.drop_last());
        lemma_placed(front, v.last());
        v.drop_last().to_multiset_ensures();
        assert(v.drop_last().push(v.last()) =~= v);
    }
}

proof fn lemma_placed(v: Seq<i64>, x: i64)
    requires
        forall|i: int, j: int| 0 <= i < j < v.len() ==> v[i] <= v[j],
    ensures
        forall|i: int, j: int| 0 <= i < j < placed(v, x).len() ==> placed(v, x)[i] <= placed(v, x)[j],
        placed(v, x).to_multiset() == v.to_multiset().insert(x),
        placed(v, x).len() == v.len() + 1,
        forall|i: int| 0 <= i < placed(v, x).len() ==> (#[trigger] placed(v, x)[i]) == x || (v.len() > 0
            && placed(v, x)[i] <= v.last()),
    decreases v.len(),
{
    v.to_multiset_ensures();
    if v.len() == 0 || v.last() <= x {
    } else {
        let front = v.drop_last();
        lemma_placed(front, x);
        front.to_multiset_ensures();
        placed(front, x).to_multiset_ensures();
        assert(front.push(v.last()) =~= v);
        assert(placed(v, x).to_multiset() =~= v.to_multiset().insert(x));
        let p = placed(v, x);
        let q = placed(front, x);
        assert forall|i: int| 0 <= i < p.len() implies (#[trigger] p[i]) == x || p[i] <= v.last() by {
            if i < q.len() {
                assert(p[i] == q[i]);
            }
        }
        assert forall|i: int, j: int| 0 <= i < j < p.len() implies p[i] <= p[j] by {
            assert(p[i] == q[i]);
            if j < q.len() {
                assert(p[j] == q[j]);
            } else if q[i] != x {
                assert(q[i] <= front.last());
            }
        }
    }
}

// ------------------------------------------------------------- executable

impl LinkKind {
    pub fn as_str(&self) -> (r: &'static str)
        ensures
            r@ == kind_name(*self),
    {
        match self {
            LinkKind::Blocks => "blocks",
            LinkKind::ChildOf => "child_of",
            LinkKind::Related => "related",
        }
    }
}

/// The kind of link with this name.
pub fn check_kind(kind: &str) -> (r: Result<LinkKind, Refusal>)
    ensures
        match r {
            Ok(k) => named_kind(kind@) == Some(k),
            Err(e) => named_kind(kind@) is None && e@ == RefusalView::UnknownLinkKind(kind@),
        },
{
    if same(kind, "blocks") {
        Ok(LinkKind::Blocks)
    } else if same(kind, "child_of") {
        Ok(LinkKind::ChildOf)
    } else if same(kind, "related") {
        Ok(LinkKind::Related)
    } else {
        Err(Refusal::UnknownLinkKind(copy(kind)))
    }
}

/// The ends of a link in the order they are stored.
pub fn stored_ends(kind: LinkKind, from: i64, to: i64) -> (r: (i64, i64))
    ensures
        r == ends(kind, from, to),
{
    if kind == LinkKind::Related && from > to {
        (to, from)
    } else {
        (from, to)
    }
}

fn holds_link(links: &Vec<Link>, from: i64, kind: LinkKind, to: i64) -> (r: bool)
    ensures
        r == has_link(link_views(links@), from, kind, to),
{
    let ghost all = link_views(links@);
    let mut i: usize = 0;
    while i < links.len()
        invariant
            i <= links@.len(),
            all == link_views(links@),
            forall|k: int| 0 <= k < i ==> !joins(#[trigger] all[k], from, kind, to),
        decreases links.len() - i,
    {
        assert(all[i as int] == links@[i as int]@);
        if links[i].from == from && links[i].kind == kind && links[i].to == to {
            return true;
        }
        i = i + 1;
    }
    false
}

fn holds_id(v: &Vec<i64>, id: i64) -> (r: bool)
    ensures
        r == v@.contains(id),
{
    let mut i: usize = 0;
    while i < v.len()
        invariant
            i <= v@.len(),
            forall|k: int| 0 <= k < i ==> v@[k] != id,
        decreases v.len() - i,
    {
        if v[i] == id {
            return true;
        }
        i = i + 1;
    }
    false
}

/// The `blocks` links, as pairs of ids.
fn block_pairs(links: &Vec<Link>) -> (out: Vec<(i64, i64)>)
    ensures
        forall|a: i64, b: i64| out@.contains((a, b)) <==> #[trigger] blocks(link_views(links@), a, b),
{
    let ghost all = link_views(links@);
    let mut out: Vec<(i64, i64)> = Vec::new();
    let mut i: usize = 0;
    while i < links.len()
        invariant
            i <= links@.len(),
            all == link_views(links@),
            forall|j: int| 0 <= j < out@.len() ==> blocks(all, (#[trigger] out@[j]).0, out@[j].1),
            forall|k: int|
                0 <= k < i && (#[trigger] all[k]).kind == LinkKind::Blocks ==> out@.contains((all[k].from, all[k].to)),
        decreases links.len() - i,
    {
        assert(all[i as int] == links@[i as int]@);
        if links[i].kind == LinkKind::Blocks {
            let ghost before = out@;
            let pair = (links[i].from, links[i].to);
            out.push(pair);
            assert(joins(all[i as int], pair.0, LinkKind::Blocks, pair.1));
            assert(out@[before.len() as int] == pair);
            assert forall|k: int| 0 <= k <= i && (#[trigger] all[k]).kind == LinkKind::Blocks implies out@.contains(
                (all[k].from, all[k].to),
            ) by {
                if k < i {
                    let j = choose|j: int| 0 <= j < before.len() && before[j] == (all[k].from, all[k].to);
                    assert(out@[j] == (all[k].from, all[k].to));
                }
            }
        }
        i = i + 1;
    }
    assert forall|a: i64, b: i64| out@.contains((a, b)) <==> #[trigger] blocks(all, a, b) by {
        if out@.contains((a, b)) {
            let j = choose|j: int| 0 <= j < out@.len() && out@[j] == (a, b);
            assert(blocks(all, out@[j].0, out@[j].1));
        }
        if blocks(all, a, b) {
            let k = choose|k: int| 0 <= k < all.len() && joins(#[trigger] all[k], a, LinkKind::Blocks, b);
            assert(all[k].kind == LinkKind::Blocks);
        }
    }
    out
}

/// A set of cards that holds the start and is closed under `blocks` holds
/// everything the start reaches.
proof fn lemma_closed_holds(links: Seq<LinkView>, seen: Seq<i64>, p: Seq<i64>)
    requires
        path(links, p),
        seen.contains(p[0]),
        forall|a: i64, b: i64| seen.contains(a) && #[trigger] blocks(links, a, b) ==> seen.contains(b),
    ensures
        seen.contains(p.last()),
    decreases p.len(),
{
    if p.len() > 1 {
        lemma_front(links, p);
        lemma_closed_holds(links, seen, p.drop_last());
        assert(blocks(links, p.drop_last().last(), p.last()));
    }
}

/// Would `from` blocking `to` close a loop? True where `to` already blocks
/// `from`, directly or through other cards.
pub fn would_cycle(links: &Vec<Link>, from: i64, to: i64) -> (r: bool)
    ensures
        r == reaches(link_views(links@), to, from),
{
    let ghost all = link_views(links@);
    let mut rest = block_pairs(links);
    let ghost pairs = rest@;
    let mut seen: Vec<i64> = Vec::new();
    seen.push(to);
    proof {
        assert(seen@[0] == to);
        lemma_reaches_self(all, to);
    }
    let mut open = true;
    while open
        invariant
            all == link_views(links@),
            forall|a: i64, b: i64| pairs.contains((a, b)) <==> #[trigger] blocks(all, a, b),
            seen@.contains(to),
            forall|j: int| 0 <= j < seen@.len() ==> reaches(all, to, #[trigger] seen@[j]),
            forall|j: int| 0 <= j < rest@.len() ==> pairs.contains(#[trigger] rest@[j]),
            forall|e: (i64, i64)| #[trigger] pairs.contains(e) ==> rest@.contains(e) || seen@.contains(e.1),
            !open ==> forall|j: int| 0 <= j < rest@.len() ==> !seen@.contains((#[trigger] rest@[j]).0),
        decreases rest@.len(), (if open { 1int } else { 0int }),
    {
        // the first pair left whose start has been seen
        let mut j: usize = 0;
        while j < rest.len() && !holds_id(&seen, rest[j].0)
            invariant
                j <= rest@.len(),
                forall|m: int| 0 <= m < j ==> !seen@.contains((#[trigger] rest@[m]).0),
            decreases rest.len() - j,
        {
            j = j + 1;
        }
        if j == rest.len() {
            open = false;
        } else {
            let ghost before = rest@;
            let ghost old_seen = seen@;
            let pair = rest.remove(j);
            seen.push(pair.1);
            proof {
                assert(pairs.contains(before[j as int]));
                assert(blocks(all, pair.0, pair.1));
                let m = choose|m: int| 0 <= m < old_seen.len() && old_seen[m] == pair.0;
                assert(reaches(all, to, old_seen[m]));
                lemma_step(all, to, pair.0, pair.1);
                assert(seen@[old_seen.len() as int] == pair.1);
                let z = choose|z: int| 0 <= z < old_seen.len() && old_seen[z] == to;
                assert(seen@[z] == to);
                assert forall|x: int| 0 <= x < seen@.len() implies reaches(all, to, #[trigger] seen@[x]) by {
                    if x < old_seen.len() {
                        assert(seen@[x] == old_seen[x]);
                    }
                }
                assert forall|x: int| 0 <= x < rest@.len() implies pairs.contains(#[trigger] rest@[x]) by {
                    assert(rest@[x] == if x < j { before[x] } else { before[x + 1] });
                }
                assert forall|e: (i64, i64)| #[trigger] pairs.contains(e) implies rest@.contains(e) || seen@.contains(
                    e.1,
                ) by {
                    if old_seen.contains(e.1) {
                        let y = choose|y: int| 0 <= y < old_seen.len() && old_seen[y] == e.1;
                        assert(seen@[y] == e.1);
                    } else {
                        let y = choose|y: int| 0 <= y < before.len() && before[y] == e;
                        if y < j {
                            assert(rest@[y] == e);
                        } else if y > j {
                            assert(rest@[y - 1] == e);
                        }
                    }
                }
            }
        }
    }
    let found = holds_id(&seen, from);
    proof {
        if found {
            let j = choose|j: int| 0 <= j < seen@.len() && seen@[j] == from;
            assert(reaches(all, to, seen@[j]));
        }
        if reaches(all, to, from) {
            let p = choose|p: Seq<i64>| #[trigger] path(all, p) && p[0] == to && p.last() == from;
            assert forall|a: i64, b: i64| seen@.contains(a) && #[trigger] blocks(all, a, b) implies seen@.contains(b) by {
                assert(pairs.contains((a, b)));
                if rest@.contains((a, b)) {
                    let j = choose|j: int| 0 <= j < rest@.len() && rest@[j] == (a, b);
                    assert(!seen@.contains(rest@[j].0));
                }
            }
            lemma_closed_holds(all, seen@, p);
        }
    }
    found
}

/// Stores a link. `false` where it is already there.
pub fn add(cards: &Vec<Card>, links: &mut Vec<Link>, from: i64, kind: LinkKind, to: i64, by: &str, now: &str) -> (r:
    Result<bool, Refusal>)
    ensures
        match r {
            Ok(added) => {
                &&& link_refusal(card_views(cards@), link_views(old(links)@), from, kind, to) is None
                &&& added == !has_link(
                    link_views(old(links)@),
                    ends(kind, from, to).0,
                    kind,
                    ends(kind, from, to).1,
                )
                &&& link_views(final(links)@) == linked(link_views(old(links)@), from, kind, to, by@, now@)
            },
            Err(e) => link_refusal(card_views(cards@), link_views(old(links)@), from, kind, to) == Some(e@)
                && final(links)@ == old(links)@,
        },
        links_sound(card_views(cards@), link_views(old(links)@)) ==> links_sound(
            card_views(cards@),
            link_views(final(links)@),
        ),
{
    let ghost before = link_views(links@);
    if from == to {
        return Err(Refusal::SelfLink);
    }
    let (f, t) = stored_ends(kind, from, to);
    if find_card(cards, f).is_none() {
        return Err(Refusal::NotFound(f));
    }
    if find_card(cards, t).is_none() {
        return Err(Refusal::NotFound(t));
    }
    if kind == LinkKind::Blocks && would_cycle(links, f, t) {
        return Err(Refusal::LinkCycle(f, t));
    }
    proof {
        if links_sound(card_views(cards@), before) {
            lemma_linked_sound(card_views(cards@), before, from, kind, to, by@, now@);
        }
    }
    if holds_link(links, f, kind, t) {
        return Ok(false);
    }
    let l = Link { from: f, kind, to: t, actor: copy(by), created_at: copy(now) };
    links.push(l);
    assert(link_views(links@) =~= before.push(l@));
    Ok(true)
}

/// Removes a link. `false` where there was none.
pub fn remove(links: &mut Vec<Link>, from: i64, kind: LinkKind, to: i64) -> (removed: bool)
    ensures
        removed == has_link(link_views(old(links)@), ends(kind, from, to).0, kind, ends(kind, from, to).1),
        link_views(final(links)@) == without_link(
            link_views(old(links)@),
            ends(kind, from, to).0,
            kind,
            ends(kind, from, to).1,
        ),
        forall|cards: Seq<CardView>| #[trigger]
            links_sound(cards, link_views(old(links)@)) ==> links_sound(cards, link_views(final(links)@)),
{
    let ghost all = link_views(links@);
    let (f, t) = stored_ends(kind, from, to);
    let found = holds_link(links, f, kind, t);
    let mut kept: Vec<Link> = Vec::new();
    let mut i: usize = 0;
    assert(link_views(kept@) =~= without_link(all.take(0), f, kind, t));
    while i < links.len()
        invariant
            i <= links@.len(),
            all == link_views(links@),
            link_views(kept@) == without_link(all.take(i as int), f, kind, t),
        decreases links.len() - i,
    {
        assert(all.take(i + 1).drop_last() =~= all.take(i as int));
        assert(all.take(i + 1).last() == links@[i as int]@);
        if !(links[i].from == f && links[i].kind == kind && links[i].to == t) {
            let ghost before = link_views(kept@);
            kept.push(links[i].clone());
            assert(link_views(kept@) =~= before.push(all[i as int]));
        }
        i = i + 1;
    }
    assert(all.take(i as int) =~= all);
    *links = kept;
    proof {
        assert forall|cards: Seq<CardView>| #[trigger] links_sound(cards, all) implies links_sound(
            cards,
            link_views(links@),
        ) by {
            lemma_without_link_sound(cards, all, f, kind, t);
        }
    }
    found
}

/// Drops every link that touches a card.
pub fn drop_all(links: &mut Vec<Link>, id: i64)
    ensures
        link_views(final(links)@) == without_card(link_views(old(links)@), id),
{
    let ghost all = link_views(links@);
    let mut kept: Vec<Link> = Vec::new();
    let mut i: usize = 0;
    assert(link_views(kept@) =~= without_card(all.take(0), id));
    while i < links.len()
        invariant
            i <= links@.len(),
            all == link_views(links@),
            link_views(kept@) == without_card(all.take(i as int), id),
        decreases links.len() - i,
    {
        assert(all.take(i + 1).drop_last() =~= all.take(i as int));
        assert(all.take(i + 1).last() == links@[i as int]@);
        if !(links[i].from == id || links[i].to == id) {
            let ghost before = link_views(kept@);
            kept.push(links[i].clone());
            assert(link_views(kept@) =~= before.push(all[i as int]));
        }
        i = i + 1;
    }
    assert(all.take(i as int) =~= all);
    *links = kept;
}

/// Whether something this card waits on is not done.
pub fn is_held_back(cards: &Vec<Card>, links: &Vec<Link>, id: i64) -> (r: bool)
    ensures
        r == held_back(card_views(cards@), link_views(links@), id),
{
    let ghost all = link_views(links@);
    let ghost cv = card_views(cards@);
    let mut i: usize = 0;
    while i < links.len()
        invariant
            i <= links@.len(),
            all == link_views(links@),
            cv == card_views(cards@),
            forall|k: int|
                0 <= k < i ==> !((#[trigger] all[k]).kind == LinkKind::Blocks && all[k].to == id && has_card(
                    cv,
                    all[k].from,
                ) && cv[position(cv, all[k].from)].status != Status::Done),
        decreases links.len() - i,
    {
        assert(all[i as int] == links@[i as int]@);
        if links[i].kind == LinkKind::Blocks && links[i].to == id {
            match find_card(cards, links[i].from) {
                Some(at) => {
                    assert(cv[at as int] == cards@[at as int]@);
                    if cards[at].status != Status::Done {
                        return true;
                    }
                },
                None => {},
            }
        }
        i = i + 1;
    }
    false
}

impl Role {
    pub fn as_str(&self) -> (r: &'static str)
        ensures
            r@ == role_name(*self),
    {
        match self {
            Role::BlockedBy => "blocked_by",
            Role::Blocks => "blocks",
            Role::ChildOf => "child_of",
            Role::ParentOf => "parent_of",
            Role::Related => "related",
        }
    }
}

/// The words a role gets in text output.
pub fn label(rel: Role) -> (r: &'static str)
    ensures
        r@ == role_words(rel),
{
    match rel {
        Role::BlockedBy => "blocked by",
        Role::Blocks => "blocks",
        Role::ChildOf => "child of",
        Role::ParentOf => "children",
        Role::Related => "related",
    }
}

fn end_of(l: &Link, id: i64, role: Role) -> (r: Option<i64>)
    ensures
        r == other_end(l@, id, role),
{
    match role {
        Role::BlockedBy => if l.kind == LinkKind::Blocks && l.to == id {
            Some(l.from)
        } else {
            None
        },
        Role::Blocks => if l.kind == LinkKind::Blocks && l.from == id {
            Some(l.to)
        } else {
            None
        },
        Role::ChildOf => if l.kind == LinkKind::ChildOf && l.from == id {
            Some(l.to)
        } else {
            None
        },
        Role::ParentOf => if l.kind == LinkKind::ChildOf && l.to == id {
            Some(l.from)
        } else {
            None
        },
        Role::Related => if l.kind == LinkKind::Related && l.from == id {
            Some(l.to)
        } else if l.kind == LinkKind::Related && l.to == id {
            Some(l.from)
        } else {
            None
        },
    }
}

/// Puts `x` where it belongs in a list that ascends.
fn place(v: &mut Vec<i64>, x: i64)
    ensures
        final(v)@ == placed(old(v)@, x),
{
    let ghost start = v@;
    let mut k: usize = v.len();
    assert(start.take(k as int) =~= start);
    assert(placed(start.take(k as int), x) + start.skip(k as int) =~= placed(start, x));
    while k > 0 && v[k - 1] > x
        invariant
            k <= v@.len(),
            v@ == start,
            placed(start.take(k as int), x) + start.skip(k as int) == placed(start, x),
        decreases k,
    {
        assert(start.take(k as int).drop_last() =~= start.take(k - 1));
        assert(start.take(k as int).last() == start[k - 1]);
        assert(placed(start.take(k as int), x) == placed(start.take(k - 1), x).push(start[k - 1]));
        assert(placed(start.take(k - 1), x) + start.skip(k - 1) =~= placed(start.take(k as int), x) + start.skip(
            k as int,
        ));
        k = k - 1;
    }
    if k > 0 {
        assert(start.take(k as int).last() == start[k - 1]);
    }
    v.insert(k, x);
    assert(v@ =~= start.take(k as int).push(x) + start.skip(k as int));
}

fn rels_in_role(cards: &Vec<Card>, links: &Vec<Link>, id: i64, role: Role) -> (out: Vec<Rel>)
    ensures
        rel_views(out@) == rels_in(card_views(cards@), link_views(links@), id, role),
{
    let ghost all = link_views(links@);
    let ghost cv = card_views(cards@);
    let mut ids: Vec<i64> = Vec::new();
    let mut i: usize = 0;
    assert(in_role(cv, all.take(0), id, role) =~= Seq::empty());
    assert(ids@ =~= ascending(in_role(cv, all.take(0), id, role)));
    while i < links.len()
        invariant
            i <= links@.len(),
            all == link_views(links@),
            cv == card_views(cards@),
            ids@ == ascending(in_role(cv, all.take(i as int), id, role)),
        decreases links.len() - i,
    {
        let ghost found = in_role(cv, all.take(i as int), id, role);
        assert(all.take(i + 1).drop_last() =~= all.take(i as int));
        assert(all.take(i + 1).last() == links@[i as int]@);
        match end_of(&links[i], id, role) {
            Some(other) => {
                if find_card(cards, other).is_some() {
                    place(&mut ids, other);
                    assert(found.push(other).drop_last() =~= found);
                }
            },
            None => {},
        }
        i = i + 1;
    }
    assert(all.take(i as int) =~= all);
    proof {
        lemma_in_role(cv, all, id, role);
        law_ascending(in_role(cv, all, id, role));
    }
    let ghost wanted = ids@.map_values(|other: i64| rel_of(cv, role, other));
    let mut out: Vec<Rel> = Vec::new();
    let mut j: usize = 0;
    while j < ids.len()
        invariant
            j <= ids@.len(),
            cv == card_views(cards@),
            wanted == ids@.map_values(|other: i64| rel_of(cv, role, other)),
            forall|k: int| 0 <= k < ids@.len() ==> has_card(cv, #[trigger] ids@[k]),
            rel_views(out@) == wanted.take(j as int),
        decreases ids.len() - j,
    {
        let ghost before = rel_views(out@);
        assert(has_card(cv, ids@[j as int]));
        match find_card(cards, ids[j]) {
            Some(at) => {
                assert(cv[at as int] == cards@[at as int]@);
                let r = Rel { rel: role, id: ids[j], title: cards[at].title.clone(), status: cards[at].status };
                assert(r@ =~= wanted[j as int]);
                out.push(r);
            },
            None => {},
        }
        assert(rel_views(out@) =~= before.push(wanted[j as int]));
        assert(wanted.take(j + 1) =~= wanted.take(j as int).push(wanted[j as int]));
        j = j + 1;
    }
    assert(wanted.take(j as int) =~= wanted);
    out
}

/// Only cards that are there have a role, also once the list is ordered.
proof fn lemma_in_role(cards: Seq<CardView>, links: Seq<LinkView>, id: i64, role: Role)
    ensures
        forall|k: int| 0 <= k < in_role(cards, links, id, role).len() ==> has_card(
            cards,
            #[trigger] in_role(cards, links, id, role)[k],
        ),
        forall|k: int|
            0 <= k < ascending(in_role(cards, links, id, role)).len() ==> has_card(
                cards,
                #[trigger] ascending(in_role(cards, links, id, role))[k],
            ),
    decreases links.len(),
{
    let v = in_role(cards, links, id, role);
    if links.len() > 0 {
        lemma_in_role(cards, links.drop_last(), id, role);
        let before = in_role(cards, links.drop_last(), id, role);
        assert forall|k: int| 0 <= k < v.len() implies has_card(cards, #[trigger] v[k]) by {
            if k < before.len() {
                assert(v[k] == before[k]);
            }
        }
    }
    let w = ascending(v);
    law_ascending(v);
    assert forall|k: int| 0 <= k < w.len() implies has_card(cards, #[trigger] w[k]) by {
        w.to_multiset_ensures();
        v.to_multiset_ensures();
        assert(w.contains(w[k]));
        assert(v.to_multiset().count(w[k]) > 0);
        assert(v.contains(w[k]));
        let j = choose|j: int| 0 <= j < v.len() && v[j] == w[k];
        assert(has_card(cards, v[j]));
    }
}

/// Everything linked to one card, in reading order.
pub fn of(cards: &Vec<Card>, links: &Vec<Link>, id: i64) -> (out: Vec<Rel>)
    ensures
        rel_views(out@) == rels(card_views(cards@), link_views(links@), id),
{
    let mut out = rels_in_role(cards, links, id, Role::BlockedBy);
    let mut more = rels_in_role(cards, links, id, Role::Blocks);
    let ghost (a, b) = (out@, more@);
    out.append(&mut more);
    assert(rel_views(out@) =~= rel_views(a) + rel_views(b));
    let mut more = rels_in_role(cards, links, id, Role::ChildOf);
    let ghost (a, b) = (out@, more@);
    out.append(&mut more);
    assert(rel_views(out@) =~= rel_views(a) + rel_views(b));
    let mut more = rels_in_role(cards, links, id, Role::ParentOf);
    let ghost (a, b) = (out@, more@);
    out.append(&mut more);
    assert(rel_views(out@) =~= rel_views(a) + rel_views(b));
    let mut more = rels_in_role(cards, links, id, Role::Related);
    let ghost (a, b) = (out@, more@);
    out.append(&mut more);
    assert(rel_views(out@) =~= rel_views(a) + rel_views(b));
    out
}

} // verus!
