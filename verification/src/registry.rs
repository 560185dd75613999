//! The projects of a backlog: registered, parked and removed; and the cards
//! of databases from before there were projects and tags.

use vstd::prelude::*;

use crate::backlog::{lemma_in_place_sound, sound, Backlog, BacklogView};
use crate::card::{card_views, has_card, in_range, lemma_position, position, Card, CardView};
use crate::filing::{deleted_in, lemma_deleted_sound};
use crate::notes::opt_text;
use crate::project::{
    add_refusal, by_id, by_path, check_add, lemma_added_sound, lemma_first, lemma_first_is, looked_up, name_for,
    new_project, projects_sound, require, with_id, with_path, Project, ProjectView,
};
use crate::refusal::{Refusal, RefusalView};
use crate::select::{id_keys, lemma_kept, numbered, numbering};
use crate::status::Status;
use crate::tags::{normal, normalize_tags};
use crate::text::copy;

verus! {

// ------------------------------------------------------------- registering

/// Why a directory is not registered.
pub open spec fn register_refusal(
    b: BacklogView,
    path: Seq<char>,
    is_dir: bool,
    name: Option<Seq<char>>,
) -> Option<RefusalView> {
    if add_refusal(b.projects, path, is_dir, name) is Some {
        add_refusal(b.projects, path, is_dir, name)
    } else if b.last_project == i64::MAX {
        Some(RefusalView::StoreFull)
    } else {
        None
    }
}

/// The store once a directory is registered.
pub open spec fn registered_in(b: BacklogView, path: Seq<char>, name: Option<Seq<char>>, now: Seq<char>) -> BacklogView {
    let id = (b.last_project + 1) as i64;
    BacklogView { last_project: id, projects: b.projects.push(new_project(id, path, name, now)), ..b }
}

/// The store with one project changed.
pub open spec fn with_project(b: BacklogView, at: int, p: ProjectView) -> BacklogView {
    BacklogView { projects: b.projects.update(at, p), ..b }
}

proof fn lemma_with_project_sound(b: BacklogView, at: int, p: ProjectView)
    requires
        sound(b),
        0 <= at < b.projects.len(),
        p.id == b.projects[at].id,
        p.name == b.projects[at].name,
        p.path == b.projects[at].path,
    ensures
        sound(with_project(b, at, p)),
{
    let q = b.projects.update(at, p);
    assert forall|i: int, j: int| 0 <= i < j < q.len() implies (#[trigger] q[i]).id != (#[trigger] q[j]).id && q[i].name
        != q[j].name && q[i].path != q[j].path by {
        assert(b.projects[i].id != b.projects[j].id);
    }
    assert forall|i: int| 0 <= i < q.len() implies 0 < (#[trigger] q[i]).id <= b.last_project by {
        assert(0 < b.projects[i].id <= b.last_project);
    }
}

impl Backlog {
    /// Registers a directory as a project. The name defaults to the
    /// directory's own. Gives the new project's id.
    pub fn add_project(&mut self, path: &str, is_dir: bool, name: Option<&str>, now: &str) -> (r: Result<i64, Refusal>)
        ensures
            match r {
                Ok(id) => register_refusal(old(self)@, path@, is_dir, opt_text(name)) is None && id
                    == old(self)@.last_project + 1 && final(self)@ == registered_in(
                    old(self)@,
                    path@,
                    opt_text(name),
                    now@,
                ),
                Err(e) => register_refusal(old(self)@, path@, is_dir, opt_text(name)) == Some(e@) && final(self)@
                    == old(self)@,
            },
            sound(old(self)@) ==> sound(final(self)@),
            final(self)@.cards == old(self)@.cards,
    {
        let ghost before = self@;
        match check_add(&self.projects, path, is_dir, name) {
            Ok(()) => {},
            Err(e) => {
                return Err(e);
            },
        }
        if self.last_project == i64::MAX {
            return Err(Refusal::StoreFull);
        }
        let id: i64 = self.last_project + 1;
        let p = Project {
            id,
            name: name_for(path, name),
            path: copy(path),
            active: true,
            autoexport: String::new(),
            created_at: copy(now),
        };
        assert(p@ =~= new_project(id, path@, opt_text(name), now@));
        self.projects.push(p);
        self.last_project = id;
        assert(self@.projects =~= before.projects.push(p@));
        assert(self@ =~= registered_in(before, path@, opt_text(name), now@));
        proof {
            if sound(before) {
                lemma_added_sound(before.projects, before.last_project, path@, is_dir, opt_text(name), now@);
            }
        }
        Ok(id)
    }

    /// Lets reads across projects pick a project up again, or parks it.
    /// Gives its position.
    pub fn set_active(&mut self, key: &str, active: bool) -> (r: Result<usize, Refusal>)
        ensures
            ({
                let b = old(self)@;
                let at = looked_up(b.projects, key@);
                match r {
                    Ok(k) => k == at && k < b.projects.len() && final(self)@ == with_project(
                        b,
                        at,
                        ProjectView { active, ..b.projects[at] },
                    ),
                    Err(e) => at < 0 && e@ == RefusalView::NoProject(key@) && final(self)@ == b,
                }
            }),
            sound(old(self)@) ==> sound(final(self)@),
    {
        let ghost before = self@;
        let at: usize = match require(&self.projects, key) {
            Ok(at) => at,
            Err(e) => {
                return Err(e);
            },
        };
        let mut p = self.projects[at].clone();
        assert(before.projects[at as int] == p@);
        p.active = active;
        self.projects.set(at, p);
        proof {
            let q = ProjectView { active, ..before.projects[at as int] };
            assert(p@ =~= q);
            assert(self@.projects =~= before.projects.update(at as int, q));
            assert(self@ =~= with_project(before, at as int, q));
            if sound(before) {
                lemma_with_project_sound(before, at as int, q);
            }
        }
        Ok(at)
    }

    /// Sets the page kept in sync for a project, where there is one with
    /// this id.
    pub fn set_autoexport(&mut self, id: i64, target: &str)
        ensures
            ({
                let b = old(self)@;
                let at = with_id(b.projects, id);
                final(self)@ == if at >= 0 {
                    with_project(b, at, ProjectView { autoexport: target@, ..b.projects[at] })
                } else {
                    b
                }
            }),
            sound(old(self)@) ==> sound(final(self)@),
    {
        let ghost before = self@;
        match by_id(&self.projects, id) {
            None => {},
            Some(at) => {
                let mut p = self.projects[at].clone();
                assert(before.projects[at as int] == p@);
                p.autoexport = copy(target);
                self.projects.set(at, p);
                proof {
                    let q = ProjectView { autoexport: target@, ..before.projects[at as int] };
                    assert(p@ =~= q);
                    assert(self@.projects =~= before.projects.update(at as int, q));
                    assert(self@ =~= with_project(before, at as int, q));
                    if sound(before) {
                        lemma_with_project_sound(before, at as int, q);
                    }
                }
            },
        }
    }
}

// ------------------------------------------------------------- counting

/// How many cards a project has.
pub open spec fn total_of(cards: Seq<CardView>, project: i64) -> nat
    decreases cards.len(),
{
    if cards.len() == 0 {
        0
    } else {
        total_of(cards.drop_last(), project) + if cards.last().project_id == project {
            1nat
        } else {
            0nat
        }
    }
}

/// How many of them are not done.
pub open spec fn open_of(cards: Seq<CardView>, project: i64) -> nat
    decreases cards.len(),
{
    if cards.len() == 0 {
        0
    } else {
        open_of(cards.drop_last(), project) + if cards.last().project_id == project && cards.last().status
            != Status::Done {
            1nat
        } else {
            0nat
        }
    }
}

/// How many cards a project has.
pub fn card_count(cards: &Vec<Card>, project: i64) -> (n: usize)
    ensures
        n == total_of(card_views(cards@), project),
{
    let ghost cv = card_views(cards@);
    let mut n: usize = 0;
    let mut i: usize = 0;
    while i < cards.len()
        invariant
            i <= cards@.len(),
            cv == card_views(cards@),
            n == total_of(cv.take(i as int), project),
            n <= i,
        decreases cards.len() - i,
    {
        assert(cv.take(i + 1).drop_last() =~= cv.take(i as int));
        assert(cv.take(i + 1).last() == cards@[i as int]@);
        if cards[i].project_id == project {
            n = n + 1;
        }
        i = i + 1;
    }
    assert(cv.take(i as int) =~= cv);
    n
}

/// How many cards of a project are not done.
pub fn open_card_count(cards: &Vec<Card>, project: i64) -> (n: usize)
    ensures
        n == open_of(card_views(cards@), project),
{
    let ghost cv = card_views(cards@);
    let mut n: usize = 0;
    let mut i: usize = 0;
    while i < cards.len()
        invariant
            i <= cards@.len(),
            cv == card_views(cards@),
            n == open_of(cv.take(i as int), project),
            n <= i,
        decreases cards.len() - i,
    {
        assert(cv.take(i + 1).drop_last() =~= cv.take(i as int));
        assert(cv.take(i + 1).last() == cards@[i as int]@);
        if cards[i].project_id == project && cards[i].status != Status::Done {
            n = n + 1;
        }
        i = i + 1;
    }
    assert(cv.take(i as int) =~= cv);
    n
}

// ------------------------------------------------------------- removing

/// Which cards belong to a project.
pub open spec fn flags_of(cards: Seq<CardView>, project: i64) -> Seq<bool> {
    cards.map_values(|c: CardView| c.project_id == project)
}

/// The ids of a project's cards, lowest first.
pub open spec fn ids_of(cards: Seq<CardView>, project: i64) -> Seq<i64> {
    numbering(cards, flags_of(cards, project)).map_values(|p: usize| cards[p as int].id)
}

/// The store once each of the cards is deleted, one after the other.
pub open spec fn deleted_each(b: BacklogView, ids: Seq<i64>, why: Seq<char>, by: Seq<char>, now: Seq<char>) -> BacklogView
    decreases ids.len(),
{
    if ids.len() == 0 {
        b
    } else {
        let c = deleted_each(b, ids.drop_last(), why, by, now);
        if has_card(c.cards, ids.last()) {
            deleted_in(c, ids.last(), why, by, now)
        } else {
            c
        }
    }
}

/// Why a project is not removed.
pub open spec fn remove_refusal(b: BacklogView, key: Seq<char>, force: bool) -> Option<RefusalView> {
    let at = looked_up(b.projects, key);
    if at < 0 {
        Some(RefusalView::NoProject(key))
    } else if total_of(b.cards, b.projects[at].id) > 0 && !force {
        Some(RefusalView::ProjectHasCards(b.projects[at].name, total_of(b.cards, b.projects[at].id)))
    } else {
        None
    }
}

/// The reason in the log for cards deleted with their project.
pub open spec fn removal_reason(name: Seq<char>) -> Seq<char> {
    "project '"@ + name + "' removed"@
}

/// The store once a project and its cards are gone.
pub open spec fn removed_in(b: BacklogView, at: int, now: Seq<char>) -> BacklogView {
    let p = b.projects[at];
    let c = deleted_each(b, ids_of(b.cards, p.id), removal_reason(p.name), ""@, now);
    BacklogView { projects: c.projects.remove(at), ..c }
}

/// What deleting cards leaves: those that were there and were not named.
pub proof fn lemma_deleted_each(b: BacklogView, ids: Seq<i64>, why: Seq<char>, by: Seq<char>, now: Seq<char>)
    requires
        sound(b),
    ensures
        sound(deleted_each(b, ids, why, by, now)),
        deleted_each(b, ids, why, by, now).projects == b.projects,
        deleted_each(b, ids, why, by, now).last_project == b.last_project,
        forall|i: int|
            0 <= i < deleted_each(b, ids, why, by, now).cards.len() ==> b.cards.contains(
                #[trigger] deleted_each(b, ids, why, by, now).cards[i],
            ) && !ids.contains(deleted_each(b, ids, why, by, now).cards[i].id),
        forall|k: int|
            0 <= k < b.cards.len() && !ids.contains((#[trigger] b.cards[k]).id) ==> deleted_each(
                b,
                ids,
                why,
                by,
                now,
            ).cards.contains(b.cards[k]),
    decreases ids.len(),
{
    if ids.len() == 0 {
        assert forall|i: int| 0 <= i < b.cards.len() implies b.cards.contains(#[trigger] b.cards[i]) by {}
    } else {
        let front = ids.drop_last();
        let x = ids.last();
        lemma_deleted_each(b, front, why, by, now);
        let c = deleted_each(b, front, why, by, now);
        let d = deleted_each(b, ids, why, by, now);
        lemma_position(c.cards, x);
        let at = position(c.cards, x);
        if at >= 0 {
            lemma_deleted_sound(c, x, why, by, now);
        }
        assert forall|i: int| 0 <= i < d.cards.len() implies b.cards.contains(#[trigger] d.cards[i]) && !ids.contains(
            d.cards[i].id,
        ) by {
            let k = if at < 0 || i < at { i } else { i + 1 };
            assert(d.cards[i] == c.cards[k]);
            assert(b.cards.contains(c.cards[k]));
            assert(!front.contains(c.cards[k].id));
            if at >= 0 {
                if k < at {
                    assert(c.cards[k].id != c.cards[at].id);
                } else {
                    assert(c.cards[at].id != c.cards[k].id);
                }
            } else {
                assert(c.cards[k].id != x);
            }
            if ids.contains(d.cards[i].id) {
                let j = choose|j: int| 0 <= j < ids.len() && ids[j] == d.cards[i].id;
                if j < front.len() {
                    assert(front[j] == d.cards[i].id);
                }
            }
        }
        assert forall|k: int| 0 <= k < b.cards.len() && !ids.contains((#[trigger] b.cards[k]).id) implies d.cards.contains(
            b.cards[k],
        ) by {
            if front.contains(b.cards[k].id) {
                let j = choose|j: int| 0 <= j < front.len() && front[j] == b.cards[k].id;
                assert(ids[j] == b.cards[k].id);
            }
            assert(ids[ids.len() - 1] == x);
            let m = choose|m: int| 0 <= m < c.cards.len() && c.cards[m] == b.cards[k];
            if at >= 0 {
                assert(c.cards[at].id == x);
                assert(d.cards[if m < at { m } else { m - 1 }] == c.cards[m]);
            } else {
                assert(d.cards[m] == c.cards[m]);
            }
        }
    }
}

/// A store with one project less is sound.
proof fn lemma_fewer_projects(b: BacklogView, at: int)
    requires
        sound(b),
        0 <= at < b.projects.len(),
    ensures
        sound(BacklogView { projects: b.projects.remove(at), ..b }),
{
    let q = b.projects.remove(at);
    assert forall|i: int, j: int| 0 <= i < j < q.len() implies (#[trigger] q[i]).id != (#[trigger] q[j]).id && q[i].name
        != q[j].name && q[i].path != q[j].path by {
        let x = if i < at { i } else { i + 1 };
        let y = if j < at { j } else { j + 1 };
        assert(q[i] == b.projects[x] && q[j] == b.projects[y]);
        assert(b.projects[x].id != b.projects[y].id);
    }
    assert forall|i: int| 0 <= i < q.len() implies 0 < (#[trigger] q[i]).id <= b.last_project by {
        let x = if i < at { i } else { i + 1 };
        assert(q[i] == b.projects[x]);
    }
}

/// Law: with a project go all of its cards, and no other project's: the
/// cards left are those that were in another project, and all of those.
pub proof fn law_removal_takes_the_projects_cards(b: BacklogView, at: int, now: Seq<char>)
    requires
        sound(b),
        0 <= at < b.projects.len(),
        b.cards.len() <= usize::MAX,
    ensures
        forall|i: int|
            0 <= i < removed_in(b, at, now).cards.len() ==> b.cards.contains(
                #[trigger] removed_in(b, at, now).cards[i],
            ) && removed_in(b, at, now).cards[i].project_id != b.projects[at].id,
        forall|k: int|
            0 <= k < b.cards.len() && (#[trigger] b.cards[k]).project_id != b.projects[at].id ==> removed_in(
                b,
                at,
                now,
            ).cards.contains(b.cards[k]),
        sound(removed_in(b, at, now)),
{
    let p = b.projects[at];
    let ids = ids_of(b.cards, p.id);
    let c = deleted_each(b, ids, removal_reason(p.name), ""@, now);
    lemma_deleted_each(b, ids, removal_reason(p.name), ""@, now);
    lemma_fewer_projects(c, at);
    let flags = flags_of(b.cards, p.id);
    let whole = crate::order::sorted_order(id_keys(b.cards), crate::order::Texts::Ascending);
    crate::order::lemma_order_exists(id_keys(b.cards), crate::order::Texts::Ascending);
    crate::order::lemma_covers(whole, b.cards.len() as int);
    lemma_kept(whole, flags);
    let d = removed_in(b, at, now);
    assert forall|i: int| 0 <= i < d.cards.len() implies b.cards.contains(#[trigger] d.cards[i])
        && d.cards[i].project_id != p.id by {
        assert(b.cards.contains(c.cards[i]));
        let k = choose|k: int| 0 <= k < b.cards.len() && b.cards[k] == c.cards[i];
        if c.cards[i].project_id == p.id {
            assert(flags[k]);
            assert(whole.contains(k as usize));
            let order = numbering(b.cards, flags);
            assert(order.contains(k as usize));
            let j = choose|j: int| 0 <= j < order.len() && order[j] == k as usize;
            assert(ids[j] == b.cards[k].id);
            assert(ids.contains(c.cards[i].id));
        }
    }
    assert forall|k: int| 0 <= k < b.cards.len() && (#[trigger] b.cards[k]).project_id != p.id implies d.cards.contains(
        b.cards[k],
    ) by {
        if ids.contains(b.cards[k].id) {
            let order = numbering(b.cards, flags);
            let j = choose|j: int| 0 <= j < ids.len() && ids[j] == b.cards[k].id;
            let q = order[j] as int;
            assert(whole.contains(order[j]) && flags[q]);
            assert(ids[j] == b.cards[q].id);
            assert(b.cards[q].project_id == p.id);
            if q < k {
                assert(b.cards[q].id != b.cards[k].id);
            } else {
                assert(b.cards[k].id != b.cards[q].id);
            }
        }
    }
}

fn project_ids(cards: &Vec<Card>, project: i64) -> (out: Vec<i64>)
    ensures
        out@ == ids_of(card_views(cards@), project),
{
    let ghost cv = card_views(cards@);
    let ghost flags = flags_of(cv, project);
    let mut keep: Vec<bool> = Vec::new();
    let mut i: usize = 0;
    while i < cards.len()
        invariant
            i <= cards@.len(),
            cv == card_views(cards@),
            flags == flags_of(cv, project),
            keep@ == flags.take(i as int),
        decreases cards.len() - i,
    {
        assert(cv[i as int] == cards@[i as int]@);
        keep.push(cards[i].project_id == project);
        assert(flags.take(i + 1) =~= flags.take(i as int).push(flags[i as int]));
        i = i + 1;
    }
    assert(flags.take(i as int) =~= flags);
    let order = numbered(cards, &keep);
    let ghost wanted = ids_of(cv, project);
    let mut out: Vec<i64> = Vec::new();
    let mut k: usize = 0;
    while k < order.len()
        invariant
            k <= order@.len(),
            cv == card_views(cards@),
            wanted == order@.map_values(|p: usize| cv[p as int].id),
            forall|j: int| 0 <= j < order@.len() ==> (#[trigger] order@[j]) < cards@.len(),
            out@ == wanted.take(k as int),
        decreases order.len() - k,
    {
        assert(order@[k as int] < cards@.len());
        let p: usize = order[k];
        assert(cv[p as int] == cards@[p as int]@);
        out.push(cards[p].id);
        assert(wanted.take(k + 1) =~= wanted.take(k as int).push(wanted[k as int]));
        k = k + 1;
    }
    assert(wanted.take(k as int) =~= wanted);
    out
}

impl Backlog {
    /// Drops a project. While it has cards it is dropped only when forced,
    /// and its cards with it. Gives its name and how many cards it had.
    pub fn remove_project(&mut self, key: &str, force: bool, now: &str) -> (r: Result<(String, usize), Refusal>)
        ensures
            ({
                let b = old(self)@;
                let at = looked_up(b.projects, key@);
                match r {
                    Ok((name, n)) => remove_refusal(b, key@, force) is None && name@ == b.projects[at].name && n
                        == total_of(b.cards, b.projects[at].id) && final(self)@ == removed_in(b, at, now@),
                    Err(e) => remove_refusal(b, key@, force) == Some(e@) && final(self)@ == b,
                }
            }),
            sound(old(self)@) ==> sound(final(self)@),
    {
        let ghost before = self@;
        let at: usize = match require(&self.projects, key) {
            Ok(at) => at,
            Err(e) => {
                return Err(e);
            },
        };
        let ghost p = before.projects[at as int];
        assert(p == self.projects@[at as int]@);
        let pid: i64 = self.projects[at].id;
        let name = self.projects[at].name.clone();
        let total: usize = card_count(&self.cards, pid);
        if total > 0 && !force {
            return Err(Refusal::ProjectHasCards(name, total));
        }
        let ids = project_ids(&self.cards, pid);
        let why = copy("project '").concat(name.as_str()).concat("' removed");
        let mut i: usize = 0;
        assert(ids@.take(0) =~= Seq::<i64>::empty());
        while i < ids.len()
            invariant
                i <= ids@.len(),
                why@ == removal_reason(p.name),
                self@ == deleted_each(before, ids@.take(i as int), removal_reason(p.name), ""@, now@),
                self@.projects == before.projects,
                sound(before) ==> sound(self@),
            decreases ids.len() - i,
        {
            assert(ids@.take(i + 1).drop_last() =~= ids@.take(i as int));
            assert(ids@.take(i + 1).last() == ids@[i as int]);
            let _gone = self.delete(ids[i], why.as_str(), true, "", now);
            i = i + 1;
        }
        assert(ids@.take(i as int) =~= ids@);
        let ghost mid = self@;
        let _dropped = self.projects.remove(at);
        assert(self@.projects =~= mid.projects.remove(at as int));
        assert(self@ =~= removed_in(before, at as int, now@));
        proof {
            if sound(before) {
                lemma_fewer_projects(mid, at as int);
            }
        }
        Ok((name, total))
    }
}

// ------------------------------------------------------------- older databases

/// The card once it belongs to a project.
pub open spec fn assigned(c: CardView, p: ProjectView) -> CardView {
    CardView { project_id: p.id, project: p.name, ..c }
}

/// The store once the cards without a project belong to one, or every card
/// does.
pub open spec fn adopted_by(b: BacklogView, p: ProjectView, every: bool) -> BacklogView {
    BacklogView {
        cards: b.cards.map_values(|c: CardView| if every || c.project_id == 0 { assigned(c, p) } else { c }),
        ..b
    }
}

/// A database is to get a project of its own: it has none, and it is one
/// repository's file, or holds cards that belong to no project.
pub open spec fn wants_project(b: BacklogView, central: bool) -> bool {
    b.projects.len() == 0 && (!central || total_of(b.cards, 0) > 0)
}

/// Why a database is not put in order.
pub open spec fn adopt_refusal(b: BacklogView, dir: Seq<char>, is_dir: bool, central: bool) -> Option<RefusalView> {
    if wants_project(b, central) {
        register_refusal(b, dir, is_dir, None)
    } else if total_of(b.cards, 0) > 0 && b.projects.len() > 1 {
        Some(RefusalView::Unassigned(total_of(b.cards, 0)))
    } else {
        None
    }
}

/// The store once the cards that belonged to no project belong to one: to
/// the only one, or to one made for the directory of the database. What one
/// repository's file holds then all belongs to that one.
pub open spec fn adopted_in(b: BacklogView, dir: Seq<char>, central: bool, now: Seq<char>) -> BacklogView {
    if wants_project(b, central) {
        let c = registered_in(b, dir, None, now);
        adopted_by(c, c.projects[0], !central)
    } else if total_of(b.cards, 0) > 0 {
        adopted_by(b, b.projects[0], false)
    } else {
        b
    }
}

/// No card is without a project.
proof fn lemma_none_unassigned(cards: Seq<CardView>)
    requires
        forall|k: int| 0 <= k < cards.len() ==> (#[trigger] cards[k]).project_id != 0,
    ensures
        total_of(cards, 0) == 0,
    decreases cards.len(),
{
    if cards.len() > 0 {
        let front = cards.drop_last();
        assert forall|k: int| 0 <= k < front.len() implies (#[trigger] front[k]).project_id != 0 by {
            assert(front[k] == cards[k]);
        }
        lemma_none_unassigned(front);
        assert(cards[cards.len() - 1].project_id != 0);
    }
}

/// Law: one repository's file without a project gets one, named after the
/// directory it is in, whether or not it has cards; all of its cards belong
/// to it, and opening the file again changes nothing.
pub proof fn law_one_file_gets_one_project(b: BacklogView, dir: Seq<char>, is_dir: bool, now: Seq<char>, later: Seq<char>)
    requires
        sound(b),
        b.projects.len() == 0,
        adopt_refusal(b, dir, is_dir, false) is None,
    ensures
        ({
            let c = adopted_in(b, dir, false, now);
            &&& c.projects.len() == 1
            &&& c.projects[0] == new_project(c.projects[0].id, dir, None, now)
            &&& c.cards.len() == b.cards.len()
            &&& forall|k: int|
                0 <= k < b.cards.len() ==> #[trigger] c.cards[k] == assigned(b.cards[k], c.projects[0])
            &&& adopt_refusal(c, dir, is_dir, false) is None
            &&& adopted_in(c, dir, false, later) == c
        }),
{
    let c = adopted_in(b, dir, false, now);
    assert(c.projects[0].id > 0);
    lemma_none_unassigned(c.cards);
}

/// Law: once a directory is registered it is found, and is not registered
/// again.
pub proof fn law_registered_is_found(b: BacklogView, path: Seq<char>, is_dir: bool, name: Option<Seq<char>>, now: Seq<char>)
    requires
        register_refusal(b, path, is_dir, name) is None,
    ensures
        ({
            let c = registered_in(b, path, name, now);
            &&& with_path(c.projects, path) == b.projects.len()
            &&& c.projects[with_path(c.projects, path)].path == path
            &&& register_refusal(c, path, is_dir, name) is Some
        }),
{
    let c = registered_in(b, path, name, now);
    let n = b.projects.len() as int;
    let f = |p: ProjectView| p.path == path;
    lemma_first(b.projects, f);
    assert forall|k: int| 0 <= k < n implies !f(#[trigger] c.projects[k]) by {
        assert(c.projects[k] == b.projects[k]);
    }
    lemma_first_is(c.projects, f, n);
}

// ------------------------------------------------------------- beginning

/// Nothing is left to register: one repository's file has a project, or the
/// store has one for this directory.
pub open spec fn begun(b: BacklogView, path: Seq<char>, one_file: bool) -> bool {
    if one_file {
        b.projects.len() > 0
    } else {
        with_path(b.projects, path) >= 0
    }
}

/// Why `bl init` does not register the directory it is about.
pub open spec fn begin_refusal(
    b: BacklogView,
    path: Option<Seq<char>>,
    is_dir: bool,
    one_file: bool,
    name: Option<Seq<char>>,
) -> Option<RefusalView> {
    match path {
        Some(p) => if begun(b, p, one_file) {
            None
        } else {
            register_refusal(b, p, is_dir, name)
        },
        None => None,
    }
}

/// The store once `bl init` has registered the directory it is about.
pub open spec fn begun_in(
    b: BacklogView,
    path: Option<Seq<char>>,
    one_file: bool,
    name: Option<Seq<char>>,
    now: Seq<char>,
) -> BacklogView {
    match path {
        Some(p) => if begun(b, p, one_file) {
            b
        } else {
            registered_in(b, p, name, now)
        },
        None => b,
    }
}

/// What `bl init` finds once the database it opens, in the directory `dir`,
/// is up to date.
pub open spec fn opened_in(b: BacklogView, marker: Option<Seq<char>>, dir: Seq<char>, now: Seq<char>) -> BacklogView {
    adopted_in(tagged(b, marker), dir, true, now)
}

/// No card is left without a project.
proof fn lemma_adopted(b: BacklogView, dir: Seq<char>, is_dir: bool, now: Seq<char>)
    requires
        0 <= b.last_project,
        projects_sound(b.projects, b.last_project),
        adopt_refusal(b, dir, is_dir, true) is None,
    ensures
        total_of(adopted_in(b, dir, true, now).cards, 0) == 0,
{
    let c = adopted_in(b, dir, true, now);
    if wants_project(b, true) || total_of(b.cards, 0) > 0 {
        if !wants_project(b, true) {
            assert(0 < b.projects[0].id);
        }
        lemma_none_unassigned(c.cards);
    }
}

/// Law: `bl init` again changes nothing. It is not refused, whatever is
/// asked to be registered is there, the labels stay as they are, and the
/// store is what the first one left.
pub proof fn law_second_init_changes_nothing(
    b: BacklogView,
    marker: Option<Seq<char>>,
    dir: Seq<char>,
    dir_there: bool,
    path: Option<Seq<char>>,
    is_dir: bool,
    one_file: bool,
    name: Option<Seq<char>>,
    now: Seq<char>,
    later: Seq<char>,
)
    requires
        sound(b),
        adopt_refusal(tagged(b, marker), dir, dir_there, true) is None,
        begin_refusal(opened_in(b, marker, dir, now), path, is_dir, one_file, name) is None,
    ensures
        ({
            let once = begun_in(opened_in(b, marker, dir, now), path, one_file, name, now);
            let mark = Some(marked_as(marker));
            &&& adopt_refusal(tagged(once, mark), dir, dir_there, true) is None
            &&& begin_refusal(opened_in(once, mark, dir, later), path, is_dir, one_file, name) is None
            &&& begun_in(opened_in(once, mark, dir, later), path, one_file, name, later) == once
        }),
{
    let open = opened_in(b, marker, dir, now);
    lemma_adopted(tagged(b, marker), dir, dir_there, now);
    let once = begun_in(open, path, one_file, name, now);
    assert(once.cards == open.cards);
    match path {
        Some(p) => {
            if !begun(open, p, one_file) {
                law_registered_is_found(open, p, is_dir, name, now);
            }
            assert(begun(once, p, one_file));
        },
        None => {},
    }
}

impl Backlog {
    /// Registers the directory that `bl init` is about, where there is one
    /// and it is not registered yet: for one repository's file the directory
    /// it is in, for the store the repository at hand. Tells whether it did.
    pub fn begin(&mut self, path: Option<&str>, is_dir: bool, one_file: bool, name: Option<&str>, now: &str) -> (r: Result<
        bool,
        Refusal,
    >)
        ensures
            ({
                let b = old(self)@;
                match r {
                    Ok(added) => {
                        &&& begin_refusal(b, opt_text(path), is_dir, one_file, opt_text(name)) is None
                        &&& added == (path is Some && !begun(b, path->0@, one_file))
                        &&& final(self)@ == begun_in(b, opt_text(path), one_file, opt_text(name), now@)
                    },
                    Err(e) => begin_refusal(b, opt_text(path), is_dir, one_file, opt_text(name)) == Some(e@)
                        && final(self)@ == b,
                }
            }),
            sound(old(self)@) ==> sound(final(self)@),
    {
        let p = match path {
            Some(p) => p,
            None => {
                return Ok(false);
            },
        };
        assert(self@.projects.len() == self.projects@.len());
        let there = if one_file {
            self.projects.len() > 0
        } else {
            by_path(&self.projects, p).is_some()
        };
        if there {
            return Ok(false);
        }
        match self.add_project(p, is_dir, name, now) {
            Ok(_) => Ok(true),
            Err(e) => Err(e),
        }
    }
}

// ------------------------------------------------------------- labels

/// The store with every label in the form it is kept in.
pub open spec fn relabelled(b: BacklogView) -> BacklogView {
    BacklogView { cards: b.cards.map_values(|c: CardView| CardView { label: normal(c.label), ..c }), ..b }
}

/// The store once its labels are tag lists. A database that is marked has
/// them already.
pub open spec fn tagged(b: BacklogView, marker: Option<Seq<char>>) -> BacklogView {
    if marker is Some {
        b
    } else {
        relabelled(b)
    }
}

/// The mark a database has afterwards.
pub open spec fn marked_as(marker: Option<Seq<char>>) -> Seq<char> {
    match marker {
        Some(m) => m,
        None => "1"@,
    }
}

/// Law: labels are split once. The first opening puts every label in the
/// form it is kept in, changes nothing else, and leaves a mark; whatever the
/// store is when it is opened with that mark, it stays as it is.
pub proof fn law_labels_are_split_once(b: BacklogView, later: BacklogView)
    ensures
        tagged(b, None).cards.len() == b.cards.len(),
        forall|k: int|
            0 <= k < b.cards.len() ==> #[trigger] tagged(b, None).cards[k] == (CardView {
                label: normal(b.cards[k].label),
                ..b.cards[k]
            }),
        tagged(b, None) == (BacklogView { cards: tagged(b, None).cards, ..b }),
        tagged(later, Some(marked_as(None))) == later,
        marked_as(Some(marked_as(None))) == marked_as(None),
{
}

/// Whether the labels of a database with this mark are still to be split.
pub fn splits_labels(marker: Option<&str>) -> (r: bool)
    ensures
        r == (marker is None),
{
    marker.is_none()
}

impl Backlog {
    fn assign_all(&mut self, p: &Project, every: bool)
        ensures
            final(self)@ == adopted_by(old(self)@, p@, every),
            sound(old(self)@) ==> sound(final(self)@),
    {
        let ghost before = self@;
        let ghost wanted = adopted_by(before, p@, every);
        let total: usize = self.cards.len();
        let mut i: usize = 0;
        assert(self@.cards =~= wanted.cards.take(0) + before.cards.skip(0));
        while i < total
            invariant
                i <= total,
                total == before.cards.len(),
                wanted == adopted_by(before, p@, every),
                self@ == (BacklogView { cards: wanted.cards.take(i as int) + before.cards.skip(i as int), ..before }),
            decreases total - i,
        {
            let ghost views = self@.cards;
            assert(views.len() == total);
            assert(self.cards@.len() == total);
            assert(views[i as int] == self.cards@[i as int]@);
            assert(views[i as int] == before.cards[i as int]);
            if every || self.cards[i].project_id == 0 {
                let mut c = self.cards[i].clone();
                c.project_id = p.id;
                c.project = p.name.clone();
                assert(c@ =~= assigned(before.cards[i as int], p@));
                self.cards.set(i, c);
            }
            assert(self@.cards =~= views.update(i as int, wanted.cards[i as int]));
            assert(self@.cards =~= wanted.cards.take(i + 1) + before.cards.skip(i + 1));
            i = i + 1;
        }
        assert(self@.cards =~= wanted.cards);
        assert(self@ =~= wanted);
        proof {
            if sound(before) {
                assert forall|k: int| 0 <= k < self@.cards.len() implies in_range((#[trigger] self@.cards[k]).priority) by {
                    assert(in_range(before.cards[k].priority));
                }
                lemma_in_place_sound(before, self@);
            }
        }
    }

    /// Gives the cards of a database that belong to no project to its one
    /// project, or to a new one named after the directory it sits in. A file
    /// that is not the central store gets that project even where it has no
    /// cards, and gives it all that it has.
    pub fn adopt_unassigned(&mut self, dir: &str, is_dir: bool, central: bool, now: &str) -> (r: Result<(), Refusal>)
        ensures
            match r {
                Ok(()) => adopt_refusal(old(self)@, dir@, is_dir, central) is None && final(self)@ == adopted_in(
                    old(self)@,
                    dir@,
                    central,
                    now@,
                ),
                Err(e) => adopt_refusal(old(self)@, dir@, is_dir, central) == Some(e@) && final(self)@ == old(self)@,
            },
            sound(old(self)@) ==> sound(final(self)@),
    {
        let n: usize = card_count(&self.cards, 0);
        assert(self@.projects.len() == self.projects@.len());
        let bare = self.projects.len() == 0 && (!central || n > 0);
        if bare {
            match self.add_project(dir, is_dir, None, now) {
                Ok(_) => {},
                Err(e) => {
                    return Err(e);
                },
            }
        } else if n == 0 {
            return Ok(());
        } else if self.projects.len() > 1 {
            return Err(Refusal::Unassigned(n));
        }
        assert(self@.projects.len() == self.projects@.len());
        let p = self.projects[0].clone();
        assert(self@.projects[0] == p@);
        self.assign_all(&p, bare && !central);
        Ok(())
    }

    /// Makes tag lists of the labels of a database that is not marked yet.
    /// Gives the mark it has afterwards.
    pub fn split_labels(&mut self, marker: Option<&str>) -> (mark: String)
        ensures
            final(self)@ == tagged(old(self)@, opt_text(marker)),
            mark@ == marked_as(opt_text(marker)),
            sound(old(self)@) ==> sound(final(self)@),
    {
        match marker {
            Some(m) => copy(m),
            None => {
                self.normalize_labels();
                copy("1")
            },
        }
    }

    /// Puts every label in the form it is kept in.
    pub fn normalize_labels(&mut self)
        ensures
            final(self)@ == relabelled(old(self)@),
            sound(old(self)@) ==> sound(final(self)@),
    {
        let ghost before = self@;
        let ghost wanted = relabelled(before);
        let total: usize = self.cards.len();
        let mut i: usize = 0;
        assert(self@.cards =~= wanted.cards.take(0) + before.cards.skip(0));
        while i < total
            invariant
                i <= total,
                total == before.cards.len(),
                wanted == relabelled(before),
                self@ == (BacklogView { cards: wanted.cards.take(i as int) + before.cards.skip(i as int), ..before }),
            decreases total - i,
        {
            let ghost views = self@.cards;
            assert(views.len() == total);
            assert(self.cards@.len() == total);
            assert(views[i as int] == self.cards@[i as int]@);
            assert(views[i as int] == before.cards[i as int]);
            let mut c = self.cards[i].clone();
            c.label = normalize_tags(c.label.as_str());
            assert(c@ =~= wanted.cards[i as int]);
            self.cards.set(i, c);
            assert(self@.cards =~= views.update(i as int, wanted.cards[i as int]));
            assert(self@.cards =~= wanted.cards.take(i + 1) + before.cards.skip(i + 1));
            i = i + 1;
        }
        assert(self@.cards =~= wanted.cards);
        assert(self@ =~= wanted);
        proof {
            if sound(before) {
                assert forall|k: int| 0 <= k < self@.cards.len() implies in_range((#[trigger] self@.cards[k]).priority) by {
                    assert(in_range(before.cards[k].priority));
                }
                lemma_in_place_sound(before, self@);
            }
        }
    }
}

} // verus!
