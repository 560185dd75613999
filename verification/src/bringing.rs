//! What an import brings: each card as its file has it, under a new id in
//! the project it goes to.

use vstd::prelude::*;

use crate::backlog::{sound, BacklogView};
use crate::card::CardView;
use crate::import::{
    came_before, described, import_all, import_refusal, import_run, imported_in, known_target, lemma_all_dealt_with,
    lemma_source_order, left_by_refusal, source_order, source_refusal, still_to_import, target_id, target_in,
    target_project, transplanted, worth, Progress, SourceView,
};
use crate::notes::{adopted, mirror, parsed, rendered, NoteView};
use crate::order::{comes_before, lemma_order_exists, sorted_order, Texts};
use crate::path::base_name;
use crate::project::{looked_up, with_id, with_path, ProjectView};
use crate::select::id_keys;
use crate::text::{blank, lines, nonblank, split, trim, Sep};

verus! {

/// A card says what another does: they differ at most in their ids, their
/// projects, what they were imported from, and the ids of their rows.
pub open spec fn says_the_same(d: CardView, c: CardView) -> bool {
    &&& d.title == c.title
    &&& d.notes == c.notes
    &&& d.label == c.label
    &&& d.status == c.status
    &&& d.priority == c.priority
    &&& d.outcome == c.outcome
    &&& d.claimed_by == c.claimed_by
    &&& d.claimed_at == c.claimed_at
    &&& d.commits == c.commits
    &&& d.created_at == c.created_at
    &&& d.updated_at == c.updated_at
}

/// The rows of one card are those of the other, to be stored anew; where the
/// other has none, they are one for each line of its notes.
pub open spec fn has_the_rows(d: CardView, c: CardView) -> bool {
    let ls = nonblank(lines(c.notes));
    &&& c.entries.len() > 0 ==> {
        &&& d.entries.len() == c.entries.len()
        &&& forall|k: int|
            0 <= k < c.entries.len() ==> #[trigger] d.entries[k] == (NoteView { id: 0, ..c.entries[k] })
    }
    &&& c.entries.len() == 0 ==> {
        &&& d.entries.len() == ls.len()
        &&& forall|k: int| 0 <= k < ls.len() ==> #[trigger] d.entries[k] == parsed(ls[k], c.created_at)
    }
}

/// Law: a card that is imported says what the card it came from does: title,
/// label, status, priority, outcome, claim, commits, notes and times. Only
/// its id, its project and its row ids are new, and it keeps the old id.
pub proof fn law_imported_card_is_its_source(c: CardView, id: i64, p: ProjectView)
    ensures
        ({
            let d = transplanted(c, id, p);
            &&& says_the_same(d, c)
            &&& has_the_rows(d, c)
            &&& d.id == id
            &&& d.project_id == p.id
            &&& d.project == p.name
            &&& d.legacy_id == Some(c.id)
        }),
{
    if c.entries.len() == 0 {
        let none = Seq::<char>::empty();
        let nl = Sep::Char('\n');
        assert(split(none, nl) =~= seq![none]);
        assert(lines(none) =~= Seq::<Seq<char>>::empty());
        assert(nonblank(lines(none)) =~= Seq::<Seq<char>>::empty());
        let e = Seq::<NoteView>::empty();
        assert(e.map_values(|n: NoteView| rendered(n)) =~= Seq::<Seq<char>>::empty());
        assert(mirror(e) =~= none);
        assert(crate::import::fresh_rows(c.entries) =~= e);
        let ls = nonblank(lines(c.notes));
        assert(ls.skip(0) =~= ls);
        let d = transplanted(c, id, p);
        assert(d.entries =~= adopted(ls, c.created_at));
    }
}

/// The card is what a card of the source becomes.
#[verifier::opaque]
pub open spec fn grown_from(d: CardView, c: CardView, id: i64, p: ProjectView) -> bool {
    d == transplanted(c, id, p)
}

/// The project has the card already.
#[verifier::opaque]
pub open spec fn known_in(cards: Seq<CardView>, project: i64, c: CardView) -> bool {
    came_before(cards, project, c)
}

/// One card more, or one skipped.
proof fn lemma_one_brought(u: Progress, known: Seq<CardView>, c: CardView, p: ProjectView)
    requires
        u.b.last_id < i64::MAX || known_in(known, p.id, c),
    ensures
        ({
            let v = crate::import::import_step(u, known, c, p);
            let id = v.b.last_id;
            &&& known_in(known, p.id, c) ==> v.b == u.b && v.imported == u.imported
            &&& !known_in(known, p.id, c) ==> {
                &&& id == u.b.last_id + 1
                &&& v.imported == u.imported.push((c.id, id))
                &&& v.b.cards.len() == u.b.cards.len() + 1
                &&& forall|i: int| 0 <= i < u.b.cards.len() ==> #[trigger] v.b.cards[i] == u.b.cards[i]
                &&& grown_from(v.b.cards[u.b.cards.len() as int], c, id, p)
            }
        }),
{
    reveal(grown_from);
    reveal(known_in);
}

/// How many cards an import has brought so far.
proof fn lemma_counted(b: BacklogView, source: Seq<CardView>, order: Seq<usize>, p: ProjectView)
    requires
        still_to_import(b.cards, p.id, source, order) <= i64::MAX - b.last_id,
    ensures
        ({
            let v = import_all(b, source, order, p);
            &&& v.b.cards.len() == b.cards.len() + v.imported.len()
            &&& v.b.last_id == b.last_id + v.imported.len()
            &&& v.imported.len() == still_to_import(b.cards, p.id, source, order)
            &&& forall|i: int| 0 <= i < b.cards.len() ==> #[trigger] v.b.cards[i] == b.cards[i]
        }),
    decreases order.len(),
{
    if order.len() > 0 {
        let front = order.drop_last();
        let c = source[order.last() as int];
        assert(known_in(b.cards, p.id, c) == came_before(b.cards, p.id, c)) by {
            reveal(known_in);
        }
        lemma_counted(b, source, front, p);
        let u = import_all(b, source, front, p);
        let v = import_all(b, source, order, p);
        lemma_one_brought(u, b.cards, c, p);
        assert forall|i: int| 0 <= i < b.cards.len() implies #[trigger] v.b.cards[i] == b.cards[i] by {
            assert(u.b.cards[i] == b.cards[i]);
        }
    }
}

/// The `j`th card brought grew from a card of the source.
proof fn lemma_brought(b: BacklogView, source: Seq<CardView>, order: Seq<usize>, p: ProjectView, j: int) -> (k: int)
    requires
        still_to_import(b.cards, p.id, source, order) <= i64::MAX - b.last_id,
        0 <= j < import_all(b, source, order, p).imported.len(),
    ensures
        ({
            let v = import_all(b, source, order, p);
            let c = source[order[k] as int];
            &&& 0 <= k < order.len()
            &&& v.imported[j] == (c.id, (b.last_id + 1 + j) as i64)
            &&& grown_from(v.b.cards[b.cards.len() + j], c, v.imported[j].1, p)
            &&& !known_in(b.cards, p.id, c)
        }),
    decreases order.len(),
{
    let front = order.drop_last();
    let c = source[order.last() as int];
    assert(known_in(b.cards, p.id, c) == came_before(b.cards, p.id, c)) by {
        reveal(known_in);
    }
    lemma_counted(b, source, order, p);
    lemma_counted(b, source, front, p);
    let u = import_all(b, source, front, p);
    let v = import_all(b, source, order, p);
    lemma_one_brought(u, b.cards, c, p);
    if j < u.imported.len() {
        let k = lemma_brought(b, source, front, p, j);
        assert(front[k] == order[k]);
        assert(v.imported[j] == u.imported[j]);
        assert(v.b.cards[b.cards.len() + j] == u.b.cards[b.cards.len() + j]);
        k
    } else {
        order.len() - 1
    }
}

/// A card of the source that is not known is brought.
proof fn lemma_is_brought(b: BacklogView, source: Seq<CardView>, order: Seq<usize>, p: ProjectView, k: int) -> (j: int)
    requires
        still_to_import(b.cards, p.id, source, order) <= i64::MAX - b.last_id,
        0 <= k < order.len(),
        !known_in(b.cards, p.id, source[order[k] as int]),
    ensures
        ({
            let v = import_all(b, source, order, p);
            &&& 0 <= j < v.imported.len()
            &&& grown_from(v.b.cards[b.cards.len() + j], source[order[k] as int], v.imported[j].1, p)
        }),
    decreases order.len(),
{
    let front = order.drop_last();
    let c = source[order.last() as int];
    assert(known_in(b.cards, p.id, c) == came_before(b.cards, p.id, c)) by {
        reveal(known_in);
    }
    lemma_counted(b, source, order, p);
    lemma_counted(b, source, front, p);
    let u = import_all(b, source, front, p);
    let v = import_all(b, source, order, p);
    lemma_one_brought(u, b.cards, c, p);
    if k < front.len() {
        assert(front[k] == order[k]);
        let j = lemma_is_brought(b, source, front, p, k);
        assert(v.imported[j] == u.imported[j]);
        assert(v.b.cards[b.cards.len() + j] == u.b.cards[b.cards.len() + j]);
        j
    } else {
        u.imported.len() as int
    }
}

/// Law: every card an import adds says what the card of the source it came
/// from does, belongs to the project the import goes to, and keeps its old
/// id; and the ids told are those of the two cards.
pub proof fn law_import_adds_only_cards_of_the_source(
    b: BacklogView,
    name: Option<Seq<char>>,
    info: SourceView,
    is_dir: bool,
    source: Seq<CardView>,
    now: Seq<char>,
    j: int,
)
    requires
        source.len() <= usize::MAX,
        import_refusal(b, name, info, is_dir, source) is None,
        0 <= j < import_run(b, name, info, is_dir, source, now).imported.len(),
    ensures
        ({
            let after = imported_in(b, name, info, is_dir, source, now);
            let ids = import_run(b, name, info, is_dir, source, now).imported;
            let d = after.cards[b.cards.len() + j];
            &&& after.cards.len() == b.cards.len() + ids.len()
            &&& d.id == ids[j].1
            &&& d.id == b.last_id + 1 + j
            &&& d.legacy_id == Some(ids[j].0)
            &&& d.project_id == target_id(b, name, info)
            &&& exists|s: int|
                0 <= s < source.len() && (#[trigger] source[s]).id == ids[j].0 && says_the_same(d, source[s])
                    && has_the_rows(d, source[s])
        }),
{
    let c = target_in(b, name, info, is_dir, now);
    let p = target_project(b, name, info, is_dir, now);
    let order = source_order(source);
    lemma_source_order(source);
    assert(p.id == target_id(b, name, info));
    assert(c.cards == b.cards && c.last_id == b.last_id);
    lemma_counted(c, source, order, p);
    let k = lemma_brought(c, source, order, p, j);
    let v = import_all(c, source, order, p);
    assert(order[k] < source.len());
    let s = order[k] as int;
    let d = v.b.cards[c.cards.len() + j];
    assert(says_the_same(d, source[s]) && has_the_rows(d, source[s]) && d.id == v.imported[j].1 && d.project_id == p.id
        && d.legacy_id == Some(source[s].id)) by {
        reveal(grown_from);
        law_imported_card_is_its_source(source[s], v.imported[j].1, p);
    }
    assert(imported_in(b, name, info, is_dir, source, now).cards == v.b.cards);
    assert(source[s].id == v.imported[j].0);
}

/// Law: every card of the source that the project does not have yet is
/// brought: there is a card afterwards that says what it does.
pub proof fn law_import_brings_every_new_card(
    b: BacklogView,
    name: Option<Seq<char>>,
    info: SourceView,
    is_dir: bool,
    source: Seq<CardView>,
    now: Seq<char>,
    s: int,
)
    requires
        source.len() <= usize::MAX,
        import_refusal(b, name, info, is_dir, source) is None,
        0 <= s < source.len(),
        forall|k: int|
            0 <= k < b.cards.len() ==> !((#[trigger] b.cards[k]).project_id == target_id(b, name, info)
                && b.cards[k].legacy_id == Some(source[s].id) && b.cards[k].created_at == source[s].created_at),
    ensures
        ({
            let after = imported_in(b, name, info, is_dir, source, now);
            exists|i: int|
                b.cards.len() <= i < after.cards.len() && says_the_same(#[trigger] after.cards[i], source[s])
                    && has_the_rows(after.cards[i], source[s]) && after.cards[i].legacy_id == Some(source[s].id)
                    && after.cards[i].project_id == target_id(b, name, info)
        }),
{
    let c = target_in(b, name, info, is_dir, now);
    let p = target_project(b, name, info, is_dir, now);
    let order = source_order(source);
    lemma_source_order(source);
    lemma_all_dealt_with(source);
    assert(p.id == target_id(b, name, info));
    assert(c.cards == b.cards && c.last_id == b.last_id);
    lemma_counted(c, source, order, p);
    assert(order.contains(s as usize));
    let k = choose|k: int| 0 <= k < order.len() && order[k] == s as usize;
    assert(!known_in(c.cards, p.id, source[order[k] as int])) by {
        reveal(known_in);
    }
    let j = lemma_is_brought(c, source, order, p, k);
    let v = import_all(c, source, order, p);
    let d = v.b.cards[c.cards.len() + j];
    assert(says_the_same(d, source[s]) && has_the_rows(d, source[s]) && d.project_id == p.id && d.legacy_id == Some(
        source[s].id,
    )) by {
        reveal(grown_from);
        law_imported_card_is_its_source(source[s], v.imported[j].1, p);
    }
    let after = imported_in(b, name, info, is_dir, source, now);
    assert(after.cards == v.b.cards);
    assert(after.cards[c.cards.len() + j] == d);
}

/// Law: a card of the source is skipped exactly where the project has a card
/// that keeps its old id and its time.
pub proof fn law_import_skips_only_what_is_there(b: BacklogView, project: i64, c: CardView)
    ensures
        came_before(b.cards, project, c) <==> exists|k: int|
            0 <= k < b.cards.len() && (#[trigger] b.cards[k]).project_id == project && b.cards[k].legacy_id == Some(c.id)
                && b.cards[k].created_at == c.created_at,
{
    if came_before(b.cards, project, c) {
        let k = choose|k: int|
            0 <= k < b.cards.len() && (#[trigger] b.cards[k]).project_id == project && crate::import::comes_from(
                b.cards[k],
                c,
            );
        assert(b.cards[k].legacy_id == Some(c.id));
    }
}

/// Law: the cards come by their old ids, the lowest first, so that their new
/// ids are in the same order.
pub proof fn law_import_keeps_the_order(source: Seq<CardView>, i: int, j: int)
    requires
        source.len() <= usize::MAX,
        0 <= i < j < source_order(source).len(),
    ensures
        source[source_order(source)[i] as int].id <= source[source_order(source)[j] as int].id,
        source_order(source).len() == source.len(),
        source_order(source)[i] != source_order(source)[j],
{
    let keys = id_keys(source);
    let order = sorted_order(keys, Texts::Ascending);
    lemma_order_exists(keys, Texts::Ascending);
    lemma_source_order(source);
    let flags = source.map_values(|c: CardView| true);
    crate::import::lemma_kept_all(order, flags);
    assert(order[i] < source.len() && order[j] < source.len());
    assert(comes_before(keys, Texts::Ascending, order[i] as int, order[j] as int));
}

/// Law: an import goes to the project named, else to the one of the source's
/// directory; where that is not there it is registered for that directory,
/// under the name given, else under the source's own as long as that is free.
/// No other project changes.
pub proof fn law_import_goes_to_its_project(
    b: BacklogView,
    name: Option<Seq<char>>,
    info: SourceView,
    is_dir: bool,
    source: Seq<CardView>,
    now: Seq<char>,
)
    requires
        sound(b),
        name is Some ==> !blank(name->0),
        source.len() <= usize::MAX,
        import_refusal(b, name, info, is_dir, source) is None,
    ensures
        ({
            let after = imported_in(b, name, info, is_dir, source, now);
            let at = match name {
                Some(n) => looked_up(b.projects, n),
                None => with_path(b.projects, info.dir),
            };
            let n = b.projects.len() as int;
            &&& at >= 0 ==> {
                let p = b.projects[at];
                &&& target_id(b, name, info) == p.id
                &&& after.projects.len() == n
                &&& forall|k: int| 0 <= k < n && k != at ==> #[trigger] after.projects[k] == b.projects[k]
                &&& after.projects[at] == (ProjectView {
                    autoexport: if p.autoexport.len() == 0 { info.autoexport } else { p.autoexport },
                    ..p
                })
            }
            &&& at < 0 ==> {
                let p = after.projects[n];
                &&& after.projects.len() == n + 1
                &&& forall|k: int| 0 <= k < n ==> #[trigger] after.projects[k] == b.projects[k]
                &&& target_id(b, name, info) == p.id
                &&& p.id == b.last_project + 1
                &&& p.path == info.dir
                &&& p.active
                &&& p.autoexport == info.autoexport
                &&& p.created_at == now
                &&& name is Some ==> p.name == trim(name->0)
                &&& name is None && !blank(info.name) && (forall|k: int|
                    0 <= k < n ==> (#[trigger] b.projects[k]).name != trim(info.name)) ==> p.name == trim(info.name)
            }
        }),
{
    let c = target_in(b, name, info, is_dir, now);
    let p = target_project(b, name, info, is_dir, now);
    let after = imported_in(b, name, info, is_dir, source, now);
    crate::import::lemma_target_found(b, name, info, is_dir, now);
    lemma_source_order(source);
    crate::import::lemma_import_all(c, source, source_order(source), p);
    let end = import_run(b, name, info, is_dir, source, now).b;
    assert(end.projects == c.projects);
    let at = known_target(b.projects, name, info);
    let n = b.projects.len() as int;
    let place = with_id(end.projects, p.id);
    let where_now = known_target(c.projects, name, info);
    assert(place == where_now);
    if at < 0 {
        crate::project::lemma_first_is(c.projects, |q: ProjectView| q.id == p.id, n);
        assert(p.autoexport =~= Seq::<char>::empty());
        if info.autoexport.len() == 0 {
            assert(info.autoexport =~= Seq::<char>::empty());
        }
        if name is None && !blank(info.name) && (forall|k: int|
            0 <= k < n ==> (#[trigger] b.projects[k]).name != trim(info.name)) {
            crate::project::lemma_first(b.projects, |q: ProjectView| q.name == trim(info.name));
        }
    } else {
        if b.projects[at].autoexport.len() == 0 && info.autoexport.len() == 0 {
            assert(b.projects[at].autoexport =~= info.autoexport);
        }
    }
}

/// Law: a file is imported into the central store alone, and not from the
/// store itself.
pub proof fn law_what_can_be_imported(central: bool, src: Seq<char>, is_file: bool, is_store: bool)
    ensures
        source_refusal(central, src, is_file, is_store) is None <==> central && is_file && !is_store,
{
}

/// Law: a source goes by the name of its project, else by that of the
/// directory it is in, and keeps the page of its project in sync, else the
/// one set for the whole file.
pub proof fn law_source_says_what_it_is(dir: Seq<char>, row: Option<(Seq<char>, Seq<char>)>, setting: Option<Seq<char>>)
    ensures
        ({
            let s = described(dir, row, setting);
            &&& s.dir == dir
            &&& row matches Some(r) ==> s.name == r.0
            &&& row is None && base_name(dir) is Some ==> s.name == base_name(dir)->0
            &&& row is Some && (row->0).1.len() > 0 ==> s.autoexport == (row->0).1
            &&& (row is None || (row->0).1.len() == 0) && setting is Some ==> s.autoexport == setting->0
            &&& (row is None || (row->0).1.len() == 0) && setting is None ==> s.autoexport.len() == 0
        }),
{
}

/// Law: worth importing are the places that are files and not the store, each
/// once, in the order given.
pub proof fn law_worth_importing(places: Seq<Seq<char>>, is_file: Seq<bool>, store: Seq<char>, x: Seq<char>)
    requires
        is_file.len() == places.len(),
    ensures
        worth(places, is_file, store).contains(x) <==> x != store && exists|k: int|
            0 <= k < places.len() && #[trigger] places[k] == x && is_file[k],
        worth(places, is_file, store).no_duplicates(),
{
    lemma_worth(places, is_file, store, x);
}

proof fn lemma_worth(places: Seq<Seq<char>>, is_file: Seq<bool>, store: Seq<char>, x: Seq<char>)
    requires
        places.len() <= is_file.len(),
    ensures
        worth(places, is_file, store).contains(x) <==> x != store && exists|k: int|
            0 <= k < places.len() && #[trigger] places[k] == x && is_file[k],
        worth(places, is_file, store).no_duplicates(),
    decreases places.len(),
{
    if places.len() > 0 {
        let front = places.drop_last();
        lemma_worth(front, is_file, store, x);
        let (now, before) = (worth(places, is_file, store), worth(front, is_file, store));
        let last = places.len() - 1;
        if now.contains(x) {
            let j = choose|j: int| 0 <= j < now.len() && now[j] == x;
            if j < before.len() {
                assert(before[j] == x);
                assert(before.contains(x));
                let k = choose|k: int| 0 <= k < front.len() && #[trigger] front[k] == x && is_file[k];
                assert(places[k] == x);
            } else {
                assert(places[last] == x);
            }
        }
        if x != store && exists|k: int| 0 <= k < places.len() && #[trigger] places[k] == x && is_file[k] {
            let k = choose|k: int| 0 <= k < places.len() && #[trigger] places[k] == x && is_file[k];
            if k < front.len() {
                assert(front[k] == x);
                assert(before.contains(x));
            }
            if before.contains(x) {
                let j = choose|j: int| 0 <= j < before.len() && before[j] == x;
                assert(now[j] == x);
            } else {
                assert(now[now.len() - 1] == x);
            }
        }
        if now.len() > before.len() {
            let y = places[last];
            assert(!before.contains(y));
            assert forall|a: int, b: int| 0 <= a < now.len() && 0 <= b < now.len() && a != b implies now[a] != now[b] by {
                if a < before.len() && b < before.len() {
                    assert(now[a] == before[a] && now[b] == before[b]);
                } else if a < before.len() {
                    assert(before.contains(before[a]));
                } else {
                    assert(before.contains(before[b]));
                }
            }
        }
    }
}

/// Law: a refused import brings no card and touches none; at most the project
/// is registered by then.
pub proof fn law_refused_import_brings_nothing(
    b: BacklogView,
    name: Option<Seq<char>>,
    info: SourceView,
    is_dir: bool,
    now: Seq<char>,
)
    ensures
        ({
            let after = left_by_refusal(b, name, info, is_dir, now);
            &&& after.cards == b.cards
            &&& after.links == b.links
            &&& after.events == b.events
            &&& after.last_id == b.last_id
            &&& b.projects.len() <= after.projects.len() <= b.projects.len() + 1
            &&& forall|k: int| 0 <= k < b.projects.len() ==> #[trigger] after.projects[k] == b.projects[k]
        }),
{
}

} // verus!
