//! Moving a repository's own backlog into the store.
//!
//! Every card gets a new id, and keeps its old one as its legacy id and the
//! time at which it was made, so that a second import of the same file adds
//! nothing and a card of another file is not taken for one that is there.

use vstd::prelude::*;

use crate::backlog::{sound, Backlog, BacklogView};
use crate::card::{card_views, check_priority, in_range, Card, CardView};
use crate::filing::lemma_more_cards;
use crate::links::lemma_same_cards_sound;
use crate::notes::{note_lines, note_views, opt_text, reconcile, reconciled, Note, NoteView};
use crate::number::{dec, decimal_count, signed_value, within};
use crate::path::{base_name, file_name, opt_string};
use crate::project::{
    by_path, check_add, first, lemma_first, lemma_first_is, lemma_looked_up, lookup, looked_up, new_project,
    project_views, with_id, with_path, Project, ProjectView,
};
use crate::refusal::{Refusal, RefusalView};
use crate::registry::{register_refusal, registered_in, with_project};
use crate::select::{id_keys, numbered, numbering};
use crate::text::{blank, copy, keep_nonblank, lines_of, same, strip_start, texts, trim};

verus! {

// ------------------------------------------------------------- the source

/// What a source says about itself.
#[derive(Debug, PartialEq, Eq)]
pub struct SourceInfo {
    pub name: String,
    pub dir: String,
    pub autoexport: String,
}

#[verifier::ext_equal]
pub struct SourceView {
    pub name: Seq<char>,
    pub dir: Seq<char>,
    pub autoexport: Seq<char>,
}

impl View for SourceInfo {
    type V = SourceView;

    open spec fn view(&self) -> SourceView {
        SourceView { name: self.name@, dir: self.dir@, autoexport: self.autoexport@ }
    }
}

/// What a source says about itself: its first project row, else the
/// directory it sits in; the page it keeps in sync is the project's, else
/// the one set for the whole file.
pub open spec fn described(
    dir: Seq<char>,
    row: Option<(Seq<char>, Seq<char>)>,
    setting: Option<Seq<char>>,
) -> SourceView {
    let own = match row {
        Some(r) => r.1,
        None => Seq::empty(),
    };
    SourceView {
        name: match row {
            Some(r) => r.0,
            None => match base_name(dir) {
                Some(n) => n,
                None => "project"@,
            },
        },
        dir,
        autoexport: if own.len() == 0 && setting is Some { setting->0 } else { own },
    }
}

/// What a source says about itself, from its directory, its first project
/// row and its own setting.
pub fn source_info(dir: &str, row: Option<(String, String)>, setting: Option<String>) -> (s: SourceInfo)
    ensures
        s@ == described(
            dir@,
            match row {
                Some(r) => Some((r.0@, r.1@)),
                None => None,
            },
            opt_string(setting),
        ),
{
    let (name, own) = match row {
        Some(r) => r,
        None => (
            match file_name(dir) {
                Some(n) => n,
                None => copy("project"),
            },
            String::new(),
        ),
    };
    let autoexport = if own.as_str().is_empty() {
        match setting {
            Some(s) => s,
            None => own,
        }
    } else {
        own
    };
    SourceInfo { name, dir: copy(dir), autoexport }
}

/// Why a file is not imported.
pub open spec fn source_refusal(central: bool, src: Seq<char>, is_file: bool, is_store: bool) -> Option<RefusalView> {
    if !central {
        Some(RefusalView::NeedsStore)
    } else if !is_file {
        Some(RefusalView::NotFile(src))
    } else if is_store {
        Some(RefusalView::SourceIsStore(src))
    } else {
        None
    }
}

/// Whether a file can be imported: into the central store, from a file, and
/// not from the store itself.
pub fn check_source(central: bool, src: &str, is_file: bool, is_store: bool) -> (r: Result<(), Refusal>)
    ensures
        match r {
            Ok(()) => source_refusal(central, src@, is_file, is_store) is None,
            Err(e) => source_refusal(central, src@, is_file, is_store) == Some(e@),
        },
{
    if !central {
        Err(Refusal::NeedsStore)
    } else if !is_file {
        Err(Refusal::NotFile(copy(src)))
    } else if is_store {
        Err(Refusal::SourceIsStore(copy(src)))
    } else {
        Ok(())
    }
}

// ------------------------------------------------------------- the project

/// The project an import goes to, as far as it is there: the one named, else
/// the one of the source's directory.
pub open spec fn known_target(projects: Seq<ProjectView>, name: Option<Seq<char>>, info: SourceView) -> int {
    match name {
        Some(n) => looked_up(projects, n),
        None => with_path(projects, info.dir),
    }
}

/// The name a new project for the source is given: the one named, else the
/// source's own as long as that is free, else its directory's.
pub open spec fn target_name(b: BacklogView, name: Option<Seq<char>>, info: SourceView, is_dir: bool) -> Option<Seq<char>> {
    match name {
        Some(n) => Some(n),
        None => if register_refusal(b, info.dir, is_dir, Some(info.name)) is None {
            Some(info.name)
        } else {
            None
        },
    }
}

/// The store once the project of an import is there.
pub open spec fn target_in(
    b: BacklogView,
    name: Option<Seq<char>>,
    info: SourceView,
    is_dir: bool,
    now: Seq<char>,
) -> BacklogView {
    if known_target(b.projects, name, info) >= 0 {
        b
    } else {
        registered_in(b, info.dir, target_name(b, name, info, is_dir), now)
    }
}

/// The project an import would go to.
pub open spec fn planned_project(projects: Seq<ProjectView>, name: Option<Seq<char>>, info: SourceView, now: Seq<char>) -> ProjectView {
    let at = known_target(projects, name, info);
    if at >= 0 {
        projects[at]
    } else {
        ProjectView {
            id: 0,
            name: match name {
                Some(n) => n,
                None => info.name,
            },
            path: info.dir,
            active: true,
            autoexport: Seq::empty(),
            created_at: now,
        }
    }
}

// ------------------------------------------------------------- the cards

/// One card was imported from another: it keeps the other's id as its legacy
/// id, and the time at which the other was made. No command changes either.
pub open spec fn comes_from(known: CardView, c: CardView) -> bool {
    known.legacy_id == Some(c.id) && known.created_at == c.created_at
}

/// A card of the project was imported from this one.
pub open spec fn came_before(cards: Seq<CardView>, project: i64, c: CardView) -> bool {
    exists|k: int| 0 <= k < cards.len() && (#[trigger] cards[k]).project_id == project && comes_from(cards[k], c)
}

/// The rows of a card, to be stored anew.
pub open spec fn fresh_rows(entries: Seq<NoteView>) -> Seq<NoteView> {
    entries.map_values(|n: NoteView| NoteView { id: 0, ..n })
}

/// The card under a new id in its new project. Where the source has no rows,
/// the lines of its notes become rows.
pub open spec fn transplanted(c: CardView, id: i64, p: ProjectView) -> CardView {
    reconciled_if_bare(
        CardView {
            id,
            project_id: p.id,
            project: p.name,
            legacy_id: Some(c.id),
            entries: fresh_rows(c.entries),
            ..c
        },
    )
}

pub open spec fn reconciled_if_bare(c: CardView) -> CardView {
    if c.entries.len() == 0 {
        reconciled(c)
    } else {
        c
    }
}

/// How many notes come with a card.
pub open spec fn notes_with(c: CardView) -> nat {
    if c.entries.len() == 0 {
        note_lines(c.notes).len()
    } else {
        c.entries.len()
    }
}

/// How far an import has come.
#[verifier::ext_equal]
pub struct Progress {
    pub b: BacklogView,
    /// Old and new id of each card imported.
    pub imported: Seq<(i64, i64)>,
    pub skipped: nat,
    pub notes: nat,
}

/// One card of the source dealt with: skipped where it was imported before.
pub open spec fn import_step(v: Progress, known: Seq<CardView>, c: CardView, p: ProjectView) -> Progress {
    if came_before(known, p.id, c) {
        Progress { skipped: v.skipped + 1, ..v }
    } else {
        let id = (v.b.last_id + 1) as i64;
        Progress {
            b: BacklogView { last_id: id, cards: v.b.cards.push(transplanted(c, id, p)), ..v.b },
            imported: v.imported.push((c.id, id)),
            notes: v.notes + notes_with(c),
            ..v
        }
    }
}

/// The cards of the source dealt with, one after the other.
pub open spec fn import_all(b: BacklogView, source: Seq<CardView>, order: Seq<usize>, p: ProjectView) -> Progress
    decreases order.len(),
{
    if order.len() == 0 {
        Progress { b, imported: Seq::empty(), skipped: 0, notes: 0 }
    } else {
        import_step(import_all(b, source, order.drop_last(), p), b.cards, source[order.last() as int], p)
    }
}

/// All cards of the source, by their old ids.
pub open spec fn source_order(source: Seq<CardView>) -> Seq<usize> {
    numbering(source, source.map_values(|c: CardView| true))
}

/// The page to keep in sync that the project takes over.
pub open spec fn taken_over(p: ProjectView, info: SourceView) -> bool {
    p.autoexport.len() == 0 && info.autoexport.len() > 0
}

/// One of the cards still to import has a priority out of range.
pub open spec fn out_of_range(known: Seq<CardView>, project: i64, source: Seq<CardView>) -> bool {
    exists|k: int|
        0 <= k < source.len() && !in_range((#[trigger] source[k]).priority) && !came_before(known, project, source[k])
}

/// How many of the cards are still to import.
pub open spec fn still_to_import(known: Seq<CardView>, project: i64, source: Seq<CardView>, order: Seq<usize>) -> nat
    decreases order.len(),
{
    if order.len() == 0 {
        0
    } else {
        still_to_import(known, project, source, order.drop_last()) + if came_before(
            known,
            project,
            source[order.last() as int],
        ) {
            0nat
        } else {
            1nat
        }
    }
}

/// The id of the project an import goes to; 0 where it is not there and the
/// store has no ids left.
pub open spec fn target_id(b: BacklogView, name: Option<Seq<char>>, info: SourceView) -> i64 {
    let at = known_target(b.projects, name, info);
    if at >= 0 {
        b.projects[at].id
    } else if b.last_project < i64::MAX {
        (b.last_project + 1) as i64
    } else {
        0
    }
}

/// Why an import is refused.
pub open spec fn import_refusal(
    b: BacklogView,
    name: Option<Seq<char>>,
    info: SourceView,
    is_dir: bool,
    source: Seq<CardView>,
) -> Option<RefusalView> {
    if known_target(b.projects, name, info) < 0 && register_refusal(
        b,
        info.dir,
        is_dir,
        target_name(b, name, info, is_dir),
    ) is Some {
        register_refusal(b, info.dir, is_dir, target_name(b, name, info, is_dir))
    } else if out_of_range(b.cards, target_id(b, name, info), source) {
        Some(RefusalView::PriorityRange)
    } else if still_to_import(b.cards, target_id(b, name, info), source, source_order(source)) > i64::MAX - b.last_id {
        Some(RefusalView::StoreFull)
    } else {
        None
    }
}

/// The project an import goes to, once it is there.
pub open spec fn target_project(
    b: BacklogView,
    name: Option<Seq<char>>,
    info: SourceView,
    is_dir: bool,
    now: Seq<char>,
) -> ProjectView {
    let at = known_target(b.projects, name, info);
    if at >= 0 {
        b.projects[at]
    } else {
        new_project((b.last_project + 1) as i64, info.dir, target_name(b, name, info, is_dir), now)
    }
}

/// How far an import comes.
pub open spec fn import_run(
    b: BacklogView,
    name: Option<Seq<char>>,
    info: SourceView,
    is_dir: bool,
    source: Seq<CardView>,
    now: Seq<char>,
) -> Progress {
    import_all(
        target_in(b, name, info, is_dir, now),
        source,
        source_order(source),
        target_project(b, name, info, is_dir, now),
    )
}

/// What a refused import leaves: nothing new, but for the project where it is
/// only then that a card is refused.
pub open spec fn left_by_refusal(
    b: BacklogView,
    name: Option<Seq<char>>,
    info: SourceView,
    is_dir: bool,
    now: Seq<char>,
) -> BacklogView {
    if known_target(b.projects, name, info) < 0 && register_refusal(
        b,
        info.dir,
        is_dir,
        target_name(b, name, info, is_dir),
    ) is Some {
        b
    } else {
        target_in(b, name, info, is_dir, now)
    }
}

/// The store once an import is done.
pub open spec fn imported_in(
    b: BacklogView,
    name: Option<Seq<char>>,
    info: SourceView,
    is_dir: bool,
    source: Seq<CardView>,
    now: Seq<char>,
) -> BacklogView {
    let end = import_run(b, name, info, is_dir, source, now).b;
    let p = target_project(b, name, info, is_dir, now);
    let at = with_id(end.projects, p.id);
    if taken_over(p, info) && at >= 0 {
        with_project(end, at, ProjectView { autoexport: info.autoexport, ..end.projects[at] })
    } else {
        end
    }
}

// ------------------------------------------------------------- the outcome

/// What an import did, or would do.
#[derive(Debug, PartialEq, Eq)]
pub struct Outcome {
    pub source: String,
    pub project: String,
    pub project_id: i64,
    pub project_created: bool,
    /// Old and new id of each card imported.
    pub imported: Vec<(i64, i64)>,
    /// Cards already present from an earlier import.
    pub skipped: usize,
    pub notes: usize,
    pub autoexport: Option<String>,
    pub dry_run: bool,
}

#[verifier::ext_equal]
pub struct OutcomeView {
    pub source: Seq<char>,
    pub project: Seq<char>,
    pub project_id: i64,
    pub project_created: bool,
    pub imported: Seq<(i64, i64)>,
    pub skipped: nat,
    pub notes: nat,
    pub autoexport: Option<Seq<char>>,
    pub dry_run: bool,
}

impl View for Outcome {
    type V = OutcomeView;

    open spec fn view(&self) -> OutcomeView {
        OutcomeView {
            source: self.source@,
            project: self.project@,
            project_id: self.project_id,
            project_created: self.project_created,
            imported: self.imported@,
            skipped: self.skipped as nat,
            notes: self.notes as nat,
            autoexport: opt_string(self.autoexport),
            dry_run: self.dry_run,
        }
    }
}

/// A count that stops at the highest number.
pub open spec fn capped(n: nat) -> nat {
    if n > usize::MAX {
        usize::MAX as nat
    } else {
        n
    }
}

/// What an import did.
pub open spec fn outcome_of(
    src: Seq<char>,
    p: ProjectView,
    created: bool,
    v: Progress,
    info: SourceView,
) -> OutcomeView {
    OutcomeView {
        source: src,
        project: p.name,
        project_id: p.id,
        project_created: created,
        imported: v.imported,
        skipped: v.skipped,
        notes: capped(v.notes),
        autoexport: if taken_over(p, info) { Some(info.autoexport) } else { None },
        dry_run: false,
    }
}

/// The old ids of cards imported.
pub open spec fn old_ids(v: Seq<(i64, i64)>) -> Seq<i64> {
    v.map_values(|p: (i64, i64)| p.0)
}

/// What an import would do.
pub open spec fn plan_all(known: Seq<CardView>, source: Seq<CardView>, order: Seq<usize>, project: i64) -> (
    Seq<(i64, i64)>,
    nat,
    nat,
)
    decreases order.len(),
{
    if order.len() == 0 {
        (Seq::empty(), 0, 0)
    } else {
        let (ids, skipped, notes) = plan_all(known, source, order.drop_last(), project);
        let c = source[order.last() as int];
        if came_before(known, project, c) {
            (ids, skipped + 1, notes)
        } else {
            (ids.push((c.id, 0)), skipped, notes + notes_with(c))
        }
    }
}

pub open spec fn planned(
    b: BacklogView,
    src: Seq<char>,
    name: Option<Seq<char>>,
    info: SourceView,
    source: Seq<CardView>,
    now: Seq<char>,
) -> OutcomeView {
    let p = planned_project(b.projects, name, info, now);
    let (ids, skipped, notes) = plan_all(b.cards, source, source_order(source), target_id(b, name, info));
    OutcomeView {
        source: src,
        project: p.name,
        project_id: p.id,
        project_created: false,
        imported: ids,
        skipped,
        notes: capped(notes),
        autoexport: if taken_over(p, info) { Some(info.autoexport) } else { None },
        dry_run: true,
    }
}

/// One line for one import.
pub open spec fn summary_text(o: OutcomeView) -> Seq<char> {
    let lead = if o.dry_run { "would import "@ } else { "imported "@ };
    let fresh = if o.project_created { " (new)"@ } else { ""@ };
    let page = match o.autoexport {
        Some(a) => "; auto-export → "@ + a,
        None => Seq::empty(),
    };
    lead + o.source + " → project '"@ + o.project + "'"@ + fresh + ": "@ + dec(o.imported.len() as int)
        + " card(s) imported, "@ + dec(o.notes as int) + " note(s), "@ + dec(o.skipped as int)
        + " already present"@ + page
}

// ------------------------------------------------------------- facts

/// What an import leaves of the store: the cards that were there stay, in
/// place, and the links, projects and events as they are.
pub proof fn lemma_import_all(b: BacklogView, source: Seq<CardView>, order: Seq<usize>, p: ProjectView)
    requires
        still_to_import(b.cards, p.id, source, order) <= i64::MAX - b.last_id,
        forall|k: int| 0 <= k < order.len() ==> (#[trigger] order[k]) < source.len(),
    ensures
        ({
            let v = import_all(b, source, order, p);
            &&& v.b.links == b.links
            &&& v.b.projects == b.projects
            &&& v.b.events == b.events
            &&& v.b.last_project == b.last_project
            &&& v.b.last_id == b.last_id + still_to_import(b.cards, p.id, source, order)
            &&& v.imported.len() + v.skipped == order.len()
            &&& b.cards.len() <= v.b.cards.len()
            &&& forall|i: int| 0 <= i < b.cards.len() ==> v.b.cards[i] == #[trigger] b.cards[i]
            &&& forall|k: int|
                0 <= k < order.len() ==> came_before(v.b.cards, p.id, source[#[trigger] order[k] as int])
            &&& sound(b) && !out_of_range(b.cards, p.id, source) ==> sound(v.b)
        }),
    decreases order.len(),
{
    if order.len() > 0 {
        let front = order.drop_last();
        assert forall|k: int| 0 <= k < front.len() implies (#[trigger] front[k]) < source.len() by {
            assert(front[k] == order[k]);
        }
        lemma_import_all(b, source, front, p);
        let u = import_all(b, source, front, p);
        let v = import_all(b, source, order, p);
        assert(order[order.len() - 1] < source.len());
        let c = source[order.last() as int];
        let known = came_before(b.cards, p.id, c);
        if !known {
            lemma_step_sound(u, b.cards, c, p);
            if sound(b) && !out_of_range(b.cards, p.id, source) {
                assert(in_range(source[order.last() as int].priority));
            }
        }
        assert forall|k: int| 0 <= k < order.len() implies came_before(
            v.b.cards,
            p.id,
            source[#[trigger] order[k] as int],
        ) by {
            if k < front.len() {
                assert(order[k] == front[k]);
                assert(came_before(u.b.cards, p.id, source[front[k] as int]));
                let j = choose|j: int|
                    0 <= j < u.b.cards.len() && (#[trigger] u.b.cards[j]).project_id == p.id && comes_from(
                        u.b.cards[j],
                        source[front[k] as int],
                    );
                assert(v.b.cards[j] == u.b.cards[j]);
            } else if known {
                let j = choose|j: int|
                    0 <= j < b.cards.len() && (#[trigger] b.cards[j]).project_id == p.id && comes_from(b.cards[j], c);
                assert(u.b.cards[j] == b.cards[j]);
                assert(v.b.cards[j] == u.b.cards[j]);
            } else {
                let j = u.b.cards.len() as int;
                assert(comes_from(v.b.cards[j], c));
            }
        }
        assert forall|i: int| 0 <= i < b.cards.len() implies v.b.cards[i] == #[trigger] b.cards[i] by {
            assert(u.b.cards[i] == b.cards[i]);
        }
    }
}

proof fn lemma_step_sound(v: Progress, known: Seq<CardView>, c: CardView, p: ProjectView)
    requires
        v.b.last_id < i64::MAX,
        !came_before(known, p.id, c),
    ensures
        sound(v.b) && in_range(c.priority) ==> sound(import_step(v, known, c, p).b),
{
    if sound(v.b) && in_range(c.priority) {
        let e = import_step(v, known, c, p).b;
        let id = (v.b.last_id + 1) as i64;
        lemma_more_cards(v.b.cards, transplanted(c, id, p));
        lemma_same_cards_sound(v.b.cards, e.cards, v.b.links);
        assert forall|i: int, j: int| 0 <= i < j < e.cards.len() implies (#[trigger] e.cards[i]).id != (
        #[trigger] e.cards[j]).id by {
            assert(e.cards[i] == v.b.cards[i]);
            if j < v.b.cards.len() {
                assert(e.cards[j] == v.b.cards[j]);
            }
        }
        assert forall|i: int| 0 <= i < e.cards.len() implies 0 < (#[trigger] e.cards[i]).id <= e.last_id && in_range(
            e.cards[i].priority,
        ) by {
            if i < v.b.cards.len() {
                assert(e.cards[i] == v.b.cards[i]);
            }
        }
    }
}

/// Where every card of the source was imported before, nothing is added.
proof fn lemma_nothing_new(b: BacklogView, source: Seq<CardView>, order: Seq<usize>, p: ProjectView)
    requires
        forall|k: int| 0 <= k < order.len() ==> came_before(b.cards, p.id, source[#[trigger] order[k] as int]),
    ensures
        import_all(b, source, order, p) == (Progress { b, imported: Seq::empty(), skipped: order.len(), notes: 0 }),
    decreases order.len(),
{
    if order.len() > 0 {
        let front = order.drop_last();
        assert forall|k: int| 0 <= k < front.len() implies came_before(
            b.cards,
            p.id,
            source[#[trigger] front[k] as int],
        ) by {
            assert(front[k] == order[k]);
        }
        lemma_nothing_new(b, source, front, p);
        assert(came_before(b.cards, p.id, source[order[order.len() - 1] as int]));
    }
}

/// Every position of the source is among those dealt with.
pub proof fn lemma_source_order(source: Seq<CardView>)
    requires
        source.len() <= usize::MAX,
    ensures
        source_order(source).len() == source.len(),
        forall|k: int| 0 <= k < source_order(source).len() ==> (#[trigger] source_order(source)[k]) < source.len(),
{
    let whole = crate::order::sorted_order(id_keys(source), crate::order::Texts::Ascending);
    let flags = source.map_values(|c: CardView| true);
    crate::order::lemma_order_exists(id_keys(source), crate::order::Texts::Ascending);
    lemma_kept_all(whole, flags);
}

/// Every position of the source stands in the order it is dealt with.
pub proof fn lemma_all_dealt_with(source: Seq<CardView>)
    requires
        source.len() <= usize::MAX,
    ensures
        forall|k: int| 0 <= k < source.len() ==> #[trigger] source_order(source).contains(k as usize),
{
    let whole = crate::order::sorted_order(id_keys(source), crate::order::Texts::Ascending);
    let flags = source.map_values(|c: CardView| true);
    crate::order::lemma_order_exists(id_keys(source), crate::order::Texts::Ascending);
    lemma_kept_all(whole, flags);
    crate::order::lemma_covers(whole, source.len() as int);
}

pub proof fn lemma_kept_all(order: Seq<usize>, keep: Seq<bool>)
    requires
        forall|k: int| 0 <= k < order.len() ==> keep[#[trigger] order[k] as int],
    ensures
        crate::select::kept(order, keep) == order,
    decreases order.len(),
{
    if order.len() > 0 {
        let front = order.drop_last();
        assert forall|k: int| 0 <= k < front.len() implies keep[#[trigger] front[k] as int] by {
            assert(front[k] == order[k]);
        }
        lemma_kept_all(front, keep);
        assert(keep[order[order.len() - 1] as int]);
        assert(front.push(order.last()) =~= order);
    }
}

/// Projects with the same keys are found in the same places.
proof fn lemma_same_keys(a: Seq<ProjectView>, b: Seq<ProjectView>, f: spec_fn(ProjectView) -> bool)
    requires
        a.len() == b.len(),
        forall|i: int| 0 <= i < a.len() ==> f(#[trigger] a[i]) == f(b[i]),
    ensures
        first(a, f) == first(b, f),
{
    lemma_first(a, f);
    lemma_first(b, f);
    let (p, q) = (first(a, f), first(b, f));
    if p >= 0 && (q < 0 || p < q) {
        assert(f(a[p]) == f(b[p]));
        assert(!f(b[p]));
    }
    if q >= 0 && (p < 0 || q < p) {
        assert(f(a[q]) == f(b[q]));
        assert(!f(a[q]));
    }
}

/// Where an import goes is where it went, whatever page the project keeps.
proof fn lemma_same_target(a: Seq<ProjectView>, b: Seq<ProjectView>, name: Option<Seq<char>>, info: SourceView)
    requires
        a.len() == b.len(),
        forall|i: int|
            0 <= i < a.len() ==> (#[trigger] a[i]).id == b[i].id && a[i].name == b[i].name && a[i].path == b[i].path,
    ensures
        known_target(a, name, info) == known_target(b, name, info),
{
    match name {
        Some(n) => {
            let k = trim(n);
            lemma_same_keys(a, b, |p: ProjectView| p.name == k);
            match within(signed_value(strip_start(k, '#')), i64::MIN as int, i64::MAX as int) {
                Some(id) => {
                    lemma_same_keys(a, b, |p: ProjectView| p.id == id as i64);
                },
                None => {},
            }
        },
        None => {
            lemma_same_keys(a, b, |p: ProjectView| p.path == info.dir);
        },
    }
}

/// The project of an import, once it is there: where it stands, and that the
/// next import of the file goes to it.
pub proof fn lemma_target_found(b: BacklogView, name: Option<Seq<char>>, info: SourceView, is_dir: bool, now: Seq<char>)
    requires
        sound(b),
        name is Some ==> !blank(name->0),
        known_target(b.projects, name, info) >= 0 || register_refusal(
            b,
            info.dir,
            is_dir,
            target_name(b, name, info, is_dir),
        ) is None,
    ensures
        ({
            let c = target_in(b, name, info, is_dir, now);
            let p = target_project(b, name, info, is_dir, now);
            let at = known_target(c.projects, name, info);
            &&& 0 <= at < c.projects.len()
            &&& c.projects[at] == p
            &&& with_id(c.projects, p.id) == at
            &&& p.id == target_id(b, name, info)
            &&& c.cards == b.cards
            &&& c.last_id == b.last_id
        }),
{
    let c = target_in(b, name, info, is_dir, now);
    let p = target_project(b, name, info, is_dir, now);
    let was = known_target(b.projects, name, info);
    if was >= 0 {
        match name {
            Some(n) => {
                lemma_looked_up(b.projects, n);
            },
            None => {
                lemma_first(b.projects, |q: ProjectView| q.path == info.dir);
            },
        }
        lemma_first_is(b.projects, |q: ProjectView| q.id == p.id, was);
    } else {
        let n = b.projects.len() as int;
        assert(c.projects[n] == p);
        lemma_first(b.projects, |q: ProjectView| q.path == info.dir);
        lemma_first_is(c.projects, |q: ProjectView| q.id == p.id, n);
        match name {
            Some(key) => {
                let k = trim(key);
                lemma_first(b.projects, |q: ProjectView| q.name == k);
                assert forall|i: int| 0 <= i < n implies (#[trigger] c.projects[i]).name != k by {
                    assert(c.projects[i] == b.projects[i]);
                }
                lemma_first_is(c.projects, |q: ProjectView| q.name == k, n);
            },
            None => {
                assert forall|i: int| 0 <= i < n implies (#[trigger] c.projects[i]).path != info.dir by {
                    assert(c.projects[i] == b.projects[i]);
                }
                lemma_first_is(c.projects, |q: ProjectView| q.path == info.dir, n);
            },
        }
    }
}

proof fn lemma_fewer_to_import(known: Seq<CardView>, project: i64, source: Seq<CardView>, order: Seq<usize>, n: int)
    requires
        0 <= n <= order.len(),
    ensures
        still_to_import(known, project, source, order.take(n)) <= still_to_import(known, project, source, order),
    decreases order.len() - n,
{
    if n == order.len() {
        assert(order.take(n) =~= order);
    } else {
        assert(order.take(n + 1).drop_last() =~= order.take(n));
        lemma_fewer_to_import(known, project, source, order, n + 1);
    }
}

proof fn lemma_none_to_import(known: Seq<CardView>, project: i64, source: Seq<CardView>, order: Seq<usize>)
    requires
        forall|k: int| 0 <= k < order.len() ==> came_before(known, project, source[#[trigger] order[k] as int]),
    ensures
        still_to_import(known, project, source, order) == 0,
    decreases order.len(),
{
    if order.len() > 0 {
        let front = order.drop_last();
        assert forall|k: int| 0 <= k < front.len() implies came_before(
            known,
            project,
            source[#[trigger] front[k] as int],
        ) by {
            assert(front[k] == order[k]);
        }
        lemma_none_to_import(known, project, source, front);
        assert(came_before(known, project, source[order[order.len() - 1] as int]));
    }
}

/// Law: importing a file a second time adds nothing. The import is not
/// refused, every card is skipped, and the store stays exactly as the first
/// import left it.
pub proof fn law_second_import_adds_nothing(
    b: BacklogView,
    name: Option<Seq<char>>,
    info: SourceView,
    is_dir: bool,
    source: Seq<CardView>,
    t: Seq<char>,
    now: Seq<char>,
)
    requires
        sound(b),
        source.len() <= usize::MAX,
        name is Some ==> !blank(name->0),
        import_refusal(b, name, info, is_dir, source) is None,
    ensures
        ({
            let once = imported_in(b, name, info, is_dir, source, t);
            &&& import_refusal(once, name, info, is_dir, source) is None
            &&& imported_in(once, name, info, is_dir, source, now) == once
            &&& import_run(once, name, info, is_dir, source, now).imported.len() == 0
            &&& import_run(once, name, info, is_dir, source, now).skipped == source.len()
        }),
{
    let c = target_in(b, name, info, is_dir, t);
    let p = target_project(b, name, info, is_dir, t);
    let order = source_order(source);
    lemma_source_order(source);
    lemma_target_found(b, name, info, is_dir, t);
    lemma_import_all(c, source, order, p);
    let end = import_run(b, name, info, is_dir, source, t).b;
    let once = imported_in(b, name, info, is_dir, source, t);
    let at = known_target(c.projects, name, info);
    assert(end.projects == c.projects);
    lemma_same_target(c.projects, once.projects, name, info);
    let again = once.projects[at];
    assert(again.id == p.id);
    assert(once.cards == end.cards);
    lemma_nothing_new(once, source, order, again);
    lemma_none_to_import(once.cards, p.id, source, order);
    lemma_all_dealt_with(source);
    assert(!out_of_range(once.cards, p.id, source)) by {
        assert forall|k: int| 0 <= k < source.len() implies came_before(once.cards, p.id, #[trigger] source[k]) by {
            assert(order.contains(k as usize));
            let j = choose|j: int| 0 <= j < order.len() && order[j] == k as usize;
            assert(order[j] as int == k);
            assert(came_before(once.cards, p.id, source[order[j] as int]));
        }
    }
}

/// Law: an import leaves every card of the store as it is, in place, and
/// deals with every card of the source: each is imported or was before.
pub proof fn law_import_only_adds(
    b: BacklogView,
    name: Option<Seq<char>>,
    info: SourceView,
    is_dir: bool,
    source: Seq<CardView>,
    now: Seq<char>,
)
    requires
        source.len() <= usize::MAX,
        import_refusal(b, name, info, is_dir, source) is None,
    ensures
        ({
            let v = import_run(b, name, info, is_dir, source, now);
            let after = imported_in(b, name, info, is_dir, source, now);
            &&& v.imported.len() + v.skipped == source.len()
            &&& b.cards.len() <= after.cards.len()
            &&& forall|i: int| 0 <= i < b.cards.len() ==> after.cards[i] == #[trigger] b.cards[i]
            &&& after.links == b.links
            &&& after.events == b.events
        }),
{
    let c = target_in(b, name, info, is_dir, now);
    let p = target_project(b, name, info, is_dir, now);
    lemma_source_order(source);
    lemma_import_all(c, source, source_order(source), p);
}

/// Card by card, a dry run counts what an import does.
proof fn lemma_plan_is_import(b: BacklogView, source: Seq<CardView>, order: Seq<usize>, p: ProjectView)
    ensures
        ({
            let v = import_all(b, source, order, p);
            let (ids, skipped, notes) = plan_all(b.cards, source, order, p.id);
            old_ids(ids) == old_ids(v.imported) && skipped == v.skipped && notes == v.notes
        }),
    decreases order.len(),
{
    if order.len() == 0 {
        assert(old_ids(Seq::empty()) =~= Seq::<i64>::empty());
    } else {
        lemma_plan_is_import(b, source, order.drop_last(), p);
        let u = import_all(b, source, order.drop_last(), p);
        let v = import_all(b, source, order, p);
        let (before, _, _) = plan_all(b.cards, source, order.drop_last(), p.id);
        let (ids, _, _) = plan_all(b.cards, source, order, p.id);
        let c = source[order.last() as int];
        if !came_before(b.cards, p.id, c) {
            assert(old_ids(ids) =~= old_ids(before).push(c.id));
            assert(old_ids(v.imported) =~= old_ids(u.imported).push(c.id));
        }
    }
}

/// Law: a dry run counts what would happen: of an import that is not refused
/// it names the same old ids, as many notes, as many cards already present
/// and the same page.
pub proof fn law_dry_run_counts_the_import(
    b: BacklogView,
    src: Seq<char>,
    name: Option<Seq<char>>,
    info: SourceView,
    is_dir: bool,
    source: Seq<CardView>,
    now: Seq<char>,
)
    requires
        import_refusal(b, name, info, is_dir, source) is None,
    ensures
        ({
            let dry = planned(b, src, name, info, source, now);
            let done = outcome_of(
                src,
                target_project(b, name, info, is_dir, now),
                known_target(b.projects, name, info) < 0,
                import_run(b, name, info, is_dir, source, now),
                info,
            );
            &&& old_ids(dry.imported) == old_ids(done.imported)
            &&& dry.skipped == done.skipped
            &&& dry.notes == done.notes
            &&& dry.autoexport == done.autoexport
        }),
{
    let c = target_in(b, name, info, is_dir, now);
    let p = target_project(b, name, info, is_dir, now);
    assert(c.cards == b.cards);
    assert(p.id == target_id(b, name, info));
    lemma_plan_is_import(c, source, source_order(source), p);
}

/// Law: only a card that came in before is skipped. Of a file whose cards
/// the project does not know, all are imported, also where their old ids are
/// those of cards from another file.
pub proof fn law_unknown_cards_are_imported(
    b: BacklogView,
    name: Option<Seq<char>>,
    info: SourceView,
    is_dir: bool,
    source: Seq<CardView>,
    now: Seq<char>,
)
    requires
        source.len() <= usize::MAX,
        import_refusal(b, name, info, is_dir, source) is None,
        forall|k: int|
            0 <= k < source.len() ==> !came_before(b.cards, target_id(b, name, info), #[trigger] source[k]),
    ensures
        ({
            let v = import_run(b, name, info, is_dir, source, now);
            v.skipped == 0 && v.imported.len() == source.len()
        }),
{
    let c = target_in(b, name, info, is_dir, now);
    let p = target_project(b, name, info, is_dir, now);
    lemma_source_order(source);
    lemma_none_skipped(c, source, source_order(source), p);
}

proof fn lemma_none_skipped(b: BacklogView, source: Seq<CardView>, order: Seq<usize>, p: ProjectView)
    requires
        forall|k: int| 0 <= k < source.len() ==> !came_before(b.cards, p.id, #[trigger] source[k]),
        forall|k: int| 0 <= k < order.len() ==> (#[trigger] order[k]) < source.len(),
    ensures
        import_all(b, source, order, p).skipped == 0,
        import_all(b, source, order, p).imported.len() == order.len(),
    decreases order.len(),
{
    if order.len() > 0 {
        let front = order.drop_last();
        assert forall|k: int| 0 <= k < front.len() implies (#[trigger] front[k]) < source.len() by {
            assert(front[k] == order[k]);
        }
        lemma_none_skipped(b, source, front, p);
        assert(order[order.len() - 1] < source.len());
        assert(!came_before(b.cards, p.id, source[order.last() as int]));
    }
}

// ------------------------------------------------------------- executable

fn imported_before(cards: &Vec<Card>, upto: usize, project: i64, c: &Card) -> (r: bool)
    requires
        upto <= cards@.len(),
    ensures
        r == came_before(card_views(cards@).take(upto as int), project, c@),
{
    let ghost cv = card_views(cards@).take(upto as int);
    let mut i: usize = 0;
    while i < upto
        invariant
            i <= upto <= cards@.len(),
            cv == card_views(cards@).take(upto as int),
            forall|k: int| 0 <= k < i ==> !((#[trigger] cv[k]).project_id == project && comes_from(cv[k], c@)),
        decreases upto - i,
    {
        assert(cv[i as int] == cards@[i as int]@);
        if cards[i].project_id == project {
            match cards[i].legacy_id {
                Some(n) => {
                    if n == c.id && same(cards[i].created_at.as_str(), c.created_at.as_str()) {
                        return true;
                    }
                },
                None => {},
            }
        }
        i = i + 1;
    }
    false
}

fn rows_anew(entries: &Vec<Note>) -> (out: Vec<Note>)
    ensures
        note_views(out@) == fresh_rows(note_views(entries@)),
{
    let ghost wanted = fresh_rows(note_views(entries@));
    let mut out: Vec<Note> = Vec::new();
    let mut i: usize = 0;
    while i < entries.len()
        invariant
            i <= entries@.len(),
            wanted == fresh_rows(note_views(entries@)),
            note_views(out@) == wanted.take(i as int),
        decreases entries.len() - i,
    {
        let ghost before = note_views(out@);
        let mut n = entries[i].clone();
        n.id = 0;
        assert(n@ =~= wanted[i as int]);
        out.push(n);
        assert(note_views(out@) =~= before.push(wanted[i as int]));
        assert(wanted.take(i + 1) =~= wanted.take(i as int).push(wanted[i as int]));
        i = i + 1;
    }
    assert(wanted.take(i as int) =~= wanted);
    out
}

fn transplant(c: &Card, id: i64, p: &Project) -> (r: Card)
    ensures
        r@ == transplanted(c@, id, p@),
{
    let mut r = c.clone();
    r.id = id;
    r.project_id = p.id;
    r.project = p.name.clone();
    r.legacy_id = Some(c.id);
    r.entries = rows_anew(&c.entries);
    let ghost moved = CardView {
        id,
        project_id: p@.id,
        project: p@.name,
        legacy_id: Some(c@.id),
        entries: fresh_rows(c@.entries),
        ..c@
    };
    assert(r@ =~= moved);
    assert(r@.entries.len() == r.entries@.len());
    if r.entries.len() == 0 {
        reconcile(&mut r);
    }
    r
}

fn count_notes(c: &Card) -> (n: usize)
    ensures
        n == notes_with(c@),
{
    assert(c@.entries.len() == c.entries@.len());
    if c.entries.len() == 0 {
        let ls = keep_nonblank(lines_of(c.notes.as_str()));
        assert(texts(ls@).len() == ls@.len());
        ls.len()
    } else {
        c.entries.len()
    }
}

fn all_positions(source: &Vec<Card>) -> (order: Vec<usize>)
    ensures
        order@ == source_order(card_views(source@)),
        forall|k: int| 0 <= k < order@.len() ==> (#[trigger] order@[k]) < source@.len(),
        order@.len() == source@.len(),
{
    let ghost flags = card_views(source@).map_values(|c: CardView| true);
    let mut keep: Vec<bool> = Vec::new();
    let mut i: usize = 0;
    while i < source.len()
        invariant
            i <= source@.len(),
            flags == card_views(source@).map_values(|c: CardView| true),
            keep@ == flags.take(i as int),
        decreases source.len() - i,
    {
        keep.push(true);
        assert(flags.take(i + 1) =~= flags.take(i as int).push(flags[i as int]));
        i = i + 1;
    }
    assert(flags.take(i as int) =~= flags);
    proof {
        lemma_source_order(card_views(source@));
    }
    numbered(source, &keep)
}

fn any_out_of_range(known: &Vec<Card>, project: i64, source: &Vec<Card>) -> (r: bool)
    ensures
        r == out_of_range(card_views(known@), project, card_views(source@)),
{
    let ghost sv = card_views(source@);
    let ghost kv = card_views(known@);
    let total: usize = known.len();
    assert(kv.take(total as int) =~= kv);
    let mut i: usize = 0;
    while i < source.len()
        invariant
            i <= source@.len(),
            sv == card_views(source@),
            kv == card_views(known@),
            total == known@.len(),
            kv.take(total as int) == kv,
            forall|k: int|
                0 <= k < i ==> in_range((#[trigger] sv[k]).priority) || came_before(kv, project, sv[k]),
        decreases source.len() - i,
    {
        assert(sv[i as int] == source@[i as int]@);
        if check_priority(source[i].priority).is_err() && !imported_before(known, total, project, &source[i]) {
            return true;
        }
        i = i + 1;
    }
    false
}

fn count_to_import(known: &Vec<Card>, project: i64, source: &Vec<Card>) -> (n: usize)
    ensures
        n == still_to_import(
            card_views(known@),
            project,
            card_views(source@),
            source_order(card_views(source@)),
        ),
{
    let ghost sv = card_views(source@);
    let ghost kv = card_views(known@);
    let total: usize = known.len();
    assert(kv.take(total as int) =~= kv);
    let order = all_positions(source);
    let mut n: usize = 0;
    let mut i: usize = 0;
    while i < order.len()
        invariant
            i <= order@.len(),
            sv == card_views(source@),
            kv == card_views(known@),
            total == known@.len(),
            kv.take(total as int) == kv,
            forall|k: int| 0 <= k < order@.len() ==> (#[trigger] order@[k]) < source@.len(),
            n == still_to_import(kv, project, sv, order@.take(i as int)),
            n <= i,
        decreases order.len() - i,
    {
        assert(order@.take(i + 1).drop_last() =~= order@.take(i as int));
        assert(order@.take(i + 1).last() == order@[i as int]);
        assert(order@[i as int] < source@.len());
        let c = &source[order[i]];
        assert(sv[order@[i as int] as int] == c@);
        if !imported_before(known, total, project, c) {
            n = n + 1;
        }
        i = i + 1;
    }
    assert(order@.take(i as int) =~= order@);
    n
}

fn find_target(projects: &Vec<Project>, name: Option<&str>, info: &SourceInfo) -> (r: Option<usize>)
    ensures
        match r {
            Some(at) => known_target(project_views(projects@), opt_text(name), info@) == at && at < projects@.len(),
            None => known_target(project_views(projects@), opt_text(name), info@) < 0,
        },
{
    match name {
        Some(n) => lookup(projects, n),
        None => by_path(projects, info.dir.as_str()),
    }
}

/// Adds to a count that stops at the highest number.
fn counted(n: usize, more: usize) -> (r: usize)
    ensures
        r == capped((n + more) as nat),
{
    if n > usize::MAX - more {
        usize::MAX
    } else {
        n + more
    }
}

/// What an import would do.
pub fn plan(
    b: &Backlog,
    src: &str,
    name: Option<&str>,
    info: &SourceInfo,
    source: &Vec<Card>,
    now: &str,
) -> (o: Outcome)
    ensures
        o@ == planned(b@, src@, opt_text(name), info@, card_views(source@), now@),
{
    let found = find_target(&b.projects, name, info);
    let target: i64 = match found {
        Some(at) => {
            assert(b@.projects[at as int] == b.projects@[at as int]@);
            b.projects[at].id
        },
        None => if b.last_project < i64::MAX {
            b.last_project + 1
        } else {
            0
        },
    };
    let p = match found {
        Some(at) => {
            assert(b@.projects[at as int] == b.projects@[at as int]@);
            b.projects[at].clone()
        },
        None => Project {
            id: 0,
            name: match name {
                Some(n) => copy(n),
                None => info.name.clone(),
            },
            path: info.dir.clone(),
            active: true,
            autoexport: String::new(),
            created_at: copy(now),
        },
    };
    let ghost pv = planned_project(b@.projects, opt_text(name), info@, now@);
    assert(p@ =~= pv);
    let ghost sv = card_views(source@);
    let order = all_positions(source);
    let total: usize = b.cards.len();
    let mut imported: Vec<(i64, i64)> = Vec::new();
    let mut skipped: usize = 0;
    let mut notes: usize = 0;
    let mut i: usize = 0;
    assert(b@.cards.take(total as int) =~= b@.cards);
    while i < order.len()
        invariant
            i <= order@.len(),
            order@.len() == source@.len(),
            total == b.cards@.len(),
            b@.cards.take(total as int) == b@.cards,
            sv == card_views(source@),
            p@ == pv,
            forall|k: int| 0 <= k < order@.len() ==> (#[trigger] order@[k]) < source@.len(),
            ({
                let (ids, s, n) = plan_all(b@.cards, sv, order@.take(i as int), target);
                imported@ == ids && skipped == s && notes == capped(n) && s <= i
            }),
        decreases order.len() - i,
    {
        assert(order@.take(i + 1).drop_last() =~= order@.take(i as int));
        assert(order@.take(i + 1).last() == order@[i as int]);
        assert(order@[i as int] < source@.len());
        let c = &source[order[i]];
        assert(sv[order@[i as int] as int] == c@);
        if imported_before(&b.cards, total, target, c) {
            skipped = skipped + 1;
        } else {
            imported.push((c.id, 0));
            notes = counted(notes, count_notes(c));
        }
        i = i + 1;
    }
    assert(order@.take(i as int) =~= order@);
    let autoexport = if p.autoexport.as_str().is_empty() && !info.autoexport.as_str().is_empty() {
        Some(info.autoexport.clone())
    } else {
        None
    };
    Outcome {
        source: copy(src),
        project: p.name.clone(),
        project_id: p.id,
        project_created: false,
        imported,
        skipped,
        notes,
        autoexport,
        dry_run: true,
    }
}

impl Backlog {
    fn import_cards(&mut self, source: &Vec<Card>, p: &Project) -> (r: (Vec<(i64, i64)>, usize, usize))
        requires
            still_to_import(
                old(self)@.cards,
                p@.id,
                card_views(source@),
                source_order(card_views(source@)),
            ) <= i64::MAX - old(self)@.last_id,
            !out_of_range(old(self)@.cards, p@.id, card_views(source@)),
        ensures
            ({
                let v = import_all(old(self)@, card_views(source@), source_order(card_views(source@)), p@);
                final(self)@ == v.b && r.0@ == v.imported && r.1 == v.skipped && r.2 == capped(v.notes)
            }),
            sound(old(self)@) ==> sound(final(self)@),
    {
        let ghost before = self@;
        let ghost sv = card_views(source@);
        let order = all_positions(source);
        let total: usize = self.cards.len();
        let mut imported: Vec<(i64, i64)> = Vec::new();
        let mut skipped: usize = 0;
        let mut notes: usize = 0;
        let mut i: usize = 0;
        assert(order@.take(0) =~= Seq::<usize>::empty());
        while i < order.len()
            invariant
                i <= order@.len(),
                order@.len() == source@.len(),
                still_to_import(before.cards, p@.id, sv, order@) <= i64::MAX - before.last_id,
                total == before.cards.len(),
                sv == card_views(source@),
                forall|k: int| 0 <= k < order@.len() ==> (#[trigger] order@[k]) < source@.len(),
                ({
                    let v = import_all(before, sv, order@.take(i as int), p@);
                    self@ == v.b && imported@ == v.imported && skipped == v.skipped && notes == capped(v.notes)
                }),
            decreases order.len() - i,
        {
            let ghost taken = order@.take(i as int);
            assert(order@.take(i + 1).drop_last() =~= taken);
            assert(order@.take(i + 1).last() == order@[i as int]);
            assert(order@[i as int] < source@.len());
            proof {
                assert forall|k: int| 0 <= k < taken.len() implies (#[trigger] taken[k]) < sv.len() by {
                    assert(taken[k] == order@[k]);
                }
                lemma_fewer_to_import(before.cards, p@.id, sv, order@, i + 1);
                assert(still_to_import(before.cards, p@.id, sv, order@.take(i + 1)) == still_to_import(
                    before.cards,
                    p@.id,
                    sv,
                    taken,
                ) + if came_before(before.cards, p@.id, sv[order@[i as int] as int]) {
                    0nat
                } else {
                    1nat
                });
                lemma_import_all(before, sv, taken, p@);
            }
            let ghost now_cards = self@.cards;
            assert(now_cards.take(total as int) =~= before.cards);
            let c = &source[order[i]];
            assert(sv[order@[i as int] as int] == c@);
            if imported_before(&self.cards, total, p.id, c) {
                skipped = skipped + 1;
            } else {
                let id: i64 = self.last_id + 1;
                let fresh = transplant(c, id, p);
                imported.push((c.id, id));
                notes = counted(notes, count_notes(c));
                self.cards.push(fresh);
                self.last_id = id;
                assert(self@.cards =~= now_cards.push(fresh@));
                assert(self@ =~= import_all(before, sv, order@.take(i + 1), p@).b);
            }
            i = i + 1;
        }
        assert(order@.take(i as int) =~= order@);
        proof {
            lemma_import_all(before, sv, order@, p@);
        }
        (imported, skipped, notes)
    }

    /// Imports the cards of a source. Where the project is not there yet it
    /// is registered for the source's directory. A refused import brings no
    /// card; the project is registered all the same, unless that is what is
    /// refused.
    pub fn import(
        &mut self,
        src: &str,
        name: Option<&str>,
        info: &SourceInfo,
        is_dir: bool,
        source: &Vec<Card>,
        now: &str,
    ) -> (r: Result<Outcome, Refusal>)
        ensures
            ({
                let b = old(self)@;
                let sv = card_views(source@);
                match r {
                    Ok(o) => {
                        &&& import_refusal(b, opt_text(name), info@, is_dir, sv) is None
                        &&& final(self)@ == imported_in(b, opt_text(name), info@, is_dir, sv, now@)
                        &&& o@ == outcome_of(
                            src@,
                            target_project(b, opt_text(name), info@, is_dir, now@),
                            known_target(b.projects, opt_text(name), info@) < 0,
                            import_run(b, opt_text(name), info@, is_dir, sv, now@),
                            info@,
                        )
                    },
                    Err(e) => import_refusal(b, opt_text(name), info@, is_dir, sv) == Some(e@) && final(self)@
                        == left_by_refusal(b, opt_text(name), info@, is_dir, now@),
                }
            }),
            sound(old(self)@) ==> sound(final(self)@),
    {
        let ghost before = self@;
        let ghost sv = card_views(source@);
        let found = find_target(&self.projects, name, info);
        // the name a new project gets
        let given: Option<&str> = match name {
            Some(n) => Some(n),
            None => if check_add(&self.projects, info.dir.as_str(), is_dir, Some(info.name.as_str())).is_ok()
                && self.last_project != i64::MAX {
                Some(info.name.as_str())
            } else {
                None
            },
        };
        assert(opt_text(given) == target_name(before, opt_text(name), info@, is_dir));
        let p = match found {
            Some(at) => {
                assert(before.projects[at as int] == self.projects@[at as int]@);
                self.projects[at].clone()
            },
            None => {
                match self.add_project(info.dir.as_str(), is_dir, given, now) {
                    Ok(_) => {},
                    Err(e) => {
                        return Err(e);
                    },
                }
                let n: usize = self.projects.len();
                assert(self@.projects.len() == n);
                assert(self@.projects[n - 1] == self.projects@[n - 1]@);
                self.projects[n - 1].clone()
            },
        };
        assert(p@ == target_project(before, opt_text(name), info@, is_dir, now@));
        assert(self@ == target_in(before, opt_text(name), info@, is_dir, now@));
        assert(p.id == target_id(before, opt_text(name), info@));
        if any_out_of_range(&self.cards, p.id, source) {
            return Err(Refusal::PriorityRange);
        }
        let left: usize = count_to_import(&self.cards, p.id, source);
        if left as i128 > i64::MAX as i128 - self.last_id as i128 {
            return Err(Refusal::StoreFull);
        }
        let (imported, skipped, notes) = self.import_cards(source, &p);
        let autoexport = if p.autoexport.as_str().is_empty() && !info.autoexport.as_str().is_empty() {
            self.set_autoexport(p.id, info.autoexport.as_str());
            Some(info.autoexport.clone())
        } else {
            None
        };
        Ok(
            Outcome {
                source: copy(src),
                project: p.name.clone(),
                project_id: p.id,
                project_created: found.is_none(),
                imported,
                skipped,
                notes,
                autoexport,
                dry_run: false,
            },
        )
    }
}

/// One line for one import.
pub fn summary(o: &Outcome) -> (out: String)
    ensures
        out@ == summary_text(o@),
{
    let lead = if o.dry_run {
        "would import "
    } else {
        "imported "
    };
    let fresh = if o.project_created {
        " (new)"
    } else {
        ""
    };
    let page = match &o.autoexport {
        Some(a) => copy("; auto-export → ").concat(a.as_str()),
        None => String::new(),
    };
    copy(lead).concat(o.source.as_str()).concat(" → project '").concat(o.project.as_str()).concat("'").concat(
        fresh,
    ).concat(": ").concat(decimal_count(o.imported.len()).as_str()).concat(" card(s) imported, ").concat(
        decimal_count(o.notes).as_str(),
    ).concat(" note(s), ").concat(decimal_count(o.skipped).as_str()).concat(" already present").concat(page.as_str())
}

// ------------------------------------------------------------- candidates

/// The places worth importing: files, other than the store, none twice.
pub open spec fn worth(places: Seq<Seq<char>>, is_file: Seq<bool>, store: Seq<char>) -> Seq<Seq<char>>
    decreases places.len(),
{
    if places.len() == 0 {
        places
    } else {
        let before = worth(places.drop_last(), is_file, store);
        if places.last() != store && is_file[places.len() - 1] && !before.contains(places.last()) {
            before.push(places.last())
        } else {
            before
        }
    }
}

/// The places worth importing: files, other than the store, none twice.
pub fn candidates(places: &Vec<String>, is_file: &Vec<bool>, store: &str) -> (out: Vec<String>)
    requires
        is_file@.len() == places@.len(),
    ensures
        texts(out@) == worth(texts(places@), is_file@, store@),
{
    let ghost all = texts(places@);
    let mut out: Vec<String> = Vec::new();
    let mut i: usize = 0;
    assert(texts(out@) =~= worth(all.take(0), is_file@, store@));
    while i < places.len()
        invariant
            i <= places@.len(),
            is_file@.len() == places@.len(),
            all == texts(places@),
            texts(out@) == worth(all.take(i as int), is_file@, store@),
        decreases places.len() - i,
    {
        assert(all.take(i + 1).drop_last() =~= all.take(i as int));
        assert(all.take(i + 1).last() == places@[i as int]@);
        if is_file[i] && !same(places[i].as_str(), store) && !crate::text::among(&out, places[i].as_str()) {
            let ghost before = texts(out@);
            out.push(places[i].clone());
            assert(texts(out@) =~= before.push(all[i as int]));
        }
        i = i + 1;
    }
    assert(all.take(i as int) =~= all);
    out
}

} // verus!
