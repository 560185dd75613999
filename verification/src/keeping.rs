//! What is kept when commits are named, notes written down, cards brought
//! together and older databases opened.

use vstd::prelude::*;

use crate::backlog::{sound, BacklogView};
use crate::card::{has_card, position, CardView};
use crate::commits::{complaint, found_commit, revision_of, sha_and_subject};
use crate::import::{
    came_before, import_all, notes_with, outcome_of, planned_project, summary_text, OutcomeView, Progress, SourceView,
};
use crate::links::{held_back, link_sound, named_kind, rels, LinkKind, LinkView, RelView, Role};
use crate::notes::{rendered, NoteView};
use crate::number::dec;
use crate::print::wait_words;
use crate::project::{looked_up, with_path, ProjectView};
use crate::refusal::{refusal_text, RefusalView};
use crate::registry::{
    adopt_refusal, adopted_in, begun_in, ids_of, lemma_deleted_each, removal_reason, removed_in, total_of,
};
use crate::status::{status_name, Status};
use crate::tags::{is_tag, marked, tags};
use crate::telling::{ends_with, law_card_waits_on_open_blockers};
use crate::tending::{law_project_cards_are_counted, law_relations_are_the_links, relates};
use crate::text::{
    blank, contains, cuts, is_space, lemma_first_of, lemma_first_of_at, lemma_split_whole, lemma_trim,
    lemma_trim_fixed, lines, occurs_at, split, starts_with, trim, Sep,
};
use crate::writing::lemma_part_is_there;

verus! {

// ------------------------------------------------------------- commits

/// Law: the revision asked for is the one named, and `HEAD` where none is.
pub proof fn law_revision_asked_for(rev: Seq<char>)
    ensures
        blank(rev) ==> revision_of(rev) == "HEAD"@,
        !blank(rev) && trim(rev) == rev ==> revision_of(rev) == rev,
        !blank(rev) ==> revision_of(rev) == revision_of(trim(rev)),
{
    if !blank(rev) {
        lemma_trim(rev);
        lemma_trim(trim(rev));
        lemma_trim_fixed(trim(rev));
    }
}

/// Law: a line of a commit is read as the commit before its first tab and
/// the subject behind it; without a tab all of it is the commit.
pub proof fn law_commit_line_reads_back(sha: Seq<char>, subject: Seq<char>)
    requires
        forall|i: int| 0 <= i < sha.len() ==> #[trigger] sha[i] != '\t',
    ensures
        sha_and_subject(sha + seq!['\t'] + subject) == (sha, subject),
        sha_and_subject(sha) == (sha, Seq::<char>::empty()),
{
    let l = sha + seq!['\t'] + subject;
    let n = sha.len() as int;
    assert(l[n] == '\t');
    assert forall|i: int| 0 <= i < n implies #[trigger] l[i] != '\t' by {
        assert(l[i] == sha[i]);
    }
    lemma_first_of_at(l, '\t', n);
    assert(l.take(n) =~= sha);
    assert(l.skip(n + 1) =~= subject);
    lemma_first_of(sha, '\t');
}

/// Law: git is asked for a commit and gives it with its subject; where it
/// fails, the first line of its complaint is told, and where it gives
/// nothing, that.
pub proof fn law_commit_is_what_git_says(sha: Seq<char>, subject: Seq<char>, other: Seq<char>, rev: Seq<char>)
    requires
        sha.len() > 0,
        forall|i: int| 0 <= i < sha.len() ==> !is_space(#[trigger] sha[i]),
        subject.len() > 0,
        !is_space(subject.last()),
    ensures
        found_commit(true, sha + seq!['\t'] + subject, other, rev) == Ok::<(Seq<char>, Seq<char>), RefusalView>(
            (sha, subject),
        ),
        found_commit(false, other, sha, rev) == Err::<(Seq<char>, Seq<char>), RefusalView>(
            RefusalView::GitUnresolved(rev, sha),
        ),
        blank(other) ==> found_commit(true, other, sha, rev) == Err::<(Seq<char>, Seq<char>), RefusalView>(
            RefusalView::GitNoCommit(rev),
        ),
        blank(other) ==> complaint(other) == "not a git repository?"@,
{
    let l = sha + seq!['\t'] + subject;
    assert forall|i: int| 0 <= i < sha.len() implies #[trigger] sha[i] != '\t' by {
        assert(!is_space(sha[i]));
    }
    law_commit_line_reads_back(sha, subject);
    assert(!is_space(sha[0]));
    assert(l[0] == sha[0]);
    assert(l.last() == subject.last());
    lemma_trim_fixed(l);
    assert(!is_space(sha[sha.len() - 1]));
    lemma_trim_fixed(sha);
    assert forall|i: int| 0 <= i < sha.len() implies !cuts(Sep::Char('\n'), #[trigger] sha[i]) by {
        assert(!is_space(sha[i]));
    }
    lemma_split_whole(sha, Sep::Char('\n'));
    assert(lines(sha) =~= seq![sha]);
    if blank(other) {
        lemma_trim(other);
        let t = trim(other);
        assert(t =~= Seq::<char>::empty());
        lemma_first_of(t, '\t');
        assert(split(t, Sep::Char('\n')) =~= seq![t]);
        assert(lines(t).len() == 0);
    }
}

// ------------------------------------------------------------- notes

/// Law: a note is written down as its text, behind its kind where that says
/// more than that it is a note, and before its commit where it has one.
pub proof fn law_note_is_written_down(n: NoteView)
    ensures
        contains(rendered(n), n.body),
        (n.kind == "note"@ || n.kind.len() == 0) && n.commit_sha.len() == 0 ==> rendered(n) == n.body,
        n.kind != "note"@ && n.kind.len() > 0 ==> starts_with(rendered(n), "["@ + n.kind + "] "@ + n.body),
        n.commit_sha.len() > 0 ==> ends_with(rendered(n), n.body + " ["@ + n.commit_sha + "]"@),
{
    let head = if n.kind != "note"@ && n.kind.len() > 0 { "["@ + n.kind + "] "@ } else { Seq::empty() };
    let tail = if n.commit_sha.len() > 0 { " ["@ + n.commit_sha + "]"@ } else { Seq::empty() };
    let t = rendered(n);
    lemma_part_is_there(head, n.body, tail);
    if head.len() == 0 && tail.len() == 0 {
        assert(t =~= n.body);
    }
    let a = head + n.body;
    assert(t.subrange(0, a.len() as int) =~= a);
    if n.commit_sha.len() > 0 {
        let z = n.body + " ["@ + n.commit_sha + "]"@;
        assert(t =~= head + z);
        assert(t.skip(t.len() - z.len()) =~= z);
    }
}

// ------------------------------------------------------------- tags

/// Law: a tag marks the labels that have it; no tag marks the labels that
/// have none.
pub proof fn law_what_marks_a_label(label: Seq<char>, value: Seq<char>)
    ensures
        is_tag(value) ==> (marked(label, value) <==> tags(label).contains(value)),
        marked(Seq::empty(), Seq::empty()),
        is_tag(label) ==> !marked(label, Seq::empty()),
{
    let none = Seq::<char>::empty();
    let comma = ","@;
    reveal_strlit(",");
    assert(crate::tags::fenced(none) =~= seq![',', ',']);
    assert(crate::tags::fenced(none).subrange(0, 2) =~= crate::tags::fenced(none));
    assert(occurs_at(crate::tags::fenced(none), crate::tags::fenced(none), 0));
    if is_tag(label) && marked(label, none) {
        let f = crate::tags::fenced(label);
        let at = choose|at: int| occurs_at(f, crate::tags::fenced(none), at);
        let s = f.subrange(at, at + 2);
        assert(s[0] == ',' && s[1] == ',');
        assert(f[at] == ',' && f[at + 1] == ',');
        if at == 0 {
            assert(f[1] == label[0]);
        } else {
            assert(f[at] == label[at - 1]);
        }
    }
}

/// Law: tags are cut at commas and at white space of any kind, and a tag
/// that is there twice counts once.
pub proof fn law_tags_are_cut_at_commas_and_blanks(t: Seq<char>, u: Seq<char>, c: char)
    requires
        t.len() > 0,
        u.len() > 0,
        forall|i: int| 0 <= i < t.len() ==> #[trigger] t[i] != ',' && !is_space(t[i]),
        forall|i: int| 0 <= i < u.len() ==> #[trigger] u[i] != ',' && !is_space(u[i]),
        c == ',' || is_space(c),
    ensures
        tags(t + seq![c] + u) == if t == u { seq![t] } else { seq![t, u] },
        tags(t) == seq![t],
        tags(Seq::empty()).len() == 0,
{
    let sep = Sep::Tag;
    assert forall|i: int| 0 <= i < t.len() implies !cuts(sep, #[trigger] t[i]) by {}
    assert forall|i: int| 0 <= i < u.len() implies !cuts(sep, #[trigger] u[i]) by {}
    lemma_split_whole(t, sep);
    crate::text::lemma_split_append(t, c, u, sep);
    let v = seq![t].push(u);
    assert(v.drop_last() =~= seq![t]);
    assert(seq![t].drop_last() =~= Seq::<Seq<char>>::empty());
    reveal_with_fuel(crate::text::nonempty, 3);
    reveal_with_fuel(crate::tags::first_seen, 3);
    assert(crate::text::nonempty(v) =~= v);
    assert(crate::text::nonempty(seq![t]) =~= seq![t]);
    let none = Seq::<Seq<char>>::empty();
    assert(crate::tags::first_seen(none) =~= none);
    assert(crate::tags::first_seen(seq![t]) =~= seq![t]);
    assert(seq![t].contains(u) <==> t == u) by {
        assert(seq![t][0] == t);
    }
    assert(v =~= seq![t, u]);
    let e = Seq::<char>::empty();
    assert(split(e, sep) =~= seq![e]);
    assert(seq![e].drop_last() =~= none);
    assert(crate::text::nonempty(seq![e]) =~= none);
}

// ------------------------------------------------------------- links

/// Law: a kind of link has one name, and no other name means it.
pub proof fn law_kinds_of_links_have_names(name: Seq<char>)
    ensures
        named_kind(name) == Some(LinkKind::Blocks) <==> name == "blocks"@,
        named_kind(name) == Some(LinkKind::ChildOf) <==> name == "child_of"@,
        named_kind(name) == Some(LinkKind::Related) <==> name == "related"@,
        named_kind(name) is None <==> name != "blocks"@ && name != "child_of"@ && name != "related"@,
{
    reveal_strlit("blocks");
    reveal_strlit("child_of");
    reveal_strlit("related");
    assert("blocks"@.len() == 6 && "child_of"@.len() == 8 && "related"@.len() == 7);
}

/// Law: a card is held back exactly where it is told to wait on something.
pub proof fn law_held_back_is_told(cards: Seq<CardView>, links: Seq<LinkView>, id: i64)
    requires
        forall|k: int| 0 <= k < links.len() ==> link_sound(cards, #[trigger] links[k]),
    ensures
        held_back(cards, links, id) <==> wait_words(rels(cards, links, id)).len() > 0,
{
    let rs = rels(cards, links, id);
    law_card_waits_on_open_blockers(rs);
    assert forall|k: int| 0 <= k < links.len() implies (#[trigger] links[k]).from != links[k].to by {
        assert(link_sound(cards, links[k]));
    }
    if held_back(cards, links, id) {
        let k = choose|k: int|
            0 <= k < links.len() && (#[trigger] links[k]).kind == LinkKind::Blocks && links[k].to == id && has_card(
                cards,
                links[k].from,
            ) && cards[position(cards, links[k].from)].status != Status::Done;
        let other = links[k].from;
        law_relations_are_the_links(cards, links, id, Role::BlockedBy, other);
        assert(relates(links[k], id, Role::BlockedBy, other));
        let r = choose|r: RelView| #[trigger] rs.contains(r) && r.rel == Role::BlockedBy && r.id == other;
        let i = choose|i: int| 0 <= i < rs.len() && rs[i] == r;
        assert(rs[i].status != Status::Done);
    }
    if wait_words(rs).len() > 0 {
        let i = choose|i: int| 0 <= i < rs.len() && (#[trigger] rs[i]).rel == Role::BlockedBy && rs[i].status != Status::Done;
        let other = rs[i].id;
        law_relations_are_the_links(cards, links, id, Role::BlockedBy, other);
        assert(rs.contains(rs[i]));
        let k = choose|k: int| 0 <= k < links.len() && relates(#[trigger] links[k], id, Role::BlockedBy, other);
        assert(links[k].kind == LinkKind::Blocks && links[k].to == id);
    }
}

// ------------------------------------------------------------- imports

/// Law: an import counts each card of the source once: as imported, with its
/// old id and in order, or as there already.
pub proof fn law_import_counts_each_card(b: BacklogView, source: Seq<CardView>, order: Seq<usize>, p: ProjectView)
    ensures
        ({
            let v = import_all(b, source, order, p);
            let come = order.filter(|k: usize| !came_before(b.cards, p.id, source[k as int]));
            &&& v.imported.len() == come.len()
            &&& v.imported.len() + v.skipped == order.len()
            &&& forall|j: int| 0 <= j < come.len() ==> (#[trigger] v.imported[j]).0 == source[come[j] as int].id
        }),
    decreases order.len(),
{
    reveal(Seq::filter);
    if order.len() > 0 {
        law_import_counts_each_card(b, source, order.drop_last(), p);
        let f = |k: usize| !came_before(b.cards, p.id, source[k as int]);
        let before = order.drop_last().filter(f);
        let come = order.filter(f);
        let u = import_all(b, source, order.drop_last(), p);
        let v = import_all(b, source, order, p);
        assert forall|j: int| 0 <= j < come.len() implies (#[trigger] v.imported[j]).0 == source[come[j] as int].id by {
            if j < before.len() {
                assert(v.imported[j] == u.imported[j]);
                assert(come[j] == before[j]);
            }
        }
    }
}

/// Law: as many notes come with a card as it has rows; where it has none, as
/// many as its notes have lines that are not blank.
pub proof fn law_notes_that_come_with_a_card(c: CardView)
    ensures
        c.entries.len() > 0 ==> notes_with(c) == c.entries.len(),
        c.entries.len() == 0 ==> notes_with(c) == crate::text::nonblank(lines(c.notes)).len(),
{
}

/// Law: what is told of an import is where it came from, the project it went
/// to, what was counted, and the page that the project took over: the
/// source's, where the project had none.
pub proof fn law_outcome_tells_the_import(src: Seq<char>, p: ProjectView, created: bool, v: Progress, info: SourceView)
    requires
        v.notes <= usize::MAX,
    ensures
        ({
            let o = outcome_of(src, p, created, v, info);
            &&& o.source == src
            &&& o.project == p.name
            &&& o.project_id == p.id
            &&& o.project_created == created
            &&& o.imported == v.imported
            &&& o.skipped == v.skipped
            &&& o.notes == v.notes
            &&& !o.dry_run
            &&& o.autoexport is Some <==> p.autoexport.len() == 0 && info.autoexport.len() > 0
            &&& o.autoexport is Some ==> o.autoexport->0 == info.autoexport
        }),
{
}

/// Law: a dry run is told of the project that an import would go to: the one
/// that is there, else one with the name it would be given.
pub proof fn law_dry_run_names_the_project(projects: Seq<ProjectView>, name: Option<Seq<char>>, info: SourceView, now: Seq<char>)
    ensures
        ({
            let p = planned_project(projects, name, info, now);
            let at = match name {
                Some(n) => looked_up(projects, n),
                None => with_path(projects, info.dir),
            };
            &&& at >= 0 ==> p == projects[at]
            &&& at < 0 ==> p.id == 0 && p.path == info.dir && p.active && p.autoexport.len() == 0
            &&& at < 0 && name is Some ==> p.name == name->0
            &&& at < 0 && name is None ==> p.name == info.name
        }),
{
}

/// Law: the line for an import tells whether it was done, where it came
/// from, its project and its counts.
pub proof fn law_summary_tells_the_outcome(o: OutcomeView)
    ensures
        ({
            let t = summary_text(o);
            &&& o.dry_run ==> starts_with(t, "would import "@ + o.source + " → project '"@ + o.project + "'"@)
            &&& !o.dry_run ==> starts_with(t, "imported "@ + o.source + " → project '"@ + o.project + "'"@)
            &&& contains(
                t,
                ": "@ + dec(o.imported.len() as int) + " card(s) imported, "@ + dec(o.notes as int) + " note(s), "@ + dec(
                    o.skipped as int,
                ) + " already present"@,
            )
            &&& o.autoexport matches Some(a) ==> ends_with(t, "; auto-export → "@ + a)
            &&& o.project_created ==> contains(t, "' (new): "@)
        }),
{
    let lead = if o.dry_run { "would import "@ } else { "imported "@ };
    let fresh = if o.project_created { " (new)"@ } else { ""@ };
    let page = match o.autoexport {
        Some(a) => "; auto-export → "@ + a,
        None => Seq::empty(),
    };
    lemma_summary(
        lead,
        o.source,
        " → project '"@,
        o.project,
        "'"@,
        fresh,
        ": "@,
        dec(o.imported.len() as int),
        " card(s) imported, "@,
        dec(o.notes as int),
        " note(s), "@,
        dec(o.skipped as int),
        " already present"@,
        page,
    );
    if o.project_created {
        reveal_strlit("'");
        reveal_strlit(" (new)");
        reveal_strlit(": ");
        reveal_strlit("' (new): ");
        assert("'"@ + " (new)"@ + ": "@ =~= "' (new): "@);
    }
}

/// Parts of the line for an import.
#[verifier::rlimit(40)]
proof fn lemma_summary(
    a: Seq<char>,
    b: Seq<char>,
    c: Seq<char>,
    d: Seq<char>,
    e: Seq<char>,
    f: Seq<char>,
    g: Seq<char>,
    h: Seq<char>,
    i: Seq<char>,
    j: Seq<char>,
    k: Seq<char>,
    l: Seq<char>,
    m: Seq<char>,
    n: Seq<char>,
)
    ensures
        ({
            let t = a + b + c + d + e + f + g + h + i + j + k + l + m + n;
            &&& starts_with(t, a + b + c + d + e)
            &&& contains(t, e + f + g)
            &&& contains(t, g + h + i + j + k + l + m)
            &&& ends_with(t, n)
        }),
{
    let t = a + b + c + d + e + f + g + h + i + j + k + l + m + n;
    let start = a + b + c + d + e;
    assert(starts_with(t, start)) by {
        assert(t.subrange(0, start.len() as int) =~= start);
    }
    assert(contains(t, e + f + g)) by {
        let x = a + b + c + d;
        let y = e + f + g;
        assert(t.subrange(x.len() as int, (x.len() + y.len()) as int) =~= y);
        assert(occurs_at(t, y, x.len() as int));
    }
    assert(contains(t, g + h + i + j + k + l + m)) by {
        let x = a + b + c + d + e + f;
        let y = g + h + i + j + k + l + m;
        assert(t.subrange(x.len() as int, (x.len() + y.len()) as int) =~= y);
        assert(occurs_at(t, y, x.len() as int));
    }
    assert(ends_with(t, n)) by {
        assert(t.skip(t.len() - n.len()) =~= n);
    }
}

// ------------------------------------------------------------- older databases

/// Law: opening the store gives the cards that belonged to no project to the
/// only project there is; every other card stays as it is.
pub proof fn law_cards_without_a_project_are_adopted(b: BacklogView, dir: Seq<char>, central: bool, now: Seq<char>, k: int)
    requires
        b.projects.len() == 1,
        0 <= k < b.cards.len(),
    ensures
        ({
            let after = adopted_in(b, dir, central, now);
            let c = b.cards[k];
            let p = b.projects[0];
            &&& after.cards.len() == b.cards.len()
            &&& c.project_id == 0 ==> after.cards[k] == (CardView { project_id: p.id, project: p.name, ..c })
            &&& c.project_id != 0 ==> after.cards[k] == c
            &&& after == (BacklogView { cards: after.cards, ..b })
        }),
{
    if b.cards[k].project_id == 0 {
        lemma_counted(b.cards, k);
    }
}

proof fn lemma_counted(cards: Seq<CardView>, k: int)
    requires
        0 <= k < cards.len(),
        cards[k].project_id == 0,
    ensures
        total_of(cards, 0) > 0,
{
    law_project_cards_are_counted(cards, 0);
    let f = |c: CardView| c.project_id == 0;
    cards.lemma_filter_contains(f, k);
    assert(cards.filter(f).contains(cards[k]));
}

/// Law: a store without a project gets one where it holds cards that belong
/// to none: for the directory of the database, and with those cards; with
/// several projects nobody can tell whose they are, and the store is refused.
pub proof fn law_store_with_stray_cards(b: BacklogView, dir: Seq<char>, is_dir: bool, now: Seq<char>, k: int)
    requires
        0 <= k < b.cards.len(),
        b.cards[k].project_id == 0,
        b.last_project < i64::MAX,
    ensures
        b.projects.len() > 1 ==> adopt_refusal(b, dir, is_dir, true) is Some && adopt_refusal(b, dir, is_dir, false) is Some,
        b.projects.len() == 0 ==> ({
            let after = adopted_in(b, dir, true, now);
            let p = after.projects[0];
            &&& after.projects.len() == 1
            &&& p.path == dir && p.id == b.last_project + 1 && p.active
            &&& after.cards[k] == (CardView { project_id: p.id, project: p.name, ..b.cards[k] })
            &&& forall|j: int|
                0 <= j < b.cards.len() && b.cards[j].project_id != 0 ==> #[trigger] after.cards[j] == b.cards[j]
        }),
{
    lemma_counted(b.cards, k);
}

/// Law: a store with projects is refused only where it has several and holds
/// cards that belong to none, and is told how many those are.
pub proof fn law_when_a_store_is_refused(b: BacklogView, dir: Seq<char>, is_dir: bool, central: bool)
    requires
        b.projects.len() > 0,
    ensures
        ({
            let stray = b.cards.filter(|c: CardView| c.project_id == 0).len();
            &&& b.projects.len() > 1 && stray > 0 ==> adopt_refusal(b, dir, is_dir, central) == Some(
                RefusalView::Unassigned(stray),
            )
            &&& b.projects.len() == 1 || stray == 0 ==> adopt_refusal(b, dir, is_dir, central) is None
            &&& stray == 0 ==> adopted_in(b, dir, central, ""@) == b
        }),
{
    law_project_cards_are_counted(b.cards, 0);
    lemma_strays(b.cards);
}

proof fn lemma_strays(cards: Seq<CardView>)
    ensures
        total_of(cards, 0) == cards.filter(|c: CardView| c.project_id == 0).len(),
    decreases cards.len(),
{
    reveal(Seq::filter);
    if cards.len() > 0 {
        lemma_strays(cards.drop_last());
    }
}

/// Law: a store without a project is refused where the directory cannot be
/// registered for it, and only where it needs that.
pub proof fn law_when_a_bare_store_is_refused(b: BacklogView, dir: Seq<char>, is_dir: bool)
    requires
        b.projects.len() == 0,
        b.last_project < i64::MAX,
    ensures
        adopt_refusal(b, dir, is_dir, false) is None <==> is_dir,
        b.cards.filter(|c: CardView| c.project_id == 0).len() == 0 ==> adopt_refusal(b, dir, is_dir, true) is None
            && adopted_in(b, dir, true, ""@) == b,
        b.cards.filter(|c: CardView| c.project_id == 0).len() > 0 ==> (adopt_refusal(b, dir, is_dir, true) is None
            <==> is_dir),
{
    lemma_strays(b.cards);
    crate::project::lemma_first(b.projects, |p: ProjectView| p.path == dir);
    let n = crate::project::chosen_name(dir, None);
    crate::project::lemma_first(b.projects, |p: ProjectView| p.name == n);
}

/// Law: a directory that is begun in is a project's afterwards, and nothing
/// else changes; a file that has a project keeps to it.
pub proof fn law_begun_directory_is_a_projects(b: BacklogView, path: Seq<char>, name: Option<Seq<char>>, now: Seq<char>)
    requires
        b.last_project < i64::MAX,
    ensures
        ({
            let after = begun_in(b, Some(path), false, name, now);
            &&& exists|k: int| 0 <= k < after.projects.len() && (#[trigger] after.projects[k]).path == path
            &&& after.cards == b.cards && after.events == b.events && after.links == b.links
            &&& b.projects.len() <= after.projects.len() <= b.projects.len() + 1
            &&& forall|k: int| 0 <= k < b.projects.len() ==> #[trigger] after.projects[k] == b.projects[k]
        }),
        b.projects.len() > 0 ==> begun_in(b, Some(path), true, name, now) == b,
        begun_in(b, None, false, name, now) == b,
{
    let after = begun_in(b, Some(path), false, name, now);
    crate::project::lemma_first(b.projects, |p: ProjectView| p.path == path);
    let at = with_path(b.projects, path);
    if at >= 0 {
        assert(after.projects[at].path == path);
    } else {
        assert(after.projects[b.projects.len() as int].path == path);
    }
}

/// Law: removing a project leaves the other projects, in their order.
pub proof fn law_removal_leaves_other_projects(b: BacklogView, at: int, now: Seq<char>, k: int)
    requires
        sound(b),
        0 <= at < b.projects.len(),
    ensures
        ({
            let after = removed_in(b, at, now);
            &&& after.projects.len() == b.projects.len() - 1
            &&& 0 <= k < at ==> after.projects[k] == b.projects[k]
            &&& at <= k < after.projects.len() ==> after.projects[k] == b.projects[k + 1]
        }),
{
    let p = b.projects[at];
    lemma_deleted_each(b, ids_of(b.cards, p.id), removal_reason(p.name), ""@, now);
}

/// Law: with a project its cards go to the log, each as deleted and with the
/// project's name for a reason.
pub proof fn law_removal_is_logged(b: BacklogView, at: int, now: Seq<char>, k: int)
    requires
        sound(b),
        0 <= at < b.projects.len(),
        0 <= k < b.cards.len() <= usize::MAX,
        b.cards[k].project_id == b.projects[at].id,
    ensures
        exists|i: int|
            0 <= i < removed_in(b, at, now).events.len() && (#[trigger] removed_in(b, at, now).events[i]).card_id
                == b.cards[k].id && removed_in(b, at, now).events[i].kind == "deleted"@ && removed_in(
                b,
                at,
                now,
            ).events[i].after == "project '"@ + b.projects[at].name + "' removed"@,
        forall|i: int| 0 <= i < b.events.len() ==> #[trigger] removed_in(b, at, now).events[i] == b.events[i],
{
    let p = b.projects[at];
    let ids = ids_of(b.cards, p.id);
    let why = removal_reason(p.name);
    let flags = crate::registry::flags_of(b.cards, p.id);
    let order = crate::select::numbering(b.cards, flags);
    assert(flags[k]);
    crate::reading::lemma_numbering(b.cards, flags);
    assert(order.contains(k as usize));
    let j = choose|j: int| 0 <= j < order.len() && order[j] == k as usize;
    assert(ids[j] == b.cards[k].id);
    assert(ids.contains(b.cards[k].id));
    lemma_deletion_told(b, ids, why, ""@, now, k);
    assert(removed_in(b, at, now).events == crate::registry::deleted_each(b, ids, why, ""@, now).events);
}

/// The event tells that the card was deleted, and why.
pub open spec fn tells_deletion(e: crate::events::EventView, id: i64, why: Seq<char>) -> bool {
    e.card_id == id && e.kind == "deleted"@ && e.after == why
}

proof fn lemma_deletion_told(b: BacklogView, ids: Seq<i64>, why: Seq<char>, by: Seq<char>, now: Seq<char>, k: int)
    requires
        sound(b),
        0 <= k < b.cards.len(),
    ensures
        ({
            let c = crate::registry::deleted_each(b, ids, why, by, now);
            &&& b.events.len() <= c.events.len()
            &&& forall|i: int| 0 <= i < b.events.len() ==> #[trigger] c.events[i] == b.events[i]
            &&& ids.contains(b.cards[k].id) ==> exists|i: int|
                0 <= i < c.events.len() && tells_deletion(#[trigger] c.events[i], b.cards[k].id, why)
        }),
    decreases ids.len(),
{
    if ids.len() > 0 {
        let front = ids.drop_last();
        let x = ids.last();
        lemma_deletion_told(b, front, why, by, now, k);
        lemma_deleted_each(b, front, why, by, now);
        let c = crate::registry::deleted_each(b, front, why, by, now);
        let d = crate::registry::deleted_each(b, ids, why, by, now);
        let id = b.cards[k].id;
        assert forall|i: int| 0 <= i < c.events.len() implies d.events[i] == #[trigger] c.events[i] by {}
        if front.contains(id) {
            let i = choose|i: int| 0 <= i < c.events.len() && tells_deletion(#[trigger] c.events[i], id, why);
            assert(d.events[i] == c.events[i]);
        } else if ids.contains(id) {
            let j = choose|j: int| 0 <= j < ids.len() && ids[j] == id;
            if j < front.len() {
                assert(front[j] == id);
            }
            assert(x == id);
            assert(c.cards.contains(b.cards[k]));
            let m = choose|m: int| 0 <= m < c.cards.len() && c.cards[m] == b.cards[k];
            crate::card::lemma_position(c.cards, id);
            assert(c.cards[m].id == id);
            assert(has_card(c.cards, id));
            assert(tells_deletion(d.events[c.events.len() as int], id, why));
        }
    }
}

/// Law: a refused import leaves the store as it was; only where it is a card
/// that is refused is the project there by then.
pub proof fn law_what_a_refused_import_leaves(
    b: BacklogView,
    name: Option<Seq<char>>,
    info: SourceView,
    is_dir: bool,
    now: Seq<char>,
)
    ensures
        ({
            let after = crate::import::left_by_refusal(b, name, info, is_dir, now);
            let at = match name {
                Some(n) => looked_up(b.projects, n),
                None => with_path(b.projects, info.dir),
            };
            &&& after.cards == b.cards && after.events == b.events && after.links == b.links
            &&& at >= 0 || !is_dir ==> after == b
            &&& at < 0 && is_dir && crate::registry::register_refusal(
                b,
                info.dir,
                is_dir,
                crate::import::target_name(b, name, info, is_dir),
            ) is None ==> after.projects.len() == b.projects.len() + 1 && after.projects.last().path == info.dir
        }),
{
}

// ------------------------------------------------------------- refusals

/// Law: a refusal about a card tells its id, and what stands against it.
pub proof fn law_refusal_tells_the_card(id: i64, other: i64, s: Seq<char>, status: Status)
    ensures
        contains(refusal_text(RefusalView::NotFound(id)), dec(id as int)),
        contains(refusal_text(RefusalView::NoHistory(id)), dec(id as int)),
        contains(refusal_text(RefusalView::NoNote(id)), dec(id as int)),
        contains(refusal_text(RefusalView::Contended(id, s)), dec(id as int)),
        contains(refusal_text(RefusalView::Contended(id, s)), s),
        contains(refusal_text(RefusalView::LostClaim(id, s)), s),
        contains(refusal_text(RefusalView::NotClaimable(id, status)), dec(id as int)),
        contains(refusal_text(RefusalView::NotClaimable(id, status)), status_name(status)),
        contains(refusal_text(RefusalView::NotInProgress(id, status)), status_name(status)),
        contains(refusal_text(RefusalView::LinkCycle(id, other)), dec(id as int)),
        contains(refusal_text(RefusalView::LinkCycle(id, other)), dec(other as int)),
{
    let (d, o) = (dec(id as int), dec(other as int));
    lemma_part_is_there("card #"@, d, " not found"@);
    lemma_part_is_there("card #"@, d, " not found and it left no history"@);
    lemma_part_is_there("note "@, d, " not found"@);
    lemma_five("card #"@, d, " already claimed by '"@, s, "'"@);
    lemma_five("#"@, d, " is not claimed by "@, s, " any more"@);
    lemma_five("card #"@, d, " is status '"@, status_name(status), "' (must be new or ready to claim)"@);
    lemma_five("card #"@, d, " is not in_progress (status="@, status_name(status), ")"@);
    lemma_five("#"@, d, " already waits on #"@, o, " (directly or through other cards); that would be a cycle"@);
}

/// Law: a refusal about a text tells it, and one about a count tells that.
pub proof fn law_refusal_tells_the_text(s: Seq<char>, n: nat)
    ensures
        contains(refusal_text(RefusalView::NoProject(s)), s),
        contains(refusal_text(RefusalView::UnknownProject(s)), s),
        contains(refusal_text(RefusalView::BadDuration(s)), s),
        contains(refusal_text(RefusalView::BadPriority(s)), s),
        contains(refusal_text(RefusalView::BadStatus(s)), s),
        contains(refusal_text(RefusalView::BadId(s)), s),
        contains(refusal_text(RefusalView::WhereShape(s)), s),
        contains(refusal_text(RefusalView::SetShape(s)), s),
        contains(refusal_text(RefusalView::UnknownLinkKind(s)), s),
        contains(refusal_text(RefusalView::GitNoCommit(s)), s),
        contains(refusal_text(RefusalView::LongTitle(n)), dec(n as int)),
        contains(refusal_text(RefusalView::LongOutcome(n)), dec(n as int)),
        contains(refusal_text(RefusalView::ProjectHasCards(s, n)), s),
        contains(refusal_text(RefusalView::ProjectHasCards(s, n)), dec(n as int)),
{
    lemma_part_is_there("no project named '"@, s, "'"@);
    lemma_part_is_there("no project named '"@, s, "'; `bl project list` shows the registered ones"@);
    lemma_part_is_there("bad duration '"@, s, "' (try 90s, 30m, 2h, 1d)"@);
    lemma_part_is_there("priority '"@, s, "' is not a number"@);
    lemma_part_is_there("status '"@, s, "' is not one of new, ready, in_progress, done"@);
    lemma_part_is_there("'"@, s, "' is not a card id"@);
    lemma_part_is_there("--where wants FIELD=VALUE, got '"@, s, "'"@);
    lemma_part_is_there("--set wants FIELD=VALUE, got '"@, s, "'"@);
    lemma_part_is_there("unknown link kind '"@, s, "' (blocks, child_of, related)"@);
    lemma_part_is_there("git returned no commit for '"@, s, "'"@);
    lemma_part_is_there(
        "title is "@,
        dec(n as int),
        " characters (limit 120): keep the title to one line and put the detail in a note (`bl note <id> \"...\"`), or pass --force"@,
    );
    lemma_part_is_there(
        "outcome is "@,
        dec(n as int),
        " characters (limit 300): say the result in a line and put the detail in a note (`bl note <id> \"...\" -k finding`), or pass --force"@,
    );
    lemma_five(
        "project '"@,
        s,
        "' still has "@,
        dec(n as int),
        " card(s); deactivate it, or --force to delete them too"@,
    );
}

/// Two of five parts stand in the whole.
proof fn lemma_five(a: Seq<char>, b: Seq<char>, c: Seq<char>, d: Seq<char>, e: Seq<char>)
    ensures
        contains(a + b + c + d + e, b),
        contains(a + b + c + d + e, d),
{
    lemma_part_is_there(a + b + c, d, e);
    let z = c + d + e;
    lemma_part_is_there(a, b, z);
    assert(a + b + z =~= a + b + c + d + e);
}

} // verus!
