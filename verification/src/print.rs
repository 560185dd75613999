//! Cards and projects as lines of text.

use vstd::prelude::*;

use crate::card::{Card, CardView};
use crate::commits::{sha_and_subject, split_commit_line};
use crate::links::{label, rel_views, role_words, Rel, RelView, Role};
use crate::notes::{note_views, Note, NoteView};
use crate::number::{align_left, align_right, aligned_left, aligned_right, dec, decimal, decimal_count};
use crate::project::{Project, ProjectView};
use crate::status::{status_name, Status};
use crate::text::{
    append_texts, copy, join, joined, keep_nonblank, lines, lines_of, nonblank, push_text, replace_char, replaced_char,
    texts,
};

verus! {

// ------------------------------------------------------------- blockers

/// The cards among these relations that are waited on and not done.
pub open spec fn open_blockers(rs: Seq<RelView>) -> Seq<RelView>
    decreases rs.len(),
{
    if rs.len() == 0 {
        rs
    } else if rs.last().rel == Role::BlockedBy && rs.last().status != Status::Done {
        open_blockers(rs.drop_last()).push(rs.last())
    } else {
        open_blockers(rs.drop_last())
    }
}

/// The ids with a `#` before each.
pub open spec fn hashed(rs: Seq<RelView>) -> Seq<Seq<char>> {
    rs.map_values(|r: RelView| "#"@ + dec(r.id as int))
}

/// What a card waits on, in words; nothing where it waits on nothing.
pub open spec fn wait_words(rs: Seq<RelView>) -> Seq<char> {
    if open_blockers(rs).len() == 0 {
        Seq::empty()
    } else {
        "blocked by "@ + join(hashed(open_blockers(rs)), ", "@)
    }
}

impl Clone for Rel {
    fn clone(&self) -> (r: Rel)
        ensures
            r@ == self@,
    {
        Rel { rel: self.rel, id: self.id, title: self.title.clone(), status: self.status }
    }
}

/// The cards among these relations that are waited on and not done.
pub fn blockers_of(rs: &Vec<Rel>) -> (out: Vec<Rel>)
    ensures
        rel_views(out@) == open_blockers(rel_views(rs@)),
{
    let ghost all = rel_views(rs@);
    let mut out: Vec<Rel> = Vec::new();
    let mut i: usize = 0;
    assert(rel_views(out@) =~= open_blockers(all.take(0)));
    while i < rs.len()
        invariant
            i <= rs@.len(),
            all == rel_views(rs@),
            rel_views(out@) == open_blockers(all.take(i as int)),
        decreases rs.len() - i,
    {
        assert(all.take(i + 1).drop_last() =~= all.take(i as int));
        assert(all.take(i + 1).last() == rs@[i as int]@);
        if rs[i].rel == Role::BlockedBy && rs[i].status != Status::Done {
            let ghost before = rel_views(out@);
            out.push(rs[i].clone());
            assert(rel_views(out@) =~= before.push(all[i as int]));
        }
        i = i + 1;
    }
    assert(all.take(i as int) =~= all);
    out
}

/// What a card waits on, in words.
pub fn waiting(rs: &Vec<Rel>) -> (out: String)
    ensures
        out@ == wait_words(rel_views(rs@)),
{
    let open = blockers_of(rs);
    let ghost ov = rel_views(open@);
    assert(ov.len() == open@.len());
    if open.len() == 0 {
        return String::new();
    }
    let ghost wanted = hashed(ov);
    let mut names: Vec<String> = Vec::new();
    let mut i: usize = 0;
    while i < open.len()
        invariant
            i <= open@.len(),
            wanted == hashed(rel_views(open@)),
            texts(names@) == wanted.take(i as int),
        decreases open.len() - i,
    {
        let name = copy("#").concat(decimal(open[i].id).as_str());
        assert(name@ == wanted[i as int]);
        push_text(&mut names, name);
        assert(wanted.take(i + 1) =~= wanted.take(i as int).push(wanted[i as int]));
        i = i + 1;
    }
    assert(wanted.take(i as int) =~= wanted);
    copy("blocked by ").concat(joined(&names, ", ").as_str())
}

// ------------------------------------------------------------- a card

/// The text, or nothing where the condition fails.
pub open spec fn line_if(given: bool, line: Seq<char>) -> Seq<Seq<char>> {
    if given {
        seq![line]
    } else {
        Seq::empty()
    }
}

/// The first line of a card.
pub open spec fn card_head(c: CardView, show_project: bool) -> Seq<char> {
    let project = if show_project && c.project.len() > 0 { c.project + ": "@ } else { Seq::empty() };
    let tags = if c.label.len() == 0 { Seq::empty() } else { "["@ + c.label + "] "@ };
    let claim = if c.claimed_by.len() == 0 { Seq::empty() } else { "  claimed_by="@ + c.claimed_by };
    "#"@ + dec(c.id as int) + "  ["@ + align_right(dec(c.priority as int), 5) + "]  "@ + align_left(
        status_name(c.status),
        12,
    ) + "  "@ + project + tags + c.title + claim
}

/// The line of a linked commit.
pub open spec fn commit_line(l: Seq<char>) -> Seq<char> {
    "    commit: "@ + sha_and_subject(l).0 + " "@ + sha_and_subject(l).1
}

/// The line of a relation.
pub open spec fn rel_line(r: RelView) -> Seq<char> {
    "    "@ + role_words(r.rel) + ": #"@ + dec(r.id as int) + " "@ + r.title + " ("@ + status_name(r.status) + ")"@
}

/// The line that tells where a card was imported from.
pub open spec fn legacy_lines(c: CardView) -> Seq<Seq<char>> {
    match c.legacy_id {
        Some(n) => seq![
            "    imported: was #"@ + dec(n as int) + " in "@ + c.project + "'s own backlog.db"@,
        ],
        None => Seq::empty(),
    }
}

/// The lines of a card.
pub open spec fn card_text(c: CardView, rs: Seq<RelView>, show_project: bool) -> Seq<Seq<char>> {
    seq![card_head(c, show_project)] + line_if(
        c.notes.len() > 0,
        "    notes: "@ + replace_char(c.notes, '\n', " | "@),
    ) + line_if(c.outcome.len() > 0, "    outcome: "@ + replace_char(c.outcome, '\n', " | "@)) + line_if(
        c.claimed_at.len() > 0,
        "    claimed_at: "@ + c.claimed_at,
    ) + legacy_lines(c) + rs.map_values(|r: RelView| rel_line(r)) + nonblank(lines(c.commits)).map_values(
        |l: Seq<char>| commit_line(l),
    ) + seq!["    created: "@ + c.created_at + "   updated: "@ + c.updated_at]
}

fn head_of(c: &Card, show_project: bool) -> (out: String)
    ensures
        out@ == card_head(c@, show_project),
{
    let project = if show_project && !c.project.as_str().is_empty() {
        copy(c.project.as_str()).concat(": ")
    } else {
        String::new()
    };
    let tags = if c.label.as_str().is_empty() {
        String::new()
    } else {
        copy("[").concat(c.label.as_str()).concat("] ")
    };
    let claim = if c.claimed_by.as_str().is_empty() {
        String::new()
    } else {
        copy("  claimed_by=").concat(c.claimed_by.as_str())
    };
    copy("#").concat(decimal(c.id).as_str()).concat("  [").concat(
        aligned_right(decimal(c.priority as i64).as_str(), 5).as_str(),
    ).concat("]  ").concat(aligned_left(c.status.as_str(), 12).as_str()).concat("  ").concat(project.as_str()).concat(
        tags.as_str(),
    ).concat(c.title.as_str()).concat(claim.as_str())
}

fn push_if(v: &mut Vec<String>, given: bool, line: String)
    ensures
        texts(final(v)@) == texts(old(v)@) + line_if(given, line@),
{
    let ghost before = texts(v@);
    if given {
        push_text(v, line);
    }
    assert(texts(v@) =~= before + line_if(given, line@));
}

fn commit_lines(commits: &str) -> (out: Vec<String>)
    ensures
        texts(out@) == nonblank(lines(commits@)).map_values(|l: Seq<char>| commit_line(l)),
{
    let ls = keep_nonblank(lines_of(commits));
    let ghost all = nonblank(lines(commits@));
    let ghost wanted = all.map_values(|l: Seq<char>| commit_line(l));
    let mut out: Vec<String> = Vec::new();
    let mut i: usize = 0;
    while i < ls.len()
        invariant
            i <= ls@.len(),
            texts(ls@) == all,
            wanted == all.map_values(|l: Seq<char>| commit_line(l)),
            texts(out@) == wanted.take(i as int),
        decreases ls.len() - i,
    {
        assert(all[i as int] == ls@[i as int]@);
        let (sha, subject) = split_commit_line(ls[i].as_str());
        let line = copy("    commit: ").concat(sha.as_str()).concat(" ").concat(subject.as_str());
        assert(line@ == wanted[i as int]);
        push_text(&mut out, line);
        assert(wanted.take(i + 1) =~= wanted.take(i as int).push(wanted[i as int]));
        i = i + 1;
    }
    assert(texts(ls@).len() == ls@.len());
    assert(wanted.take(i as int) =~= wanted);
    out
}

fn rel_lines(rs: &Vec<Rel>) -> (out: Vec<String>)
    ensures
        texts(out@) == rel_views(rs@).map_values(|r: RelView| rel_line(r)),
{
    let ghost all = rel_views(rs@);
    let ghost wanted = all.map_values(|r: RelView| rel_line(r));
    let mut out: Vec<String> = Vec::new();
    let mut i: usize = 0;
    while i < rs.len()
        invariant
            i <= rs@.len(),
            all == rel_views(rs@),
            wanted == all.map_values(|r: RelView| rel_line(r)),
            texts(out@) == wanted.take(i as int),
        decreases rs.len() - i,
    {
        let r = &rs[i];
        assert(all[i as int] == r@);
        let line = copy("    ").concat(label(r.rel)).concat(": #").concat(decimal(r.id).as_str()).concat(" ").concat(
            r.title.as_str(),
        ).concat(" (").concat(r.status.as_str()).concat(")");
        assert(line@ == wanted[i as int]);
        push_text(&mut out, line);
        assert(wanted.take(i + 1) =~= wanted.take(i as int).push(wanted[i as int]));
        i = i + 1;
    }
    assert(wanted.take(i as int) =~= wanted);
    out
}

/// The lines of a card, with the given relations. `show_project` puts the
/// project's name on the first line.
pub fn print_card(c: &Card, rs: &Vec<Rel>, show_project: bool) -> (out: Vec<String>)
    ensures
        texts(out@) == card_text(c@, rel_views(rs@), show_project),
{
    let mut out: Vec<String> = Vec::new();
    push_text(&mut out, head_of(c, show_project));
    assert(texts(out@) =~= seq![card_head(c@, show_project)]);
    let notes = copy("    notes: ").concat(replaced_char(c.notes.as_str(), '\n', " | ").as_str());
    push_if(&mut out, !c.notes.as_str().is_empty(), notes);
    let outcome = copy("    outcome: ").concat(replaced_char(c.outcome.as_str(), '\n', " | ").as_str());
    push_if(&mut out, !c.outcome.as_str().is_empty(), outcome);
    let since = copy("    claimed_at: ").concat(c.claimed_at.as_str());
    push_if(&mut out, !c.claimed_at.as_str().is_empty(), since);
    let ghost before = texts(out@);
    match c.legacy_id {
        Some(n) => {
            let line = copy("    imported: was #").concat(decimal(n).as_str()).concat(" in ").concat(
                c.project.as_str(),
            ).concat("'s own backlog.db");
            push_text(&mut out, line);
        },
        None => {},
    }
    assert(texts(out@) =~= before + legacy_lines(c@));
    append_texts(&mut out, rel_lines(rs));
    append_texts(&mut out, commit_lines(c.commits.as_str()));
    let ghost before = texts(out@);
    let last = copy("    created: ").concat(c.created_at.as_str()).concat("   updated: ").concat(
        c.updated_at.as_str(),
    );
    push_text(&mut out, last);
    assert(texts(out@) =~= before + seq!["    created: "@ + c@.created_at + "   updated: "@ + c@.updated_at]);
    out
}

// ------------------------------------------------------------- notes

/// The lines of a note.
pub open spec fn note_text(n: NoteView) -> Seq<Seq<char>> {
    let who = if n.author.len() == 0 { Seq::empty() } else { "  "@ + n.author };
    seq![
        "["@ + n.kind + "] "@ + n.created_at + who + "  (note "@ + dec(n.id as int) + ")"@,
        "    "@ + replace_char(n.body, '\n', "\n    "@),
    ] + line_if(n.commit_sha.len() > 0, "    commit: "@ + n.commit_sha + " "@ + n.commit_subject)
}

/// The notes of one kind; all of them where no kind is asked for.
pub open spec fn of_kind(ns: Seq<NoteView>, kind: Option<Seq<char>>) -> Seq<NoteView>
    decreases ns.len(),
{
    if ns.len() == 0 {
        ns
    } else if kind is None || ns.last().kind == kind->0 {
        of_kind(ns.drop_last(), kind).push(ns.last())
    } else {
        of_kind(ns.drop_last(), kind)
    }
}

/// The notes of one kind; all of them where no kind is asked for.
pub fn notes_of_kind(ns: &Vec<Note>, kind: Option<&str>) -> (out: Vec<Note>)
    ensures
        note_views(out@) == of_kind(note_views(ns@), crate::notes::opt_text(kind)),
{
    let ghost all = note_views(ns@);
    let ghost k = crate::notes::opt_text(kind);
    let mut out: Vec<Note> = Vec::new();
    let mut i: usize = 0;
    assert(note_views(out@) =~= of_kind(all.take(0), k));
    while i < ns.len()
        invariant
            i <= ns@.len(),
            all == note_views(ns@),
            k == crate::notes::opt_text(kind),
            note_views(out@) == of_kind(all.take(i as int), k),
        decreases ns.len() - i,
    {
        assert(all.take(i + 1).drop_last() =~= all.take(i as int));
        assert(all.take(i + 1).last() == ns@[i as int]@);
        let wanted = match kind {
            Some(x) => crate::text::same(ns[i].kind.as_str(), x),
            None => true,
        };
        if wanted {
            let ghost before = note_views(out@);
            out.push(ns[i].clone());
            assert(note_views(out@) =~= before.push(all[i as int]));
        }
        i = i + 1;
    }
    assert(all.take(i as int) =~= all);
    out
}

/// The lines of a note.
pub fn print_note(n: &Note) -> (out: Vec<String>)
    ensures
        texts(out@) == note_text(n@),
{
    let who = if n.author.as_str().is_empty() {
        String::new()
    } else {
        copy("  ").concat(n.author.as_str())
    };
    let first = copy("[").concat(n.kind.as_str()).concat("] ").concat(n.created_at.as_str()).concat(
        who.as_str(),
    ).concat("  (note ").concat(decimal(n.id).as_str()).concat(")");
    let second = copy("    ").concat(replaced_char(n.body.as_str(), '\n', "\n    ").as_str());
    let mut out: Vec<String> = Vec::new();
    push_text(&mut out, first);
    push_text(&mut out, second);
    assert(texts(out@) =~= seq![first@, second@]);
    let commit = copy("    commit: ").concat(n.commit_sha.as_str()).concat(" ").concat(n.commit_subject.as_str());
    push_if(&mut out, !n.commit_sha.as_str().is_empty(), commit);
    out
}

// ------------------------------------------------------------- projects

/// The line of a project in a listing.
pub open spec fn project_line(p: ProjectView, open: nat, total: nat, here: bool) -> Seq<char> {
    "#"@ + align_left(dec(p.id as int), 3) + " "@ + (if p.active {
        "active  "@
    } else {
        "inactive"@
    }) + " "@ + align_left(p.name, 24) + " "@ + align_right(dec(open as int), 4) + " open / "@ + align_left(
        dec(total as int),
        4,
    ) + " "@ + p.path + if here {
        "  (here)"@
    } else {
        ""@
    }
}

/// The line of a project in a listing.
pub fn print_project(p: &Project, open: usize, total: usize, here: bool) -> (out: String)
    ensures
        out@ == project_line(p@, open as nat, total as nat, here),
{
    let state = if p.active {
        "active  "
    } else {
        "inactive"
    };
    let mark = if here {
        "  (here)"
    } else {
        ""
    };
    copy("#").concat(aligned_left(decimal(p.id).as_str(), 3).as_str()).concat(" ").concat(state).concat(" ").concat(
        aligned_left(p.name.as_str(), 24).as_str(),
    ).concat(" ").concat(aligned_right(decimal_count(open).as_str(), 4).as_str()).concat(" open / ").concat(
        aligned_left(decimal_count(total).as_str(), 4).as_str(),
    ).concat(" ").concat(p.path.as_str()).concat(mark)
}

} // verus!
