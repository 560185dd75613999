//! What the lines that are printed, served and logged tell.

use vstd::prelude::*;

use crate::card::CardView;
use crate::commits::sha_and_subject;
use crate::events::{change_text, event_line, history, on_one_line, EventView};
use crate::links::{role_words, RelView, Role};
use crate::notes::NoteView;
use crate::number::{align_left, align_right, dec};
use crate::print::{
    card_head, card_text, commit_line, note_text, of_kind, open_blockers, project_line, rel_line, wait_words,
};
use crate::project::ProjectView;
use crate::prompt::{auto_section, project_section, tag_count, tags_in_use, tags_section};
use crate::schema::{additions, column_read, LaterColumn};
use crate::select::{in_scope, Scope};
use crate::serve::{card_json, db_json, escaped, feed_text, quoted, SourceView};
use crate::status::{status_name, Status};
use crate::tags::tags;
use crate::tally::tally_of;
use crate::text::{contains, join, lines, nonblank, occurs_at, replace_char, starts_with};
use crate::view::head_text;
use crate::writing::lemma_part_is_there;

verus! {

/// The text ends so.
pub open spec fn ends_with(s: Seq<char>, end: Seq<char>) -> bool {
    end.len() <= s.len() && s.skip(s.len() - end.len()) == end
}

proof fn lemma_begins(a: Seq<char>, b: Seq<char>)
    ensures
        starts_with(a + b, a),
        contains(a + b, a),
        contains(a + b, b),
        ends_with(a + b, b),
{
    let all = a + b;
    assert(all.subrange(0, a.len() as int) =~= a);
    assert(occurs_at(all, a, 0));
    assert(all.subrange(a.len() as int, all.len() as int) =~= b);
    assert(occurs_at(all, b, a.len() as int));
    assert(all.skip(a.len() as int) =~= b);
}

// ------------------------------------------------------------- cards

/// Law: the first line of a card tells its id, its priority, its status and
/// its title; its tags, its holder and, asked for, its project where it has
/// them.
pub proof fn law_first_line_tells_the_card(c: CardView, show_project: bool)
    ensures
        ({
            let line = card_head(c, show_project);
            &&& starts_with(
                line,
                "#"@ + dec(c.id as int) + "  ["@ + align_right(dec(c.priority as int), 5) + "]  "@ + align_left(
                    status_name(c.status),
                    12,
                ),
            )
            &&& c.claimed_by.len() == 0 ==> ends_with(line, c.title)
            &&& c.claimed_by.len() > 0 ==> ends_with(line, c.title + "  claimed_by="@ + c.claimed_by)
            &&& c.label.len() > 0 ==> contains(line, "["@ + c.label + "] "@ + c.title)
            &&& show_project && c.project.len() > 0 ==> contains(line, "  "@ + c.project + ": "@)
        }),
{
    let start = "#"@ + dec(c.id as int) + "  ["@ + align_right(dec(c.priority as int), 5) + "]  "@ + align_left(
        status_name(c.status),
        12,
    );
    let project = if show_project && c.project.len() > 0 { c.project + ": "@ } else { Seq::empty() };
    let label = if c.label.len() == 0 { Seq::empty() } else { "["@ + c.label + "] "@ };
    let claim = if c.claimed_by.len() == 0 { Seq::empty() } else { "  claimed_by="@ + c.claimed_by };
    lemma_six(start, "  "@, project, label, c.title, claim);
    if c.claimed_by.len() == 0 {
        assert(c.title + claim =~= c.title);
    } else {
        assert(c.title + claim =~= c.title + "  claimed_by="@ + c.claimed_by);
    }
    if show_project && c.project.len() > 0 {
        assert("  "@ + project =~= "  "@ + c.project + ": "@);
    }
}

/// Parts of a line of six parts.
#[verifier::rlimit(40)]
proof fn lemma_six(a: Seq<char>, b: Seq<char>, c: Seq<char>, d: Seq<char>, e: Seq<char>, f: Seq<char>)
    ensures
        ({
            let t = a + b + c + d + e + f;
            &&& starts_with(t, a)
            &&& contains(t, b + c)
            &&& contains(t, d + e)
            &&& ends_with(t, e + f)
        }),
{
    let t = a + b + c + d + e + f;
    assert(starts_with(t, a)) by {
        let z = b + c + d + e + f;
        assert(t =~= a + z);
        lemma_begins(a, z);
    }
    assert(contains(t, b + c)) by {
        let y = b + c;
        let z = d + e + f;
        assert(t =~= a + y + z);
        lemma_part_is_there(a, y, z);
    }
    assert(contains(t, d + e)) by {
        let x = a + b + c;
        let y = d + e;
        assert(t =~= x + y + f);
        lemma_part_is_there(x, y, f);
    }
    assert(ends_with(t, e + f)) by {
        let x = a + b + c + d;
        let y = e + f;
        assert(t =~= x + y);
        lemma_begins(x, y);
    }
}

/// What stands in a part stands in the whole.
pub proof fn lemma_stands_in_whole(a: Seq<char>, part: Seq<char>, z: Seq<char>, x: Seq<char>)
    requires
        contains(part, x),
    ensures
        contains(a + part + z, x),
{
    let at = choose|at: int| occurs_at(part, x, at);
    let t = a + part + z;
    let k = a.len() + at;
    assert(t.subrange(k, k + x.len()) =~= part.subrange(at, at + x.len()));
    assert(occurs_at(t, x, k));
}

/// Law: a project that is not asked for is not told.
pub proof fn law_project_is_told_when_asked_for(c: CardView, other: Seq<char>)
    ensures
        card_head(c, false) == card_head(CardView { project: other, ..c }, false),
{
}

/// Law: the lines of a card are its first line; its notes, its outcome, its
/// claim and where it came from, as far as it has them; each relation; each
/// commit; and its two times.
pub proof fn law_lines_tell_the_card(c: CardView, rs: Seq<RelView>, show_project: bool)
    ensures
        ({
            let ls = card_text(c, rs, show_project);
            let commits = nonblank(lines(c.commits));
            &&& ls.len() == 2 + (if c.notes.len() > 0 { 1int } else { 0 }) + (if c.outcome.len() > 0 { 1int } else { 0 }) + (
            if c.claimed_at.len() > 0 { 1int } else { 0 }) + (if c.legacy_id is Some { 1int } else { 0 }) + rs.len()
                + commits.len()
            &&& ls[0] == card_head(c, show_project)
            &&& ls.last() == "    created: "@ + c.created_at + "   updated: "@ + c.updated_at
            &&& c.notes.len() > 0 ==> ls.contains("    notes: "@ + replace_char(c.notes, '\n', " | "@))
            &&& c.outcome.len() > 0 ==> ls.contains("    outcome: "@ + replace_char(c.outcome, '\n', " | "@))
            &&& c.claimed_at.len() > 0 ==> ls.contains("    claimed_at: "@ + c.claimed_at)
            &&& c.legacy_id matches Some(n) ==> ls.contains(
                "    imported: was #"@ + dec(n as int) + " in "@ + c.project + "'s own backlog.db"@,
            )
            &&& forall|k: int|
                0 <= k < rs.len() ==> ls.contains(
                    "    "@ + role_words((#[trigger] rs[k]).rel) + ": #"@ + dec(rs[k].id as int) + " "@ + rs[k].title
                        + " ("@ + status_name(rs[k].status) + ")"@,
                )
            &&& forall|k: int|
                0 <= k < commits.len() ==> ls.contains(
                    "    commit: "@ + sha_and_subject(#[trigger] commits[k]).0 + " "@ + sha_and_subject(commits[k]).1,
                )
        }),
{
    let ls = card_text(c, rs, show_project);
    let commits = nonblank(lines(c.commits));
    let n = if c.notes.len() > 0 { 1int } else { 0 };
    let o = if c.outcome.len() > 0 { 1int } else { 0 };
    let a = if c.claimed_at.len() > 0 { 1int } else { 0 };
    let l = if c.legacy_id is Some { 1int } else { 0 };
    if c.notes.len() > 0 {
        assert(ls[1] == "    notes: "@ + replace_char(c.notes, '\n', " | "@));
    }
    if c.outcome.len() > 0 {
        assert(ls[1 + n] == "    outcome: "@ + replace_char(c.outcome, '\n', " | "@));
    }
    if c.claimed_at.len() > 0 {
        assert(ls[1 + n + o] == "    claimed_at: "@ + c.claimed_at);
    }
    if c.legacy_id is Some {
        assert(ls[1 + n + o + a] == "    imported: was #"@ + dec(c.legacy_id->0 as int) + " in "@ + c.project
            + "'s own backlog.db"@);
    }
    assert forall|k: int| 0 <= k < rs.len() implies ls.contains(
        "    "@ + role_words((#[trigger] rs[k]).rel) + ": #"@ + dec(rs[k].id as int) + " "@ + rs[k].title + " ("@
            + status_name(rs[k].status) + ")"@,
    ) by {
        assert(ls[1 + n + o + a + l + k] == rel_line(rs[k]));
    }
    assert forall|k: int| 0 <= k < commits.len() implies ls.contains(
        "    commit: "@ + sha_and_subject(#[trigger] commits[k]).0 + " "@ + sha_and_subject(commits[k]).1,
    ) by {
        assert(ls[1 + n + o + a + l + rs.len() + k] == commit_line(commits[k]));
    }
}

/// Law: a card waits on those of its blockers that are not done, and on
/// nothing else.
pub proof fn law_card_waits_on_open_blockers(rs: Seq<RelView>)
    ensures
        open_blockers(rs) == rs.filter(|r: RelView| r.rel == Role::BlockedBy && r.status != Status::Done),
        wait_words(rs).len() == 0 <==> forall|k: int|
            0 <= k < rs.len() ==> (#[trigger] rs[k]).rel != Role::BlockedBy || rs[k].status == Status::Done,
{
    lemma_open_blockers(rs);
    let f = |r: RelView| r.rel == Role::BlockedBy && r.status != Status::Done;
    let open = rs.filter(f);
    reveal_strlit("blocked by ");
    if open.len() == 0 {
        assert forall|k: int| 0 <= k < rs.len() implies (#[trigger] rs[k]).rel != Role::BlockedBy || rs[k].status
            == Status::Done by {
            if f(rs[k]) {
                rs.lemma_filter_contains(f, k);
                assert(open.contains(rs[k]));
            }
        }
    } else {
        rs.lemma_filter_contains_rev(f, open[0]);
        let k = choose|k: int| 0 <= k < rs.len() && rs[k] == open[0];
        rs.lemma_filter_pred(f, 0);
        assert(f(rs[k]));
        assert(wait_words(rs)[0] == 'b');
    }
}

proof fn lemma_open_blockers(rs: Seq<RelView>)
    ensures
        open_blockers(rs) == rs.filter(|r: RelView| r.rel == Role::BlockedBy && r.status != Status::Done),
    decreases rs.len(),
{
    reveal(Seq::filter);
    if rs.len() > 0 {
        lemma_open_blockers(rs.drop_last());
    } else {
        assert(rs =~= Seq::empty());
    }
}

// ------------------------------------------------------------- notes

/// Law: the notes of one kind are those with that kind, in order; without a
/// kind they are all of them.
pub proof fn law_notes_of_one_kind(ns: Seq<NoteView>, kind: Seq<char>)
    ensures
        of_kind(ns, Some(kind)) == ns.filter(|n: NoteView| n.kind == kind),
        of_kind(ns, None) == ns,
    decreases ns.len(),
{
    reveal(Seq::filter);
    if ns.len() > 0 {
        law_notes_of_one_kind(ns.drop_last(), kind);
        assert(ns.drop_last().push(ns.last()) =~= ns);
    } else {
        assert(ns =~= Seq::empty());
    }
}

/// Law: the lines of a note tell its kind, its time, its author and its id,
/// then its text, then its commit where it has one.
#[verifier::rlimit(40)]
pub proof fn law_note_lines_tell_the_note(n: NoteView)
    ensures
        ({
            let ls = note_text(n);
            &&& ls.len() == if n.commit_sha.len() > 0 { 3int } else { 2 }
            &&& starts_with(ls[0], "["@ + n.kind + "] "@ + n.created_at)
            &&& ends_with(ls[0], "  (note "@ + dec(n.id as int) + ")"@)
            &&& n.author.len() > 0 ==> ends_with(ls[0], "  "@ + n.author + "  (note "@ + dec(n.id as int) + ")"@)
            &&& ls[1] == "    "@ + replace_char(n.body, '\n', "\n    "@)
            &&& n.commit_sha.len() > 0 ==> ls[2] == "    commit: "@ + n.commit_sha + " "@ + n.commit_subject
        }),
{
    let who = if n.author.len() == 0 { Seq::empty() } else { "  "@ + n.author };
    lemma_said("["@ + n.kind + "] "@ + n.created_at, who, "  (note "@, dec(n.id as int), ")"@);
}

/// Parts of the first line of a note.
proof fn lemma_said(a: Seq<char>, who: Seq<char>, x: Seq<char>, y: Seq<char>, z: Seq<char>)
    ensures
        ({
            let t = a + who + x + y + z;
            &&& starts_with(t, a)
            &&& ends_with(t, x + y + z)
            &&& ends_with(t, who + x + y + z)
        }),
{
    let t = a + who + x + y + z;
    assert(starts_with(t, a)) by {
        assert(t.subrange(0, a.len() as int) =~= a);
    }
    assert(ends_with(t, x + y + z)) by {
        let e = x + y + z;
        assert(t.skip(t.len() - e.len()) =~= e);
    }
    assert(ends_with(t, who + x + y + z)) by {
        let e = who + x + y + z;
        assert(t.skip(t.len() - e.len()) =~= e);
    }
}

// ------------------------------------------------------------- the log

/// Law: the history of a card is what the log holds of it, in order.
pub proof fn law_history_is_of_one_card(log: Seq<EventView>, card_id: i64)
    ensures
        history(log, card_id) == log.filter(|e: EventView| e.card_id == card_id),
    decreases log.len(),
{
    reveal(Seq::filter);
    if log.len() > 0 {
        law_history_is_of_one_card(log.drop_last(), card_id);
    } else {
        assert(log =~= Seq::empty());
    }
}

/// Law: a text in the log stands on one line of at most a hundred and sixty
/// characters; a short text on one line stands there as it is.
pub proof fn law_log_texts_are_short(s: Seq<char>)
    ensures
        on_one_line(s).len() <= 160,
        !on_one_line(s).contains('\n'),
        s.len() <= 160 && !s.contains('\n') ==> on_one_line(s) == s,
        s.len() > 160 && !s.contains('\n') ==> on_one_line(s) == s.take(157) + "..."@,
{
    reveal_strlit(" | ");
    reveal_strlit("...");
    lemma_flat(s);
    let flat = replace_char(s, '\n', " | "@);
    let out = on_one_line(s);
    if out.contains('\n') {
        let k = choose|k: int| 0 <= k < out.len() && out[k] == '\n';
        if flat.len() > 160 && k >= 157 {
            assert(out[k] == "..."@[k - 157]);
        } else {
            assert(flat[k] == '\n');
        }
        assert(flat.contains('\n'));
    }
}

proof fn lemma_flat(s: Seq<char>)
    ensures
        !replace_char(s, '\n', " | "@).contains('\n'),
        !s.contains('\n') ==> replace_char(s, '\n', " | "@) == s,
    decreases s.len(),
{
    reveal_strlit(" | ");
    if s.len() > 0 {
        let front = s.drop_last();
        lemma_flat(front);
        let before = replace_char(front, '\n', " | "@);
        let now = replace_char(s, '\n', " | "@);
        if now.contains('\n') {
            let k = choose|k: int| 0 <= k < now.len() && now[k] == '\n';
            if k < before.len() {
                assert(before[k] == '\n');
                assert(before.contains('\n'));
            }
        }
        if !s.contains('\n') {
            if front.contains('\n') {
                let k = choose|k: int| 0 <= k < front.len() && front[k] == '\n';
                assert(s[k] == '\n');
            }
            assert(s[s.len() - 1] != '\n');
            assert(front.push(s.last()) =~= s);
        }
    }
}

/// Law: a line of the log tells when, what kind of change, what was there
/// before and after it, and who made it.
#[verifier::rlimit(40)]
pub proof fn law_log_line_tells_the_event(e: EventView)
    ensures
        ({
            let line = event_line(e);
            &&& starts_with(line, e.at + "  "@ + align_left(e.kind, 10))
            &&& e.by.len() > 0 ==> ends_with(line, "  by "@ + e.by)
            &&& contains(line, on_one_line(e.before))
            &&& contains(line, on_one_line(e.after))
            &&& e.before.len() > 0 && e.after.len() > 0 ==> contains(
                line,
                on_one_line(e.before) + " → "@ + on_one_line(e.after),
            )
        }),
{
    let who = if e.by.len() == 0 { Seq::empty() } else { "  by "@ + e.by };
    let a = e.at + "  "@ + align_left(e.kind, 10);
    let ch = change_text(e.before, e.after);
    let line = event_line(e);
    assert(line == a + ch + who);
    assert(line =~= a + (ch + who));
    lemma_begins(a, ch + who);
    lemma_begins(a + ch, who);
    lemma_change(e.before, e.after);
    lemma_stands_in_whole(a, ch, who, on_one_line(e.before));
    lemma_stands_in_whole(a, ch, who, on_one_line(e.after));
    if e.before.len() > 0 && e.after.len() > 0 {
        lemma_stands_in_whole(a, ch, who, on_one_line(e.before) + " → "@ + on_one_line(e.after));
    }
}

/// A change tells what was there before it and what after.
#[verifier::rlimit(40)]
proof fn lemma_change(before: Seq<char>, after: Seq<char>)
    ensures
        contains(change_text(before, after), on_one_line(before)),
        contains(change_text(before, after), on_one_line(after)),
        before.len() > 0 && after.len() > 0 ==> contains(
            change_text(before, after),
            on_one_line(before) + " → "@ + on_one_line(after),
        ),
{
    let ch = change_text(before, after);
    let none = Seq::<char>::empty();
    let (b, f) = (on_one_line(before), on_one_line(after));
    if before.len() == 0 {
        assert(b =~= none);
        lemma_part_is_there(ch, b, none);
        assert(ch + b + none =~= ch);
    }
    if after.len() == 0 {
        assert(f =~= none);
        lemma_part_is_there(ch, f, none);
        assert(ch + f + none =~= ch);
    }
    if before.len() == 0 && after.len() > 0 {
        lemma_begins("  → "@, f);
    }
    if before.len() > 0 && after.len() == 0 {
        lemma_part_is_there("  "@, b, " →"@);
    }
    if before.len() > 0 && after.len() > 0 {
        let both = b + " → "@ + f;
        assert(ch =~= "  "@ + both);
        lemma_begins("  "@, both);
        lemma_begins("  "@ + b + " → "@, f);
        assert(ch =~= "  "@ + b + (" → "@ + f));
        lemma_part_is_there("  "@, b, " → "@ + f);
    }
}

// ------------------------------------------------------------- projects

/// Law: the line of a project tells its id, whether it is active, its name,
/// its open cards and all its cards, its path, and whether it is the one at
/// hand.
#[verifier::rlimit(40)]
pub proof fn law_project_line_tells_the_project(p: ProjectView, open: nat, total: nat, here: bool)
    ensures
        ({
            let line = project_line(p, open, total, here);
            &&& starts_with(line, "#"@ + align_left(dec(p.id as int), 3) + " "@)
            &&& p.active ==> starts_with(line, "#"@ + align_left(dec(p.id as int), 3) + " active  "@)
            &&& !p.active ==> starts_with(line, "#"@ + align_left(dec(p.id as int), 3) + " inactive"@)
            &&& contains(line, " "@ + align_left(p.name, 24) + " "@)
            &&& contains(line, align_right(dec(open as int), 4) + " open / "@ + align_left(dec(total as int), 4))
            &&& here ==> ends_with(line, " "@ + p.path + "  (here)"@)
            &&& !here ==> ends_with(line, " "@ + p.path)
        }),
{
    reveal_strlit(" ");
    reveal_strlit("active  ");
    reveal_strlit("inactive");
    reveal_strlit(" active  ");
    reveal_strlit(" inactive");
    reveal_strlit("");
    let a = "#"@ + align_left(dec(p.id as int), 3);
    let state = if p.active { "active  "@ } else { "inactive"@ };
    let name = align_left(p.name, 24);
    let (o, w, n) = (align_right(dec(open as int), 4), " open / "@, align_left(dec(total as int), 4));
    let mark = if here { "  (here)"@ } else { ""@ };
    lemma_listed(a, " "@, state, name, o, w, n, p.path, mark);
    if p.active {
        assert(a + " "@ + state =~= a + " active  "@);
    } else {
        assert(a + " "@ + state =~= a + " inactive"@);
    }
    if !here {
        assert(" "@ + p.path + mark =~= " "@ + p.path);
    }
}

/// Parts of a line with blanks between them.
#[verifier::rlimit(40)]
proof fn lemma_listed(
    a: Seq<char>,
    sp: Seq<char>,
    state: Seq<char>,
    name: Seq<char>,
    o: Seq<char>,
    w: Seq<char>,
    n: Seq<char>,
    path: Seq<char>,
    mark: Seq<char>,
)
    ensures
        ({
            let t = a + sp + state + sp + name + sp + o + w + n + sp + path + mark;
            &&& starts_with(t, a + sp)
            &&& starts_with(t, a + sp + state)
            &&& contains(t, sp + name + sp)
            &&& contains(t, o + w + n)
            &&& ends_with(t, sp + path + mark)
        }),
{
    let t = a + sp + state + sp + name + sp + o + w + n + sp + path + mark;
    let b = a + sp + state;
    let part = sp + name + sp;
    let counts = o + w + n;
    let z = sp + path + mark;
    assert(starts_with(t, a + sp)) by {
        assert(t.subrange(0, (a + sp).len() as int) =~= a + sp);
    }
    assert(starts_with(t, b)) by {
        assert(t.subrange(0, b.len() as int) =~= b);
    }
    assert(contains(t, part)) by {
        let k = b.len() as int;
        assert(t.subrange(k, k + part.len()) =~= part);
        assert(occurs_at(t, part, k));
    }
    assert(contains(t, counts)) by {
        let k = (b.len() + part.len()) as int;
        assert(t.subrange(k, k + counts.len()) =~= counts);
        assert(occurs_at(t, counts, k));
    }
    assert(ends_with(t, z)) by {
        assert(t.skip(t.len() - z.len()) =~= z);
    }
}

// ------------------------------------------------------------- the prompt

/// Law: a tag is in use exactly where an open card of the scope has it.
pub proof fn law_tags_in_use_are_on_open_cards(projects: Seq<ProjectView>, scope: Scope, cards: Seq<CardView>, t: Seq<char>)
    ensures
        tags_in_use(projects, scope, cards).contains(t) <==> exists|k: int|
            0 <= k < cards.len() && (#[trigger] cards[k]).status != Status::Done && in_scope(projects, scope, cards[k])
                && tags(cards[k].label).contains(t),
    decreases cards.len(),
{
    if cards.len() > 0 {
        let front = cards.drop_last();
        law_tags_in_use_are_on_open_cards(projects, scope, front, t);
        let before = tags_in_use(projects, scope, front);
        let now = tags_in_use(projects, scope, cards);
        let c = cards.last();
        let more = tags(c.label);
        if now.contains(t) {
            let k = choose|k: int| 0 <= k < now.len() && now[k] == t;
            if k < before.len() {
                assert(before[k] == t);
                assert(before.contains(t));
                let j = choose|j: int|
                    0 <= j < front.len() && (#[trigger] front[j]).status != Status::Done && in_scope(
                        projects,
                        scope,
                        front[j],
                    ) && tags(front[j].label).contains(t);
                assert(cards[j] == front[j]);
            } else {
                assert(more[k - before.len()] == t);
                assert(cards[cards.len() - 1] == c);
            }
        }
        if exists|k: int|
            0 <= k < cards.len() && (#[trigger] cards[k]).status != Status::Done && in_scope(projects, scope, cards[k])
                && tags(cards[k].label).contains(t) {
            let k = choose|k: int|
                0 <= k < cards.len() && (#[trigger] cards[k]).status != Status::Done && in_scope(
                    projects,
                    scope,
                    cards[k],
                ) && tags(cards[k].label).contains(t);
            if k < front.len() {
                assert(front[k] == cards[k]);
                let j = choose|j: int| 0 <= j < before.len() && before[j] == t;
                assert(now[j] == t);
            } else {
                let j = choose|j: int| 0 <= j < more.len() && more[j] == t;
                assert(now[before.len() + j] == t);
            }
        }
    }
}

/// Law: the instructions tell each tag in use with its count, and nothing of
/// tags where none is in use.
pub proof fn law_tags_are_told_with_their_counts(used: Seq<Seq<char>>, k: int)
    requires
        0 <= k < tally_of(used).len(),
    ensures
        contains(
            tags_section(used),
            tally_of(used)[k].0 + " ("@ + dec(tally_of(used)[k].1 as int) + ")"@,
        ),
        tags_section(Seq::empty()).len() == 0 || tally_of(Seq::<Seq<char>>::empty()).len() > 0,
{
    let rows = tally_of(used);
    let told = rows.map_values(|r: (Seq<char>, nat)| tag_count(r));
    assert(told[k] == tag_count(rows[k]));
    let (a, b) = lemma_joined(told, ", "@, k);
    let head = "\n## Tags in use\n\n"@;
    let tail =
        "\n\nReuse one of these rather than inventing a near-duplicate; a card may carry several (`-l art,enemies`).\n"@;
    lemma_part_is_there(head + a, told[k], b + tail);
    assert(tags_section(used) =~= head + a + told[k] + (b + tail));
}

/// What stands before a piece of a joined text, and what after it.
proof fn lemma_joined(v: Seq<Seq<char>>, sep: Seq<char>, k: int) -> (r: (Seq<char>, Seq<char>))
    requires
        0 <= k < v.len(),
    ensures
        join(v, sep) == r.0 + v[k] + r.1,
    decreases v.len(),
{
    let none = Seq::<char>::empty();
    if v.len() == 1 {
        assert(join(v, sep) =~= none + v[k] + none);
        (none, none)
    } else if k == v.len() - 1 {
        let a = join(v.drop_last(), sep) + sep;
        assert(join(v, sep) =~= a + v[k] + none);
        (a, none)
    } else {
        let (a, b) = lemma_joined(v.drop_last(), sep, k);
        assert(join(v, sep) =~= a + v[k] + (b + sep + v.last()));
        (a, b + sep + v.last())
    }
}

/// Law: the instructions name the project at hand by its name, its id and
/// its path, and the page that is kept in sync.
#[verifier::rlimit(40)]
pub proof fn law_instructions_name_the_project(p: ProjectView, central: bool, page: Seq<char>)
    ensures
        contains(
            project_section(Some(p), central),
            "**"@ + p.name + "** (#"@ + dec(p.id as int) + ", `"@ + p.path + "`)"@,
        ),
        project_section(None, false).len() == 0,
        project_section(None, true).len() > 0,
        contains(auto_section(Some(page)), "`"@ + page + "`"@),
        auto_section(None).len() == 0,
{
    reveal_strlit("This repository is project **");
    reveal_strlit("This repository is project ");
    reveal_strlit("**");
    reveal_strlit("`)");
    reveal_strlit(". Commands run from inside it,\nor any of its worktrees, are scoped to it automatically; nothing has to be pinned.");
    reveal_strlit("`). Commands run from inside it,\nor any of its worktrees, are scoped to it automatically; nothing has to be pinned.");
    reveal_strlit(
        "No project is scoped: this directory is not a registered repository. Pass `--project <name>` or run `bl project add`.",
    );
    let a = "This repository is project "@;
    let z = ". Commands run from inside it,\nor any of its worktrees, are scoped to it automatically; nothing has to be pinned."@;
    assert("This repository is project **"@ =~= a + "**"@);
    assert("`). Commands run from inside it,\nor any of its worktrees, are scoped to it automatically; nothing has to be pinned."@
        =~= "`)"@ + z);
    lemma_introduced(a, "**"@, p.name, "** (#"@, dec(p.id as int), ", `"@, p.path, "`)"@, z);
    reveal_strlit("\nThe board at `");
    reveal_strlit("\nThe board at ");
    reveal_strlit("`");
    reveal_strlit("` refreshes itself on every write — never run `bl export`.\n");
    reveal_strlit(" refreshes itself on every write — never run `bl export`.\n");
    assert("\nThe board at `"@ =~= "\nThe board at "@ + "`"@);
    assert("` refreshes itself on every write — never run `bl export`.\n"@ =~= "`"@
        + " refreshes itself on every write — never run `bl export`.\n"@);
    lemma_fenced("\nThe board at "@, "`"@, page, " refreshes itself on every write — never run `bl export`.\n"@);
}

/// A part of the section on the project.
proof fn lemma_introduced(
    a: Seq<char>,
    b: Seq<char>,
    c: Seq<char>,
    d: Seq<char>,
    e: Seq<char>,
    f: Seq<char>,
    g: Seq<char>,
    h: Seq<char>,
    z: Seq<char>,
)
    ensures
        contains((a + b) + c + d + e + f + g + (h + z), b + c + d + e + f + g + h),
{
    let t = (a + b) + c + d + e + f + g + (h + z);
    let x = b + c + d + e + f + g + h;
    let n = a.len() as int;
    assert(t.subrange(n, n + x.len()) =~= x);
    assert(occurs_at(t, x, n));
}

/// A text between two marks.
proof fn lemma_fenced(a: Seq<char>, mark: Seq<char>, s: Seq<char>, z: Seq<char>)
    ensures
        contains((a + mark) + s + (mark + z), mark + s + mark),
{
    let t = (a + mark) + s + (mark + z);
    let x = mark + s + mark;
    let n = a.len() as int;
    assert(t.subrange(n, n + x.len()) =~= x);
    assert(occurs_at(t, x, n));
}

// ------------------------------------------------------------- the feed

/// Law: a card in the feed tells each of its fields under its name.
pub proof fn law_feed_tells_every_field(c: CardView)
    ensures
        ({
            let t = card_json(c);
            &&& starts_with(t, "{\"id\":"@ + dec(c.id as int) + ",\"title\":"@ + quoted(c.title))
            &&& contains(t, ",\"notes\":"@ + quoted(c.notes))
            &&& contains(t, ",\"label\":"@ + quoted(c.label))
            &&& contains(t, ",\"status\":"@ + quoted(status_name(c.status)))
            &&& contains(t, ",\"priority\":"@ + dec(c.priority as int) + ",\"outcome\":"@ + quoted(c.outcome))
            &&& contains(t, ",\"claimed_by\":"@ + quoted(c.claimed_by))
            &&& contains(t, ",\"claimed_at\":"@ + quoted(c.claimed_at))
            &&& contains(t, ",\"created_at\":"@ + quoted(c.created_at))
            &&& contains(t, ",\"updated_at\":"@ + quoted(c.updated_at))
        }),
{
    let t = card_json(c);
    let p0 = "{\"id\":"@ + dec(c.id as int) + ",\"title\":"@ + quoted(c.title);
    let p1 = ",\"notes\":"@ + quoted(c.notes);
    let p2 = ",\"label\":"@ + quoted(c.label);
    let p3 = ",\"status\":"@ + quoted(status_name(c.status));
    let p4 = ",\"priority\":"@ + dec(c.priority as int) + ",\"outcome\":"@ + quoted(c.outcome);
    let p5 = ",\"claimed_by\":"@ + quoted(c.claimed_by);
    let p6 = ",\"claimed_at\":"@ + quoted(c.claimed_at);
    let p7 = ",\"created_at\":"@ + quoted(c.created_at);
    let p8 = ",\"updated_at\":"@ + quoted(c.updated_at);
    let z = "}"@;
    assert(t =~= p0 + p1 + p2 + p3 + p4 + p5 + p6 + p7 + p8 + z);
    lemma_nine(p0, p1, p2, p3, p4, p5, p6, p7, p8, z);
}

/// Each of nine parts stands in the whole.
#[verifier::rlimit(40)]
proof fn lemma_nine(
    p0: Seq<char>,
    p1: Seq<char>,
    p2: Seq<char>,
    p3: Seq<char>,
    p4: Seq<char>,
    p5: Seq<char>,
    p6: Seq<char>,
    p7: Seq<char>,
    p8: Seq<char>,
    z: Seq<char>,
)
    ensures
        ({
            let t = p0 + p1 + p2 + p3 + p4 + p5 + p6 + p7 + p8 + z;
            &&& starts_with(t, p0)
            &&& contains(t, p1) && contains(t, p2) && contains(t, p3) && contains(t, p4)
            &&& contains(t, p5) && contains(t, p6) && contains(t, p7) && contains(t, p8)
        }),
{
    let t = p0 + p1 + p2 + p3 + p4 + p5 + p6 + p7 + p8 + z;
    assert(starts_with(t, p0)) by {
        assert(t.subrange(0, p0.len() as int) =~= p0);
    }
    assert(contains(t, p1)) by {
        let k = (p0).len() as int;
        assert(t.subrange(k, k + p1.len()) =~= p1);
        assert(occurs_at(t, p1, k));
    }
    assert(contains(t, p2)) by {
        let k = (p0 + p1).len() as int;
        assert(t.subrange(k, k + p2.len()) =~= p2);
        assert(occurs_at(t, p2, k));
    }
    assert(contains(t, p3)) by {
        let k = (p0 + p1 + p2).len() as int;
        assert(t.subrange(k, k + p3.len()) =~= p3);
        assert(occurs_at(t, p3, k));
    }
    assert(contains(t, p4)) by {
        let k = (p0 + p1 + p2 + p3).len() as int;
        assert(t.subrange(k, k + p4.len()) =~= p4);
        assert(occurs_at(t, p4, k));
    }
    assert(contains(t, p5)) by {
        let k = (p0 + p1 + p2 + p3 + p4).len() as int;
        assert(t.subrange(k, k + p5.len()) =~= p5);
        assert(occurs_at(t, p5, k));
    }
    assert(contains(t, p6)) by {
        let k = (p0 + p1 + p2 + p3 + p4 + p5).len() as int;
        assert(t.subrange(k, k + p6.len()) =~= p6);
        assert(occurs_at(t, p6, k));
    }
    assert(contains(t, p7)) by {
        let k = (p0 + p1 + p2 + p3 + p4 + p5 + p6).len() as int;
        assert(t.subrange(k, k + p7.len()) =~= p7);
        assert(occurs_at(t, p7, k));
    }
    assert(contains(t, p8)) by {
        let k = (p0 + p1 + p2 + p3 + p4 + p5 + p6 + p7).len() as int;
        assert(t.subrange(k, k + p8.len()) =~= p8);
        assert(occurs_at(t, p8, k));
    }
}

/// Law: the feed tells the database asked for, every database with its
/// number, and every card.
#[verifier::rlimit(40)]
pub proof fn law_feed_tells_databases_and_cards(sources: Seq<SourceView>, index: nat, cards: Seq<CardView>, i: int, k: int)
    requires
        index < sources.len(),
    ensures
        starts_with(
            feed_text(sources, index, cards),
            "{\"db\":{\"index\":"@ + dec(index as int) + ",\"label\":"@ + quoted(sources[index as int].label)
                + ",\"path\":"@ + quoted(sources[index as int].path),
        ),
        0 <= i < sources.len() ==> contains(
            feed_text(sources, index, cards),
            "{\"index\":"@ + dec(i) + ",\"label\":"@ + quoted(sources[i].label) + ",\"path\":"@ + quoted(
                sources[i].path,
            ) + "}"@,
        ),
        0 <= k < cards.len() ==> contains(feed_text(sources, index, cards), card_json(cards[k])),
{
    let dbs = crate::serve::dbs_json(sources);
    let told = cards.map_values(|c: CardView| card_json(c));
    let s = sources[index as int];
    reveal_strlit("{\"db\":");
    reveal_strlit("{\"index\":");
    reveal_strlit("{\"db\":{\"index\":");
    assert("{\"db\":"@ + "{\"index\":"@ =~= "{\"db\":{\"index\":"@);
    lemma_seven_of(
        "{\"db\":"@,
        db_json(index, s),
        ",\"databases\":["@,
        join(dbs, ","@),
        "],\"cards\":["@,
        join(told, ","@),
        "]}"@,
    );
    lemma_db(index as int, quoted(s.label), quoted(s.path));
    let head = "{\"db\":{\"index\":"@ + dec(index as int) + ",\"label\":"@ + quoted(s.label) + ",\"path\":"@ + quoted(s.path);
    let t = feed_text(sources, index, cards);
    let ab = "{\"db\":"@ + db_json(index, s);
    lemma_begins(head, "}"@);
    assert(ab == head + "}"@);
    assert(t.subrange(0, ab.len() as int) == ab);
    assert(t.subrange(0, head.len() as int) =~= ab.subrange(0, head.len() as int));
    if 0 <= i < sources.len() {
        let (a, b) = lemma_joined(dbs, ","@, i);
        assert(dbs[i] == db_json(i as nat, sources[i]));
        lemma_part_is_there(a, dbs[i], b);
        lemma_inside(t, join(dbs, ","@), dbs[i]);
    }
    if 0 <= k < cards.len() {
        let (a, b) = lemma_joined(told, ","@, k);
        assert(told[k] == card_json(cards[k]));
        lemma_part_is_there(a, told[k], b);
        lemma_inside(t, join(told, ","@), told[k]);
    }
}

/// How the database asked for stands at the start.
proof fn lemma_db(n: int, label: Seq<char>, path: Seq<char>)
    ensures
        "{\"db\":"@ + ("{\"index\":"@ + dec(n) + ",\"label\":"@ + label + ",\"path\":"@ + path + "}"@)
            == "{\"db\":"@ + "{\"index\":"@ + dec(n) + ",\"label\":"@ + label + ",\"path\":"@ + path + "}"@,
{
    assert("{\"db\":"@ + ("{\"index\":"@ + dec(n) + ",\"label\":"@ + label + ",\"path\":"@ + path + "}"@)
        =~= "{\"db\":"@ + "{\"index\":"@ + dec(n) + ",\"label\":"@ + label + ",\"path\":"@ + path + "}"@);
}

/// Standing in is transitive.
proof fn lemma_inside(t: Seq<char>, part: Seq<char>, x: Seq<char>)
    requires
        contains(t, part),
        contains(part, x),
    ensures
        contains(t, x),
{
    let at = choose|at: int| occurs_at(t, part, at);
    lemma_stands_in_whole(t.take(at), part, t.skip(at + part.len()), x);
    assert(t =~= t.take(at) + t.subrange(at, at + part.len()) + t.skip(at + part.len()));
}

/// Parts of a text of seven parts.
#[verifier::rlimit(40)]
proof fn lemma_seven_of(
    a: Seq<char>,
    b: Seq<char>,
    c: Seq<char>,
    d: Seq<char>,
    e: Seq<char>,
    f: Seq<char>,
    g: Seq<char>,
)
    ensures
        ({
            let t = a + b + c + d + e + f + g;
            &&& starts_with(t, a + b)
            &&& contains(t, d)
            &&& contains(t, f)
        }),
{
    let t = a + b + c + d + e + f + g;
    assert(starts_with(t, a + b)) by {
        let x = a + b;
        let z = c + d + e + f + g;
        assert(t =~= x + z);
        lemma_begins(x, z);
    }
    assert(contains(t, d)) by {
        let x = a + b + c;
        let z = e + f + g;
        assert(t =~= x + d + z);
        lemma_part_is_there(x, d, z);
    }
    assert(contains(t, f)) by {
        lemma_part_is_there(a + b + c + d + e, f, g);
    }
}

/// The value of a hexadecimal digit.
pub open spec fn hex_value(c: char) -> int {
    if c as int <= 57 {
        c as int - 48
    } else {
        c as int - 87
    }
}

/// Law: in a JSON string a character stands for itself, or behind a
/// backslash; a control character without a letter of its own stands there
/// as its number in four hexadecimal digits.
pub proof fn law_characters_in_a_string(c: char)
    ensures
        ({
            let e = escaped(c);
            let n = c as int;
            &&& e.len() == 1 ==> e[0] == c && n >= 32 && c != '"' && c != '\\'
            &&& e.len() == 2 ==> e[0] == '\\' && (c == '"' || c == '\\' ==> e[1] == c)
            &&& e.len() == 2 && n < 32 ==> (n == 8 && e[1] == 'b') || (n == 9 && e[1] == 't') || (n == 10 && e[1] == 'n') || (
            n == 12 && e[1] == 'f') || (n == 13 && e[1] == 'r')
            &&& e.len() > 2 ==> e.len() == 6 && e[0] == '\\' && e[1] == 'u' && e[2] == '0' && e[3] == '0' && hex_value(e[4])
                * 16 + hex_value(e[5]) == n && n < 32
            &&& e.len() == 1 || e.len() == 2 || e.len() == 6
        }),
{
    let n = c as int;
    if n < 32 {
        assert(0 <= n / 16 < 2 && 0 <= n % 16 < 16 && n == 16 * (n / 16) + n % 16);
        assert(hex_value(crate::serve::hex_digit(n / 16)) == n / 16);
        assert(hex_value(crate::serve::hex_digit(n % 16)) == n % 16);
    }
}

/// Law: the head of an answer tells its code, the kind of its body and how
/// long that is.
pub proof fn law_head_tells_the_answer(code: u16, kind: Seq<char>, length: nat)
    ensures
        starts_with(head_text(code, kind, length), "HTTP/1.1 "@ + dec(code as int) + " "@),
        contains(head_text(code, kind, length), "\r\nContent-Type: "@ + kind + "\r\nContent-Length: "@ + dec(length as int)),
        code == 200 ==> contains(head_text(code, kind, length), "OK"@ + "\r\nContent-Type: "@),
        code == 404 ==> contains(head_text(code, kind, length), "Not Found"@ + "\r\nContent-Type: "@),
        code == 500 ==> contains(head_text(code, kind, length), "Internal Server Error"@ + "\r\nContent-Type: "@),
{
    lemma_answer(
        "HTTP/1.1 "@ + dec(code as int) + " "@,
        crate::view::reason_of(code),
        "\r\nContent-Type: "@,
        kind,
        "\r\nContent-Length: "@,
        dec(length as int),
        "\r\nCache-Control: no-store\r\nConnection: close\r\n\r\n"@,
    );
}

/// Parts of the head of an answer.
proof fn lemma_answer(
    a: Seq<char>,
    b: Seq<char>,
    c: Seq<char>,
    d: Seq<char>,
    e: Seq<char>,
    f: Seq<char>,
    g: Seq<char>,
)
    ensures
        ({
            let t = a + b + c + d + e + f + g;
            &&& starts_with(t, a)
            &&& contains(t, b + c)
            &&& contains(t, c + d + e + f)
        }),
{
    let t = a + b + c + d + e + f + g;
    assert(contains(t, b + c)) by {
        let y = b + c;
        let k = a.len() as int;
        assert(t.subrange(k, k + y.len()) =~= y);
        assert(occurs_at(t, y, k));
    }
    assert(starts_with(t, a)) by {
        let z = b + c + d + e + f + g;
        assert(t =~= a + z);
        lemma_begins(a, z);
    }
    assert(contains(t, c + d + e + f)) by {
        let x = a + b;
        let y = c + d + e + f;
        assert(t =~= x + y + g);
        lemma_part_is_there(x, y, g);
    }
}

// ------------------------------------------------------------- old tables

/// Law: a column that came later is added exactly where the column it came
/// with is missing.
pub proof fn law_missing_columns_are_added(present: Seq<Seq<char>>, columns: Seq<LaterColumn>)
    ensures
        additions(present, columns) == columns.filter(|c: LaterColumn| !present.contains(c.with)).map_values(
            |c: LaterColumn| "ALTER TABLE cards ADD COLUMN "@ + c.name + " "@ + c.kind + ";"@,
        ),
    decreases columns.len(),
{
    reveal(Seq::filter);
    let f = |c: LaterColumn| !present.contains(c.with);
    let g = |c: LaterColumn| "ALTER TABLE cards ADD COLUMN "@ + c.name + " "@ + c.kind + ";"@;
    if columns.len() > 0 {
        law_missing_columns_are_added(present, columns.drop_last());
        let before = columns.drop_last().filter(f);
        if f(columns.last()) {
            assert(before.push(columns.last()).map_values(g) =~= before.map_values(g).push(g(columns.last())));
        }
    } else {
        assert(columns.filter(f).map_values(g) =~= Seq::empty());
    }
}

/// Law: a column is read where it is there, and as empty text under its name
/// where it is not.
pub proof fn law_absent_columns_are_empty(present: Seq<Seq<char>>, column: Seq<char>)
    ensures
        present.contains(column) ==> column_read(present, column) == column,
        !present.contains(column) ==> column_read(present, column) == "'' AS "@ + column,
{
}

} // verus!
