//! Notes as rows rather than one growing text.
//!
//! A card's `notes` text is kept as a rendered mirror of the rows. Where
//! something else appended lines to the text, `reconcile` adopts them back
//! into the rows.

use vstd::prelude::*;

use crate::card::{Card, CardView};
use crate::refusal::{Refusal, RefusalView};
use crate::text::{
    blank, chars_of, copy, cuts, find, find_in, is_space, join, joined, keep_nonblank, last_in, last_of,
    lemma_blank_without_cr, lemma_find, lemma_find_at, lemma_last_of, lemma_nonblank_concat, lemma_nonblank_keeps,
    lemma_nonblank_lines, lemma_nonblank_members, lemma_nonblank_without_cr, lemma_pieces_uncut, lemma_split_append,
    lemma_split_join, lemma_split_whole, lemma_trim, lemma_trim_end, lemma_trim_end_is, lemma_trim_start,
    lemma_trim_start_is, lines, lines_of, nonblank, occurs_at, part, same, split, strip_cr, texts, trim, trim_end,
    trim_start, trimmed, trimmed_end, Sep,
};

verus! {

/// A single note. Kinds are free-form.
#[derive(Debug, PartialEq, Eq)]
pub struct Note {
    /// 0 until the row is stored.
    pub id: i64,
    pub kind: String,
    pub author: String,
    pub body: String,
    pub commit_sha: String,
    pub commit_subject: String,
    pub created_at: String,
}

/// What a note says.
#[verifier::ext_equal]
pub struct NoteView {
    pub id: i64,
    pub kind: Seq<char>,
    pub author: Seq<char>,
    pub body: Seq<char>,
    pub commit_sha: Seq<char>,
    pub commit_subject: Seq<char>,
    pub created_at: Seq<char>,
}

impl View for Note {
    type V = NoteView;

    open spec fn view(&self) -> NoteView {
        NoteView {
            id: self.id,
            kind: self.kind@,
            author: self.author@,
            body: self.body@,
            commit_sha: self.commit_sha@,
            commit_subject: self.commit_subject@,
            created_at: self.created_at@,
        }
    }
}

/// What each of several notes says.
pub open spec fn note_views(v: Seq<Note>) -> Seq<NoteView> {
    v.map_values(|n: Note| n@)
}

// ------------------------------------------------------------- one line

/// The line form: `[kind] body [sha]`, with the pieces that carry no
/// information left out.
pub open spec fn rendered(n: NoteView) -> Seq<char> {
    let head = if n.kind != "note"@ && n.kind.len() > 0 { "["@ + n.kind + "] "@ } else { Seq::empty() };
    let tail = if n.commit_sha.len() > 0 { " ["@ + n.commit_sha + "]"@ } else { Seq::empty() };
    head + n.body + tail
}

pub open spec fn is_word_char(c: char) -> bool {
    ('a' <= c && c <= 'z') || ('A' <= c && c <= 'Z') || ('0' <= c && c <= '9') || c == '_' || c == '-'
}

/// A kind that a line can name: letters, digits, `_` and `-`.
pub open spec fn names_kind(s: Seq<char>) -> bool {
    s.len() > 0 && forall|i: int| 0 <= i < s.len() ==> is_word_char(#[trigger] s[i])
}

pub open spec fn is_hex(c: char) -> bool {
    ('0' <= c && c <= '9') || ('a' <= c && c <= 'f') || ('A' <= c && c <= 'F')
}

/// A commit id that a line can name: 7 to 40 hexadecimal digits.
pub open spec fn names_commit(s: Seq<char>) -> bool {
    7 <= s.len() <= 40 && forall|i: int| 0 <= i < s.len() ==> is_hex(#[trigger] s[i])
}

/// The kind a line begins with, and what follows it.
pub open spec fn split_kind(t: Seq<char>) -> (Seq<char>, Seq<char>) {
    match find(t, "] "@) {
        Some(close) => {
            if t[0] == '[' && names_kind(t.subrange(1, close)) {
                (t.subrange(1, close), t.skip(close + 2))
            } else {
                ("note"@, t)
            }
        },
        None => ("note"@, t),
    }
}

/// The text before the commit a line ends with, and that commit.
pub open spec fn split_commit(t: Seq<char>) -> (Seq<char>, Seq<char>) {
    let open = last_of(t, '[');
    if t.len() > 0 && t.last() == ']' && open >= 0 && names_commit(t.subrange(open + 1, t.len() - 1)) {
        (trim_end(t.take(open)), t.subrange(open + 1, t.len() - 1))
    } else {
        (t, Seq::empty())
    }
}

/// The note that a line of the mirror stands for.
pub open spec fn parsed(line: Seq<char>, created_at: Seq<char>) -> NoteView {
    let (kind, rest) = split_kind(trim(line));
    let (body, sha) = split_commit(rest);
    NoteView {
        id: 0,
        kind,
        author: Seq::empty(),
        body,
        commit_sha: sha,
        commit_subject: Seq::empty(),
        created_at,
    }
}

// ------------------------------------------------------------- the card

/// The mirror of the rows.
pub open spec fn mirror(entries: Seq<NoteView>) -> Seq<char> {
    join(entries.map_values(|n: NoteView| rendered(n)), "\n"@)
}

/// The lines of the mirror that can stand for a note.
pub open spec fn note_lines(text: Seq<char>) -> Seq<Seq<char>> {
    nonblank(lines(text))
}

/// The notes that lines stand for.
pub open spec fn adopted(ls: Seq<Seq<char>>, created_at: Seq<char>) -> Seq<NoteView> {
    ls.map_values(|l: Seq<char>| parsed(l, created_at))
}

/// How many lines the rows take in the mirror.
pub open spec fn lines_taken(entries: Seq<NoteView>) -> nat {
    note_lines(mirror(entries)).len()
}

/// The card once the lines that have no row are adopted: those after as many
/// as the rows take.
pub open spec fn reconciled(c: CardView) -> CardView {
    let ls = note_lines(c.notes);
    let have = lines_taken(c.entries);
    if ls.len() <= have {
        c
    } else {
        CardView { entries: c.entries + adopted(ls.skip(have as int), c.created_at), ..c }
    }
}

/// The card with these rows, its mirror rewritten.
pub open spec fn with_entries(c: CardView, entries: Seq<NoteView>, now: Seq<char>) -> CardView {
    CardView { entries, notes: mirror(entries), updated_at: now, ..c }
}

/// One of the rows already says this.
pub open spec fn already_noted(entries: Seq<NoteView>, kind: Seq<char>, body: Seq<char>) -> bool {
    exists|k: int| 0 <= k < entries.len() && (#[trigger] entries[k]).body == body && entries[k].kind == kind
}

/// The card with one note more.
pub open spec fn noted(c: CardView, note: NoteView, now: Seq<char>) -> CardView {
    with_entries(reconciled(c), reconciled(c).entries.push(note), now)
}

/// The position of the first row with this id, or -1.
pub open spec fn row_of(entries: Seq<NoteView>, id: i64) -> int
    decreases entries.len(),
{
    if entries.len() == 0 {
        -1
    } else if row_of(entries.drop_last(), id) >= 0 {
        row_of(entries.drop_last(), id)
    } else if entries.last().id == id {
        entries.len() - 1
    } else {
        -1
    }
}

/// The note with the given pieces changed.
pub open spec fn reworded(n: NoteView, text: Option<Seq<char>>, kind: Option<Seq<char>>) -> NoteView {
    NoteView {
        body: match text {
            Some(t) => t,
            None => n.body,
        },
        kind: match kind {
            Some(k) => k,
            None => n.kind,
        },
        ..n
    }
}

/// Optional text as the contracts speak of it.
pub open spec fn opt_text(s: Option<&str>) -> Option<Seq<char>> {
    match s {
        Some(t) => Some(t@),
        None => None,
    }
}

// ------------------------------------------------------------- laws

/// A line of a text is not blank and has no line feed in it.
proof fn lemma_note_line(text: Seq<char>, k: int)
    requires
        0 <= k < note_lines(text).len(),
    ensures
        !blank(note_lines(text)[k]),
        !note_lines(text)[k].contains('\n'),
{
    let p = split(text, Sep::Char('\n'));
    let all = lines(text);
    let l = note_lines(text)[k];
    lemma_pieces_uncut(text, Sep::Char('\n'));
    lemma_nonblank_members(all);
    assert(all.contains(l));
    let j = choose|j: int| 0 <= j < all.len() && all[j] == l;
    assert(l == p[j] || l == strip_cr(p[j]));
    if l.contains('\n') {
        let i = choose|i: int| 0 <= i < l.len() && l[i] == '\n';
        assert(p[j][i] == '\n');
        assert(!cuts(Sep::Char('\n'), p[j][i]));
    }
}

/// The note a line stands for takes one line.
proof fn lemma_adopted_takes_a_line(l: Seq<char>, at: Seq<char>)
    requires
        !blank(l),
        !l.contains('\n'),
    ensures
        !blank(rendered(parsed(l, at))),
        forall|i: int| 0 <= i < rendered(parsed(l, at)).len() ==> #[trigger] rendered(parsed(l, at))[i] != '\n',
{
    reveal_strlit("[");
    reveal_strlit("]");
    reveal_strlit(" [");
    reveal_strlit("] ");
    reveal_strlit("note");
    let s = trim_start(l);
    let t = trim(l);
    lemma_trim(l);
    lemma_trim_start(l);
    lemma_trim_end(s);
    let skipped = choose|k: int| 0 <= k <= l.len() && s == #[trigger] l.skip(k) && blank(l.take(k));
    assert forall|i: int| 0 <= i < t.len() implies #[trigger] t[i] != '\n' by {
        assert(t[i] == s[i]);
        assert(s[i] == l[skipped + i]);
        assert(!l.contains('\n'));
    }
    let (kind, rest) = split_kind(t);
    lemma_find(t, "] "@);
    if rest != t {
        let close = find(t, "] "@)->0;
        assert(t.subrange(close, close + 2)[1] == ' ');
        assert(t[close + 1] == ' ');
        assert(rest == t.skip(close + 2));
        if rest.len() == 0 {
            assert(t.last() == t[close + 1]);
        }
    }
    assert(rest.len() > 0 && rest.last() == t.last());
    assert forall|i: int| 0 <= i < rest.len() implies #[trigger] rest[i] != '\n' by {
        assert(rest[i] == t[i + (t.len() - rest.len())]);
    }
    assert forall|i: int| 0 <= i < kind.len() implies #[trigger] kind[i] != '\n' by {
        if kind != "note"@ {
            assert(is_word_char(kind[i]));
        }
    }
    let (body, sha) = split_commit(rest);
    lemma_last_of(rest, '[');
    if sha.len() > 0 {
        let open = last_of(rest, '[');
        lemma_trim_end(rest.take(open));
        assert forall|i: int| 0 <= i < body.len() implies #[trigger] body[i] != '\n' by {
            assert(body[i] == rest.take(open)[i]);
            assert(rest.take(open)[i] == rest[i]);
        }
        assert forall|i: int| 0 <= i < sha.len() implies #[trigger] sha[i] != '\n' by {
            assert(is_hex(sha[i]));
        }
    }
    let n = parsed(l, at);
    let r = rendered(n);
    let head = if n.kind != "note"@ && n.kind.len() > 0 { "["@ + n.kind + "] "@ } else { Seq::empty() };
    let tail = if n.commit_sha.len() > 0 { " ["@ + n.commit_sha + "]"@ } else { Seq::empty() };
    assert forall|i: int| 0 <= i < head.len() implies #[trigger] head[i] != '\n' by {
        if 1 <= i < 1 + kind.len() {
            assert(head[i] == kind[i - 1]);
        }
    }
    assert forall|i: int| 0 <= i < tail.len() implies #[trigger] tail[i] != '\n' by {
        if 2 <= i < 2 + sha.len() {
            assert(tail[i] == sha[i - 2]);
        }
    }
    assert forall|i: int| 0 <= i < r.len() implies #[trigger] r[i] != '\n' by {
        if i < head.len() {
            assert(r[i] == head[i]);
        } else if i < head.len() + body.len() {
            assert(r[i] == body[i - head.len()]);
        } else {
            assert(r[i] == tail[i - head.len() - body.len()]);
        }
    }
    if sha.len() > 0 {
        assert(r[r.len() - 1] == ']');
    } else {
        assert(body == rest);
        assert(r[r.len() - 1] == rest.last());
    }
    assert(!is_space(r[r.len() - 1]));
}

/// A row that takes one line adds one to those the rows take.
proof fn lemma_one_line_more(entries: Seq<NoteView>, n: NoteView)
    requires
        !blank(rendered(n)),
        forall|i: int| 0 <= i < rendered(n).len() ==> #[trigger] rendered(n)[i] != '\n',
    ensures
        lines_taken(entries.push(n)) == lines_taken(entries) + 1,
{
    reveal_strlit("\n");
    assert("\n"@ =~= seq!['\n']);
    let nl = Sep::Char('\n');
    let r = rendered(n);
    let e = entries.push(n);
    let (rs, es) = (entries.map_values(|n: NoteView| rendered(n)), e.map_values(|n: NoteView| rendered(n)));
    assert(es =~= rs.push(r));
    assert(es.drop_last() =~= rs);
    lemma_nonblank_lines(mirror(entries));
    lemma_nonblank_lines(mirror(e));
    if entries.len() == 0 {
        lemma_split_whole(r, nl);
        assert(mirror(e) == r);
        assert(seq![r].drop_last() =~= Seq::<Seq<char>>::empty());
        let none = Seq::<char>::empty();
        assert(split(none, nl) =~= seq![none]);
        assert(seq![none].drop_last() =~= Seq::<Seq<char>>::empty());
        assert(blank(none));
    } else {
        lemma_split_append(mirror(entries), '\n', r, nl);
        let p = split(mirror(entries), nl);
        assert(p.push(r).drop_last() =~= p);
    }
}

/// Rows of one line each take as many lines more as they are.
proof fn lemma_lines_more(entries: Seq<NoteView>, more: Seq<NoteView>)
    requires
        forall|k: int| 0 <= k < more.len() ==> !blank(rendered(#[trigger] more[k])),
        forall|k: int, i: int|
            0 <= k < more.len() && 0 <= i < rendered(more[k]).len() ==> #[trigger] rendered(more[k])[i] != '\n',
    ensures
        lines_taken(entries + more) == lines_taken(entries) + more.len(),
    decreases more.len(),
{
    if more.len() == 0 {
        assert(entries + more =~= entries);
    } else {
        let front = more.drop_last();
        assert forall|k: int| 0 <= k < front.len() implies !blank(rendered(#[trigger] front[k])) by {
            assert(front[k] == more[k]);
        }
        assert forall|k: int, i: int| 0 <= k < front.len() && 0 <= i < rendered(front[k]).len() implies #[trigger] rendered(
            front[k],
        )[i] != '\n' by {
            assert(rendered(more[k])[i] != '\n');
        }
        lemma_lines_more(entries, front);
        let last = more[more.len() - 1];
        assert(!blank(rendered(last)));
        assert forall|i: int| 0 <= i < rendered(last).len() implies #[trigger] rendered(last)[i] != '\n' by {
            assert(rendered(more[more.len() - 1])[i] != '\n');
        }
        lemma_one_line_more(entries + front, last);
        assert((entries + front).push(last) =~= entries + more);
    }
}

/// Law: adopting the lines of the mirror twice adds nothing the second time.
pub proof fn law_reconcile_idempotent(c: CardView)
    ensures
        reconciled(reconciled(c)) == reconciled(c),
{
    let ls = note_lines(c.notes);
    let have = lines_taken(c.entries) as int;
    if ls.len() > have {
        let more = adopted(ls.skip(have), c.created_at);
        assert forall|k: int| 0 <= k < more.len() implies !blank(rendered(#[trigger] more[k])) by {
            assert(more[k] == parsed(ls[have + k], c.created_at));
            lemma_note_line(c.notes, have + k);
            lemma_adopted_takes_a_line(ls[have + k], c.created_at);
        }
        assert forall|k: int, i: int| 0 <= k < more.len() && 0 <= i < rendered(more[k]).len() implies #[trigger] rendered(
            more[k],
        )[i] != '\n' by {
            assert(more[k] == parsed(ls[have + k], c.created_at));
            lemma_note_line(c.notes, have + k);
            lemma_adopted_takes_a_line(ls[have + k], c.created_at);
        }
        lemma_lines_more(c.entries, more);
    }
}

/// A line begins with a kind.
pub open spec fn begins_with_kind(t: Seq<char>) -> bool {
    match find(t, "] "@) {
        Some(close) => t[0] == '[' && names_kind(t.subrange(1, close)),
        None => false,
    }
}

/// A line ends with a commit.
pub open spec fn ends_with_commit(t: Seq<char>) -> bool {
    t.len() > 0 && t.last() == ']' && last_of(t, '[') >= 0 && names_commit(
        t.subrange(last_of(t, '[') + 1, t.len() - 1),
    )
}

/// The note is read back from its line: the kind is one a line can name, so
/// is the commit, the body has no white space at the end, and nothing in it
/// passes for a kind or a commit that the note does not have.
pub open spec fn readable(n: NoteView) -> bool {
    &&& names_kind(n.kind)
    &&& n.commit_sha.len() == 0 || names_commit(n.commit_sha)
    &&& trim_end(n.body) == n.body
    &&& n.kind == "note"@ ==> trim_start(n.body) == n.body && !begins_with_kind(rendered(n))
    &&& n.commit_sha.len() == 0 ==> !ends_with_commit(n.body)
    &&& n.commit_sha.len() == 0 && n.kind != "note"@ ==> n.body.len() > 0
}

proof fn lemma_kind_read_back(kind: Seq<char>, rest: Seq<char>)
    requires
        names_kind(kind),
    ensures
        split_kind("["@ + kind + "] "@ + rest) == (kind, rest),
{
    reveal_strlit("[");
    reveal_strlit("] ");
    let t = "["@ + kind + "] "@ + rest;
    let at = kind.len() as int + 1;
    assert(t.subrange(at, at + 2) =~= "] "@);
    assert(occurs_at(t, "] "@, at));
    assert forall|k: int| 0 <= k < at implies !#[trigger] occurs_at(t, "] "@, k) by {
        if occurs_at(t, "] "@, k) {
            assert(t.subrange(k, k + 2)[0] == "] "@[0]);
            if k > 0 {
                assert(t[k] == kind[k - 1]);
                assert(is_word_char(kind[k - 1]));
            }
        }
    }
    lemma_find_at(t, "] "@, at);
    assert(t.subrange(1, at) =~= kind);
    assert(t.skip(at + 2) =~= rest);
}

proof fn lemma_commit_read_back(body: Seq<char>, sha: Seq<char>)
    requires
        names_commit(sha),
        trim_end(body) == body,
    ensures
        split_commit(body + " ["@ + sha + "]"@) == (body, sha),
{
    reveal_strlit(" [");
    reveal_strlit("]");
    let t = body + " ["@ + sha + "]"@;
    let at = body.len() as int + 1;
    lemma_last_of(t, '[');
    assert(t[at] == '[');
    let open = last_of(t, '[');
    if open > at {
        if open < t.len() - 1 {
            assert(t[open] == sha[open - at - 1]);
            assert(is_hex(sha[open - at - 1]));
        }
        assert(false);
    }
    assert(open == at);
    assert(t.subrange(open + 1, t.len() - 1) =~= sha);
    assert(t.take(open) =~= body.push(' '));
    assert(body.push(' ').drop_last() =~= body);
}

/// Law: a note's line is read back as that note: kind, body and commit.
pub proof fn law_line_reads_back(n: NoteView, at: Seq<char>)
    requires
        readable(n),
    ensures
        parsed(rendered(n), at) == (NoteView {
            id: 0,
            author: Seq::empty(),
            commit_subject: Seq::empty(),
            created_at: at,
            ..n
        }),
{
    reveal_strlit("[");
    reveal_strlit("]");
    reveal_strlit(" [");
    reveal_strlit("] ");
    reveal_strlit("note");
    let t = rendered(n);
    let tail = if n.commit_sha.len() > 0 { " ["@ + n.commit_sha + "]"@ } else { Seq::empty() };
    let rest = n.body + tail;
    lemma_trim_end_is(n.body);
    if n.kind != "note"@ {
        assert(t =~= "["@ + n.kind + "] "@ + rest);
        lemma_trim_start_is(t);
        lemma_trim_end_is(t);
        assert(t[0] == '[');
        if n.commit_sha.len() > 0 {
            assert(t.last() == ']');
        } else {
            assert(t.last() == n.body.last());
        }
        assert(trim(t) == t);
        lemma_kind_read_back(n.kind, rest);
    } else {
        assert(t =~= rest);
        lemma_trim_start_is(n.body);
        lemma_trim_start_is(t);
        lemma_trim_end_is(t);
        if n.body.len() > 0 {
            assert(t[0] == n.body[0]);
            if n.commit_sha.len() > 0 {
                assert(t.last() == ']');
            }
            assert(trim(t) == t);
        } else if n.commit_sha.len() == 0 {
            assert(trim(t) == t);
        }
    }
    if n.commit_sha.len() > 0 {
        assert(rest =~= n.body + " ["@ + n.commit_sha + "]"@);
        lemma_commit_read_back(n.body, n.commit_sha);
        if n.kind == "note"@ && n.body.len() == 0 {
            // the line is only the commit, and loses the blank before it
            let u = "["@ + n.commit_sha + "]"@;
            assert(t.drop_first() =~= u);
            lemma_trim_start_is(u);
            lemma_trim_end_is(u);
            assert(trim(t) == u);
            lemma_find(u, "] "@);
            if find(u, "] "@) is Some {
                let k = find(u, "] "@)->0;
                assert(u.subrange(k, k + 2)[0] == ']' && u.subrange(k, k + 2)[1] == ' ');
                if 0 < k {
                    assert(u[k] == n.commit_sha[k - 1]);
                    assert(is_hex(n.commit_sha[k - 1]));
                }
                assert(false);
            }
            lemma_last_of(u, '[');
            let open = last_of(u, '[');
            assert(u[0] == '[');
            if open > 0 {
                if open < u.len() - 1 {
                    assert(u[open] == n.commit_sha[open - 1]);
                    assert(is_hex(n.commit_sha[open - 1]));
                }
                assert(false);
            }
            assert(u.subrange(1, u.len() - 1) =~= n.commit_sha);
            assert(u.take(0) =~= n.body);
            assert(trim_end(n.body) == n.body);
        }
    } else {
        assert(rest =~= n.body);
    }
}

/// Law: a mirror just written from its rows has nothing to adopt: the two
/// views of the notes agree, however many lines a row takes.
pub proof fn law_mirror_agrees(c: CardView, entries: Seq<NoteView>, now: Seq<char>)
    ensures
        reconciled(with_entries(c, entries, now)) == with_entries(c, entries, now),
{
}

/// Law: a note that was added is there to be found: adding it once more, where
/// only new notes are wanted, adds nothing.
pub proof fn law_unique_note_is_added_once(c: CardView, note: NoteView, now: Seq<char>)
    ensures
        already_noted(reconciled(noted(c, note, now)).entries, note.kind, note.body),
{
    let before = reconciled(c).entries;
    let after = reconciled(noted(c, note, now)).entries;
    assert(after[before.len() as int] == note);
}

proof fn lemma_trim_start_keeps_end(l: Seq<char>)
    requires
        !blank(l),
        l.len() > 0,
        is_space(l.last()),
    ensures
        trim_start(l).len() > 0,
        trim_start(l).last() == l.last(),
        trim_start(l).drop_last() == trim_start(l.drop_last()),
    decreases l.len(),
{
    if is_space(l[0]) {
        let rest = l.drop_first();
        if rest.len() == 0 || blank(rest) {
            assert forall|i: int| 0 <= i < l.len() implies is_space(#[trigger] l[i]) by {
                if i > 0 {
                    assert(rest[i - 1] == l[i]);
                }
            }
            assert(blank(l));
        }
        assert(rest.last() == l.last());
        lemma_trim_start_keeps_end(rest);
        assert(l.drop_last().drop_first() =~= rest.drop_last());
        assert(l.drop_last()[0] == l[0]);
    } else if l.drop_last().len() > 0 {
        assert(l.drop_last()[0] == l[0]);
    }
}

/// A carriage return at the end of a line makes no difference to the note.
proof fn lemma_parsed_without_cr(l: Seq<char>, at: Seq<char>)
    requires
        !blank(l),
    ensures
        parsed(strip_cr(l), at) == parsed(l, at),
{
    if l.len() > 0 && l.last() == '\r' {
        lemma_trim_start_keeps_end(l);
        assert(trim(l.drop_last()) == trim(l));
    }
}

/// The pieces of joined texts of which the last ones are lines.
proof fn lemma_split_with_lines(rs: Seq<Seq<char>>, more: Seq<Seq<char>>)
    requires
        rs.len() > 0,
        forall|k: int| 0 <= k < more.len() ==> !(#[trigger] more[k]).contains('\n'),
    ensures
        split(join(rs + more, "\n"@), Sep::Char('\n')) == split(join(rs, "\n"@), Sep::Char('\n')) + more,
    decreases more.len(),
{
    reveal_strlit("\n");
    assert("\n"@ =~= seq!['\n']);
    let nl = Sep::Char('\n');
    let base = split(join(rs, "\n"@), nl);
    if more.len() == 0 {
        assert(rs + more =~= rs);
        assert(base + more =~= base);
    } else {
        let front = more.drop_last();
        let last = more.last();
        assert forall|k: int| 0 <= k < front.len() implies !(#[trigger] front[k]).contains('\n') by {
            assert(front[k] == more[k]);
        }
        lemma_split_with_lines(rs, front);
        assert((rs + more).drop_last() =~= rs + front);
        assert((rs + more).last() == last);
        assert(!more[more.len() - 1].contains('\n'));
        lemma_split_append(join(rs + front, "\n"@), '\n', last, nl);
        assert((base + front).push(last) =~= base + more);
    }
}

/// Law: lines appended to the mirror become rows, each with the kind and the
/// commit it tells, and the rows that were there stay.
pub proof fn law_appended_lines_are_adopted(c: CardView, more: Seq<Seq<char>>)
    requires
        forall|k: int| 0 <= k < more.len() ==> !blank(#[trigger] more[k]) && !more[k].contains('\n'),
        more.len() > 0,
        c.notes == join(c.entries.map_values(|n: NoteView| rendered(n)) + more, "\n"@),
    ensures
        reconciled(c) == (CardView { entries: c.entries + adopted(more, c.created_at), ..c }),
{
    reveal_strlit("\n");
    assert("\n"@ =~= seq!['\n']);
    let nl = Sep::Char('\n');
    let cr = |p: Seq<char>| strip_cr(p);
    let rs = c.entries.map_values(|n: NoteView| rendered(n));
    let base = if rs.len() == 0 { Seq::empty() } else { split(mirror(c.entries), nl) };
    let p = split(c.notes, nl);
    if rs.len() == 0 {
        assert(rs + more =~= more);
        assert forall|k: int, i: int| 0 <= k < more.len() && 0 <= i < more[k].len() implies !cuts(
            nl,
            #[trigger] more[k][i],
        ) by {
            assert(!more[k].contains('\n'));
        }
        lemma_split_join(more, '\n', nl);
        assert(base + more =~= more);
        let none = Seq::<char>::empty();
        assert(split(none, nl) =~= seq![none]);
        assert(lines(none) =~= Seq::<Seq<char>>::empty());
        assert(c.entries =~= Seq::<NoteView>::empty());
        assert(mirror(c.entries) =~= none);
    } else {
        lemma_split_with_lines(rs, more);
    }
    assert(p == base + more);
    lemma_nonblank_lines(mirror(c.entries));
    lemma_nonblank_without_cr(base);
    let have = lines_taken(c.entries) as int;
    assert(nonblank(base.map_values(cr)).len() == have);
    // the last line is kept as it is, the others lose a carriage return
    let kept = more.drop_last().map_values(cr).push(more.last());
    assert(!blank(more[more.len() - 1]));
    assert(p.last() == more.last());
    assert(p.last().len() > 0);
    assert(p.drop_last().map_values(cr) =~= base.map_values(cr) + more.drop_last().map_values(cr));
    assert(lines(c.notes) =~= base.map_values(cr) + kept);
    lemma_nonblank_concat(base.map_values(cr), kept);
    assert forall|k: int| 0 <= k < kept.len() implies !blank(#[trigger] kept[k]) by {
        assert(!blank(more[k]));
        lemma_blank_without_cr(more[k]);
    }
    lemma_nonblank_keeps(kept);
    assert(note_lines(c.notes).skip(have) =~= kept);
    let rows = adopted(kept, c.created_at);
    assert forall|k: int| 0 <= k < more.len() implies #[trigger] rows[k] == parsed(more[k], c.created_at) by {
        assert(!blank(more[k]));
        lemma_parsed_without_cr(more[k], c.created_at);
    }
    assert(rows =~= adopted(more, c.created_at));
}

/// The row found has that id.
pub proof fn lemma_row_of(entries: Seq<NoteView>, id: i64)
    ensures
        -1 <= row_of(entries, id) < entries.len(),
        row_of(entries, id) >= 0 ==> entries[row_of(entries, id)].id == id,
        forall|k: int|
            0 <= k < entries.len() && (row_of(entries, id) < 0 || k < row_of(entries, id)) ==> (
            #[trigger] entries[k]).id != id,
    decreases entries.len(),
{
    if entries.len() > 0 {
        let front = entries.drop_last();
        lemma_row_of(front, id);
        let p = row_of(entries, id);
        let q = row_of(front, id);
        if q >= 0 {
            assert(front[q] == entries[q]);
        }
        assert forall|k: int| 0 <= k < entries.len() && (p < 0 || k < p) implies (#[trigger] entries[k]).id != id by {
            if k < entries.len() - 1 {
                assert(front[k] == entries[k]);
            }
        }
    }
}

// ------------------------------------------------------------- executable

fn all_word_chars(v: &Vec<char>, from: usize, to: usize) -> (r: bool)
    requires
        from <= to <= v@.len(),
    ensures
        r == (forall|i: int|
            0 <= i < v@.subrange(from as int, to as int).len() ==> is_word_char(
                #[trigger] v@.subrange(from as int, to as int)[i],
            )),
{
    let ghost s = v@.subrange(from as int, to as int);
    let mut k: usize = from;
    while k < to
        invariant
            from <= k <= to <= v@.len(),
            s == v@.subrange(from as int, to as int),
            forall|i: int| 0 <= i < k - from ==> is_word_char(#[trigger] s[i]),
        decreases to - k,
    {
        let c = v[k];
        assert(s[k - from] == c);
        if !(('a' <= c && c <= 'z') || ('A' <= c && c <= 'Z') || ('0' <= c && c <= '9') || c == '_' || c == '-') {
            return false;
        }
        k = k + 1;
    }
    true
}

fn all_hex(v: &Vec<char>, from: usize, to: usize) -> (r: bool)
    requires
        from <= to <= v@.len(),
    ensures
        r == (forall|i: int|
            0 <= i < v@.subrange(from as int, to as int).len() ==> is_hex(
                #[trigger] v@.subrange(from as int, to as int)[i],
            )),
{
    let ghost s = v@.subrange(from as int, to as int);
    let mut k: usize = from;
    while k < to
        invariant
            from <= k <= to <= v@.len(),
            s == v@.subrange(from as int, to as int),
            forall|i: int| 0 <= i < k - from ==> is_hex(#[trigger] s[i]),
        decreases to - k,
    {
        let c = v[k];
        assert(s[k - from] == c);
        if !(('0' <= c && c <= '9') || ('a' <= c && c <= 'f') || ('A' <= c && c <= 'F')) {
            return false;
        }
        k = k + 1;
    }
    true
}

fn take_kind(t: &str) -> (r: (String, String))
    ensures
        (r.0@, r.1@) == split_kind(t@),
{
    let v = chars_of(t);
    let n: usize = v.len();
    let mark = chars_of("] ");
    proof {
        reveal_strlit("] ");
        lemma_find(v@, "] "@);
    }
    match find_in(&v, &mark) {
        Some(close) => {
            if v[0] == '[' {
                proof {
                    assert(close > 0) by {
                        if close == 0 {
                            assert(v@.subrange(0, 2)[0] == "] "@[0]);
                        }
                    }
                }
                if close > 1 && all_word_chars(&v, 1, close) {
                    assert(v@.subrange(close + 2, v@.len() as int) =~= v@.skip(close + 2));
                    return (part(&v, 1, close), part(&v, close + 2, n));
                }
            }
            (copy("note"), copy(t))
        },
        None => (copy("note"), copy(t)),
    }
}

fn take_commit(t: &str) -> (r: (String, String))
    ensures
        (r.0@, r.1@) == split_commit(t@),
{
    let v = chars_of(t);
    let n: usize = v.len();
    proof {
        lemma_last_of(v@, '[');
    }
    if n > 0 && v[n - 1] == ']' {
        match last_in(&v, '[') {
            Some(open) => {
                let len: usize = n - 1 - (open + 1);
                if 7 <= len && len <= 40 && all_hex(&v, open + 1, n - 1) {
                    let head = part(&v, 0, open);
                    assert(v@.subrange(0, open as int) =~= v@.take(open as int));
                    return (trimmed_end(head.as_str()), part(&v, open + 1, n - 1));
                }
            },
            None => {},
        }
    }
    (copy(t), String::new())
}

impl Note {
    /// The line form of the note.
    pub fn render(&self) -> (out: String)
        ensures
            out@ == rendered(self@),
    {
        let head = if !same(self.kind.as_str(), "note") && !self.kind.as_str().is_empty() {
            copy("[").concat(self.kind.as_str()).concat("] ")
        } else {
            String::new()
        };
        let tail = if !self.commit_sha.as_str().is_empty() {
            copy(" [").concat(self.commit_sha.as_str()).concat("]")
        } else {
            String::new()
        };
        head.concat(self.body.as_str()).concat(tail.as_str())
    }

    /// The note that a line of the mirror stands for.
    pub fn parse(line: &str, created_at: &str) -> (n: Note)
        ensures
            n@ == parsed(line@, created_at@),
    {
        let t = trimmed(line);
        let (kind, rest) = take_kind(t.as_str());
        let (body, sha) = take_commit(rest.as_str());
        let n = Note {
            id: 0,
            kind,
            author: String::new(),
            body,
            commit_sha: sha,
            commit_subject: String::new(),
            created_at: copy(created_at),
        };
        assert(n@ =~= parsed(line@, created_at@));
        n
    }
}

impl Clone for Note {
    fn clone(&self) -> (r: Note)
        ensures
            r@ == self@,
    {
        Note {
            id: self.id,
            kind: self.kind.clone(),
            author: self.author.clone(),
            body: self.body.clone(),
            commit_sha: self.commit_sha.clone(),
            commit_subject: self.commit_subject.clone(),
            created_at: self.created_at.clone(),
        }
    }
}

/// A copy of several notes.
pub fn copy_notes(v: &Vec<Note>) -> (out: Vec<Note>)
    ensures
        note_views(out@) == note_views(v@),
{
    let ghost all = note_views(v@);
    let mut out: Vec<Note> = Vec::new();
    let mut i: usize = 0;
    while i < v.len()
        invariant
            i <= v@.len(),
            all == note_views(v@),
            note_views(out@) == all.take(i as int),
        decreases v.len() - i,
    {
        let ghost before = note_views(out@);
        out.push(v[i].clone());
        assert(note_views(out@) =~= before.push(all[i as int]));
        assert(all.take(i + 1) =~= all.take(i as int).push(all[i as int]));
        i = i + 1;
    }
    assert(all.take(i as int) =~= all);
    out
}

/// The mirror of the rows.
pub fn mirror_of(entries: &Vec<Note>) -> (out: String)
    ensures
        out@ == mirror(note_views(entries@)),
{
    let ghost all = note_views(entries@).map_values(|n: NoteView| rendered(n));
    let mut out: Vec<String> = Vec::new();
    let mut i: usize = 0;
    while i < entries.len()
        invariant
            i <= entries@.len(),
            all == note_views(entries@).map_values(|n: NoteView| rendered(n)),
            texts(out@) == all.take(i as int),
        decreases entries.len() - i,
    {
        let ghost before = texts(out@);
        out.push(entries[i].render());
        assert(texts(out@) =~= before.push(all[i as int]));
        assert(all.take(i + 1) =~= all.take(i as int).push(all[i as int]));
        i = i + 1;
    }
    assert(all.take(i as int) =~= all);
    joined(&out, "\n")
}

/// Adopts the lines of the mirror that have no row.
pub fn reconcile(card: &mut Card)
    ensures
        final(card)@ == reconciled(old(card)@),
{
    let ls = keep_nonblank(lines_of(card.notes.as_str()));
    let taken = keep_nonblank(lines_of(mirror_of(&card.entries).as_str()));
    let ghost all = note_lines(card.notes@);
    let ghost start = note_views(card.entries@);
    let have: usize = taken.len();
    assert(texts(ls@) == all);
    assert(texts(taken@).len() == have);
    if ls.len() <= have {
        return;
    }
    let ghost rest = adopted(all.skip(have as int), card.created_at@);
    let mut i: usize = have;
    while i < ls.len()
        invariant
            have <= i <= ls@.len(),
            texts(ls@) == all,
            all == note_lines(old(card)@.notes),
            start == old(card)@.entries,
            have == lines_taken(start),
            rest == adopted(all.skip(have as int), old(card)@.created_at),
            card@ == (CardView { entries: start + rest.take(i - have), ..old(card)@ }),
        decreases ls.len() - i,
    {
        let n = Note::parse(ls[i].as_str(), card.created_at.as_str());
        assert(all[i as int] == ls@[i as int]@);
        assert(all.skip(have as int)[i - have] == all[i as int]);
        assert(n@ == rest[i - have]);
        let ghost before = note_views(card.entries@);
        card.entries.push(n);
        assert(note_views(card.entries@) =~= before.push(n@));
        assert(rest.take(i + 1 - have) =~= rest.take(i - have).push(rest[i - have]));
        assert(note_views(card.entries@) =~= start + rest.take(i + 1 - have));
        i = i + 1;
    }
    assert(rest.take(i - have) =~= rest);
}

fn holds_note(entries: &Vec<Note>, kind: &str, body: &str) -> (r: bool)
    ensures
        r == already_noted(note_views(entries@), kind@, body@),
{
    let ghost all = note_views(entries@);
    let mut i: usize = 0;
    while i < entries.len()
        invariant
            i <= entries@.len(),
            all == note_views(entries@),
            forall|k: int| 0 <= k < i ==> !((#[trigger] all[k]).body == body@ && all[k].kind == kind@),
        decreases entries.len() - i,
    {
        assert(all[i as int] == entries@[i as int]@);
        if same(entries[i].body.as_str(), body) && same(entries[i].kind.as_str(), kind) {
            return true;
        }
        i = i + 1;
    }
    false
}

/// Rewrites the mirror from the rows.
pub fn rebuild_blob(card: &mut Card, now: &str)
    ensures
        final(card)@ == with_entries(old(card)@, old(card)@.entries, now@),
{
    card.notes = mirror_of(&card.entries);
    card.updated_at = copy(now);
}

/// Appends a note and rewrites the mirror. `false` where `unique` held back
/// a repeat; the lines of the mirror are adopted either way.
pub fn add(card: &mut Card, note: Note, unique: bool, now: &str) -> (added: bool)
    ensures
        added == !(unique && already_noted(reconciled(old(card)@).entries, note@.kind, note@.body)),
        final(card)@ == if added {
            noted(old(card)@, note@, now@)
        } else {
            reconciled(old(card)@)
        },
{
    reconcile(card);
    if unique && holds_note(&card.entries, note.kind.as_str(), note.body.as_str()) {
        return false;
    }
    let ghost before = note_views(card.entries@);
    card.entries.push(note);
    assert(note_views(card.entries@) =~= before.push(note@));
    rebuild_blob(card, now);
    true
}

/// Where the row with this id stands.
pub fn find_row(entries: &Vec<Note>, id: i64) -> (r: Option<usize>)
    ensures
        match r {
            Some(at) => row_of(note_views(entries@), id) == at && at < entries@.len() && entries@[at as int].id == id,
            None => row_of(note_views(entries@), id) < 0,
        },
{
    let ghost all = note_views(entries@);
    let mut i: usize = 0;
    proof {
        lemma_row_of(all, id);
    }
    while i < entries.len()
        invariant
            i <= entries@.len(),
            all == note_views(entries@),
            -1 <= row_of(all, id) < all.len(),
            row_of(all, id) >= 0 ==> all[row_of(all, id)].id == id,
            forall|k: int|
                0 <= k < all.len() && (row_of(all, id) < 0 || k < row_of(all, id)) ==> (#[trigger] all[k]).id != id,
            forall|k: int| 0 <= k < i ==> (#[trigger] all[k]).id != id,
        decreases entries.len() - i,
    {
        assert(all[i as int] == entries@[i as int]@);
        if entries[i].id == id {
            return Some(i);
        }
        i = i + 1;
    }
    None
}

/// Rewrites one note's text, its kind, or both, and the mirror. Gives back
/// the note as it was.
pub fn edit(card: &mut Card, note_id: i64, text: Option<&str>, kind: Option<&str>, now: &str) -> (r: Result<
    Note,
    Refusal,
>)
    ensures
        ({
            let c = reconciled(old(card)@);
            let at = row_of(c.entries, note_id);
            match r {
                Ok(n) => at >= 0 && n@ == c.entries[at] && final(card)@ == with_entries(
                    c,
                    c.entries.update(at, reworded(c.entries[at], opt_text(text), opt_text(kind))),
                    now@,
                ),
                Err(e) => at < 0 && e@ == RefusalView::NoNote(note_id) && final(card)@ == c,
            }
        }),
{
    reconcile(card);
    match find_row(&card.entries, note_id) {
        None => Err(Refusal::NoNote(note_id)),
        Some(at) => {
            let ghost before = note_views(card.entries@);
            let was = card.entries[at].clone();
            let now_body = match text {
                Some(t) => copy(t),
                None => was.body.clone(),
            };
            let now_kind = match kind {
                Some(k) => copy(k),
                None => was.kind.clone(),
            };
            let n = Note {
                id: was.id,
                kind: now_kind,
                author: was.author.clone(),
                body: now_body,
                commit_sha: was.commit_sha.clone(),
                commit_subject: was.commit_subject.clone(),
                created_at: was.created_at.clone(),
            };
            assert(was@ == before[at as int]);
            assert(n@ =~= reworded(before[at as int], opt_text(text), opt_text(kind)));
            card.entries.set(at, n);
            assert(note_views(card.entries@) =~= before.update(at as int, n@));
            rebuild_blob(card, now);
            Ok(was)
        },
    }
}

/// Removes one note and rewrites the mirror. Gives back the note.
pub fn remove(card: &mut Card, note_id: i64, now: &str) -> (r: Result<Note, Refusal>)
    ensures
        ({
            let c = reconciled(old(card)@);
            let at = row_of(c.entries, note_id);
            match r {
                Ok(n) => at >= 0 && n@ == c.entries[at] && final(card)@ == with_entries(
                    c,
                    c.entries.remove(at),
                    now@,
                ),
                Err(e) => at < 0 && e@ == RefusalView::NoNote(note_id) && final(card)@ == c,
            }
        }),
{
    reconcile(card);
    match find_row(&card.entries, note_id) {
        None => Err(Refusal::NoNote(note_id)),
        Some(at) => {
            let ghost before = note_views(card.entries@);
            let was = card.entries.remove(at);
            assert(note_views(card.entries@) =~= before.remove(at as int));
            assert(was@ == before[at as int]);
            rebuild_blob(card, now);
            Ok(was)
        },
    }
}

} // verus!
