//! What is made of a text: where it is cut, what stands for what in it, and
//! how it is read back.

use vstd::prelude::*;

use crate::card::CardView;
use crate::edit::status_in_any_case;
use crate::filling::lemma_blanks;
use crate::fold::{fold, fold_all};
use crate::links::{in_role, law_ascending, rels, LinkView, Role};
use crate::notes::{law_line_reads_back, mirror, parsed, rendered, NoteView};
use crate::number::{align_left, align_right};
use crate::prompt::filled;
use crate::select::{card_lines, hits, shown_line};
use crate::status::{status_name, Status};
use crate::text::{
    contains, cuts, is_space, lemma_split_append, lemma_split_whole, lines, nonempty, occurs_at, repeat, replace_all,
    split, trim, Sep,
};
use crate::view::{baked, data_block, slot};

verus! {

// ------------------------------------------------------------- characters

/// Law: white space is what Unicode calls so: the controls from tab to
/// carriage return, the blank, and the wider and narrower blanks and line
/// ends beyond ASCII.
pub proof fn law_white_space(c: char)
    ensures
        is_space(c) <==> ({
            let n = c as int;
            9 <= n <= 13 || n == 32 || n == 133 || n == 160 || n == 5760 || 8192 <= n <= 8202 || n == 8232 || n == 8233 || n
                == 8239 || n == 8287 || n == 12288
        }),
{
}

/// Law: folding makes the capitals of ASCII small and leaves every other
/// character; folding twice is folding once.
pub proof fn law_folding(c: char)
    ensures
        65 <= c as int <= 90 ==> fold(c) as int == c as int + 32,
        !(65 <= c as int <= 90) ==> fold(c) == c,
        fold(fold(c)) == fold(c),
{
}

/// Law: a status is meant by its name in any mixture of capitals and small
/// letters, and by nothing else.
pub proof fn law_status_in_any_case(name: Seq<char>, s: Status)
    ensures
        status_in_any_case(name) == Some(s) <==> fold_all(name) == status_name(s),
        status_name(Status::New) == "new"@,
        status_name(Status::Ready) == "ready"@,
        status_name(Status::InProgress) == "in_progress"@,
        status_name(Status::Done) == "done"@,
{
    reveal_strlit("new");
    reveal_strlit("ready");
    reveal_strlit("in_progress");
    reveal_strlit("done");
    assert("new"@.len() == 3 && "ready"@.len() == 5 && "in_progress"@.len() == 11 && "done"@.len() == 4);
}

/// Law: an aligned text is as wide as asked for, with the text at one end
/// and blanks at the other; a wider text stays as it is.
pub proof fn law_aligned(s: Seq<char>, w: nat)
    ensures
        s.len() >= w ==> align_right(s, w) == s && align_left(s, w) == s,
        s.len() < w ==> align_right(s, w).len() == w && align_left(s, w).len() == w,
        s.len() < w ==> align_right(s, w).skip(w - s.len()) == s && align_left(s, w).take(s.len() as int) == s,
        s.len() < w ==> forall|k: int| 0 <= k < w - s.len() ==> #[trigger] align_right(s, w)[k] == ' ',
        s.len() < w ==> forall|k: int| s.len() <= k < w ==> #[trigger] align_left(s, w)[k] == ' ',
{
    if s.len() < w {
        let n = (w - s.len()) as nat;
        lemma_blanks(n);
        assert(align_right(s, w).skip(w - s.len()) =~= s);
        assert(align_left(s, w).take(s.len() as int) =~= s);
        assert forall|k: int| 0 <= k < w - s.len() implies #[trigger] align_right(s, w)[k] == ' ' by {
            assert(align_right(s, w)[k] == repeat(" "@, n)[k]);
        }
        assert forall|k: int| s.len() <= k < w implies #[trigger] align_left(s, w)[k] == ' ' by {
            assert(align_left(s, w)[k] == repeat(" "@, n)[k - s.len()]);
        }
    }
}

// ------------------------------------------------------------- lines

/// Law: a text is read line by line: what stands between two line feeds,
/// without a carriage return at its end; a line feed at the end of the text
/// ends its last line and begins none.
pub proof fn law_lines_of_a_text(a: Seq<char>, l: Seq<char>)
    requires
        forall|i: int| 0 <= i < l.len() ==> #[trigger] l[i] != '\n',
        l.len() > 0,
        l.last() != '\r',
    ensures
        lines(l) == seq![l],
        lines(l + seq!['\n']) == seq![l],
        lines(l + seq!['\r', '\n']) == seq![l],
        lines(a + seq!['\n'] + l) == lines(a + seq!['\n']).push(l),
        lines(a + seq!['\n'] + l + seq!['\n']) == lines(a + seq!['\n']).push(l),
        lines(Seq::empty()).len() == 0,
{
    let sep = Sep::Char('\n');
    let nl = seq!['\n'];
    let none = Seq::<char>::empty();
    assert forall|i: int| 0 <= i < l.len() implies !cuts(sep, #[trigger] l[i]) by {}
    lemma_split_whole(l, sep);
    assert(lines(l) =~= seq![l]);
    lemma_split_append(l, '\n', none, sep);
    assert(l + nl + none =~= l + nl);
    assert(split(l + nl, sep) =~= seq![l, none]);
    assert(lines(l + nl) =~= seq![l]);
    let r = l.push('\r');
    assert forall|i: int| 0 <= i < r.len() implies !cuts(sep, #[trigger] r[i]) by {
        if i < l.len() {
            assert(r[i] == l[i]);
        }
    }
    lemma_split_whole(r, sep);
    lemma_split_append(r, '\n', none, sep);
    assert(r + nl + none =~= l + seq!['\r', '\n']);
    assert(r.drop_last() =~= l);
    assert(split(l + seq!['\r', '\n'], sep) =~= seq![r, none]);
    assert(lines(l + seq!['\r', '\n']) =~= seq![l]);
    let before = split(a, sep);
    lemma_split_append(a, '\n', none, sep);
    assert(a + nl + none =~= a + nl);
    lemma_split_append(a, '\n', l, sep);
    let t = a + nl + l;
    lemma_split_append(t, '\n', none, sep);
    assert(t + nl + none =~= t + nl);
    assert(before.push(none).drop_last() =~= before);
    assert(before.push(l).drop_last() =~= before);
    assert(before.push(l).push(none).drop_last() =~= before.push(l));
    assert(lines(t) =~= lines(a + nl).push(l));
    assert(lines(t + nl) =~= lines(a + nl).push(l));
    assert(split(none, sep) =~= seq![none]);
}

/// Law: the mirror of a card's rows has the line form of each of them, in
/// order, one line feed between two.
pub proof fn law_mirror_has_every_row(entries: Seq<NoteView>, n: NoteView)
    ensures
        mirror(Seq::empty()).len() == 0,
        mirror(seq![n]) == rendered(n),
        entries.len() > 0 ==> mirror(entries.push(n)) == mirror(entries) + seq!['\n'] + rendered(n),
{
    reveal_strlit("\n");
    assert("\n"@ =~= seq!['\n']);
    let f = |n: NoteView| rendered(n);
    assert(seq![n].map_values(f) =~= seq![rendered(n)]);
    assert(entries.push(n).map_values(f) =~= entries.map_values(f).push(rendered(n)));
    assert(entries.map_values(f).push(rendered(n)).drop_last() =~= entries.map_values(f));
}

/// Law: a line that ends with seven to forty hexadecimal digits between
/// brackets names that commit.
pub proof fn law_line_names_its_commit(body: Seq<char>, sha: Seq<char>, at: Seq<char>)
    requires
        7 <= sha.len() <= 40,
        forall|i: int|
            0 <= i < sha.len() ==> '0' <= #[trigger] sha[i] <= '9' || 'a' <= sha[i] <= 'f' || 'A' <= sha[i] <= 'F',
        body.len() > 0,
        !is_space(body[0]),
        !is_space(body.last()),
        body[0] != '[',
    ensures
        ({
            let n = parsed(body + " ["@ + sha + "]"@, at);
            &&& n.body == body
            &&& n.commit_sha == sha
            &&& n.kind == "note"@
            &&& n.created_at == at
            &&& n.author.len() == 0
        }),
{
    let n = NoteView {
        id: 0,
        kind: "note"@,
        author: Seq::empty(),
        body,
        commit_sha: sha,
        commit_subject: Seq::empty(),
        created_at: at,
    };
    reveal_strlit("note");
    let t = rendered(n);
    assert(t =~= body + " ["@ + sha + "]"@);
    crate::text::lemma_trim_fixed(body);
    assert(t[0] == body[0]);
    assert(crate::notes::names_commit(sha));
    law_line_reads_back(n, at);
}

/// Law: a line that begins with letters, digits, `_` and `-` between brackets
/// and a blank names that kind.
pub proof fn law_line_names_its_kind(kind: Seq<char>, body: Seq<char>, at: Seq<char>)
    requires
        kind.len() > 0,
        forall|i: int|
            0 <= i < kind.len() ==> 'a' <= #[trigger] kind[i] <= 'z' || 'A' <= kind[i] <= 'Z' || '0' <= kind[i] <= '9'
                || kind[i] == '_' || kind[i] == '-',
        kind != "note"@,
        body.len() > 0,
        !is_space(body.last()),
        body.last() != ']',
    ensures
        ({
            let n = parsed("["@ + kind + "] "@ + body, at);
            n.body == body && n.kind == kind && n.commit_sha.len() == 0 && n.created_at == at
        }),
{
    let n = NoteView {
        id: 0,
        kind,
        author: Seq::empty(),
        body,
        commit_sha: Seq::empty(),
        commit_subject: Seq::empty(),
        created_at: at,
    };
    assert(rendered(n) =~= "["@ + kind + "] "@ + body);
    crate::text::lemma_trim_end_is(body);
    assert(crate::notes::names_kind(kind));
    law_line_reads_back(n, at);
}

/// Law: a search shows the lines of a card's notes and of its outcome,
/// without the white space round them; blank ones are left out.
pub proof fn law_lines_a_search_shows(c: CardView, l: Seq<char>)
    ensures
        card_lines(c).contains(l) <==> l.len() > 0 && ((exists|k: int|
            0 <= k < lines(c.notes).len() && l == trim(#[trigger] lines(c.notes)[k])) || (exists|k: int|
            0 <= k < lines(c.outcome).len() && l == trim(#[trigger] lines(c.outcome)[k]))),
{
    let (a, b) = (lines(c.notes), lines(c.outcome));
    let all = (a + b).map_values(|l: Seq<char>| trim(l));
    lemma_nonempty_has(all, l);
    if all.contains(l) {
        let k = choose|k: int| 0 <= k < all.len() && all[k] == l;
        if k < a.len() {
            assert(l == trim(a[k]));
        } else {
            assert(l == trim(b[k - a.len()]));
        }
    }
    if exists|k: int| 0 <= k < a.len() && l == trim(#[trigger] a[k]) {
        let k = choose|k: int| 0 <= k < a.len() && l == trim(#[trigger] a[k]);
        assert(all[k] == l);
    }
    if exists|k: int| 0 <= k < b.len() && l == trim(#[trigger] b[k]) {
        let k = choose|k: int| 0 <= k < b.len() && l == trim(#[trigger] b[k]);
        assert(all[a.len() + k] == l);
    }
}

proof fn lemma_nonempty_has(v: Seq<Seq<char>>, l: Seq<char>)
    ensures
        nonempty(v).contains(l) <==> l.len() > 0 && v.contains(l),
    decreases v.len(),
{
    if v.len() > 0 {
        let front = v.drop_last();
        lemma_nonempty_has(front, l);
        let (now, before) = (nonempty(v), nonempty(front));
        if now.contains(l) {
            let k = choose|k: int| 0 <= k < now.len() && now[k] == l;
            if k < before.len() {
                assert(before[k] == l);
                assert(before.contains(l));
                let j = choose|j: int| 0 <= j < front.len() && front[j] == l;
                assert(v[j] == l);
            } else {
                assert(v[v.len() - 1] == l);
            }
        }
        if l.len() > 0 && v.contains(l) {
            let j = choose|j: int| 0 <= j < v.len() && v[j] == l;
            if j < front.len() {
                assert(front[j] == l);
                let k = choose|k: int| 0 <= k < before.len() && before[k] == l;
                assert(now[k] == l);
            } else {
                assert(now[now.len() - 1] == l);
            }
        }
    }
}

/// Law: one line more is shown below the others where a word stands in it,
/// and changes nothing where none does.
pub proof fn law_lines_are_shown_in_order(ls: Seq<Seq<char>>, lows: Seq<Seq<char>>, words: Seq<Seq<char>>, l: Seq<char>, low: Seq<char>)
    requires
        lows.len() == ls.len(),
    ensures
        ({
            let before = hits(ls, lows, words);
            let after = hits(ls.push(l), lows.push(low), words);
            &&& (exists|k: int| 0 <= k < words.len() && contains(low, #[trigger] words[k])) ==> after == before.push(
                shown_line(l),
            )
            &&& (forall|k: int| 0 <= k < words.len() ==> !contains(low, #[trigger] words[k])) ==> after == before
        }),
{
    assert(ls.push(l).drop_last() =~= ls);
    lemma_same_hits(ls, lows, lows.push(low), words);
}

proof fn lemma_same_hits(ls: Seq<Seq<char>>, a: Seq<Seq<char>>, b: Seq<Seq<char>>, words: Seq<Seq<char>>)
    requires
        ls.len() <= a.len(),
        ls.len() <= b.len(),
        forall|k: int| 0 <= k < ls.len() ==> #[trigger] a[k] == b[k],
    ensures
        hits(ls, a, words) == hits(ls, b, words),
    decreases ls.len(),
{
    if ls.len() > 0 {
        lemma_same_hits(ls.drop_last(), a, b, words);
        assert(a[ls.len() - 1] == b[ls.len() - 1]);
    }
}

// ------------------------------------------------------------- relations

/// How the roles follow one another.
pub open spec fn role_place(role: Role) -> int {
    match role {
        Role::BlockedBy => 0,
        Role::Blocks => 1,
        Role::ChildOf => 2,
        Role::ParentOf => 3,
        Role::Related => 4,
    }
}

/// Law: the relations of a card are told role by role, first what it waits
/// on, then what waits on it, then its parents, its children and what it is
/// related to; within a role by id.
pub proof fn law_relations_are_told_in_order(cards: Seq<CardView>, links: Seq<LinkView>, id: i64, i: int, j: int)
    requires
        0 <= i < j < rels(cards, links, id).len(),
    ensures
        ({
            let (p, q) = (rels(cards, links, id)[i], rels(cards, links, id)[j]);
            &&& role_place(p.rel) <= role_place(q.rel)
            &&& p.rel == q.rel ==> p.id <= q.id
        }),
{
    let a = crate::links::rels_in(cards, links, id, Role::BlockedBy);
    let b = crate::links::rels_in(cards, links, id, Role::Blocks);
    let c = crate::links::rels_in(cards, links, id, Role::ChildOf);
    let d = crate::links::rels_in(cards, links, id, Role::ParentOf);
    let e = crate::links::rels_in(cards, links, id, Role::Related);
    law_ascending(in_role(cards, links, id, Role::BlockedBy));
    law_ascending(in_role(cards, links, id, Role::Blocks));
    law_ascending(in_role(cards, links, id, Role::ChildOf));
    law_ascending(in_role(cards, links, id, Role::ParentOf));
    law_ascending(in_role(cards, links, id, Role::Related));
    let (i1, i2) = (a.len() as int, (a.len() + b.len()) as int);
    let (i3, i4) = (i2 + c.len(), i2 + c.len() + d.len());
    let r = rels(cards, links, id);
    assert forall|k: int| 0 <= k < r.len() implies (#[trigger] r[k]) == (if k < i1 {
        a[k]
    } else if k < i2 {
        b[k - i1]
    } else if k < i3 {
        c[k - i2]
    } else if k < i4 {
        d[k - i3]
    } else {
        e[k - i4]
    }) by {}
    assert(r[i] == r[i] && r[j] == r[j]);
}

// ------------------------------------------------------------- replacing

/// Law: replacing leaves a text in which the needle does not stand.
pub proof fn law_replacing_nothing(s: Seq<char>, from: Seq<char>, to: Seq<char>)
    requires
        !contains(s, from),
    ensures
        replace_all(s, from, to) == s,
    decreases s.len(),
{
    if from.len() > 0 && s.len() >= from.len() {
        if s.take(from.len() as int) == from {
            assert(s.subrange(0, from.len() as int) =~= from);
            assert(occurs_at(s, from, 0));
        }
        let rest = s.drop_first();
        if contains(rest, from) {
            let at = choose|at: int| occurs_at(rest, from, at);
            assert(s.subrange(at + 1, at + 1 + from.len()) =~= rest.subrange(at, at + from.len()));
            assert(occurs_at(s, from, at + 1));
        }
        law_replacing_nothing(rest, from, to);
        assert(seq![s[0]] + rest =~= s);
    }
}

/// Law: replacing puts the new text where the needle first stands, leaves
/// what is before it, and goes on behind it.
pub proof fn law_replacing_goes_on_behind(a: Seq<char>, from: Seq<char>, b: Seq<char>, to: Seq<char>)
    requires
        from.len() > 0,
        forall|k: int| 0 <= k < a.len() ==> !#[trigger] occurs_at(a + from + b, from, k),
    ensures
        replace_all(a + from + b, from, to) == a + to + replace_all(b, from, to),
    decreases a.len(),
{
    let s = a + from + b;
    let n = from.len() as int;
    if a.len() == 0 {
        assert(s.take(n) =~= from);
        assert(s.skip(n) =~= b);
        assert(a + to + replace_all(b, from, to) =~= to + replace_all(b, from, to));
    } else {
        let rest = a.drop_first();
        let t = rest + from + b;
        assert(s.drop_first() =~= t);
        assert(!occurs_at(s, from, 0));
        assert(s.take(n) =~= s.subrange(0, n));
        assert forall|k: int| 0 <= k < rest.len() implies !#[trigger] occurs_at(t, from, k) by {
            assert(!occurs_at(s, from, k + 1));
            if occurs_at(t, from, k) {
                assert(s.subrange(k + 1, k + 1 + n) =~= t.subrange(k, k + n));
            }
        }
        law_replacing_goes_on_behind(rest, from, b, to);
        assert(seq![s[0]] + (rest + to + replace_all(b, from, to)) =~= a + to + replace_all(b, from, to));
    }
}

/// Law: the data stands in the page where its place was, and the rest of the
/// page stays; a page without a place for it stays as it is.
pub proof fn law_data_stands_in_its_place(a: Seq<char>, b: Seq<char>, json: Seq<char>)
    requires
        forall|k: int| 0 <= k < a.len() ==> !#[trigger] occurs_at(a + slot() + b, slot(), k),
        !contains(b, slot()),
    ensures
        baked(a + slot() + b, json) == a + data_block(json) + b,
        baked(b, json) == b,
{
    reveal_strlit("<script id=\"bldata\" type=\"application/json\">null</script>");
    law_replacing_goes_on_behind(a, slot(), b, data_block(json));
    law_replacing_nothing(b, slot(), data_block(json));
}

/// No brace stands in the text.
pub open spec fn braceless(s: Seq<char>) -> bool {
    forall|i: int| 0 <= i < s.len() ==> #[trigger] s[i] != '{'
}

/// A place that begins with a brace is found behind a text without one.
proof fn lemma_place(a: Seq<char>, place: Seq<char>, b: Seq<char>, to: Seq<char>)
    requires
        braceless(a),
        place.len() > 0,
        place[0] == '{',
    ensures
        replace_all(a + place + b, place, to) == a + to + replace_all(b, place, to),
{
    let s = a + place + b;
    assert forall|k: int| 0 <= k < a.len() implies !#[trigger] occurs_at(s, place, k) by {
        if occurs_at(s, place, k) {
            assert(s.subrange(k, k + place.len())[0] == s[k]);
            assert(s[k] == a[k]);
        }
    }
    law_replacing_goes_on_behind(a, place, b, to);
}

/// Another place is passed over.
proof fn lemma_passed(a: Seq<char>, other: Seq<char>, b: Seq<char>, place: Seq<char>, to: Seq<char>)
    requires
        braceless(a),
        place.len() > 2,
        place[0] == '{',
        place[1] == '{',
        other.len() > 2,
        other[0] == '{',
        other[1] == '{',
        forall|i: int| 2 <= i < other.len() ==> #[trigger] other[i] != '{',
        other[2] != place[2],
        place[2] != '{',
    ensures
        replace_all(a + other + b, place, to) == a + other + replace_all(b, place, to),
{
    let s = a + other + b;
    assert forall|k: int| 0 <= k < (a + other).len() implies !#[trigger] occurs_at(s, place, k) by {
        if occurs_at(s, place, k) {
            let w = s.subrange(k, k + place.len());
            assert(w[0] == s[k] && w[1] == s[k + 1] && w[2] == s[k + 2]);
            if k < a.len() {
                assert(s[k] == a[k]);
            } else {
                assert(s[k] == other[k - a.len()]);
            }
        }
    }
    lemma_walk(a + other, b, place, to);
}

/// Replacing walks over a text in which the place does not begin.
proof fn lemma_walk(a: Seq<char>, b: Seq<char>, place: Seq<char>, to: Seq<char>)
    requires
        place.len() > 2,
        forall|k: int| 0 <= k < a.len() ==> !#[trigger] occurs_at(a + b, place, k),
    ensures
        replace_all(a + b, place, to) == a + replace_all(b, place, to),
    decreases a.len(),
{
    let s = a + b;
    let n = place.len() as int;
    if a.len() == 0 {
        assert(s =~= b);
        assert(a + replace_all(b, place, to) =~= replace_all(b, place, to));
    } else {
        let rest = a.drop_first();
        assert(s.drop_first() =~= rest + b);
        assert(!occurs_at(s, place, 0));
        if s.len() >= n {
            assert(s.take(n) =~= s.subrange(0, n));
            assert forall|k: int| 0 <= k < rest.len() implies !#[trigger] occurs_at(rest + b, place, k) by {
                assert(!occurs_at(s, place, k + 1));
                if occurs_at(rest + b, place, k) {
                    assert(s.subrange(k + 1, k + 1 + n) =~= (rest + b).subrange(k, k + n));
                }
            }
            lemma_walk(rest, b, place, to);
            assert(seq![s[0]] + (rest + replace_all(b, place, to)) =~= a + replace_all(b, place, to));
        } else {
            assert(replace_all(b, place, to) == b);
        }
    }
}

/// A text without a brace holds no place.
proof fn lemma_no_place(s: Seq<char>, place: Seq<char>, to: Seq<char>)
    requires
        braceless(s),
        place.len() > 0,
        place[0] == '{',
    ensures
        replace_all(s, place, to) == s,
{
    if contains(s, place) {
        let at = choose|at: int| occurs_at(s, place, at);
        assert(s.subrange(at, at + place.len())[0] == s[at]);
    }
    law_replacing_nothing(s, place, to);
}

proof fn lemma_braceless(a: Seq<char>, b: Seq<char>)
    requires
        braceless(a),
        braceless(b),
    ensures
        braceless(a + b),
{
    assert forall|i: int| 0 <= i < (a + b).len() implies #[trigger] (a + b)[i] != '{' by {
        if i < a.len() {
            assert((a + b)[i] == a[i]);
        } else {
            assert((a + b)[i] == b[i - a.len()]);
        }
    }
}

/// Law: the instructions are the template with each of its four places
/// filled in: the path of the store, the project, the page and the tags.
pub proof fn law_template_is_filled_in(
    a: Seq<char>,
    b: Seq<char>,
    c: Seq<char>,
    d: Seq<char>,
    e: Seq<char>,
    db: Seq<char>,
    project: Seq<char>,
    auto: Seq<char>,
    labels: Seq<char>,
)
    requires
        braceless(a),
        braceless(b),
        braceless(c),
        braceless(d),
        braceless(e),
        braceless(db),
        braceless(project),
        braceless(auto),
    ensures
        filled(
            a + "{{DB}}"@ + (b + "{{PROJECT}}"@ + (c + "{{AUTO}}"@ + (d + "{{LABELS}}"@ + e))),
            db,
            project,
            auto,
            labels,
        ) == a + db + b + project + c + auto + d + labels + e,
{
    reveal_strlit("{{DB}}");
    reveal_strlit("{{PROJECT}}");
    reveal_strlit("{{AUTO}}");
    reveal_strlit("{{LABELS}}");
    let (p1, p2, p3, p4) = ("{{DB}}"@, "{{PROJECT}}"@, "{{AUTO}}"@, "{{LABELS}}"@);
    let r3 = d + p4 + e;
    let r2 = c + p3 + r3;
    let r1 = b + p2 + r2;
    lemma_place(a, p1, r1, db);
    lemma_passed(b, p2, r2, p1, db);
    lemma_passed(c, p3, r3, p1, db);
    lemma_passed(d, p4, e, p1, db);
    lemma_no_place(e, p1, db);
    let x1 = a + db + b;
    lemma_braceless(a, db);
    lemma_braceless(a + db, b);
    assert(a + db + r1 =~= x1 + p2 + r2);
    lemma_place(x1, p2, r2, project);
    lemma_passed(c, p3, r3, p2, project);
    lemma_passed(d, p4, e, p2, project);
    lemma_no_place(e, p2, project);
    let x2 = x1 + project + c;
    lemma_braceless(x1, project);
    lemma_braceless(x1 + project, c);
    assert(x1 + project + r2 =~= x2 + p3 + r3);
    lemma_place(x2, p3, r3, auto);
    lemma_passed(d, p4, e, p3, auto);
    lemma_no_place(e, p3, auto);
    let x3 = x2 + auto + d;
    lemma_braceless(x2, auto);
    lemma_braceless(x2 + auto, d);
    assert(x2 + auto + r3 =~= x3 + p4 + e);
    lemma_place(x3, p4, e, labels);
    lemma_no_place(e, p4, labels);
}

} // verus!
