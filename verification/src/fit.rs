//! Why the columns of the board stay aligned: what is painted is as wide as
//! what is plain, and every line of a card fits its column.

use vstd::prelude::*;

use crate::board::{cell, commit_cell, less, one_if, spaced, tile_head, tile_lines, TileView};
use crate::card::in_range;
use crate::commits::sha_and_subject;
use crate::layout::{
    fill, laid_out, law_padded_is_wide, law_truncated_fits, law_wrapped_fits, lemma_repeat_len, padded, truncated,
    wrapped,
};
use crate::number::{align_right, dec, digits};
use crate::paint::{
    closed_paint, colored, dimmed, free_of, heat_rgb, law_paint_keeps_width, lemma_scan_append, scan, status_rgb,
    unpainted,
    visible,
};
use crate::status::Status;
use crate::text::{first_of, lemma_first_of, lines, nonblank, nonempty, repeat, split, split_once, words, Sep};

verus! {

/// A character that none of the board's own words and lines hold: an escape
/// or a line feed.
pub open spec fn foreign(c: char) -> bool {
    c == '\x1b' || c == '\n'
}

/// None of the texts holds the character.
pub open spec fn all_free_of(v: Seq<Seq<char>>, c: char) -> bool {
    forall|k: int| 0 <= k < v.len() ==> free_of(#[trigger] v[k], c)
}

/// The line is no wider than the column, and its paint ends with it.
pub open spec fn fits(line: Seq<char>, w: nat) -> bool {
    visible(line) <= w && closed_paint(line)
}

/// The texts on a card hold no escape characters.
pub open spec fn plain_tile(t: TileView) -> bool {
    unpainted(t.card.title) && unpainted(t.card.label) && unpainted(t.card.project) && unpainted(t.card.claimed_by)
        && unpainted(t.card.commits) && unpainted(t.wait)
}

// ------------------------------------------------------------- plain text

pub proof fn lemma_plain_join(a: Seq<char>, b: Seq<char>, c: char)
    requires
        free_of(a, c),
        free_of(b, c),
    ensures
        free_of(a + b, c),
{
    assert forall|i: int| 0 <= i < (a + b).len() implies #[trigger] (a + b)[i] != c by {
        if i < a.len() {
            assert((a + b)[i] == a[i]);
        } else {
            assert((a + b)[i] == b[i - a.len()]);
        }
    }
}

pub proof fn lemma_plain_part(s: Seq<char>, from: int, to: int, c: char)
    requires
        free_of(s, c),
        0 <= from <= to <= s.len(),
    ensures
        free_of(s.subrange(from, to), c),
{
    assert forall|i: int| 0 <= i < to - from implies #[trigger] s.subrange(from, to)[i] != c by {
        assert(s.subrange(from, to)[i] == s[from + i]);
    }
}

pub proof fn lemma_plain_repeat(s: Seq<char>, n: nat, c: char)
    requires
        free_of(s, c),
    ensures
        free_of(repeat(s, n), c),
    decreases n,
{
    if n > 0 {
        lemma_plain_repeat(s, (n - 1) as nat, c);
        lemma_plain_join(repeat(s, (n - 1) as nat), s, c);
    }
}

pub proof fn lemma_plain_blanks(n: nat, c: char)
    requires
        foreign(c),
    ensures
        free_of(repeat(" "@, n), c),
        repeat(" "@, n).len() == n,
{
    reveal_strlit(" ");
    lemma_plain_repeat(" "@, n, c);
    lemma_repeat_len(" "@, n);
    assert(1 * n == n);
}

pub proof fn lemma_plain_digits(n: nat, c: char)
    requires
        foreign(c),
    ensures
        free_of(digits(n), c),
    decreases n,
{
    if n >= 10 {
        lemma_plain_digits(n / 10, c);
        let d = digits(n);
        assert forall|i: int| 0 <= i < d.len() implies #[trigger] d[i] != c by {
            if i < d.len() - 1 {
                assert(d[i] == digits(n / 10)[i]);
            }
        }
    }
}

pub proof fn lemma_plain_number(n: int, c: char)
    requires
        foreign(c),
    ensures
        free_of(dec(n), c),
{
    if n < 0 {
        lemma_plain_digits((-n) as nat, c);
        lemma_plain_join(seq!['-'], digits((-n) as nat), c);
    } else {
        lemma_plain_digits(n as nat, c);
    }
}

pub proof fn lemma_plain_cut(s: Seq<char>, max: nat, c: char)
    requires
        foreign(c),
        free_of(s, c),
    ensures
        free_of(truncated(s, max), c),
{
    reveal_strlit("…");
    if s.len() > max {
        let n = if max == 0 { 0int } else { max - 1 };
        lemma_plain_part(s, 0, n, c);
        assert(s.take(n) =~= s.subrange(0, n));
        lemma_plain_join(s.take(n), "…"@, c);
    }
}

pub proof fn lemma_plain_cell(s: Seq<char>, w: nat, c: char)
    requires
        foreign(c),
        free_of(s, c),
    ensures
        free_of(padded(s, w), c),
        free_of(cell(s, w), c),
        w > 0 ==> cell(s, w).len() == w,
{
    lemma_plain_cut(s, w, c);
    let cut = truncated(s, w);
    if cut.len() < w {
        lemma_plain_blanks((w - cut.len()) as nat, c);
        lemma_plain_join(cut, repeat(" "@, (w - cut.len()) as nat), c);
    }
    if s.len() < w {
        lemma_plain_blanks((w - s.len()) as nat, c);
        lemma_plain_join(s, repeat(" "@, (w - s.len()) as nat), c);
    }
    if w > 0 {
        law_truncated_fits(s, w);
        law_padded_is_wide(cut, w);
    }
}

pub proof fn lemma_plain_pieces(s: Seq<char>, sep: Sep, c: char)
    requires
        foreign(c),
        free_of(s, c),
    ensures
        all_free_of(split(s, sep), c),
        split(s, sep).len() > 0,
    decreases s.len(),
{
    if s.len() > 0 {
        let front = s.drop_last();
        lemma_plain_part(s, 0, s.len() - 1, c);
        assert(front =~= s.subrange(0, s.len() - 1));
        lemma_plain_pieces(front, sep, c);
        let before = split(front, sep);
        let v = split(s, sep);
        assert forall|k: int| 0 <= k < v.len() implies free_of(#[trigger] v[k], c) by {
            if k < before.len() - 1 {
                assert(v[k] == before[k]);
            } else if k == before.len() - 1 {
                assert(free_of(before[k], c));
                if v[k] != before[k] {
                    assert(s[s.len() - 1] != c);
                    lemma_plain_join(before[k], seq![s.last()], c);
                    assert(v[k] =~= before[k] + seq![s.last()]);
                }
            }
        }
    }
}

pub proof fn lemma_plain_kept(v: Seq<Seq<char>>, c: char)
    requires
        foreign(c),
        all_free_of(v, c),
    ensures
        all_free_of(nonempty(v), c),
        all_free_of(nonblank(v), c),
    decreases v.len(),
{
    if v.len() > 0 {
        let front = v.drop_last();
        assert forall|k: int| 0 <= k < front.len() implies free_of(#[trigger] front[k], c) by {
            assert(front[k] == v[k]);
        }
        lemma_plain_kept(front, c);
        assert(free_of(v[v.len() - 1], c));
    }
}

pub proof fn lemma_plain_lines(s: Seq<char>, c: char)
    requires
        foreign(c),
        free_of(s, c),
    ensures
        all_free_of(lines(s), c),
{
    lemma_plain_pieces(s, Sep::Char('\n'), c);
    let ps = split(s, Sep::Char('\n'));
    let ls = lines(s);
    assert forall|k: int| 0 <= k < ls.len() implies free_of(#[trigger] ls[k], c) by {
        assert(free_of(ps[k], c));
        if k < ps.len() - 1 && ls[k] != ps[k] {
            lemma_plain_part(ps[k], 0, ps[k].len() - 1, c);
            assert(ls[k] =~= ps[k].subrange(0, ps[k].len() - 1));
        }
    }
}

pub proof fn lemma_plain_fill(ws: Seq<Seq<char>>, max: nat, limit: nat, c: char)
    requires
        foreign(c),
        all_free_of(ws, c),
    ensures
        free_of(fill(ws, max, limit).begun, c),
        all_free_of(fill(ws, max, limit).full, c),
    decreases ws.len(),
{
    if ws.len() > 0 {
        let front = ws.drop_last();
        assert forall|k: int| 0 <= k < front.len() implies free_of(#[trigger] front[k], c) by {
            assert(front[k] == ws[k]);
        }
        lemma_plain_fill(front, max, limit, c);
        assert(free_of(ws[ws.len() - 1], c));
        let f = fill(front, max, limit);
        reveal_strlit(" ");
        lemma_plain_join(f.begun, " "@, c);
        lemma_plain_join(f.begun + " "@, ws.last(), c);
        lemma_plain_cut(ws.last(), max, c);
    }
}

pub proof fn lemma_plain_words(s: Seq<char>, c: char)
    requires
        foreign(c),
        free_of(s, c),
    ensures
        all_free_of(words(s), c),
{
    lemma_plain_pieces(s, Sep::Space, c);
    lemma_plain_kept(split(s, Sep::Space), c);
}

pub proof fn lemma_plain_wrapped(s: Seq<char>, max: nat, limit: nat, c: char)
    requires
        foreign(c),
        all_free_of(words(s), c),
    ensures
        all_free_of(wrapped(s, max, limit), c),
{
    lemma_plain_fill(words(s), max, limit, c);
    let ls = laid_out(fill(words(s), max, limit), limit);
    assert(all_free_of(ls, c));
    let w = wrapped(s, max, limit);
    assert forall|k: int| 0 <= k < w.len() implies free_of(#[trigger] w[k], c) by {
        assert(free_of(ls[k], c));
        if k == ls.len() - 1 && w[k] != ls[k] {
            let room = if max == 0 { 0 } else { (max - 1) as nat };
            reveal_strlit("…");
            lemma_plain_cut(ls.last(), room, c);
            lemma_plain_join(truncated(ls.last(), room), "…"@, c);
        }
    }
}

// ------------------------------------------------------------- width

proof fn lemma_scan_from(n: nat, inside: bool, s: Seq<char>)
    ensures
        scan((n, inside), s) == ((n + scan((0, inside), s).0) as nat, scan((0, inside), s).1),
    decreases s.len(),
{
    if s.len() > 0 {
        lemma_scan_from(n, inside, s.drop_last());
    }
}

/// Two texts side by side are as wide as both.
proof fn lemma_side_by_side(a: Seq<char>, b: Seq<char>)
    requires
        closed_paint(a),
        closed_paint(b),
    ensures
        closed_paint(a + b),
        visible(a + b) == visible(a) + visible(b),
{
    lemma_scan_append((0, false), a, b);
    lemma_scan_from(visible(a), false, b);
}

/// A cell takes its column whole, painted or not.
proof fn lemma_cell_fits(on: bool, s: Seq<char>, w: nat, c: (u8, u8, u8))
    requires
        unpainted(s),
        w > 0,
    ensures
        fits(dimmed(on, cell(s, w)), w),
        fits(colored(on, cell(s, w), c), w),
        visible(dimmed(on, cell(s, w))) == w,
{
    lemma_plain_cell(s, w, '\x1b');
    law_paint_keeps_width(on, cell(s, w), c);
}

proof fn lemma_five_digits(n: int)
    requires
        0 <= n < 100000,
    ensures
        dec(n).len() <= 5,
{
    reveal_with_fuel(digits, 6);
    assert(n / 10 / 10 / 10 / 10 / 10 == 0);
}

proof fn lemma_head_fits(t: TileView, on: bool, w: nat)
    requires
        plain_tile(t),
        in_range(t.card.priority),
        dec(t.card.id as int).len() + 9 < w,
    ensures
        fits(tile_head(t.card, on, w), w),
{
    let c = t.card;
    reveal_strlit("#");
    reveal_strlit(" ");
    let id = "#"@ + dec(c.id as int);
    lemma_plain_number(c.id as int, '\x1b');
    lemma_plain_join("#"@, dec(c.id as int), '\x1b');
    let room = less(w, id.len() + 8);
    let grey = (0u8, 0u8, 0u8);
    law_paint_keeps_width(on, id, grey);
    law_paint_keeps_width(on, " "@, grey);
    let label = if c.label.len() == 0 { repeat(" "@, room) } else { dimmed(on, cell(c.label, room)) };
    lemma_plain_blanks(room, '\x1b');
    law_paint_keeps_width(on, repeat(" "@, room), grey);
    lemma_cell_fits(on, c.label, room, grey);
    let rank = align_right(dec(c.priority as int), 5);
    lemma_plain_number(c.priority as int, '\x1b');
    lemma_five_digits(c.priority as int);
    let gap = (5 - dec(c.priority as int).len()) as nat;
    lemma_plain_blanks(gap, '\x1b');
    lemma_plain_join(repeat(" "@, gap), dec(c.priority as int), '\x1b');
    assert(unpainted(rank) && rank.len() == 5);
    let hot = heat_rgb(c.priority as int);
    law_paint_keeps_width(on, rank, hot);
    let a = dimmed(on, id);
    lemma_side_by_side(a, " "@);
    lemma_side_by_side(a + " "@, label);
    lemma_side_by_side(a + " "@ + label, " "@);
    lemma_side_by_side(a + " "@ + label + " "@, colored(on, rank, hot));
}

proof fn lemma_commit_fits(l: Seq<char>, on: bool, w: nat)
    requires
        unpainted(l),
        w > 0,
    ensures
        fits(commit_cell(l, on, w), w),
{
    let (sha, subject) = sha_and_subject(l);
    reveal_strlit(" ");
    lemma_first_of(l, '\t');
    match split_once(l, '\t') {
        Some((x, y)) => {
            let at = first_of(l, '\t');
            lemma_plain_part(l, 0, at, '\x1b');
            lemma_plain_part(l, at + 1, l.len() as int, '\x1b');
            assert(x =~= l.subrange(0, at));
            assert(y =~= l.subrange(at + 1, l.len() as int));
        },
        None => {},
    }
    lemma_plain_join(sha, " "@, '\x1b');
    lemma_plain_join(sha + " "@, subject, '\x1b');
    lemma_cell_fits(on, sha + " "@ + subject, w, (0u8, 0u8, 0u8));
}

/// Law: every line of a card fits its column, painted or not, as long as the
/// texts hold no escape characters and the id leaves room for the rank. So
/// the columns stay aligned.
pub proof fn law_card_fits_its_column(t: TileView, on: bool, w: nat, show_project: bool)
    requires
        w >= 16,
        plain_tile(t),
        in_range(t.card.priority),
        dec(t.card.id as int).len() + 9 < w,
    ensures
        forall|k: int|
            0 <= k < tile_lines(t, on, w, show_project).len() ==> fits(
                #[trigger] tile_lines(t, on, w, show_project)[k],
                w,
            ),
{
    let c = t.card;
    let grey = (0u8, 0u8, 0u8);
    lemma_head_fits(t, on, w);
    lemma_cell_fits(on, c.project, w, grey);
    reveal_strlit("@");
    lemma_plain_join("@"@, c.claimed_by, '\x1b');
    lemma_cell_fits(on, "@"@ + c.claimed_by, w, status_rgb(Status::InProgress));
    lemma_cell_fits(on, t.wait, w, grey);
    let title = wrapped(c.title, less(w, 1), 2);
    lemma_plain_words(c.title, '\x1b');
    lemma_plain_wrapped(c.title, less(w, 1), 2, '\x1b');
    law_wrapped_fits(c.title, less(w, 1), 2);
    let title_lines = title.map_values(|l: Seq<char>| padded(l, w));
    assert forall|k: int| 0 <= k < title_lines.len() implies fits(#[trigger] title_lines[k], w) by {
        assert(unpainted(title[k]) && title[k].len() <= w);
        lemma_plain_cell(title[k], w, '\x1b');
        law_padded_is_wide(title[k], w);
        law_paint_keeps_width(on, padded(title[k], w), grey);
    }
    lemma_plain_lines(c.commits, '\x1b');
    lemma_plain_kept(lines(c.commits), '\x1b');
    let commits = nonblank(lines(c.commits));
    let commit_lines = commits.map_values(|l: Seq<char>| commit_cell(l, on, w));
    assert forall|k: int| 0 <= k < commit_lines.len() implies fits(#[trigger] commit_lines[k], w) by {
        assert(unpainted(commits[k]));
        lemma_commit_fits(commits[k], on, w);
    }
    assert(fits(Seq::<char>::empty(), w));
    let a = seq![tile_head(c, on, w)];
    let b = one_if(show_project && c.project.len() > 0, dimmed(on, cell(c.project, w)));
    let d = one_if(c.claimed_by.len() > 0, colored(on, cell("@"@ + c.claimed_by, w), status_rgb(Status::InProgress)));
    let e = one_if(t.wait.len() > 0, dimmed(on, cell(t.wait, w)));
    let all = tile_lines(t, on, w, show_project);
    assert(all =~= a + b + title_lines + d + e + commit_lines + seq![Seq::<char>::empty()]);
    assert forall|k: int| 0 <= k < all.len() implies fits(#[trigger] all[k], w) by {
        let i1 = a.len() as int;
        let i2 = i1 + b.len();
        let i3 = i2 + title_lines.len();
        let i4 = i3 + d.len();
        let i5 = i4 + e.len();
        let i6 = i5 + commit_lines.len();
        if k < i1 {
            assert(all[k] == a[k]);
        } else if k < i2 {
            assert(all[k] == b[k - i1]);
        } else if k < i3 {
            assert(all[k] == title_lines[k - i2]);
        } else if k < i4 {
            assert(all[k] == d[k - i3]);
        } else if k < i5 {
            assert(all[k] == e[k - i4]);
        } else if k < i6 {
            assert(all[k] == commit_lines[k - i5]);
        } else {
            assert(all[k] == Seq::<char>::empty());
        }
    }
}

/// Law: a cell that fits its column ends two columns past it once the row is
/// spaced, so that the next column begins where it should.
pub proof fn law_columns_stay_aligned(s: Seq<char>, w: nat)
    requires
        fits(s, w),
    ensures
        visible(spaced(s, w)) == w + 2,
{
    let gap = less(w, visible(s)) + 2;
    lemma_plain_blanks(gap, '\x1b');
    law_paint_keeps_width(false, repeat(" "@, gap), (0u8, 0u8, 0u8));
    lemma_side_by_side(s, repeat(" "@, gap));
}

} // verus!
