//! How the board is filled: text cut and wrapped, lines set side by side,
//! and the parts of the whole.

use vstd::prelude::*;

use crate::board::{
    bar_text, bar_width, bars_text, board_text, cell_at, chosen, column_lines, column_width, columns_text,
    drawn_width, header_text, in_bucket, most_cards, panels_text, row_text, rows_text, spaced, spark, stats_text,
    still_open, tallest, tile_head, top_labels, TileView,
};
use crate::card::CardView;
use crate::drawing::law_board_keeps_tagged_cards;
use crate::layout::{fill, fill_step, laid_out, longer, padded, terminal_width, truncated, words_in, wrapped, Fill};
use crate::number::{dec, law_decimal_reads_back};
use crate::paint::heat_of;
use crate::reading::tagged_so;
use crate::status::Status;
use crate::telling::lemma_stands_in_whole;
use crate::text::{
    contains, cuts, is_space, join, lemma_split_append, lemma_split_whole, lemma_trim_end, nonempty, occurs_at,
    repeat, split, starts_with, trim_end, words, Sep,
};

verus! {

// ------------------------------------------------------------- one line

/// Law: a text that fits stays; one that does not keeps its beginning, as
/// much as fits beside the mark.
pub proof fn law_cut_keeps_the_beginning(s: Seq<char>, max: nat)
    requires
        max > 0,
    ensures
        s.len() <= max ==> truncated(s, max) == s,
        s.len() > max ==> truncated(s, max).len() == max && truncated(s, max).last() == '…' && truncated(s, max).take(
            max - 1,
        ) == s.take(max - 1),
{
    reveal_strlit("…");
    if s.len() > max {
        assert(truncated(s, max).take(max - 1) =~= s.take(max - 1));
    }
}

/// Law: filling up leaves the text and adds blanks behind it.
pub proof fn law_filled_up_with_blanks(s: Seq<char>, w: nat)
    ensures
        padded(s, w).take(s.len() as int) == s,
        forall|k: int| s.len() <= k < padded(s, w).len() ==> #[trigger] padded(s, w)[k] == ' ',
{
    if s.len() < w {
        let n = (w - s.len()) as nat;
        lemma_blanks(n);
        assert(padded(s, w).take(s.len() as int) =~= s);
        assert forall|k: int| s.len() <= k < padded(s, w).len() implies #[trigger] padded(s, w)[k] == ' ' by {
            assert(padded(s, w)[k] == repeat(" "@, n)[k - s.len()]);
        }
    } else {
        assert(padded(s, w).take(s.len() as int) =~= s);
    }
}

/// A run of blanks.
pub proof fn lemma_blanks(n: nat)
    ensures
        repeat(" "@, n).len() == n,
        forall|k: int| 0 <= k < n ==> #[trigger] repeat(" "@, n)[k] == ' ',
    decreases n,
{
    reveal_strlit(" ");
    if n > 0 {
        lemma_blanks((n - 1) as nat);
    }
}

// ------------------------------------------------------------- wrapping

/// How far the words are laid out: nothing is lost or moved, and a line is
/// ended only where the next word does not fit.
pub open spec fn laid_so(f: Fill, ws: Seq<Seq<char>>, max: nat) -> bool {
    &&& ws.len() == 0 ==> f.full.len() == 0 && f.begun.len() == 0
    &&& ws.len() > 0 ==> f.begun.len() > 0 && join(f.full.push(f.begun), " "@) == join(ws, " "@)
    &&& forall|k: int| 0 <= k < f.full.len() ==> (#[trigger] f.full[k]).len() > 0
    &&& forall|k: int| 0 <= k < f.full.len() ==> no_room(#[trigger] f.full[k], f.full.push(f.begun)[k + 1], ws, max)
}

/// The word that the next line begins with does not fit on this line.
pub open spec fn no_room(line: Seq<char>, next: Seq<char>, ws: Seq<Seq<char>>, max: nat) -> bool {
    exists|m: int|
        0 < m <= next.len() && #[trigger] ws.contains(next.take(m)) && line.len() + 1 + m > max
}

proof fn lemma_laid(ws: Seq<Seq<char>>, max: nat, limit: nat)
    requires
        forall|k: int| 0 <= k < ws.len() ==> 0 < (#[trigger] ws[k]).len() <= max,
    ensures
        !fill(ws, max, limit).stopped ==> laid_so(fill(ws, max, limit), ws, max),
    decreases ws.len(),
{
    if ws.len() > 0 && !fill(ws, max, limit).stopped {
        let front = ws.drop_last();
        assert forall|k: int| 0 <= k < front.len() implies 0 < (#[trigger] front[k]).len() <= max by {
            assert(front[k] == ws[k]);
        }
        lemma_laid(front, max, limit);
        let f = fill(front, max, limit);
        let g = fill(ws, max, limit);
        let word = ws.last();
        assert(word == ws[ws.len() - 1]);
        assert(!f.stopped);
        lemma_step_laid(f, front, word, max, limit);
        assert(front.push(word) =~= ws);
    }
}

/// One word more keeps the layout.
proof fn lemma_step_laid(f: Fill, ws: Seq<Seq<char>>, word: Seq<char>, max: nat, limit: nat)
    requires
        laid_so(f, ws, max),
        !f.stopped,
        0 < word.len() <= max,
    ensures
        laid_so(fill_step(f, word, max, limit), ws.push(word), max),
{
    reveal_strlit(" ");
    let g = fill_step(f, word, max, limit);
    let now = ws.push(word);
    assert(now.drop_last() =~= ws);
    let line = longer(f.begun, word);
    if ws.len() == 0 {
        assert(f.full =~= Seq::empty());
        assert(f.begun =~= Seq::empty());
        assert(g.full.push(g.begun) =~= seq![word]);
        assert(now =~= seq![word]);
    } else if line.len() <= max {
        let a = f.full.push(f.begun);
        let b = g.full.push(g.begun);
        assert(a.drop_last() =~= f.full);
        assert(b.drop_last() =~= f.full);
        if f.full.len() == 0 {
            assert(join(a, " "@) == f.begun);
            assert(join(b, " "@) == line);
        } else {
            assert(join(a, " "@) == join(f.full, " "@) + " "@ + f.begun);
            assert(join(b, " "@) == join(f.full, " "@) + " "@ + line);
            assert(join(b, " "@) =~= join(a, " "@) + " "@ + word);
        }
        assert(join(now, " "@) == join(ws, " "@) + " "@ + word);
        assert forall|k: int| 0 <= k < g.full.len() implies no_room(
            #[trigger] g.full[k],
            g.full.push(g.begun)[k + 1],
            now,
            max,
        ) by {
            let next = f.full.push(f.begun)[k + 1];
            assert(no_room(f.full[k], next, ws, max));
            let m = choose|m: int|
                0 < m <= next.len() && #[trigger] ws.contains(next.take(m)) && f.full[k].len() + 1 + m > max;
            let j = choose|j: int| 0 <= j < ws.len() && ws[j] == next.take(m);
            assert(now[j] == next.take(m));
            let after = g.full.push(g.begun)[k + 1];
            assert(after.take(m) =~= next.take(m));
            assert(now.contains(after.take(m)));
        }
    } else {
        let a = f.full.push(f.begun);
        assert(g.full == a);
        assert(g.begun == word);
        assert(a.push(word).drop_last() =~= a);
        assert(join(a.push(word), " "@) == join(a, " "@) + " "@ + word);
        assert(join(now, " "@) == join(ws, " "@) + " "@ + word);
        assert forall|k: int| 0 <= k < g.full.len() implies no_room(
            #[trigger] g.full[k],
            g.full.push(g.begun)[k + 1],
            now,
            max,
        ) by {
            if k < f.full.len() {
                let next = a[k + 1];
                assert(no_room(f.full[k], next, ws, max));
                let m = choose|m: int|
                    0 < m <= next.len() && #[trigger] ws.contains(next.take(m)) && f.full[k].len() + 1 + m > max;
                let j = choose|j: int| 0 <= j < ws.len() && ws[j] == next.take(m);
                assert(now[j] == next.take(m));
                assert(now.contains(next.take(m)));
                assert(g.full.push(g.begun)[k + 1] == next);
            } else {
                let m = word.len() as int;
                assert(word.take(m) =~= word);
                assert(now[ws.len() as int] == word);
                assert(now.contains(word.take(m)));
                assert(g.full.push(g.begun)[k + 1] == word);
            }
        }
    }
}

/// Law: text that takes fewer lines than allowed, and of which no word is
/// wider than a line, is on its lines word for word, with one blank or one
/// line end between two words; and a line is ended only where the next word
/// does not fit on it.
pub proof fn law_wrapped_text_keeps_its_words(s: Seq<char>, max: nat, limit: nat)
    requires
        forall|k: int| 0 <= k < words(s).len() ==> 0 < (#[trigger] words(s)[k]).len() <= max,
        wrapped(s, max, limit).len() < limit,
    ensures
        ({
            let ls = wrapped(s, max, limit);
            &&& join(ls, " "@) == join(words(s), " "@)
            &&& forall|k: int| 0 <= k < ls.len() - 1 ==> no_room(#[trigger] ls[k], ls[k + 1], words(s), max)
        }),
{
    let ws = words(s);
    let f = fill(ws, max, limit);
    let ls = wrapped(s, max, limit);
    lemma_stopped(ws, max, limit);
    assert(!f.stopped);
    lemma_laid(ws, max, limit);
    if ws.len() > 0 {
        assert(ls == f.full.push(f.begun));
    } else {
        assert(ls =~= Seq::empty());
    }
}

proof fn lemma_stopped(ws: Seq<Seq<char>>, max: nat, limit: nat)
    ensures
        fill(ws, max, limit).stopped ==> fill(ws, max, limit).full.len() == limit,
    decreases ws.len(),
{
    if ws.len() > 0 {
        lemma_stopped(ws.drop_last(), max, limit);
    }
}

/// Law: a text whose words fit on one line stands on one.
pub proof fn law_short_text_is_one_line(s: Seq<char>, max: nat, limit: nat)
    requires
        words(s).len() > 0,
        forall|k: int| 0 <= k < words(s).len() ==> 0 < (#[trigger] words(s)[k]).len(),
        join(words(s), " "@).len() <= max,
        limit > 1,
    ensures
        wrapped(s, max, limit) == seq![join(words(s), " "@)],
{
    lemma_one_line(words(s), max, limit);
    let f = fill(words(s), max, limit);
    assert(f.begun.len() > 0);
    assert(laid_out(f, limit) =~= seq![join(words(s), " "@)]);
}

proof fn lemma_one_line(ws: Seq<Seq<char>>, max: nat, limit: nat)
    requires
        forall|k: int| 0 <= k < ws.len() ==> 0 < (#[trigger] ws[k]).len(),
        join(ws, " "@).len() <= max,
        limit > 1,
    ensures
        ({
            let f = fill(ws, max, limit);
            f.full.len() == 0 && f.begun == join(ws, " "@) && !f.stopped && (ws.len() > 0 ==> f.begun.len() > 0)
        }),
    decreases ws.len(),
{
    reveal_strlit(" ");
    if ws.len() > 0 {
        let front = ws.drop_last();
        assert forall|k: int| 0 <= k < front.len() implies 0 < (#[trigger] front[k]).len() by {
            assert(front[k] == ws[k]);
        }
        assert(ws[ws.len() - 1].len() > 0);
        if ws.len() > 1 {
            assert(join(ws, " "@) == join(front, " "@) + " "@ + ws.last());
        } else {
            assert(front =~= Seq::empty());
        }
        lemma_one_line(front, max, limit);
    }
}

/// A text without white space is one word, and so is as much of it as is
/// kept when it is cut.
proof fn lemma_one_word(w: Seq<char>, max: nat)
    requires
        w.len() > 0,
        max > 0,
        forall|i: int| 0 <= i < w.len() ==> !is_space(#[trigger] w[i]),
    ensures
        words(truncated(w, max)).len() == 1,
        truncated(w, max).len() > 0,
        forall|i: int| 0 <= i < truncated(w, max).len() ==> !is_space(#[trigger] truncated(w, max)[i]),
{
    reveal_strlit("…");
    let t = truncated(w, max);
    assert forall|i: int| 0 <= i < t.len() implies !is_space(#[trigger] t[i]) by {
        if i < w.len() && t[i] == w[i] {
            assert(!is_space(w[i]));
        }
    }
    assert forall|i: int| 0 <= i < t.len() implies !cuts(Sep::Space, #[trigger] t[i]) by {
        assert(!is_space(t[i]));
    }
    lemma_split_whole(t, Sep::Space);
    reveal_with_fuel(nonempty, 2);
    assert(seq![t].drop_last() =~= Seq::<Seq<char>>::empty());
}

/// One word more behind a blank is one word more.
proof fn lemma_word_more(line: Seq<char>, w: Seq<char>)
    requires
        w.len() > 0,
        forall|i: int| 0 <= i < w.len() ==> !is_space(#[trigger] w[i]),
    ensures
        words(line + " "@ + w).len() == words(line).len() + 1,
{
    reveal_strlit(" ");
    assert(" "@ =~= seq![' ']);
    assert forall|i: int| 0 <= i < w.len() implies !cuts(Sep::Space, #[trigger] w[i]) by {
        assert(!is_space(w[i]));
    }
    lemma_split_append(line, ' ', w, Sep::Space);
    let v = split(line, Sep::Space);
    assert(v.push(w).drop_last() =~= v);
}

/// As long as the layout goes on, each word stands on its lines once.
proof fn lemma_words_laid(ws: Seq<Seq<char>>, max: nat, limit: nat)
    requires
        max > 0,
        forall|k: int| 0 <= k < ws.len() ==> (#[trigger] ws[k]).len() > 0,
        forall|k: int, i: int| 0 <= k < ws.len() && 0 <= i < ws[k].len() ==> !is_space(#[trigger] ws[k][i]),
    ensures
        ({
            let f = fill(ws, max, limit);
            &&& !f.stopped ==> words_in(f.full) + words(f.begun).len() == ws.len() && (ws.len() > 0 ==> f.begun.len() > 0)
            &&& f.stopped ==> words_in(f.full) < ws.len()
            &&& ws.len() > 0 ==> words(f.begun).len() > 0
            &&& ws.len() == 0 ==> f.begun.len() == 0 && words(f.begun).len() == 0
        }),
    decreases ws.len(),
{
    if ws.len() == 0 {
        let none = Seq::<char>::empty();
        assert(split(none, Sep::Space) =~= seq![none]);
        reveal_with_fuel(nonempty, 2);
        assert(seq![none].drop_last() =~= Seq::<Seq<char>>::empty());
    } else {
        let front = ws.drop_last();
        assert forall|k: int| 0 <= k < front.len() implies (#[trigger] front[k]).len() > 0 by {
            assert(front[k] == ws[k]);
        }
        assert forall|k: int, i: int| 0 <= k < front.len() && 0 <= i < front[k].len() implies !is_space(
            #[trigger] front[k][i],
        ) by {
            assert(!is_space(ws[k][i]));
        }
        lemma_words_laid(front, max, limit);
        let f = fill(front, max, limit);
        let w = ws.last();
        assert(w == ws[ws.len() - 1]);
        assert forall|i: int| 0 <= i < w.len() implies !is_space(#[trigger] w[i]) by {
            assert(!is_space(ws[ws.len() - 1][i]));
        }
        lemma_one_word(w, max);
        lemma_word_more(f.begun, w);
        assert(truncated(w, w.len()) == w);
        lemma_one_word(w, w.len());
        assert(f.full.push(f.begun).drop_last() =~= f.full);
    }
}

/// The words of a text hold no white space.
proof fn lemma_words_are_words(s: Seq<char>)
    ensures
        forall|k: int| 0 <= k < words(s).len() ==> (#[trigger] words(s)[k]).len() > 0,
        forall|k: int, i: int| 0 <= k < words(s).len() && 0 <= i < words(s)[k].len() ==> !is_space(#[trigger] words(s)[k][i]),
{
    let v = split(s, Sep::Space);
    crate::text::lemma_pieces_uncut(s, Sep::Space);
    lemma_nonempty_of(v);
    let ws = words(s);
    assert forall|k: int, i: int| 0 <= k < ws.len() && 0 <= i < ws[k].len() implies !is_space(#[trigger] ws[k][i]) by {
        assert(v.contains(ws[k]));
        let j = choose|j: int| 0 <= j < v.len() && v[j] == ws[k];
        assert(!cuts(Sep::Space, v[j][i]));
    }
}

proof fn lemma_nonempty_of(v: Seq<Seq<char>>)
    ensures
        forall|k: int| 0 <= k < nonempty(v).len() ==> (#[trigger] nonempty(v)[k]).len() > 0 && v.contains(nonempty(v)[k]),
    decreases v.len(),
{
    if v.len() > 0 {
        let front = v.drop_last();
        lemma_nonempty_of(front);
        assert forall|k: int| 0 <= k < nonempty(v).len() implies (#[trigger] nonempty(v)[k]).len() > 0 && v.contains(
            nonempty(v)[k],
        ) by {
            if k < nonempty(front).len() {
                assert(nonempty(v)[k] == nonempty(front)[k]);
                let j = choose|j: int| 0 <= j < front.len() && front[j] == nonempty(front)[k];
                assert(v[j] == nonempty(v)[k]);
            } else {
                assert(v[v.len() - 1] == nonempty(v)[k]);
            }
        }
    }
}

/// With one line more allowed the layout is the same as long as it goes on.
proof fn lemma_one_line_more(ws: Seq<Seq<char>>, max: nat, limit: nat)
    requires
        limit > 0,
    ensures
        ({
            let f = fill(ws, max, limit);
            let g = fill(ws, max, limit + 1);
            &&& !f.stopped ==> f == g && f.full.len() < limit
            &&& f.stopped ==> f.full.len() == limit
        }),
    decreases ws.len(),
{
    if ws.len() > 0 {
        lemma_one_line_more(ws.drop_last(), max, limit);
    }
}

/// Law: text that would take one line more than it is allowed ends with the
/// mark that it goes on.
pub proof fn law_text_cut_short_is_marked(s: Seq<char>, max: nat, limit: nat)
    requires
        max > 0,
        limit > 0,
        wrapped(s, max, limit + 1).len() == limit + 1,
    ensures
        wrapped(s, max, limit).len() == limit,
        wrapped(s, max, limit).last().len() > 0,
        wrapped(s, max, limit).last().last() == '…',
{
    reveal_strlit("…");
    let ws = words(s);
    lemma_words_are_words(s);
    lemma_one_line_more(ws, max, limit);
    lemma_words_laid(ws, max, limit);
    let f = fill(ws, max, limit);
    if !f.stopped {
        assert(laid_out(f, limit + 1).len() <= limit);
    }
    assert(f.stopped);
    assert(laid_out(f, limit) == f.full);
}

// ------------------------------------------------------------- widths

/// Law: the width drawn to is the one asked for, else the terminal's, but
/// not below 40 and not above 240.
pub proof fn law_width_drawn_to(asked: usize, terminal: usize)
    ensures
        40 <= drawn_width(Some(asked), terminal) <= 240,
        40 <= asked <= 240 ==> drawn_width(Some(asked), terminal) == asked,
        asked <= 40 ==> drawn_width(Some(asked), terminal) == 40,
        asked >= 240 ==> drawn_width(Some(asked), terminal) == 240,
        drawn_width(None, terminal) == drawn_width(Some(terminal), asked),
{
}

/// Law: the terminal is as wide as the environment says, else as the
/// terminal itself says in its second number, else a hundred columns.
pub proof fn law_width_of_the_terminal(n: usize, rows: usize, size: Option<Seq<char>>)
    ensures
        terminal_width(Some(dec(n as int)), size) == n,
        n > 0 ==> terminal_width(None, Some(dec(rows as int) + seq![' '] + dec(n as int))) == n,
        terminal_width(None, Some(dec(rows as int) + seq![' '] + dec(0))) == 100,
        terminal_width(None, None) == 100,
{
    law_decimal_reads_back(n as int);
    law_decimal_reads_back(0);
    lemma_two_words(rows as int, n as int);
    lemma_two_words(rows as int, 0);
}

proof fn lemma_two_words(a: int, b: int)
    requires
        a >= 0,
        b >= 0,
    ensures
        words(dec(a) + seq![' '] + dec(b)) == seq![dec(a), dec(b)],
{
    crate::number::lemma_digits_read_back(a as nat);
    crate::number::lemma_digits_read_back(b as nat);
    assert forall|i: int| 0 <= i < dec(a).len() implies !cuts(Sep::Space, #[trigger] dec(a)[i]) by {
        assert(crate::number::is_digit(dec(a)[i]));
    }
    assert forall|i: int| 0 <= i < dec(b).len() implies !cuts(Sep::Space, #[trigger] dec(b)[i]) by {
        assert(crate::number::is_digit(dec(b)[i]));
    }
    lemma_split_whole(dec(a), Sep::Space);
    lemma_split_append(dec(a), ' ', dec(b), Sep::Space);
    let v = seq![dec(a)].push(dec(b));
    assert(v.drop_last() =~= seq![dec(a)]);
    assert(seq![dec(a)].drop_last() =~= Seq::<Seq<char>>::empty());
    reveal_with_fuel(nonempty, 3);
    assert(nonempty(v) =~= seq![dec(a), dec(b)]);
}

/// Law: four columns with two blanks between them fit the width, unless that
/// leaves less than sixteen columns for each.
pub proof fn law_four_columns_fit(w: nat)
    ensures
        column_width(w) >= 16,
        w >= 70 ==> 4 * column_width(w) + 6 <= w < 4 * (column_width(w) + 1) + 6,
        w < 70 ==> column_width(w) == 16,
{
}

/// Law: a full bar takes what is left beside a label and its count, but no
/// more than forty columns.
pub proof fn law_width_of_a_bar(w: nat)
    ensures
        bar_width(w) <= 40,
        20 <= w <= 60 ==> bar_width(w) == w - 20,
        w >= 60 ==> bar_width(w) == 40,
        w < 20 ==> bar_width(w) == 0,
{
}

/// Law: no two statuses are drawn in one color.
pub proof fn law_statuses_have_colors(a: Status, b: Status)
    ensures
        crate::paint::status_rgb(a) == crate::paint::status_rgb(b) ==> a == b,
{
}

/// Law: a higher priority is drawn no cooler: with no less red, no more green
/// and no more blue; priorities out of range are drawn like the nearest in
/// it.
pub proof fn law_higher_is_hotter(p: int, q: int)
    ensures
        p <= q ==> heat_of(p).0 <= heat_of(q).0 && heat_of(p).1 >= heat_of(q).1 && heat_of(p).2 >= heat_of(q).2,
        p <= 0 ==> heat_of(p) == heat_of(0),
        p >= 10000 ==> heat_of(p) == heat_of(10000),
        heat_of(0) == (124int, 147int, 160int),
        heat_of(10000) == (184int, 69int, 47int),
{
}

// ------------------------------------------------------------- the panels

/// Law: the panels are drawn of the open cards alone: done cards change
/// nothing in them.
pub proof fn law_panels_are_of_open_cards(ts: Seq<TileView>, t: TileView, on: bool, w: nat)
    requires
        t.card.status == Status::Done,
    ensures
        panels_text(ts.push(t), on, w) == panels_text(ts, on, w),
        panels_text(ts.filter(|t: TileView| t.card.status != Status::Done), on, w) == panels_text(ts, on, w),
{
    assert(ts.push(t).drop_last() =~= ts);
    lemma_open_twice(ts);
}

proof fn lemma_open_twice(ts: Seq<TileView>)
    ensures
        ts.filter(|t: TileView| t.card.status != Status::Done) == still_open(ts),
        still_open(still_open(ts)) == still_open(ts),
    decreases ts.len(),
{
    reveal(Seq::filter);
    if ts.len() > 0 {
        lemma_open_twice(ts.drop_last());
        if ts.last().card.status != Status::Done {
            let v = still_open(ts);
            assert(v.drop_last() =~= still_open(ts.drop_last()));
            assert(v.last() == ts.last());
        }
    } else {
        assert(ts =~= Seq::empty());
    }
}

/// Law: each of the labels told has a bar with its name and its count.
pub proof fn law_each_label_has_a_bar(ts: Seq<TileView>, w: nat, k: int)
    requires
        0 <= k < top_labels(still_open(ts)).len(),
    ensures
        ({
            let (name, n) = top_labels(still_open(ts))[k];
            let text = panels_text(ts, false, w);
            &&& contains(text, "  "@ + padded(truncated(name, 12), 12) + " "@)
            &&& contains(text, " "@ + dec(n as int) + "\n"@)
        }),
{
    let open = still_open(ts);
    let rows = top_labels(open);
    let (name, n) = rows[k];
    let width = bar_width(w);
    let max = most_cards(rows);
    let (a, b) = lemma_bar(rows, width, max, k);
    let bar = bar_text(rows[k], false, width, max);
    let bars = bars_text(rows, false, width, max);
    let head = "  "@ + padded(truncated(name, 12), 12) + " "@;
    let tail = " "@ + dec(n as int) + "\n"@;
    let filled = crate::board::share(n, width, max);
    lemma_bar_parts(
        head,
        repeat("█"@, filled),
        repeat("·"@, crate::board::less(width, filled)),
        " "@,
        dec(n as int),
        "\n"@,
    );
    lemma_stands_in_whole(a, bar, b, head);
    lemma_stands_in_whole(a, bar, b, tail);
    let none = Seq::<char>::empty();
    lemma_panel_parts(
        "OPEN BY LABEL"@,
        "\n"@,
        none,
        bars,
        "\n"@,
        "OPEN PRIORITY  "@,
        spark(open, 20, tallest(open, 20), false),
        "               0            5000          10000\n"@,
        head,
    );
    lemma_panel_parts(
        "OPEN BY LABEL"@,
        "\n"@,
        none,
        bars,
        "\n"@,
        "OPEN PRIORITY  "@,
        spark(open, 20, tallest(open, 20), false),
        "               0            5000          10000\n"@,
        tail,
    );
}

/// Parts of a bar.
proof fn lemma_bar_parts(a: Seq<char>, b: Seq<char>, c: Seq<char>, d: Seq<char>, e: Seq<char>, f: Seq<char>)
    ensures
        ({
            let t = a + b + c + d + e + f;
            &&& contains(t, a)
            &&& contains(t, d + e + f)
        }),
{
    let t = a + b + c + d + e + f;
    assert(contains(t, a)) by {
        assert(t.subrange(0, a.len() as int) =~= a);
        assert(occurs_at(t, a, 0));
    }
    assert(contains(t, d + e + f)) by {
        let z = d + e + f;
        let k = (a + b + c).len() as int;
        assert(t.subrange(k, k + z.len()) =~= z);
        assert(occurs_at(t, z, k));
    }
}

/// What stands in the bars stands in the panels.
proof fn lemma_panel_parts(
    a: Seq<char>,
    b: Seq<char>,
    c: Seq<char>,
    bars: Seq<char>,
    e: Seq<char>,
    f: Seq<char>,
    g: Seq<char>,
    h: Seq<char>,
    x: Seq<char>,
)
    requires
        contains(bars, x),
    ensures
        contains(a + b + c + bars + e + f + g + b + h, x),
{
    let t = a + b + c + bars + e + f + g + b + h;
    let at = choose|at: int| occurs_at(bars, x, at);
    let k = (a + b + c).len() + at;
    assert(t.subrange(k, k + x.len()) =~= bars.subrange(at, at + x.len()));
    assert(occurs_at(t, x, k));
}

/// What stands before a bar, and what after it.
proof fn lemma_bar(rows: Seq<(Seq<char>, nat)>, width: nat, max: nat, k: int) -> (r: (Seq<char>, Seq<char>))
    requires
        0 <= k < rows.len(),
    ensures
        bars_text(rows, false, width, max) == r.0 + bar_text(rows[k], false, width, max) + r.1,
    decreases rows.len(),
{
    let front = rows.drop_last();
    let before = bars_text(front, false, width, max);
    let last = bar_text(rows.last(), false, width, max);
    if k == rows.len() - 1 {
        assert(bars_text(rows, false, width, max) =~= before + last + Seq::empty());
        (before, Seq::empty())
    } else {
        let (a, b) = lemma_bar(front, width, max, k);
        assert(bars_text(rows, false, width, max) =~= a + bar_text(rows[k], false, width, max) + (b + last));
        (a, b + last)
    }
}

/// Law: the spread of the priorities has a mark for each span, which is a
/// dot exactly where no open card lies in it.
pub proof fn law_spread_has_a_mark_per_span(ts: Seq<TileView>, n: nat, max: nat, k: int)
    requires
        0 <= k < n,
    ensures
        spark(ts, n, max, false).len() == n,
        spark(ts, n, max, false)[k] == '·' <==> in_bucket(ts, k) == 0,
    decreases n,
{
    lemma_spark_len((n - 1) as nat, ts, max);
    reveal_strlit("·");
    reveal_strlit("▁");
    reveal_strlit("▂");
    reveal_strlit("▃");
    reveal_strlit("▄");
    reveal_strlit("▅");
    reveal_strlit("▆");
    reveal_strlit("▇");
    reveal_strlit("█");
    if k < n - 1 {
        law_spread_has_a_mark_per_span(ts, (n - 1) as nat, max, k);
    }
}

proof fn lemma_spark_len(n: nat, ts: Seq<TileView>, max: nat)
    ensures
        spark(ts, n, max, false).len() == n,
    decreases n,
{
    reveal_strlit("·");
    reveal_strlit("▁");
    reveal_strlit("▂");
    reveal_strlit("▃");
    reveal_strlit("▄");
    reveal_strlit("▅");
    reveal_strlit("▆");
    reveal_strlit("▇");
    reveal_strlit("█");
    if n > 0 {
        lemma_spark_len((n - 1) as nat, ts, max);
    }
}

// ------------------------------------------------------------- the columns

/// A text that ends in what is no white space stands in a trimmed text where
/// it stood before.
proof fn lemma_trimmed_keeps(a: Seq<char>, x: Seq<char>, z: Seq<char>)
    ensures
        contains(trim_end(a + x + z), trim_end(x)),
{
    let all = a + x + z;
    let t = trim_end(all);
    let y = trim_end(x);
    lemma_trim_end(all);
    lemma_trim_end(x);
    if y.len() == 0 {
        assert(t.subrange(0, 0) =~= y);
        assert(occurs_at(t, y, 0));
    } else {
        let last = a.len() + y.len() - 1;
        assert(all[last] == x[y.len() - 1]);
        assert(x.take(y.len() as int)[y.len() - 1] == y.last());
        if t.len() <= last {
            assert(all.skip(t.len() as int)[last - t.len()] == all[last]);
            assert(is_space(all[last]));
        }
        let n = a.len() as int;
        assert(t.subrange(n, n + y.len()) =~= y) by {
            assert forall|i: int| 0 <= i < y.len() implies t[n + i] == y[i] by {
                assert(t[n + i] == all.take(t.len() as int)[n + i]);
                assert(all[n + i] == x[i]);
                assert(x.take(y.len() as int)[i] == y[i]);
            }
        }
        assert(occurs_at(t, y, n));
    }
}

/// Law: each line of each column stands in its row of the board, up to the
/// blanks at its end.
pub proof fn law_each_line_of_a_column_is_drawn(
    ts: Seq<TileView>,
    status: Status,
    on: bool,
    w: nat,
    done: nat,
    show_project: bool,
    row: int,
)
    requires
        0 <= row < column_lines(ts, status, on, column_width(w), done, show_project).len(),
    ensures
        contains(
            columns_text(ts, on, w, done, show_project),
            trim_end(column_lines(ts, status, on, column_width(w), done, show_project)[row]),
        ),
{
    let cw = column_width(w);
    let a = column_lines(ts, Status::New, on, cw, done, show_project);
    let b = column_lines(ts, Status::Ready, on, cw, done, show_project);
    let c = column_lines(ts, Status::InProgress, on, cw, done, show_project);
    let d = column_lines(ts, Status::Done, on, cw, done, show_project);
    lemma_drawn(a, b, c, d, cw, status, row);
}

/// The column of a status, of four.
spec fn column_for(
    a: Seq<Seq<char>>,
    b: Seq<Seq<char>>,
    c: Seq<Seq<char>>,
    d: Seq<Seq<char>>,
    status: Status,
) -> Seq<Seq<char>> {
    match status {
        Status::New => a,
        Status::Ready => b,
        Status::InProgress => c,
        Status::Done => d,
    }
}

proof fn lemma_drawn(
    a: Seq<Seq<char>>,
    b: Seq<Seq<char>>,
    c: Seq<Seq<char>>,
    d: Seq<Seq<char>>,
    w: nat,
    status: Status,
    row: int,
)
    requires
        0 <= row < column_for(a, b, c, d, status).len(),
    ensures
        contains(
            rows_text(a, b, c, d, w, crate::board::larger(crate::board::larger(a.len(), b.len()), crate::board::larger(c.len(), d.len()))),
            trim_end(column_for(a, b, c, d, status)[row]),
        ),
{
    let n = crate::board::larger(crate::board::larger(a.len(), b.len()), crate::board::larger(c.len(), d.len()));
    let x = column_for(a, b, c, d, status)[row];
    let (p, z) = lemma_row(a, b, c, d, w, n, row);
    let (ca, cb, cc, cd) = (cell_at(a, row), cell_at(b, row), cell_at(c, row), cell_at(d, row));
    lemma_cells(
        ca,
        repeat(" "@, crate::board::less(w, crate::paint::visible(ca)) + 2),
        cb,
        repeat(" "@, crate::board::less(w, crate::paint::visible(cb)) + 2),
        cc,
        repeat(" "@, crate::board::less(w, crate::paint::visible(cc)) + 2),
        cd,
    );
    let line = trim_end(spaced(ca, w) + spaced(cb, w) + spaced(cc, w) + cd);
    assert(contains(line, trim_end(x)));
    lemma_behind(line, "\n"@, trim_end(x));
    lemma_stands_in_whole(p, row_text(a, b, c, d, w, row), z, trim_end(x));
}

/// What stands in a text stands in it with more behind it.
proof fn lemma_behind(line: Seq<char>, more: Seq<char>, x: Seq<char>)
    requires
        contains(line, x),
    ensures
        contains(line + more, x),
{
    let none = Seq::<char>::empty();
    lemma_stands_in_whole(none, line, more, x);
    assert(none + line + more =~= line + more);
}

/// Each of four cells, with blanks behind the first three, stands in the
/// trimmed row.
proof fn lemma_cells(
    a: Seq<char>,
    p: Seq<char>,
    b: Seq<char>,
    q: Seq<char>,
    c: Seq<char>,
    r: Seq<char>,
    d: Seq<char>,
)
    ensures
        ({
            let t = trim_end((a + p) + (b + q) + (c + r) + d);
            contains(t, trim_end(a)) && contains(t, trim_end(b)) && contains(t, trim_end(c)) && contains(t, trim_end(d))
        }),
{
    let line = (a + p) + (b + q) + (c + r) + d;
    let none = Seq::<char>::empty();
    assert(contains(trim_end(line), trim_end(a))) by {
        let z = p + b + q + c + r + d;
        lemma_trimmed_keeps(none, a, z);
        assert(line =~= none + a + z);
    }
    assert(contains(trim_end(line), trim_end(b))) by {
        let y = a + p;
        let z = q + c + r + d;
        lemma_trimmed_keeps(y, b, z);
        assert(line =~= y + b + z);
    }
    assert(contains(trim_end(line), trim_end(c))) by {
        let y = (a + p) + (b + q);
        let z = r + d;
        lemma_trimmed_keeps(y, c, z);
        assert(line =~= y + c + z);
    }
    assert(contains(trim_end(line), trim_end(d))) by {
        let y = (a + p) + (b + q) + (c + r);
        lemma_trimmed_keeps(y, d, none);
        assert(line =~= y + d + none);
    }
}

/// What stands before a row, and what after it.
proof fn lemma_row(
    a: Seq<Seq<char>>,
    b: Seq<Seq<char>>,
    c: Seq<Seq<char>>,
    d: Seq<Seq<char>>,
    w: nat,
    n: nat,
    row: int,
) -> (r: (Seq<char>, Seq<char>))
    requires
        0 <= row < n,
    ensures
        rows_text(a, b, c, d, w, n) == r.0 + row_text(a, b, c, d, w, row) + r.1,
    decreases n,
{
    let m = (n - 1) as nat;
    let last = row_text(a, b, c, d, w, n - 1);
    if row == n - 1 {
        assert(rows_text(a, b, c, d, w, n) =~= rows_text(a, b, c, d, w, m) + last + Seq::empty());
        (rows_text(a, b, c, d, w, m), Seq::empty())
    } else {
        let (p, z) = lemma_row(a, b, c, d, w, m, row);
        assert(rows_text(a, b, c, d, w, n) =~= p + row_text(a, b, c, d, w, row) + (z + last));
        (p, z + last)
    }
}

// ------------------------------------------------------------- the whole

/// Law: the board shows its title and its counts at the top, then the
/// panels, then the columns, all of them of the cards with a tag asked for.
pub proof fn law_board_has_its_parts(
    title: Seq<char>,
    all: Seq<TileView>,
    label: Option<Seq<char>>,
    done: nat,
    show_project: bool,
    on: bool,
    w: nat,
)
    ensures
        ({
            let ts = all.filter(|t: TileView| tagged_so(label, t.card));
            let text = board_text(title, all, label, done, show_project, on, w);
            &&& text == header_text(title, ts, on, w, label) + "\n"@ + panels_text(ts, on, w) + "\n"@ + columns_text(
                ts,
                on,
                w,
                done,
                show_project,
            )
            &&& contains(header_text(title, ts, on, w, label), stats_text(ts, label))
            &&& title.len() + 12 <= w ==> starts_with(header_text(title, ts, false, w, label), "bl/board  "@ + title + "\n"@)
        }),
{
    law_board_keeps_tagged_cards(all, label);
    lemma_header(title, chosen(all, label), on, w, label);
}

/// What stands at the top.
proof fn lemma_header(title: Seq<char>, ts: Seq<TileView>, on: bool, w: nat, label: Option<Seq<char>>)
    ensures
        contains(header_text(title, ts, on, w, label), stats_text(ts, label)),
        title.len() + 12 <= w ==> starts_with(header_text(title, ts, false, w, label), "bl/board  "@ + title + "\n"@),
{
    let cut = truncated(title, crate::board::less(w, 12));
    let line = repeat("─"@, w);
    lemma_top(
        crate::paint::bolded(on, "bl/board"@),
        "  "@,
        crate::paint::dimmed(on, cut),
        "\n"@,
        stats_text(ts, label),
        "\n"@,
        crate::paint::dimmed(on, line),
        "\n"@,
    );
    if title.len() + 12 <= w {
        reveal_strlit("bl/board");
        reveal_strlit("  ");
        reveal_strlit("bl/board  ");
        assert("bl/board"@ + "  "@ =~= "bl/board  "@);
        lemma_top("bl/board"@, "  "@, cut, "\n"@, stats_text(ts, label), "\n"@, line, "\n"@);
    }
}

/// Parts of the top.
proof fn lemma_top(
    a: Seq<char>,
    b: Seq<char>,
    c: Seq<char>,
    d: Seq<char>,
    s: Seq<char>,
    e: Seq<char>,
    f: Seq<char>,
    g: Seq<char>,
)
    ensures
        ({
            let t = a + b + c + d + s + e + f + g;
            &&& contains(t, s)
            &&& starts_with(t, a + b + c + d)
        }),
{
    let t = a + b + c + d + s + e + f + g;
    let x = a + b + c + d;
    assert(contains(t, s)) by {
        let k = x.len() as int;
        assert(t.subrange(k, k + s.len()) =~= s);
        assert(occurs_at(t, s, k));
    }
    assert(starts_with(t, x)) by {
        assert(t.subrange(0, x.len() as int) =~= x);
    }
}

/// Law: a label that fits stands on the first line of its card.
pub proof fn law_label_stands_on_the_card(c: CardView, w: nat)
    requires
        c.label.len() > 0,
        c.label.len() + dec(c.id as int).len() + 9 <= w,
    ensures
        contains(tile_head(c, false, w), "#"@ + dec(c.id as int) + " "@ + c.label),
{
    reveal_strlit("#");
    let id = "#"@ + dec(c.id as int);
    let room = crate::board::less(w, id.len() + 8);
    let cell = crate::board::cell(c.label, room);
    law_filled_up_with_blanks(c.label, room);
    lemma_labelled(id, " "@, cell, c.label, crate::number::align_right(dec(c.priority as int), 5));
}

/// A label at the start of its cell stands behind the id.
proof fn lemma_labelled(id: Seq<char>, sp: Seq<char>, cell: Seq<char>, label: Seq<char>, rank: Seq<char>)
    requires
        label.len() <= cell.len(),
        cell.take(label.len() as int) == label,
    ensures
        contains(id + sp + cell + sp + rank, id + sp + label),
{
    let t = id + sp + cell + sp + rank;
    let x = id + sp + label;
    assert forall|i: int| 0 <= i < label.len() implies cell[i] == label[i] by {
        assert(cell.take(label.len() as int)[i] == label[i]);
    }
    assert(t.subrange(0, x.len() as int) =~= x);
    assert(occurs_at(t, x, 0));
}

} // verus!
