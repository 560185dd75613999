//! Color changes nothing but color: without its escape sequences the painted
//! board is the plain one.

use vstd::prelude::*;

use crate::board::{
    agents, average, bar_text, bar_width, bars_text, block, cell, cell_at, column_lines, column_name, column_width,
    columns_text, commit_cell, done_keys, header_text, holders, in_bucket, in_status, label_names, larger, latest, less,
    most_cards, one_if, panels_text, row_text, rows_text, share, shown, spaced, spark, spark_mark, stats_text, still_open,
    tallest, tile_head, tile_lines, tiles_lines, top_labels, TileView,
};
use crate::card::CardView;
use crate::commits::sha_and_subject;
use crate::fit::{
    all_free_of, foreign, lemma_plain_blanks, lemma_plain_cell, lemma_plain_cut, lemma_plain_join, lemma_plain_kept, lemma_plain_lines,
    lemma_plain_number, lemma_plain_part, lemma_plain_repeat, lemma_plain_words, lemma_plain_wrapped, plain_tile,
};
use crate::layout::{padded, truncated, wrapped};
use crate::number::{align_right, dec};
use crate::order::{lemma_order_exists, sorted_order, Texts};
use crate::paint::{
    bolded, closed_paint, colored, dimmed, free_of, heat_rgb, law_paint_keeps_text, lemma_read_append, lemma_read_from,
    lemma_seen_is_visible, read_on, seen, status_rgb, unpainted, visible, Rgb,
};
use crate::status::Status;
use crate::tally::{law_names_told_once, lemma_names_len, names_once, tally_keys};
use crate::text::{
    first_of, is_space, join, lemma_first_of, lemma_pieces_uncut, lemma_split_join, lines,
    nonblank, repeat, split, split_once, strip_cr, trim_end, words, Sep,
};

verus! {

/// The painted text shows the plain one.
#[verifier::opaque]
pub open spec fn shows(painted: Seq<char>, plain: Seq<char>) -> bool {
    closed_paint(painted) && seen(painted) == plain && unpainted(plain)
}

/// Line by line, the painted texts show the plain ones.
pub open spec fn all_show(painted: Seq<Seq<char>>, plain: Seq<Seq<char>>) -> bool {
    painted.len() == plain.len() && forall|k: int| 0 <= k < painted.len() ==> shows(#[trigger] painted[k], plain[k])
}

/// The texts on a card from which its lines are made do not hold the
/// character.
pub open spec fn tile_free_of(t: TileView, c: char) -> bool {
    &&& free_of(t.card.label, c)
    &&& free_of(t.card.project, c)
    &&& free_of(t.card.claimed_by, c)
    &&& free_of(t.wait, c)
    &&& all_free_of(words(t.card.title), c)
    &&& all_free_of(nonblank(lines(t.card.commits)), c)
}

/// So it is with all of the cards.
pub open spec fn tiles_free_of(ts: Seq<TileView>, c: char) -> bool {
    forall|k: int| 0 <= k < ts.len() ==> tile_free_of(#[trigger] ts[k], c)
}

/// None of the cards holds an escape character.
pub open spec fn plain_tiles(ts: Seq<TileView>) -> bool {
    forall|k: int| 0 <= k < ts.len() ==> plain_tile(#[trigger] ts[k])
}

/// A card whose label, project, holder and blockers are each on one line.
pub open spec fn one_line_tile(t: TileView) -> bool {
    free_of(t.card.label, '\n') && free_of(t.card.project, '\n') && free_of(t.card.claimed_by, '\n') && free_of(
        t.wait,
        '\n',
    )
}

/// A text without white space at the end of its lines.
pub open spec fn tidied(s: Seq<char>) -> Seq<char> {
    join(split(s, Sep::Char('\n')).map_values(|l: Seq<char>| trim_end(l)), "\n"@)
}

// ------------------------------------------------------------- texts

proof fn lemma_paint_shows(on: bool, s: Seq<char>, c: Rgb)
    requires
        unpainted(s),
    ensures
        shows(s, s),
        shows(colored(on, s, c), s),
        shows(dimmed(on, s), s),
        shows(bolded(on, s), s),
{
    reveal(shows);
    law_paint_keeps_text(on, s, c);
}

/// What is seen of two texts side by side is what is seen of each.
proof fn lemma_shows_join(a: Seq<char>, b: Seq<char>, c: Seq<char>, d: Seq<char>)
    requires
        shows(a, b),
        shows(c, d),
    ensures
        shows(a + c, b + d),
{
    reveal(shows);
    let none = (Seq::<char>::empty(), false);
    lemma_seen_is_visible(none, a);
    lemma_seen_is_visible(none, c);
    lemma_seen_is_visible(none, a + c);
    lemma_read_append(none, a, c);
    lemma_read_from(b, false, c);
    lemma_plain_join(b, d, '\x1b');
}

proof fn lemma_all_show_join(a: Seq<Seq<char>>, b: Seq<Seq<char>>, c: Seq<Seq<char>>, d: Seq<Seq<char>>)
    requires
        all_show(a, b),
        all_show(c, d),
    ensures
        all_show(a + c, b + d),
{
    assert forall|k: int| 0 <= k < (a + c).len() implies shows(#[trigger] (a + c)[k], (b + d)[k]) by {
        if k < a.len() {
            assert((a + c)[k] == a[k] && (b + d)[k] == b[k]);
        } else {
            assert((a + c)[k] == c[k - a.len()] && (b + d)[k] == d[k - a.len()]);
        }
    }
}

proof fn lemma_all_free_join(a: Seq<Seq<char>>, b: Seq<Seq<char>>, c: char)
    requires
        all_free_of(a, c),
        all_free_of(b, c),
    ensures
        all_free_of(a + b, c),
{
    assert forall|k: int| 0 <= k < (a + b).len() implies free_of(#[trigger] (a + b)[k], c) by {
        if k < a.len() {
            assert((a + b)[k] == a[k]);
        } else {
            assert((a + b)[k] == b[k - a.len()]);
        }
    }
}

proof fn lemma_free_right(s: Seq<char>, w: nat, c: char)
    requires
        foreign(c),
        free_of(s, c),
    ensures
        free_of(align_right(s, w), c),
{
    if s.len() < w {
        lemma_plain_blanks((w - s.len()) as nat, c);
        lemma_plain_join(repeat(" "@, (w - s.len()) as nat), s, c);
    }
}

// ------------------------------------------------------------- cards

proof fn lemma_head_shows(card: CardView, on: bool, w: nat)
    requires
        unpainted(card.label),
    ensures
        shows(tile_head(card, on, w), tile_head(card, false, w)),
{
    reveal_strlit("#");
    reveal_strlit(" ");
    let id = "#"@ + dec(card.id as int);
    let room = less(w, id.len() + 8);
    let rank = align_right(dec(card.priority as int), 5);
    let hot = heat_rgb(card.priority as int);
    lemma_plain_number(card.id as int, '\x1b');
    lemma_plain_join("#"@, dec(card.id as int), '\x1b');
    lemma_plain_number(card.priority as int, '\x1b');
    lemma_free_right(dec(card.priority as int), 5, '\x1b');
    lemma_plain_blanks(room, '\x1b');
    lemma_plain_cell(card.label, room, '\x1b');
    let (p, q) = if card.label.len() == 0 {
        (repeat(" "@, room), repeat(" "@, room))
    } else {
        (dimmed(on, cell(card.label, room)), dimmed(false, cell(card.label, room)))
    };
    lemma_paint_shows(on, id, hot);
    lemma_paint_shows(on, " "@, hot);
    lemma_paint_shows(on, repeat(" "@, room), hot);
    lemma_paint_shows(on, cell(card.label, room), hot);
    lemma_paint_shows(on, rank, hot);
    let (a, b) = (dimmed(on, id), id);
    lemma_shows_join(a, b, " "@, " "@);
    lemma_shows_join(a + " "@, b + " "@, p, q);
    lemma_shows_join(a + " "@ + p, b + " "@ + q, " "@, " "@);
    lemma_shows_join(a + " "@ + p + " "@, b + " "@ + q + " "@, colored(on, rank, hot), rank);
}

proof fn lemma_head_free(card: CardView, w: nat, c: char)
    requires
        foreign(c),
        free_of(card.label, c),
    ensures
        free_of(tile_head(card, false, w), c),
{
    reveal_strlit("#");
    reveal_strlit(" ");
    let id = "#"@ + dec(card.id as int);
    let room = less(w, id.len() + 8);
    let rank = align_right(dec(card.priority as int), 5);
    lemma_plain_number(card.id as int, c);
    lemma_plain_join("#"@, dec(card.id as int), c);
    lemma_plain_number(card.priority as int, c);
    lemma_free_right(dec(card.priority as int), 5, c);
    lemma_plain_blanks(room, c);
    lemma_plain_cell(card.label, room, c);
    let p = if card.label.len() == 0 { repeat(" "@, room) } else { cell(card.label, room) };
    lemma_plain_join(id, " "@, c);
    lemma_plain_join(id + " "@, p, c);
    lemma_plain_join(id + " "@ + p, " "@, c);
    lemma_plain_join(id + " "@ + p + " "@, rank, c);
}

/// The text of a linked commit.
pub open spec fn commit_words(l: Seq<char>) -> Seq<char> {
    sha_and_subject(l).0 + " "@ + sha_and_subject(l).1
}

proof fn lemma_commit_free(l: Seq<char>, c: char)
    requires
        foreign(c),
        free_of(l, c),
    ensures
        free_of(commit_words(l), c),
{
    reveal_strlit(" ");
    let (sha, subject) = sha_and_subject(l);
    lemma_first_of(l, '\t');
    match split_once(l, '\t') {
        Some((x, y)) => {
            let at = first_of(l, '\t');
            lemma_plain_part(l, 0, at, c);
            lemma_plain_part(l, at + 1, l.len() as int, c);
            assert(x =~= l.subrange(0, at));
            assert(y =~= l.subrange(at + 1, l.len() as int));
        },
        None => {},
    }
    lemma_plain_join(sha, " "@, c);
    lemma_plain_join(sha + " "@, subject, c);
}

/// The lines of a card, part by part.
pub open spec fn tile_parts(t: TileView, on: bool, w: nat, show_project: bool) -> Seq<Seq<Seq<char>>> {
    let card = t.card;
    seq![
        seq![tile_head(card, on, w)],
        one_if(show_project && card.project.len() > 0, dimmed(on, cell(card.project, w))),
        wrapped(card.title, less(w, 1), 2).map_values(|l: Seq<char>| padded(l, w)),
        one_if(
            card.claimed_by.len() > 0,
            colored(on, cell("@"@ + card.claimed_by, w), status_rgb(Status::InProgress)),
        ),
        one_if(t.wait.len() > 0, dimmed(on, cell(t.wait, w))),
        nonblank(lines(card.commits)).map_values(|l: Seq<char>| commit_cell(l, on, w)),
        seq![Seq::<char>::empty()],
    ]
}

proof fn lemma_title_free(title: Seq<char>, w: nat, c: char)
    requires
        foreign(c),
        all_free_of(words(title), c),
    ensures
        all_free_of(wrapped(title, less(w, 1), 2).map_values(|l: Seq<char>| padded(l, w)), c),
{
    let ls = wrapped(title, less(w, 1), 2);
    lemma_plain_wrapped(title, less(w, 1), 2, c);
    let all = ls.map_values(|l: Seq<char>| padded(l, w));
    assert forall|k: int| 0 <= k < all.len() implies free_of(#[trigger] all[k], c) by {
        assert(free_of(ls[k], c));
        lemma_plain_cell(ls[k], w, c);
    }
}

proof fn lemma_commits_free(commits: Seq<Seq<char>>, w: nat, c: char)
    requires
        foreign(c),
        all_free_of(commits, c),
    ensures
        all_free_of(commits.map_values(|l: Seq<char>| commit_cell(l, false, w)), c),
{
    let all = commits.map_values(|l: Seq<char>| commit_cell(l, false, w));
    assert forall|k: int| 0 <= k < all.len() implies free_of(#[trigger] all[k], c) by {
        assert(free_of(commits[k], c));
        lemma_commit_free(commits[k], c);
        lemma_plain_cell(commit_words(commits[k]), w, c);
    }
}

proof fn lemma_parts_free(t: TileView, w: nat, show_project: bool, c: char)
    requires
        foreign(c),
        tile_free_of(t, c),
    ensures
        forall|k: int| 0 <= k < 7 ==> all_free_of(#[trigger] tile_parts(t, false, w, show_project)[k], c),
{
    let card = t.card;
    let parts = tile_parts(t, false, w, show_project);
    assert(all_free_of(parts[0], c)) by {
        lemma_head_free(card, w, c);
    }
    assert(all_free_of(parts[1], c)) by {
        lemma_plain_cell(card.project, w, c);
    }
    assert(all_free_of(parts[2], c)) by {
        lemma_title_free(card.title, w, c);
    }
    assert(all_free_of(parts[3], c)) by {
        let who = "@"@ + card.claimed_by;
        assert(free_of(who, c)) by {
            reveal_strlit("@");
            lemma_plain_join("@"@, card.claimed_by, c);
        }
        lemma_plain_cell(who, w, c);
    }
    assert(all_free_of(parts[4], c)) by {
        lemma_plain_cell(t.wait, w, c);
    }
    assert(all_free_of(parts[5], c)) by {
        lemma_commits_free(nonblank(lines(card.commits)), w, c);
    }
    assert(all_free_of(parts[6], c));
}

proof fn lemma_cell_painted(on: bool, s: Seq<char>, w: nat, hue: Rgb)
    requires
        unpainted(s),
    ensures
        shows(dimmed(on, cell(s, w)), dimmed(false, cell(s, w))),
        shows(colored(on, cell(s, w), hue), colored(false, cell(s, w), hue)),
{
    lemma_plain_cell(s, w, '\x1b');
    lemma_paint_shows(on, cell(s, w), hue);
}

proof fn lemma_title_shows(title: Seq<char>, w: nat)
    requires
        all_free_of(words(title), '\x1b'),
    ensures
        ({
            let ls = wrapped(title, less(w, 1), 2).map_values(|l: Seq<char>| padded(l, w));
            all_show(ls, ls)
        }),
{
    let ls = wrapped(title, less(w, 1), 2);
    lemma_plain_wrapped(title, less(w, 1), 2, '\x1b');
    let all = ls.map_values(|l: Seq<char>| padded(l, w));
    assert forall|k: int| 0 <= k < all.len() implies shows(#[trigger] all[k], all[k]) by {
        assert(free_of(ls[k], '\x1b'));
        lemma_plain_cell(ls[k], w, '\x1b');
        lemma_paint_shows(false, padded(ls[k], w), (0u8, 0u8, 0u8));
    }
}

proof fn lemma_commits_show(commits: Seq<Seq<char>>, on: bool, w: nat)
    requires
        all_free_of(commits, '\x1b'),
    ensures
        all_show(
            commits.map_values(|l: Seq<char>| commit_cell(l, on, w)),
            commits.map_values(|l: Seq<char>| commit_cell(l, false, w)),
        ),
{
    let a = commits.map_values(|l: Seq<char>| commit_cell(l, on, w));
    let b = commits.map_values(|l: Seq<char>| commit_cell(l, false, w));
    assert forall|k: int| 0 <= k < a.len() implies shows(#[trigger] a[k], b[k]) by {
        assert(free_of(commits[k], '\x1b'));
        lemma_commit_free(commits[k], '\x1b');
        lemma_plain_cell(commit_words(commits[k]), w, '\x1b');
        lemma_paint_shows(on, cell(commit_words(commits[k]), w), (0u8, 0u8, 0u8));
    }
}

proof fn lemma_parts_show(t: TileView, on: bool, w: nat, show_project: bool)
    requires
        tile_free_of(t, '\x1b'),
    ensures
        forall|k: int|
            0 <= k < 7 ==> all_show(
                #[trigger] tile_parts(t, on, w, show_project)[k],
                tile_parts(t, false, w, show_project)[k],
            ),
{
    let card = t.card;
    let a = tile_parts(t, on, w, show_project);
    let b = tile_parts(t, false, w, show_project);
    let hue = status_rgb(Status::InProgress);
    assert(all_show(a[0], b[0])) by {
        lemma_head_shows(card, on, w);
    }
    assert(all_show(a[1], b[1])) by {
        lemma_cell_painted(on, card.project, w, hue);
    }
    assert(all_show(a[2], b[2])) by {
        lemma_title_shows(card.title, w);
    }
    assert(all_show(a[3], b[3])) by {
        let who = "@"@ + card.claimed_by;
        assert(free_of(who, '\x1b')) by {
            reveal_strlit("@");
            lemma_plain_join("@"@, card.claimed_by, '\x1b');
        }
        lemma_cell_painted(on, who, w, hue);
    }
    assert(all_show(a[4], b[4])) by {
        lemma_cell_painted(on, t.wait, w, hue);
    }
    assert(all_show(a[5], b[5])) by {
        lemma_commits_show(nonblank(lines(card.commits)), on, w);
    }
    assert(all_show(a[6], b[6])) by {
        lemma_paint_shows(on, Seq::<char>::empty(), hue);
    }
}

proof fn lemma_tile_lines(t: TileView, on: bool, w: nat, show_project: bool)
    ensures
        ({
            let p = tile_parts(t, on, w, show_project);
            tile_lines(t, on, w, show_project) == p[0] + p[1] + p[2] + p[3] + p[4] + p[5] + p[6]
        }),
{
}

proof fn lemma_tile_shows(t: TileView, on: bool, w: nat, show_project: bool)
    requires
        tile_free_of(t, '\x1b'),
    ensures
        all_show(tile_lines(t, on, w, show_project), tile_lines(t, false, w, show_project)),
{
    let a = tile_parts(t, on, w, show_project);
    let b = tile_parts(t, false, w, show_project);
    lemma_parts_show(t, on, w, show_project);
    lemma_tile_lines(t, on, w, show_project);
    lemma_tile_lines(t, false, w, show_project);
    assert(all_show(a[0], b[0]) && all_show(a[1], b[1]) && all_show(a[2], b[2]) && all_show(a[3], b[3]));
    assert(all_show(a[4], b[4]) && all_show(a[5], b[5]) && all_show(a[6], b[6]));
    lemma_all_show_join(a[0], b[0], a[1], b[1]);
    lemma_all_show_join(a[0] + a[1], b[0] + b[1], a[2], b[2]);
    lemma_all_show_join(a[0] + a[1] + a[2], b[0] + b[1] + b[2], a[3], b[3]);
    lemma_all_show_join(a[0] + a[1] + a[2] + a[3], b[0] + b[1] + b[2] + b[3], a[4], b[4]);
    lemma_all_show_join(a[0] + a[1] + a[2] + a[3] + a[4], b[0] + b[1] + b[2] + b[3] + b[4], a[5], b[5]);
    lemma_all_show_join(
        a[0] + a[1] + a[2] + a[3] + a[4] + a[5],
        b[0] + b[1] + b[2] + b[3] + b[4] + b[5],
        a[6],
        b[6],
    );
}

proof fn lemma_tile_free(t: TileView, w: nat, show_project: bool, c: char)
    requires
        foreign(c),
        tile_free_of(t, c),
    ensures
        all_free_of(tile_lines(t, false, w, show_project), c),
{
    let b = tile_parts(t, false, w, show_project);
    lemma_parts_free(t, w, show_project, c);
    lemma_tile_lines(t, false, w, show_project);
    assert(all_free_of(b[0], c) && all_free_of(b[1], c) && all_free_of(b[2], c) && all_free_of(b[3], c));
    assert(all_free_of(b[4], c) && all_free_of(b[5], c) && all_free_of(b[6], c));
    lemma_all_free_join(b[0], b[1], c);
    lemma_all_free_join(b[0] + b[1], b[2], c);
    lemma_all_free_join(b[0] + b[1] + b[2], b[3], c);
    lemma_all_free_join(b[0] + b[1] + b[2] + b[3], b[4], c);
    lemma_all_free_join(b[0] + b[1] + b[2] + b[3] + b[4], b[5], c);
    lemma_all_free_join(b[0] + b[1] + b[2] + b[3] + b[4] + b[5], b[6], c);
}

proof fn lemma_tiles_show(ts: Seq<TileView>, on: bool, w: nat, show_project: bool)
    requires
        tiles_free_of(ts, '\x1b'),
    ensures
        all_show(tiles_lines(ts, on, w, show_project), tiles_lines(ts, false, w, show_project)),
    decreases ts.len(),
{
    if ts.len() > 0 {
        let front = ts.drop_last();
        assert forall|k: int| 0 <= k < front.len() implies tile_free_of(#[trigger] front[k], '\x1b') by {
            assert(front[k] == ts[k]);
        }
        lemma_tiles_show(front, on, w, show_project);
        assert(tile_free_of(ts[ts.len() - 1], '\x1b'));
        lemma_tile_shows(ts.last(), on, w, show_project);
        lemma_all_show_join(
            tiles_lines(front, on, w, show_project),
            tiles_lines(front, false, w, show_project),
            tile_lines(ts.last(), on, w, show_project),
            tile_lines(ts.last(), false, w, show_project),
        );
    }
}

proof fn lemma_tiles_free(ts: Seq<TileView>, w: nat, show_project: bool, c: char)
    requires
        foreign(c),
        tiles_free_of(ts, c),
    ensures
        all_free_of(tiles_lines(ts, false, w, show_project), c),
    decreases ts.len(),
{
    if ts.len() > 0 {
        let front = ts.drop_last();
        assert forall|k: int| 0 <= k < front.len() implies tile_free_of(#[trigger] front[k], c) by {
            assert(front[k] == ts[k]);
        }
        lemma_tiles_free(front, w, show_project, c);
        assert(tile_free_of(ts[ts.len() - 1], c));
        lemma_tile_free(ts.last(), w, show_project, c);
        lemma_all_free_join(
            tiles_lines(front, false, w, show_project),
            tile_lines(ts.last(), false, w, show_project),
            c,
        );
    }
}

// ------------------------------------------------------------- columns

proof fn lemma_in_status_free(ts: Seq<TileView>, status: Status, c: char)
    requires
        tiles_free_of(ts, c),
    ensures
        tiles_free_of(in_status(ts, status), c),
        in_status(ts, status).len() <= ts.len(),
    decreases ts.len(),
{
    if ts.len() > 0 {
        let front = ts.drop_last();
        assert forall|k: int| 0 <= k < front.len() implies tile_free_of(#[trigger] front[k], c) by {
            assert(front[k] == ts[k]);
        }
        lemma_in_status_free(front, status, c);
        assert(tile_free_of(ts[ts.len() - 1], c));
    }
}

proof fn lemma_shown_free(ts: Seq<TileView>, status: Status, done: nat, c: char)
    requires
        tiles_free_of(ts, c),
        ts.len() <= usize::MAX,
    ensures
        tiles_free_of(shown(ts, status, done), c),
{
    let all = in_status(ts, status);
    lemma_in_status_free(ts, status, c);
    if status == Status::Done {
        let keys = done_keys(all);
        let order = sorted_order(keys, Texts::Descending);
        lemma_order_exists(keys, Texts::Descending);
        let last = latest(all, done);
        assert forall|k: int| 0 <= k < last.len() implies tile_free_of(#[trigger] last[k], c) by {
            assert(order[k] < all.len());
            assert(last[k] == all[order[k] as int]);
        }
    }
}

proof fn lemma_column_name_free(status: Status, c: char)
    requires
        foreign(c),
    ensures
        free_of(column_name(status), c),
{
    reveal_strlit("NEW");
    reveal_strlit("READY");
    reveal_strlit("IN PROGRESS");
    reveal_strlit("DONE");
}

/// The lines of a column around its cards.
proof fn lemma_frame_free(status: Status, w: nat, total: nat, hidden: nat, c: char)
    requires
        foreign(c),
    ensures
        free_of(padded(column_name(status), less(w, 4)), c),
        free_of(align_right(dec(total as int), 4), c),
        free_of(repeat("─"@, w), c),
        free_of(padded("—"@, w), c),
        free_of(dec(hidden as int) + " older hidden"@, c),
{
    reveal_strlit("─");
    reveal_strlit("—");
    reveal_strlit(" older hidden");
    lemma_column_name_free(status, c);
    lemma_plain_cell(column_name(status), less(w, 4), c);
    lemma_plain_number(total as int, c);
    lemma_free_right(dec(total as int), 4, c);
    lemma_plain_repeat("─"@, w, c);
    lemma_plain_cell("—"@, w, c);
    lemma_plain_number(hidden as int, c);
    lemma_plain_join(dec(hidden as int), " older hidden"@, c);
}

proof fn lemma_column_shows(ts: Seq<TileView>, status: Status, on: bool, w: nat, done: nat, show_project: bool)
    requires
        tiles_free_of(ts, '\x1b'),
        ts.len() <= usize::MAX,
    ensures
        all_show(
            column_lines(ts, status, on, w, done, show_project),
            column_lines(ts, status, false, w, done, show_project),
        ),
{
    let total = in_status(ts, status).len();
    let items = shown(ts, status, done);
    let hidden = less(total, items.len());
    let hue = status_rgb(status);
    lemma_shown_free(ts, status, done, '\x1b');
    lemma_tiles_show(items, on, w, show_project);
    lemma_frame_free(status, w, total, hidden, '\x1b');
    let name = padded(column_name(status), less(w, 4));
    let count = align_right(dec(total as int), 4);
    let rule = repeat("─"@, w);
    let nothing = padded("—"@, w);
    let older = dec(hidden as int) + " older hidden"@;
    lemma_paint_shows(on, name, hue);
    lemma_paint_shows(on, count, hue);
    lemma_paint_shows(on, rule, hue);
    lemma_paint_shows(on, nothing, hue);
    lemma_paint_shows(on, older, hue);
    lemma_shows_join(colored(on, name, hue), name, dimmed(on, count), count);
    let a = seq![colored(on, name, hue) + dimmed(on, count), colored(on, rule, hue)];
    let b = seq![name + count, rule];
    assert(all_show(a, b));
    let (c, d) = (one_if(items.len() == 0, dimmed(on, nothing)), one_if(items.len() == 0, nothing));
    assert(all_show(c, d));
    let (e, f) = (tiles_lines(items, on, w, show_project), tiles_lines(items, false, w, show_project));
    let (g, h) = (one_if(hidden > 0, dimmed(on, older)), one_if(hidden > 0, older));
    assert(all_show(g, h));
    lemma_all_show_join(a, b, c, d);
    lemma_all_show_join(a + c, b + d, e, f);
    lemma_all_show_join(a + c + e, b + d + f, g, h);
}

proof fn lemma_column_free(ts: Seq<TileView>, status: Status, w: nat, done: nat, show_project: bool, c: char)
    requires
        foreign(c),
        tiles_free_of(ts, c),
        ts.len() <= usize::MAX,
    ensures
        all_free_of(column_lines(ts, status, false, w, done, show_project), c),
{
    let total = in_status(ts, status).len();
    let items = shown(ts, status, done);
    let hidden = less(total, items.len());
    lemma_shown_free(ts, status, done, c);
    lemma_tiles_free(items, w, show_project, c);
    lemma_frame_free(status, w, total, hidden, c);
    let name = padded(column_name(status), less(w, 4));
    let count = align_right(dec(total as int), 4);
    lemma_plain_join(name, count, c);
    let a = seq![name + count, repeat("─"@, w)];
    assert(all_free_of(a, c));
    let b = one_if(items.len() == 0, padded("—"@, w));
    assert(all_free_of(b, c));
    let d = tiles_lines(items, false, w, show_project);
    let e = one_if(hidden > 0, dec(hidden as int) + " older hidden"@);
    assert(all_free_of(e, c));
    lemma_all_free_join(a, b, c);
    lemma_all_free_join(a + b, d, c);
    lemma_all_free_join(a + b + d, e, c);
}

// ------------------------------------------------------------- rows

/// The columns of the board.
pub struct Columns {
    pub a: Seq<Seq<char>>,
    pub b: Seq<Seq<char>>,
    pub c: Seq<Seq<char>>,
    pub d: Seq<Seq<char>>,
}

/// The columns of the board, in a color or plain.
pub open spec fn columns(ts: Seq<TileView>, on: bool, w: nat, done: nat, show_project: bool) -> Columns {
    Columns {
        a: column_lines(ts, Status::New, on, w, done, show_project),
        b: column_lines(ts, Status::Ready, on, w, done, show_project),
        c: column_lines(ts, Status::InProgress, on, w, done, show_project),
        d: column_lines(ts, Status::Done, on, w, done, show_project),
    }
}

/// One row before the white space at its end is gone.
#[verifier::opaque]
pub open spec fn full_row(v: Columns, w: nat, row: int) -> Seq<char> {
    spaced(cell_at(v.a, row), w) + spaced(cell_at(v.b, row), w) + spaced(cell_at(v.c, row), w) + cell_at(v.d, row)
}

proof fn lemma_cell_shows(painted: Seq<Seq<char>>, plain: Seq<Seq<char>>, w: nat, row: int)
    requires
        all_show(painted, plain),
        row >= 0,
    ensures
        shows(cell_at(painted, row), cell_at(plain, row)),
        shows(spaced(cell_at(painted, row), w), spaced(cell_at(plain, row), w)),
{
    let (x, y) = (cell_at(painted, row), cell_at(plain, row));
    let none = (Seq::<char>::empty(), false);
    reveal(shows);
    if row < painted.len() {
        assert(shows(painted[row], plain[row]));
    } else {
        lemma_paint_shows(false, Seq::<char>::empty(), (0u8, 0u8, 0u8));
    }
    lemma_paint_shows(false, y, (0u8, 0u8, 0u8));
    lemma_seen_is_visible(none, x);
    lemma_seen_is_visible(none, y);
    assert(visible(x) == visible(y));
    let gap = less(w, visible(x)) + 2;
    lemma_plain_blanks(gap, '\x1b');
    lemma_paint_shows(false, repeat(" "@, gap), (0u8, 0u8, 0u8));
    lemma_shows_join(x, y, repeat(" "@, gap), repeat(" "@, gap));
}

proof fn lemma_row_shows(p: Columns, q: Columns, w: nat, row: int)
    requires
        all_show(p.a, q.a),
        all_show(p.b, q.b),
        all_show(p.c, q.c),
        all_show(p.d, q.d),
        row >= 0,
    ensures
        shows(full_row(p, w, row), full_row(q, w, row)),
{
    reveal(full_row);
    lemma_cell_shows(p.a, q.a, w, row);
    lemma_cell_shows(p.b, q.b, w, row);
    lemma_cell_shows(p.c, q.c, w, row);
    lemma_cell_shows(p.d, q.d, w, row);
    let (x, y) = (spaced(cell_at(p.a, row), w), spaced(cell_at(q.a, row), w));
    let (x2, y2) = (spaced(cell_at(p.b, row), w), spaced(cell_at(q.b, row), w));
    let (x3, y3) = (spaced(cell_at(p.c, row), w), spaced(cell_at(q.c, row), w));
    lemma_shows_join(x, y, x2, y2);
    lemma_shows_join(x + x2, y + y2, x3, y3);
    lemma_shows_join(x + x2 + x3, y + y2 + y3, cell_at(p.d, row), cell_at(q.d, row));
}

proof fn lemma_row_free(q: Columns, w: nat, row: int, c: char)
    requires
        foreign(c),
        all_free_of(q.a, c),
        all_free_of(q.b, c),
        all_free_of(q.c, c),
        all_free_of(q.d, c),
        row >= 0,
    ensures
        free_of(full_row(q, w, row), c),
{
    reveal(full_row);
    let (x, y, z) = (cell_at(q.a, row), cell_at(q.b, row), cell_at(q.c, row));
    lemma_plain_blanks(less(w, visible(x)) + 2, c);
    lemma_plain_blanks(less(w, visible(y)) + 2, c);
    lemma_plain_blanks(less(w, visible(z)) + 2, c);
    lemma_plain_join(x, repeat(" "@, less(w, visible(x)) + 2), c);
    lemma_plain_join(y, repeat(" "@, less(w, visible(y)) + 2), c);
    lemma_plain_join(z, repeat(" "@, less(w, visible(z)) + 2), c);
    lemma_plain_join(spaced(x, w), spaced(y, w), c);
    lemma_plain_join(spaced(x, w) + spaced(y, w), spaced(z, w), c);
    lemma_plain_join(spaced(x, w) + spaced(y, w) + spaced(z, w), cell_at(q.d, row), c);
}

/// White space at the end of a painted text is white space at the end of
/// what it shows.
proof fn lemma_trim_shows(x: Seq<char>, y: Seq<char>)
    requires
        shows(x, y),
    ensures
        closed_paint(trim_end(x)),
        seen(trim_end(x)).len() <= y.len(),
        seen(trim_end(x)) == y.take(seen(trim_end(x)).len() as int),
        trim_end(seen(trim_end(x))) == trim_end(y),
        shows(trim_end(x), seen(trim_end(x))),
    decreases x.len(),
{
    reveal(shows);
    let none = (Seq::<char>::empty(), false);
    if x.len() > 0 && is_space(x.last()) {
        let front = x.drop_last();
        lemma_seen_is_visible(none, x);
        lemma_seen_is_visible(none, front);
        let (t, inside) = read_on(none, front);
        assert(!inside);
        assert(y == t.push(x.last()));
        assert(y.drop_last() =~= t);
        assert forall|i: int| 0 <= i < t.len() implies #[trigger] t[i] != '\x1b' by {
            assert(y[i] == t[i]);
        }
        lemma_trim_shows(front, t);
        let n = seen(trim_end(x)).len() as int;
        assert(t.take(n) =~= y.take(n));
    } else {
        assert(y.take(y.len() as int) =~= y);
    }
}

/// One more line at the end of joined ones.
proof fn lemma_line_more(v: Seq<Seq<char>>, x: Seq<char>)
    ensures
        join(v.push(x).push(Seq::empty()), "\n"@) == join(v.push(Seq::empty()), "\n"@) + x + "\n"@,
{
    let none = Seq::<char>::empty();
    let nl = "\n"@;
    let a = v.push(none);
    let m = v.push(x);
    let b = m.push(none);
    assert(a.drop_last() =~= v);
    assert(b.drop_last() =~= m);
    assert(m.drop_last() =~= v);
    assert(join(b, nl) == join(m, nl) + nl + none);
    if v.len() == 0 {
        assert(join(a, nl) == none);
        assert(join(m, nl) == x);
        assert(none + x + nl =~= x + nl + none);
    } else {
        assert(join(a, nl) == join(v, nl) + nl + none);
        assert(join(m, nl) == join(v, nl) + nl + x);
        assert(join(v, nl) + nl + x + nl + none =~= join(v, nl) + nl + none + x + nl);
    }
}

/// The rows of the plain board are its lines.
proof fn lemma_plain_rows(v: Columns, w: nat, n: nat)
    ensures
        rows_text(v.a, v.b, v.c, v.d, w, n) == join(
            Seq::new(n, |k: int| trim_end(full_row(v, w, k))).push(Seq::empty()),
            "\n"@,
        ),
    decreases n,
{
    let none = Seq::<char>::empty();
    let now = Seq::new(n, |k: int| trim_end(full_row(v, w, k)));
    if n == 0 {
        assert(now.push(none) =~= seq![none]);
    } else {
        let m = (n - 1) as nat;
        lemma_plain_rows(v, w, m);
        let before = Seq::new(m, |k: int| trim_end(full_row(v, w, k)));
        assert(now =~= before.push(trim_end(full_row(v, w, m as int))));
        lemma_line_more(before, trim_end(full_row(v, w, m as int)));
        let t = trim_end(full_row(v, w, m as int));
        assert(row_text(v.a, v.b, v.c, v.d, w, m as int) == t + "\n"@) by {
            reveal(full_row);
        }
        let r = join(before.push(none), "\n"@);
        assert(r + (t + "\n"@) =~= r + t + "\n"@);
    }
}

/// A line feed behind a text is seen.
proof fn lemma_line_shows(x: Seq<char>, y: Seq<char>)
    requires
        shows(x, y),
    ensures
        shows(x + "\n"@, y + "\n"@),
{
    reveal_strlit("\n");
    lemma_paint_shows(false, "\n"@, (0u8, 0u8, 0u8));
    lemma_shows_join(x, y, "\n"@, "\n"@);
}

/// What is seen of the rows of the painted board are its lines.
proof fn lemma_seen_rows(p: Columns, q: Columns, w: nat, n: nat)
    requires
        all_show(p.a, q.a),
        all_show(p.b, q.b),
        all_show(p.c, q.c),
        all_show(p.d, q.d),
    ensures
        shows(rows_text(p.a, p.b, p.c, p.d, w, n), seen(rows_text(p.a, p.b, p.c, p.d, w, n))),
        seen(rows_text(p.a, p.b, p.c, p.d, w, n)) == join(
            Seq::new(n, |k: int| seen(trim_end(full_row(p, w, k)))).push(Seq::empty()),
            "\n"@,
        ),
    decreases n,
{
    let none = Seq::<char>::empty();
    let now = Seq::new(n, |k: int| seen(trim_end(full_row(p, w, k))));
    if n == 0 {
        lemma_paint_shows(false, none, (0u8, 0u8, 0u8));
        assert(now.push(none) =~= seq![none]);
    } else {
        let m = (n - 1) as nat;
        lemma_seen_rows(p, q, w, m);
        let before = Seq::new(m, |k: int| seen(trim_end(full_row(p, w, k))));
        let t = trim_end(full_row(p, w, m as int));
        lemma_row_shows(p, q, w, m as int);
        lemma_trim_shows(full_row(p, w, m as int), full_row(q, w, m as int));
        lemma_line_shows(t, seen(t));
        let r = rows_text(p.a, p.b, p.c, p.d, w, m);
        lemma_shows_join(r, seen(r), t + "\n"@, seen(t) + "\n"@);
        assert(rows_text(p.a, p.b, p.c, p.d, w, n) == r + (t + "\n"@)) by {
            reveal(full_row);
        }
        assert(seen(r + (t + "\n"@)) == seen(r) + (seen(t) + "\n"@)) by {
            reveal(shows);
        }
        assert(now =~= before.push(seen(t)));
        lemma_line_more(before, seen(t));
        assert(seen(r) + (seen(t) + "\n"@) =~= seen(r) + seen(t) + "\n"@);
    }
}

// ------------------------------------------------------------- the top

proof fn lemma_joined_free(v: Seq<Seq<char>>, sep: Seq<char>, c: char)
    requires
        all_free_of(v, c),
        free_of(sep, c),
    ensures
        free_of(join(v, sep), c),
    decreases v.len(),
{
    if v.len() == 1 {
        assert(free_of(v[0], c));
    } else if v.len() > 1 {
        let front = v.drop_last();
        assert forall|k: int| 0 <= k < front.len() implies free_of(#[trigger] front[k], c) by {
            assert(front[k] == v[k]);
        }
        lemma_joined_free(front, sep, c);
        assert(free_of(v[v.len() - 1], c));
        lemma_plain_join(join(front, sep), sep, c);
        lemma_plain_join(join(front, sep) + sep, v.last(), c);
    }
}

proof fn lemma_holders_free(ts: Seq<TileView>)
    requires
        plain_tiles(ts),
    ensures
        all_free_of(holders(ts), '\x1b'),
    decreases ts.len(),
{
    if ts.len() > 0 {
        let front = ts.drop_last();
        assert forall|k: int| 0 <= k < front.len() implies plain_tile(#[trigger] front[k]) by {
            assert(front[k] == ts[k]);
        }
        lemma_holders_free(front);
        assert(plain_tile(ts[ts.len() - 1]));
    }
}

proof fn lemma_agents_free(ts: Seq<TileView>)
    requires
        plain_tiles(ts),
    ensures
        all_free_of(agents(ts), '\x1b'),
{
    let v = holders(ts);
    lemma_holders_free(ts);
    law_names_told_once(v);
    assert forall|k: int| 0 <= k < agents(ts).len() implies free_of(#[trigger] agents(ts)[k], '\x1b') by {
        assert(names_once(v).contains(agents(ts)[k]));
        let j = choose|j: int| 0 <= j < v.len() && v[j] == agents(ts)[k];
        assert(free_of(v[j], '\x1b'));
    }
}

proof fn lemma_stats_free(ts: Seq<TileView>, label: Option<Seq<char>>)
    requires
        plain_tiles(ts),
        label is Some ==> unpainted(label->0),
    ensures
        unpainted(stats_text(ts, label)),
{
    let e = '\x1b';
    let open = still_open(ts);
    let held = if agents(ts).len() == 0 { Seq::empty() } else { " ("@ + join(agents(ts), ", "@) + ")"@ };
    let filter = match label {
        Some(l) => "  ·  label="@ + l,
        None => Seq::empty(),
    };
    assert(free_of(held, e)) by {
        reveal_strlit(" (");
        reveal_strlit(", ");
        reveal_strlit(")");
        lemma_agents_free(ts);
        lemma_joined_free(agents(ts), ", "@, e);
        lemma_plain_join(" ("@, join(agents(ts), ", "@), e);
        lemma_plain_join(" ("@ + join(agents(ts), ", "@), ")"@, e);
    }
    assert(free_of(filter, e)) by {
        reveal_strlit("  ·  label=");
        match label {
            Some(l) => {
                lemma_plain_join("  ·  label="@, l, e);
            },
            None => {},
        }
    }
    let a = dec(open.len() as int);
    let b = dec(in_status(ts, Status::InProgress).len() as int);
    let c = dec(average(open));
    let d = dec(in_status(ts, Status::Done).len() as int);
    lemma_plain_number(open.len() as int, e);
    lemma_plain_number(in_status(ts, Status::InProgress).len() as int, e);
    lemma_plain_number(average(open), e);
    lemma_plain_number(in_status(ts, Status::Done).len() as int, e);
    let (s1, s2, s3, s4, s5) = (" open  ·  "@, " in progress"@, "  ·  avg priority "@, "  ·  "@, " done"@);
    reveal_strlit(" open  ·  ");
    reveal_strlit(" in progress");
    reveal_strlit("  ·  avg priority ");
    reveal_strlit("  ·  ");
    reveal_strlit(" done");
    lemma_plain_join(a, s1, e);
    lemma_plain_join(a + s1, b, e);
    lemma_plain_join(a + s1 + b, s2, e);
    lemma_plain_join(a + s1 + b + s2, held, e);
    lemma_plain_join(a + s1 + b + s2 + held, s3, e);
    lemma_plain_join(a + s1 + b + s2 + held + s3, c, e);
    lemma_plain_join(a + s1 + b + s2 + held + s3 + c, s4, e);
    lemma_plain_join(a + s1 + b + s2 + held + s3 + c + s4, d, e);
    lemma_plain_join(a + s1 + b + s2 + held + s3 + c + s4 + d, s5, e);
    lemma_plain_join(a + s1 + b + s2 + held + s3 + c + s4 + d + s5, filter, e);
}

proof fn lemma_header_shows(title: Seq<char>, ts: Seq<TileView>, on: bool, w: nat, label: Option<Seq<char>>)
    requires
        unpainted(title),
        plain_tiles(ts),
        label is Some ==> unpainted(label->0),
    ensures
        shows(header_text(title, ts, on, w, label), header_text(title, ts, false, w, label)),
{
    let hue = (0u8, 0u8, 0u8);
    let name = "bl/board"@;
    let gap = "  "@;
    let place = truncated(title, less(w, 12));
    let stats = stats_text(ts, label);
    let rule = repeat("─"@, w);
    let a = bolded(on, name);
    assert(shows(a, name)) by {
        reveal_strlit("bl/board");
        lemma_paint_shows(on, name, hue);
    }
    assert(shows(gap, gap)) by {
        reveal_strlit("  ");
        lemma_paint_shows(on, gap, hue);
    }
    assert(shows(dimmed(on, place), place)) by {
        lemma_plain_cut(title, less(w, 12), '\x1b');
        lemma_paint_shows(on, place, hue);
    }
    assert(shows(stats, stats)) by {
        lemma_stats_free(ts, label);
        lemma_paint_shows(on, stats, hue);
    }
    assert(shows(dimmed(on, rule), rule)) by {
        reveal_strlit("─");
        lemma_plain_repeat("─"@, w, '\x1b');
        lemma_paint_shows(on, rule, hue);
    }
    let nl = "\n"@;
    lemma_shows_join(a, name, gap, gap);
    lemma_shows_join(a + gap, name + gap, dimmed(on, place), place);
    let (x, y) = (a + gap + dimmed(on, place), name + gap + place);
    lemma_line_shows(x, y);
    lemma_shows_join(x + nl, y + nl, stats, stats);
    lemma_line_shows(x + nl + stats, y + nl + stats);
    let (u, v) = (x + nl + stats + nl, y + nl + stats + nl);
    lemma_shows_join(u, v, dimmed(on, rule), rule);
    lemma_line_shows(u + dimmed(on, rule), v + rule);
}

proof fn lemma_bar_shows(row: (Seq<char>, nat), on: bool, width: nat, max: nat)
    requires
        unpainted(row.0),
    ensures
        shows(bar_text(row, on, width, max), bar_text(row, false, width, max)),
{
    let hue = (36u8, 140u8, 124u8);
    let filled = share(row.1, width, max);
    let name = padded(truncated(row.0, 12), 12);
    let bar = repeat("█"@, filled);
    let rest = repeat("·"@, less(width, filled));
    let n = dec(row.1 as int);
    let (two, one) = ("  "@, " "@);
    assert(shows(two, two) && shows(one, one)) by {
        reveal_strlit("  ");
        reveal_strlit(" ");
        lemma_paint_shows(on, two, hue);
        lemma_paint_shows(on, one, hue);
    }
    assert(shows(name, name)) by {
        lemma_plain_cell(row.0, 12, '\x1b');
        lemma_paint_shows(on, name, hue);
    }
    assert(shows(colored(on, bar, hue), bar)) by {
        reveal_strlit("█");
        lemma_plain_repeat("█"@, filled, '\x1b');
        lemma_paint_shows(on, bar, hue);
    }
    assert(shows(dimmed(on, rest), rest)) by {
        reveal_strlit("·");
        lemma_plain_repeat("·"@, less(width, filled), '\x1b');
        lemma_paint_shows(on, rest, hue);
    }
    assert(shows(n, n)) by {
        lemma_plain_number(row.1 as int, '\x1b');
        lemma_paint_shows(on, n, hue);
    }
    lemma_shows_join(two, two, name, name);
    lemma_shows_join(two + name, two + name, one, one);
    let (x, y) = (two + name + one + colored(on, bar, hue), two + name + one + bar);
    lemma_shows_join(two + name + one, two + name + one, colored(on, bar, hue), bar);
    lemma_shows_join(x, y, dimmed(on, rest), rest);
    lemma_shows_join(x + dimmed(on, rest), y + rest, one, one);
    lemma_shows_join(x + dimmed(on, rest) + one, y + rest + one, n, n);
    lemma_line_shows(x + dimmed(on, rest) + one + n, y + rest + one + n);
}

proof fn lemma_bars_show(rows: Seq<(Seq<char>, nat)>, on: bool, width: nat, max: nat)
    requires
        forall|k: int| 0 <= k < rows.len() ==> unpainted((#[trigger] rows[k]).0),
    ensures
        shows(bars_text(rows, on, width, max), bars_text(rows, false, width, max)),
    decreases rows.len(),
{
    if rows.len() == 0 {
        lemma_paint_shows(on, Seq::<char>::empty(), (0u8, 0u8, 0u8));
    } else {
        let front = rows.drop_last();
        assert forall|k: int| 0 <= k < front.len() implies unpainted((#[trigger] front[k]).0) by {
            assert(front[k] == rows[k]);
        }
        lemma_bars_show(front, on, width, max);
        assert(unpainted(rows[rows.len() - 1].0));
        lemma_bar_shows(rows.last(), on, width, max);
        lemma_shows_join(
            bars_text(front, on, width, max),
            bars_text(front, false, width, max),
            bar_text(rows.last(), on, width, max),
            bar_text(rows.last(), false, width, max),
        );
    }
}

proof fn lemma_spark_shows(ts: Seq<TileView>, k: nat, max: nat, on: bool)
    ensures
        shows(spark(ts, k, max, on), spark(ts, k, max, false)),
    decreases k,
{
    if k == 0 {
        lemma_paint_shows(on, Seq::<char>::empty(), (0u8, 0u8, 0u8));
    } else {
        let m = (k - 1) as nat;
        let n = in_bucket(ts, k - 1);
        lemma_spark_shows(ts, m, max, on);
        assert(shows(spark_mark(n, m, max, on), spark_mark(n, m, max, false))) by {
            let hue = heat_rgb(m as int * 500 + 250);
            reveal_strlit("·");
            lemma_paint_shows(on, "·"@, hue);
            let b = block(share(n, 7, max));
            assert(unpainted(b)) by {
                reveal_strlit("▁");
                reveal_strlit("▂");
                reveal_strlit("▃");
                reveal_strlit("▄");
                reveal_strlit("▅");
                reveal_strlit("▆");
                reveal_strlit("▇");
                reveal_strlit("█");
            }
            lemma_paint_shows(on, b, hue);
        }
        lemma_shows_join(
            spark(ts, m, max, on),
            spark(ts, m, max, false),
            spark_mark(n, m, max, on),
            spark_mark(n, m, max, false),
        );
    }
}

proof fn lemma_open_plain(ts: Seq<TileView>)
    requires
        plain_tiles(ts),
    ensures
        plain_tiles(still_open(ts)),
        still_open(ts).len() <= ts.len(),
    decreases ts.len(),
{
    if ts.len() > 0 {
        let front = ts.drop_last();
        assert forall|k: int| 0 <= k < front.len() implies plain_tile(#[trigger] front[k]) by {
            assert(front[k] == ts[k]);
        }
        lemma_open_plain(front);
        assert(plain_tile(ts[ts.len() - 1]));
    }
}

proof fn lemma_labels_plain(ts: Seq<TileView>)
    requires
        plain_tiles(ts),
        ts.len() <= usize::MAX,
    ensures
        forall|k: int| 0 <= k < top_labels(ts).len() ==> unpainted((#[trigger] top_labels(ts)[k]).0),
{
    let v = label_names(ts);
    let names = names_once(v);
    let keys = tally_keys(v);
    let order = sorted_order(keys, Texts::Ascending);
    let rows = top_labels(ts);
    law_names_told_once(v);
    lemma_names_len(v);
    lemma_order_exists(keys, Texts::Ascending);
    assert forall|k: int| 0 <= k < rows.len() implies unpainted((#[trigger] rows[k]).0) by {
        assert(order[k] < names.len());
        assert(rows[k].0 == names[order[k] as int]);
        assert(names.contains(rows[k].0));
        let j = choose|j: int| 0 <= j < v.len() && v[j] == rows[k].0;
        assert(plain_tile(ts[j]));
        reveal_strlit("(none)");
    }
}

proof fn lemma_panels_show(ts: Seq<TileView>, on: bool, w: nat)
    requires
        plain_tiles(ts),
        ts.len() <= usize::MAX,
    ensures
        shows(panels_text(ts, on, w), panels_text(ts, false, w)),
{
    let hue = (0u8, 0u8, 0u8);
    let nl = "\n"@;
    let open = still_open(ts);
    let rows = top_labels(open);
    lemma_open_plain(ts);
    lemma_labels_plain(open);
    let (by_label, by_rank) = ("OPEN BY LABEL"@, "OPEN PRIORITY  "@);
    let scale = "               0            5000          10000\n"@;
    let none = "  nothing open\n"@;
    assert(shows(dimmed(on, by_label), by_label)) by {
        reveal_strlit("OPEN BY LABEL");
        lemma_paint_shows(on, by_label, hue);
    }
    assert(shows(dimmed(on, by_rank), by_rank)) by {
        reveal_strlit("OPEN PRIORITY  ");
        lemma_paint_shows(on, by_rank, hue);
    }
    assert(shows(dimmed(on, scale), scale)) by {
        reveal_strlit("               0            5000          10000\n");
        lemma_paint_shows(on, scale, hue);
    }
    let (p, q) = if rows.len() == 0 {
        (dimmed(on, none), none)
    } else {
        (Seq::<char>::empty(), Seq::<char>::empty())
    };
    assert(shows(p, q)) by {
        reveal_strlit("  nothing open\n");
        lemma_paint_shows(on, none, hue);
        lemma_paint_shows(on, Seq::<char>::empty(), hue);
    }
    let max = most_cards(rows);
    let (bars, plain_bars) = (bars_text(rows, on, bar_width(w), max), bars_text(rows, false, bar_width(w), max));
    lemma_bars_show(rows, on, bar_width(w), max);
    let top = tallest(open, 20);
    let (marks, plain_marks) = (spark(open, 20, top, on), spark(open, 20, top, false));
    lemma_spark_shows(open, 20, top, on);
    let (a, b) = (dimmed(on, by_label) + nl, by_label + nl);
    lemma_line_shows(dimmed(on, by_label), by_label);
    lemma_shows_join(a, b, p, q);
    lemma_shows_join(a + p, b + q, bars, plain_bars);
    let (c, d) = (a + p + bars + nl, b + q + plain_bars + nl);
    lemma_line_shows(a + p + bars, b + q + plain_bars);
    lemma_shows_join(c, d, dimmed(on, by_rank), by_rank);
    lemma_shows_join(c + dimmed(on, by_rank), d + by_rank, marks, plain_marks);
    let (e, f) = (c + dimmed(on, by_rank) + marks + nl, d + by_rank + plain_marks + nl);
    lemma_line_shows(c + dimmed(on, by_rank) + marks, d + by_rank + plain_marks);
    lemma_shows_join(e, f, dimmed(on, scale), scale);
}

// ------------------------------------------------------------- laws

/// Law: without its escape sequences the painted top of the board, its
/// summary and its panels, is the plain one.
pub proof fn law_color_keeps_the_top(title: Seq<char>, ts: Seq<TileView>, on: bool, w: nat, label: Option<Seq<char>>)
    requires
        unpainted(title),
        plain_tiles(ts),
        ts.len() <= usize::MAX,
        label is Some ==> unpainted(label->0),
    ensures
        seen(header_text(title, ts, on, w, label)) == header_text(title, ts, false, w, label),
        seen(panels_text(ts, on, w)) == panels_text(ts, false, w),
        closed_paint(header_text(title, ts, on, w, label)),
        closed_paint(panels_text(ts, on, w)),
{
    lemma_header_shows(title, ts, on, w, label);
    lemma_panels_show(ts, on, w);
    reveal(shows);
}

proof fn lemma_plain_tiles_free(ts: Seq<TileView>)
    requires
        plain_tiles(ts),
    ensures
        tiles_free_of(ts, '\x1b'),
{
    assert forall|k: int| 0 <= k < ts.len() implies tile_free_of(#[trigger] ts[k], '\x1b') by {
        let t = ts[k];
        assert(plain_tile(t));
        lemma_plain_words(t.card.title, '\x1b');
        lemma_plain_lines(t.card.commits, '\x1b');
        lemma_plain_kept(lines(t.card.commits), '\x1b');
    }
}

/// A title and commits are laid out without the line feeds in them.
proof fn lemma_one_line_tiles_free(ts: Seq<TileView>)
    requires
        forall|k: int| 0 <= k < ts.len() ==> one_line_tile(#[trigger] ts[k]),
    ensures
        tiles_free_of(ts, '\n'),
{
    assert forall|k: int| 0 <= k < ts.len() implies tile_free_of(#[trigger] ts[k], '\n') by {
        let t = ts[k];
        assert(one_line_tile(t));
        let ps = split(t.card.title, Sep::Space);
        lemma_pieces_uncut(t.card.title, Sep::Space);
        assert forall|i: int| 0 <= i < ps.len() implies free_of(#[trigger] ps[i], '\n') by {
            assert forall|j: int| 0 <= j < ps[i].len() implies #[trigger] ps[i][j] != '\n' by {
                assert(!crate::text::cuts(Sep::Space, ps[i][j]));
            }
        }
        lemma_plain_kept(ps, '\n');
        let ls = lines(t.card.commits);
        let cs = split(t.card.commits, Sep::Char('\n'));
        lemma_pieces_uncut(t.card.commits, Sep::Char('\n'));
        assert forall|i: int| 0 <= i < ls.len() implies free_of(#[trigger] ls[i], '\n') by {
            assert(ls[i] == cs[i] || ls[i] == strip_cr(cs[i]));
            assert forall|j: int| 0 <= j < ls[i].len() implies #[trigger] ls[i][j] != '\n' by {
                assert(ls[i][j] == cs[i][j]);
                assert(!crate::text::cuts(Sep::Char('\n'), cs[i][j]));
            }
        }
        lemma_plain_kept(ls, '\n');
    }
}

/// Law: color shifts nothing. Where no text on the cards holds an escape
/// character, each row of the painted board is, without its escape sequences
/// and the white space at its end, that row of the plain board.
pub proof fn law_color_keeps_every_row(ts: Seq<TileView>, on: bool, w: nat, done: nat, show_project: bool, row: int)
    requires
        plain_tiles(ts),
        ts.len() <= usize::MAX,
        row >= 0,
    ensures
        ({
            let p = columns(ts, on, w, done, show_project);
            let q = columns(ts, false, w, done, show_project);
            &&& p.a.len() == q.a.len() && p.b.len() == q.b.len() && p.c.len() == q.c.len() && p.d.len() == q.d.len()
            &&& row_text(q.a, q.b, q.c, q.d, w, row) == trim_end(seen(row_text(p.a, p.b, p.c, p.d, w, row))) + "\n"@
        }),
{
    let p = columns(ts, on, w, done, show_project);
    let q = columns(ts, false, w, done, show_project);
    lemma_columns_show(ts, on, w, done, show_project);
    lemma_row_shows(p, q, w, row);
    let (x, y) = (full_row(p, w, row), full_row(q, w, row));
    lemma_trim_shows(x, y);
    let t = trim_end(x);
    lemma_line_shows(t, seen(t));
    assert(seen(t + "\n"@) == seen(t) + "\n"@) by {
        reveal(shows);
    }
    assert(row_text(p.a, p.b, p.c, p.d, w, row) == t + "\n"@) by {
        reveal(full_row);
    }
    assert(row_text(q.a, q.b, q.c, q.d, w, row) == trim_end(y) + "\n"@) by {
        reveal(full_row);
    }
    assert(trim_end(seen(t) + "\n"@) == trim_end(seen(t))) by {
        reveal_strlit("\n");
        assert((seen(t) + "\n"@).drop_last() =~= seen(t));
    }
}

proof fn lemma_columns_show(ts: Seq<TileView>, on: bool, w: nat, done: nat, show_project: bool)
    requires
        plain_tiles(ts),
        ts.len() <= usize::MAX,
    ensures
        ({
            let p = columns(ts, on, w, done, show_project);
            let q = columns(ts, false, w, done, show_project);
            all_show(p.a, q.a) && all_show(p.b, q.b) && all_show(p.c, q.c) && all_show(p.d, q.d)
        }),
{
    lemma_plain_tiles_free(ts);
    lemma_column_shows(ts, Status::New, on, w, done, show_project);
    lemma_column_shows(ts, Status::Ready, on, w, done, show_project);
    lemma_column_shows(ts, Status::InProgress, on, w, done, show_project);
    lemma_column_shows(ts, Status::Done, on, w, done, show_project);
}

/// Law: the painted board, without its escape sequences and the white space
/// at the end of its lines, is the plain board.
pub proof fn law_color_keeps_the_board(ts: Seq<TileView>, w: nat, done: nat, show_project: bool)
    requires
        plain_tiles(ts),
        forall|k: int| 0 <= k < ts.len() ==> one_line_tile(#[trigger] ts[k]),
        ts.len() <= usize::MAX,
    ensures
        tidied(seen(columns_text(ts, true, w, done, show_project))) == columns_text(ts, false, w, done, show_project),
{
    let cw = column_width(w);
    let p = columns(ts, true, cw, done, show_project);
    let q = columns(ts, false, cw, done, show_project);
    lemma_columns_show(ts, true, cw, done, show_project);
    lemma_one_line_tiles_free(ts);
    lemma_column_free(ts, Status::New, cw, done, show_project, '\n');
    lemma_column_free(ts, Status::Ready, cw, done, show_project, '\n');
    lemma_column_free(ts, Status::InProgress, cw, done, show_project, '\n');
    lemma_column_free(ts, Status::Done, cw, done, show_project, '\n');
    let n = larger(larger(q.a.len(), q.b.len()), larger(q.c.len(), q.d.len()));
    lemma_plain_rows(q, cw, n);
    lemma_seen_rows(p, q, cw, n);
    let none = Seq::<char>::empty();
    let ls = Seq::new(n, |k: int| seen(trim_end(full_row(p, cw, k)))).push(none);
    let wanted = Seq::new(n, |k: int| trim_end(full_row(q, cw, k))).push(none);
    assert forall|k: int, i: int| 0 <= k < ls.len() && 0 <= i < ls[k].len() implies !crate::text::cuts(
        Sep::Char('\n'),
        #[trigger] ls[k][i],
    ) by {
        let (x, y) = (full_row(p, cw, k), full_row(q, cw, k));
        lemma_row_shows(p, q, cw, k);
        lemma_trim_shows(x, y);
        lemma_row_free(q, cw, k, '\n');
        assert(ls[k][i] == y.take(ls[k].len() as int)[i]);
        assert(y[i] != '\n');
    }
    reveal_strlit("\n");
    assert("\n"@ =~= seq!['\n']);
    lemma_split_join(ls, '\n', Sep::Char('\n'));
    let tidy = ls.map_values(|l: Seq<char>| trim_end(l));
    assert forall|k: int| 0 <= k < ls.len() implies #[trigger] tidy[k] == wanted[k] by {
        if k < n {
            lemma_row_shows(p, q, cw, k);
            lemma_trim_shows(full_row(p, cw, k), full_row(q, cw, k));
        }
    }
    assert(tidy =~= wanted);
}

} // verus!
