//! The board drawn in the terminal: a summary line, bars for the labels, the
//! spread of the priorities, then the four statuses side by side.

use vstd::prelude::*;

use crate::card::{Card, CardView};
use crate::commits::{sha_and_subject, split_commit_line};
use crate::layout::{pad, padded, truncate, truncated, width_of, wrap, wrapped};
use crate::notes::opt_text;
use crate::number::{align_right, aligned_right, dec, decimal, decimal_count};
use crate::order::{key_views, sorted, sorted_order, Key, KeyView, Texts};
use crate::paint::{bolded, colored, dimmed, heat, heat_rgb, status_color, status_rgb, strip_ansi_len, visible, Paint};
use crate::path::opt_string;
use crate::select::label_ok;
use crate::status::Status;
use crate::tags::passes_filter;
use crate::tally::{distinct_names, law_tally_is_ranked, names_once, row_views, tally, tally_of};
use crate::text::{
    append_texts, copy, join, joined, keep_nonblank, lines, lines_of, nonblank, push_text, repeat, repeated, texts,
    trim_end, trimmed_end,
};

verus! {

/// How the board is drawn.
#[derive(Debug, PartialEq, Eq)]
pub struct Opts {
    /// Only cards that pass this tag filter.
    pub label: Option<String>,
    /// How many done cards to show.
    pub done: usize,
    /// A width to draw to instead of the terminal's.
    pub width: Option<usize>,
    /// Seconds between redraws.
    pub watch: Option<u64>,
    pub color: bool,
    /// Name the project on each card.
    pub show_project: bool,
}

/// A card on the board, and what it waits on in words.
#[derive(Debug, PartialEq, Eq)]
pub struct Tile {
    pub card: Card,
    pub wait: String,
}

#[verifier::ext_equal]
pub struct TileView {
    pub card: CardView,
    pub wait: Seq<char>,
}

impl View for Tile {
    type V = TileView;

    open spec fn view(&self) -> TileView {
        TileView { card: self.card@, wait: self.wait@ }
    }
}

impl Clone for Tile {
    fn clone(&self) -> (r: Tile)
        ensures
            r@ == self@,
    {
        Tile { card: self.card.clone(), wait: self.wait.clone() }
    }
}

pub open spec fn tile_views(v: Seq<Tile>) -> Seq<TileView> {
    v.map_values(|t: Tile| t@)
}

// ------------------------------------------------------------- choosing

/// The tiles that pass the tag filter.
pub open spec fn chosen(ts: Seq<TileView>, label: Option<Seq<char>>) -> Seq<TileView>
    decreases ts.len(),
{
    if ts.len() == 0 {
        ts
    } else if label_ok(ts.last().card, label) {
        chosen(ts.drop_last(), label).push(ts.last())
    } else {
        chosen(ts.drop_last(), label)
    }
}

/// The tiles with this status.
pub open spec fn in_status(ts: Seq<TileView>, status: Status) -> Seq<TileView>
    decreases ts.len(),
{
    if ts.len() == 0 {
        ts
    } else if ts.last().card.status == status {
        in_status(ts.drop_last(), status).push(ts.last())
    } else {
        in_status(ts.drop_last(), status)
    }
}

/// The tiles that are not done.
pub open spec fn still_open(ts: Seq<TileView>) -> Seq<TileView>
    decreases ts.len(),
{
    if ts.len() == 0 {
        ts
    } else if ts.last().card.status != Status::Done {
        still_open(ts.drop_last()).push(ts.last())
    } else {
        still_open(ts.drop_last())
    }
}

fn choose_tiles(ts: &Vec<Tile>, label: Option<&str>) -> (out: Vec<Tile>)
    ensures
        tile_views(out@) == chosen(tile_views(ts@), opt_text(label)),
{
    let ghost all = tile_views(ts@);
    let mut out: Vec<Tile> = Vec::new();
    let mut i: usize = 0;
    assert(tile_views(out@) =~= chosen(all.take(0), opt_text(label)));
    while i < ts.len()
        invariant
            i <= ts@.len(),
            all == tile_views(ts@),
            tile_views(out@) == chosen(all.take(i as int), opt_text(label)),
        decreases ts.len() - i,
    {
        assert(all.take(i + 1).drop_last() =~= all.take(i as int));
        assert(all.take(i + 1).last() == ts@[i as int]@);
        let keep = match label {
            Some(l) => passes_filter(ts[i].card.label.as_str(), l),
            None => true,
        };
        if keep {
            let ghost before = tile_views(out@);
            out.push(ts[i].clone());
            assert(tile_views(out@) =~= before.push(all[i as int]));
        }
        i = i + 1;
    }
    assert(all.take(i as int) =~= all);
    out
}

fn tiles_in(ts: &Vec<Tile>, status: Status) -> (out: Vec<Tile>)
    ensures
        tile_views(out@) == in_status(tile_views(ts@), status),
{
    let ghost all = tile_views(ts@);
    let mut out: Vec<Tile> = Vec::new();
    let mut i: usize = 0;
    assert(tile_views(out@) =~= in_status(all.take(0), status));
    while i < ts.len()
        invariant
            i <= ts@.len(),
            all == tile_views(ts@),
            tile_views(out@) == in_status(all.take(i as int), status),
        decreases ts.len() - i,
    {
        assert(all.take(i + 1).drop_last() =~= all.take(i as int));
        assert(all.take(i + 1).last() == ts@[i as int]@);
        if ts[i].card.status == status {
            let ghost before = tile_views(out@);
            out.push(ts[i].clone());
            assert(tile_views(out@) =~= before.push(all[i as int]));
        }
        i = i + 1;
    }
    assert(all.take(i as int) =~= all);
    out
}

fn open_tiles(ts: &Vec<Tile>) -> (out: Vec<Tile>)
    ensures
        tile_views(out@) == still_open(tile_views(ts@)),
{
    let ghost all = tile_views(ts@);
    let mut out: Vec<Tile> = Vec::new();
    let mut i: usize = 0;
    assert(tile_views(out@) =~= still_open(all.take(0)));
    while i < ts.len()
        invariant
            i <= ts@.len(),
            all == tile_views(ts@),
            tile_views(out@) == still_open(all.take(i as int)),
        decreases ts.len() - i,
    {
        assert(all.take(i + 1).drop_last() =~= all.take(i as int));
        assert(all.take(i + 1).last() == ts@[i as int]@);
        if ts[i].card.status != Status::Done {
            let ghost before = tile_views(out@);
            out.push(ts[i].clone());
            assert(tile_views(out@) =~= before.push(all[i as int]));
        }
        i = i + 1;
    }
    assert(all.take(i as int) =~= all);
    out
}

// ------------------------------------------------------------- names in order

/// The agents that hold the cards, one for each card that is held.
pub open spec fn holders(ts: Seq<TileView>) -> Seq<Seq<char>>
    decreases ts.len(),
{
    if ts.len() == 0 {
        Seq::empty()
    } else if ts.last().card.claimed_by.len() > 0 {
        holders(ts.drop_last()).push(ts.last().card.claimed_by)
    } else {
        holders(ts.drop_last())
    }
}

/// The agents that hold a card, each once, in order.
pub open spec fn agents(ts: Seq<TileView>) -> Seq<Seq<char>> {
    names_once(holders(ts))
}

fn agents_of(ts: &Vec<Tile>) -> (out: Vec<String>)
    ensures
        texts(out@) == agents(tile_views(ts@)),
{
    let ghost all = tile_views(ts@);
    let mut held: Vec<String> = Vec::new();
    let mut i: usize = 0;
    assert(texts(held@) =~= holders(all.take(0)));
    while i < ts.len()
        invariant
            i <= ts@.len(),
            all == tile_views(ts@),
            texts(held@) == holders(all.take(i as int)),
        decreases ts.len() - i,
    {
        assert(all.take(i + 1).drop_last() =~= all.take(i as int));
        assert(all.take(i + 1).last() == ts@[i as int]@);
        if !ts[i].card.claimed_by.as_str().is_empty() {
            push_text(&mut held, ts[i].card.claimed_by.clone());
        }
        i = i + 1;
    }
    assert(all.take(i as int) =~= all);
    distinct_names(&held)
}

// ------------------------------------------------------------- header

/// The priorities added up.
pub open spec fn priority_sum(ts: Seq<TileView>) -> int
    decreases ts.len(),
{
    if ts.len() == 0 {
        0
    } else {
        priority_sum(ts.drop_last()) + ts.last().card.priority
    }
}

/// The average priority, rounded towards 0; 0 where there is none.
pub open spec fn average(ts: Seq<TileView>) -> int {
    if ts.len() == 0 {
        0
    } else if priority_sum(ts) >= 0 {
        priority_sum(ts) / (ts.len() as int)
    } else {
        -((-priority_sum(ts)) / (ts.len() as int))
    }
}

/// The columns less some, but not below 0.
pub open spec fn less(w: nat, by: nat) -> nat {
    if w >= by {
        (w - by) as nat
    } else {
        0
    }
}

/// The counts at the top of the board.
pub open spec fn stats_text(ts: Seq<TileView>, label: Option<Seq<char>>) -> Seq<char> {
    let open = still_open(ts);
    let held = if agents(ts).len() == 0 { Seq::empty() } else { " ("@ + join(agents(ts), ", "@) + ")"@ };
    let filter = match label {
        Some(l) => "  ·  label="@ + l,
        None => Seq::empty(),
    };
    dec(open.len() as int) + " open  ·  "@ + dec(in_status(ts, Status::InProgress).len() as int) + " in progress"@ + held
        + "  ·  avg priority "@ + dec(average(open)) + "  ·  "@ + dec(in_status(ts, Status::Done).len() as int)
        + " done"@ + filter
}

/// The top of the board.
pub open spec fn header_text(title: Seq<char>, ts: Seq<TileView>, on: bool, w: nat, label: Option<Seq<char>>) -> Seq<char> {
    bolded(on, "bl/board"@) + "  "@ + dimmed(on, truncated(title, less(w, 12))) + "\n"@ + stats_text(ts, label) + "\n"@
        + dimmed(on, repeat("─"@, w)) + "\n"@
}

fn average_of(ts: &Vec<Tile>) -> (avg: i64)
    ensures
        avg == average(tile_views(ts@)),
{
    let ghost all = tile_views(ts@);
    if ts.len() == 0 {
        return 0;
    }
    let n: usize = ts.len();
    let mut sum: i128 = 0;
    let mut i: usize = 0;
    assert(priority_sum(all.take(0)) == 0);
    while i < n
        invariant
            i <= n,
            n == ts@.len(),
            all == tile_views(ts@),
            sum == priority_sum(all.take(i as int)),
            i32::MIN * i <= sum <= i32::MAX * i,
        decreases n - i,
    {
        assert(all.take(i + 1).drop_last() =~= all.take(i as int));
        assert(all.take(i + 1).last() == ts@[i as int]@);
        sum = sum + ts[i].card.priority as i128;
        i = i + 1;
    }
    assert(all.take(i as int) =~= all);
    let count: i128 = n as i128;
    if sum >= 0 {
        let q: i128 = sum / count;
        assert(0 <= q <= i32::MAX) by (nonlinear_arith)
            requires
                0 <= sum <= i32::MAX * count,
                count > 0,
                q == sum / count,
        ;
        q as i64
    } else {
        let m: i128 = -sum;
        let q: i128 = m / count;
        assert(0 <= q <= 0x8000_0000) by (nonlinear_arith)
            requires
                0 <= m <= 0x8000_0000 * count,
                count > 0,
                q == m / count,
        ;
        -(q as i64)
    }
}

/// The top of the board.
pub fn header(title: &str, ts: &Vec<Tile>, p: &Paint, w: usize, label: Option<&str>) -> (out: String)
    ensures
        out@ == header_text(title@, tile_views(ts@), p.on, w as nat, opt_text(label)),
{
    let open = open_tiles(ts);
    let prog = tiles_in(ts, Status::InProgress);
    let done = tiles_in(ts, Status::Done);
    assert(tile_views(open@).len() == open@.len());
    assert(tile_views(prog@).len() == prog@.len());
    assert(tile_views(done@).len() == done@.len());
    let names = agents_of(ts);
    assert(texts(names@).len() == names@.len());
    let held = if names.len() == 0 {
        String::new()
    } else {
        copy(" (").concat(joined(&names, ", ").as_str()).concat(")")
    };
    let filter = match label {
        Some(l) => copy("  ·  label=").concat(l),
        None => String::new(),
    };
    let avg: i64 = average_of(&open);
    let stats = decimal_count(open.len()).concat(" open  ·  ").concat(decimal_count(prog.len()).as_str()).concat(
        " in progress",
    ).concat(held.as_str()).concat("  ·  avg priority ").concat(decimal(avg).as_str()).concat("  ·  ").concat(
        decimal_count(done.len()).as_str(),
    ).concat(" done").concat(filter.as_str());
    assert(stats@ == stats_text(tile_views(ts@), opt_text(label)));
    let room: usize = if w >= 12 {
        w - 12
    } else {
        0
    };
    p.bold("bl/board").concat("  ").concat(p.dim(truncate(title, room).as_str()).as_str()).concat("\n").concat(
        stats.as_str(),
    ).concat("\n").concat(p.dim(repeated("─", w).as_str()).as_str()).concat("\n")
}

// ------------------------------------------------------------- panels

/// The name a card's label is counted under.
pub open spec fn label_name(c: CardView) -> Seq<char> {
    if c.label.len() == 0 {
        "(none)"@
    } else {
        c.label
    }
}

/// The names the cards are counted under.
pub open spec fn label_names(ts: Seq<TileView>) -> Seq<Seq<char>> {
    ts.map_values(|t: TileView| label_name(t.card))
}

/// The six labels with most cards, and their counts.
pub open spec fn top_labels(ts: Seq<TileView>) -> Seq<(Seq<char>, nat)> {
    let all = tally_of(label_names(ts));
    if all.len() > 6 {
        all.take(6)
    } else {
        all
    }
}

/// A share of the width, rounded up.
pub open spec fn share(n: nat, width: nat, max: nat) -> nat {
    ((n * width + max - 1) / (max as int)) as nat
}

/// The width of a full bar.
pub open spec fn bar_width(w: nat) -> nat {
    if less(w, 20) < 40 {
        less(w, 20)
    } else {
        40
    }
}

/// The bar of one label.
pub open spec fn bar_text(row: (Seq<char>, nat), on: bool, width: nat, max: nat) -> Seq<char> {
    let filled = share(row.1, width, max);
    "  "@ + padded(truncated(row.0, 12), 12) + " "@ + colored(on, repeat("█"@, filled), (36, 140, 124)) + dimmed(
        on,
        repeat("·"@, less(width, filled)),
    ) + " "@ + dec(row.1 as int) + "\n"@
}

/// The bars, one after the other.
pub open spec fn bars_text(rows: Seq<(Seq<char>, nat)>, on: bool, width: nat, max: nat) -> Seq<char>
    decreases rows.len(),
{
    if rows.len() == 0 {
        Seq::empty()
    } else {
        bars_text(rows.drop_last(), on, width, max) + bar_text(rows.last(), on, width, max)
    }
}

/// Which of the twenty spans of 500 points a priority lies in.
pub open spec fn bucket(priority: int) -> int {
    if priority <= -500 || priority >= 9500 {
        19
    } else if priority < 0 {
        0
    } else {
        priority / 500
    }
}

/// How many cards lie in a span.
pub open spec fn in_bucket(ts: Seq<TileView>, k: int) -> nat
    decreases ts.len(),
{
    if ts.len() == 0 {
        0
    } else {
        in_bucket(ts.drop_last(), k) + if bucket(ts.last().card.priority as int) == k {
            1nat
        } else {
            0nat
        }
    }
}

/// The most cards in one of the first `n` spans, but at least 1.
pub open spec fn tallest(ts: Seq<TileView>, n: nat) -> nat
    decreases n,
{
    if n == 0 {
        1
    } else if in_bucket(ts, n - 1) > tallest(ts, (n - 1) as nat) {
        in_bucket(ts, n - 1)
    } else {
        tallest(ts, (n - 1) as nat)
    }
}

/// A block of some height, 0 to 7.
pub open spec fn block(level: nat) -> Seq<char> {
    if level == 0 {
        "▁"@
    } else if level == 1 {
        "▂"@
    } else if level == 2 {
        "▃"@
    } else if level == 3 {
        "▄"@
    } else if level == 4 {
        "▅"@
    } else if level == 5 {
        "▆"@
    } else if level == 6 {
        "▇"@
    } else {
        "█"@
    }
}

/// The mark of one span.
pub open spec fn spark_mark(n: nat, k: nat, max: nat, on: bool) -> Seq<char> {
    if n == 0 {
        dimmed(on, "·"@)
    } else {
        colored(on, block(share(n, 7, max)), heat_rgb(k as int * 500 + 250))
    }
}

/// The marks of the first `k` spans.
pub open spec fn spark(ts: Seq<TileView>, k: nat, max: nat, on: bool) -> Seq<char>
    decreases k,
{
    if k == 0 {
        Seq::empty()
    } else {
        spark(ts, (k - 1) as nat, max, on) + spark_mark(in_bucket(ts, k - 1), (k - 1) as nat, max, on)
    }
}

/// The count of the label with most cards, but at least 1.
pub open spec fn most_cards(rows: Seq<(Seq<char>, nat)>) -> nat {
    if rows.len() == 0 || rows[0].1 == 0 {
        1
    } else {
        rows[0].1
    }
}

/// The panels: open cards by label, and the spread of their priorities.
pub open spec fn panels_text(ts: Seq<TileView>, on: bool, w: nat) -> Seq<char> {
    let open = still_open(ts);
    let rows = top_labels(open);
    let nothing = if rows.len() == 0 { dimmed(on, "  nothing open\n"@) } else { Seq::empty() };
    dimmed(on, "OPEN BY LABEL"@) + "\n"@ + nothing + bars_text(rows, on, bar_width(w), most_cards(rows)) + "\n"@ + dimmed(
        on,
        "OPEN PRIORITY  "@,
    ) + spark(open, 20, tallest(open, 20), on) + "\n"@ + dimmed(
        on,
        "               0            5000          10000\n"@,
    )
}

fn name_of_label(c: &Card) -> (out: String)
    ensures
        out@ == label_name(c@),
{
    if c.label.as_str().is_empty() {
        copy("(none)")
    } else {
        c.label.clone()
    }
}

fn names_of_labels(ts: &Vec<Tile>) -> (out: Vec<String>)
    ensures
        texts(out@) == label_names(tile_views(ts@)),
{
    let ghost all = label_names(tile_views(ts@));
    let mut out: Vec<String> = Vec::new();
    let mut i: usize = 0;
    assert(texts(out@) =~= all.take(0));
    while i < ts.len()
        invariant
            i <= ts@.len(),
            all == label_names(tile_views(ts@)),
            texts(out@) == all.take(i as int),
        decreases ts.len() - i,
    {
        assert(tile_views(ts@)[i as int] == ts@[i as int]@);
        push_text(&mut out, name_of_label(&ts[i].card));
        assert(all.take(i + 1) =~= all.take(i as int).push(all[i as int]));
        i = i + 1;
    }
    assert(all.take(i as int) =~= all);
    out
}

fn top_rows(ts: &Vec<Tile>) -> (out: Vec<(String, usize)>)
    ensures
        row_views(out@) == top_labels(tile_views(ts@)),
{
    let mut out = tally(&names_of_labels(ts));
    assert(row_views(out@).len() == out@.len());
    if out.len() > 6 {
        let ghost all = row_views(out@);
        out.truncate(6);
        assert(row_views(out@) =~= all.take(6));
    }
    out
}

fn share_of(n: usize, width: usize, max: usize) -> (r: usize)
    requires
        max > 0,
        n <= max,
        width <= 40,
    ensures
        r == share(n as nat, width as nat, max as nat),
        r <= width,
{
    assert(n * width <= max * 40) by (nonlinear_arith)
        requires
            n <= max,
            width <= 40,
    ;
    let total: u128 = n as u128 * width as u128 + (max as u128 - 1);
    let q: u128 = total / max as u128;
    assert(0 <= q <= width) by (nonlinear_arith)
        requires
            n <= max,
            max > 0,
            total == n * width + max - 1,
            q == total / (max as u128),
    ;
    q as usize
}

fn bar_of(name: &str, n: usize, p: &Paint, width: usize, max: usize) -> (out: String)
    requires
        max > 0,
        n <= max,
        width <= 40,
    ensures
        out@ == bar_text((name@, n as nat), p.on, width as nat, max as nat),
{
    let filled: usize = share_of(n, width, max);
    copy("  ").concat(pad(truncate(name, 12).as_str(), 12).as_str()).concat(" ").concat(
        p.rgb(repeated("█", filled).as_str(), (36, 140, 124)).as_str(),
    ).concat(p.dim(repeated("·", width - filled).as_str()).as_str()).concat(" ").concat(
        decimal_count(n).as_str(),
    ).concat("\n")
}

fn bucket_index(priority: i32) -> (k: usize)
    ensures
        k == bucket(priority as int),
        k < 20,
{
    if priority <= -500 || priority >= 9500 {
        19
    } else if priority < 0 {
        0
    } else {
        (priority / 500) as usize
    }
}

fn count_bucket(ts: &Vec<Tile>, k: usize) -> (n: usize)
    ensures
        n == in_bucket(tile_views(ts@), k as int),
{
    let ghost all = tile_views(ts@);
    let mut n: usize = 0;
    let mut i: usize = 0;
    while i < ts.len()
        invariant
            i <= ts@.len(),
            all == tile_views(ts@),
            n == in_bucket(all.take(i as int), k as int),
            n <= i,
        decreases ts.len() - i,
    {
        assert(all.take(i + 1).drop_last() =~= all.take(i as int));
        assert(all.take(i + 1).last() == ts@[i as int]@);
        if bucket_index(ts[i].card.priority) == k {
            n = n + 1;
        }
        i = i + 1;
    }
    assert(all.take(i as int) =~= all);
    n
}

fn tallest_of(ts: &Vec<Tile>) -> (n: usize)
    ensures
        n == tallest(tile_views(ts@), 20),
        n > 0,
        forall|k: int| 0 <= k < 20 ==> in_bucket(tile_views(ts@), k) <= n,
{
    let ghost all = tile_views(ts@);
    let mut n: usize = 1;
    let mut k: usize = 0;
    while k < 20
        invariant
            k <= 20,
            all == tile_views(ts@),
            n == tallest(all, k as nat),
            n > 0,
            forall|j: int| 0 <= j < k ==> in_bucket(all, j) <= n,
        decreases 20 - k,
    {
        let c: usize = count_bucket(ts, k);
        if c > n {
            n = c;
        }
        k = k + 1;
    }
    n
}

fn block_of(level: usize) -> (r: &'static str)
    ensures
        r@ == block(level as nat),
{
    match level {
        0 => "▁",
        1 => "▂",
        2 => "▃",
        3 => "▄",
        4 => "▅",
        5 => "▆",
        6 => "▇",
        _ => "█",
    }
}

fn spark_of(ts: &Vec<Tile>, p: &Paint) -> (out: String)
    ensures
        out@ == spark(tile_views(ts@), 20, tallest(tile_views(ts@), 20), p.on),
{
    let ghost all = tile_views(ts@);
    let max: usize = tallest_of(ts);
    let mut out = String::new();
    let mut k: usize = 0;
    assert(out@ =~= spark(all, 0, max as nat, p.on));
    while k < 20
        invariant
            k <= 20,
            all == tile_views(ts@),
            max > 0,
            forall|j: int| 0 <= j < 20 ==> in_bucket(all, j) <= max,
            out@ == spark(all, k as nat, max as nat, p.on),
        decreases 20 - k,
    {
        let n: usize = count_bucket(ts, k);
        let mark = if n == 0 {
            p.dim("·")
        } else {
            let level: usize = share_of(n, 7, max);
            p.rgb(block_of(level), heat((k as i32) * 500 + 250))
        };
        assert(mark@ == spark_mark(n as nat, k as nat, max as nat, p.on));
        out = out.concat(mark.as_str());
        k = k + 1;
    }
    out
}

/// The panels: open cards by label, and the spread of their priorities.
pub fn panels(ts: &Vec<Tile>, p: &Paint, w: usize) -> (out: String)
    ensures
        out@ == panels_text(tile_views(ts@), p.on, w as nat),
{
    let open = open_tiles(ts);
    let ghost ov = tile_views(open@);
    let total: usize = open.len();
    assert(ov.len() == total);
    let rows = top_rows(&open);
    let ghost rv = row_views(rows@);
    proof {
        law_tally_is_ranked(label_names(ov));
    }
    assert(rv.len() == rows@.len());
    let max: usize = if rows.len() == 0 || rows[0].1 == 0 {
        1
    } else {
        rows[0].1
    };
    assert(rows@.len() > 0 ==> rv[0] == (rows@[0].0@, rows@[0].1 as nat));
    assert(max == most_cards(rv));
    let bar: usize = if w < 20 {
        0
    } else if w - 20 < 40 {
        w - 20
    } else {
        40
    };
    let nothing = if rows.len() == 0 {
        p.dim("  nothing open\n")
    } else {
        String::new()
    };
    let mut bars = String::new();
    let mut i: usize = 0;
    assert(bars@ =~= bars_text(rv.take(0), p.on, bar as nat, max as nat));
    while i < rows.len()
        invariant
            i <= rows@.len(),
            rv == row_views(rows@),
            max > 0,
            bar <= 40,
            forall|k: int| 0 <= k < rv.len() ==> (#[trigger] rv[k]).1 <= max,
            bars@ == bars_text(rv.take(i as int), p.on, bar as nat, max as nat),
        decreases rows.len() - i,
    {
        assert(rv.take(i + 1).drop_last() =~= rv.take(i as int));
        assert(rv.take(i + 1).last() == rv[i as int]);
        assert(rv[i as int] == (rows@[i as int].0@, rows@[i as int].1 as nat));
        bars = bars.concat(bar_of(rows[i].0.as_str(), rows[i].1, p, bar, max).as_str());
        i = i + 1;
    }
    assert(rv.take(i as int) =~= rv);
    let sparks = spark_of(&open, p);
    p.dim("OPEN BY LABEL").concat("\n").concat(nothing.as_str()).concat(bars.as_str()).concat("\n").concat(
        p.dim("OPEN PRIORITY  ").as_str(),
    ).concat(sparks.as_str()).concat("\n").concat(
        p.dim("               0            5000          10000\n").as_str(),
    )
}

// ------------------------------------------------------------- columns

/// The width of a column.
pub open spec fn column_width(w: nat) -> nat {
    let c = less(w, 6) / 4;
    if c < 16 {
        16
    } else {
        c
    }
}

/// A text cut and filled up to the column.
pub open spec fn cell(s: Seq<char>, w: nat) -> Seq<char> {
    padded(truncated(s, w), w)
}

/// The first line of a card: id, label and priority.
pub open spec fn tile_head(c: CardView, on: bool, w: nat) -> Seq<char> {
    let id = "#"@ + dec(c.id as int);
    let room = less(w, id.len() + 8);
    let label = if c.label.len() == 0 { repeat(" "@, room) } else { dimmed(on, cell(c.label, room)) };
    dimmed(on, id) + " "@ + label + " "@ + colored(
        on,
        align_right(dec(c.priority as int), 5),
        heat_rgb(c.priority as int),
    )
}

/// One line, where the condition holds.
pub open spec fn one_if(given: bool, line: Seq<char>) -> Seq<Seq<char>> {
    if given {
        seq![line]
    } else {
        Seq::empty()
    }
}

/// The line of a linked commit.
pub open spec fn commit_cell(l: Seq<char>, on: bool, w: nat) -> Seq<char> {
    dimmed(on, cell(sha_and_subject(l).0 + " "@ + sha_and_subject(l).1, w))
}

/// The lines of a card: its head, its project where asked for, its title on
/// at most two lines, who holds it, what it waits on, its commits, and an
/// empty line.
pub open spec fn tile_lines(t: TileView, on: bool, w: nat, show_project: bool) -> Seq<Seq<char>> {
    let c = t.card;
    seq![tile_head(c, on, w)] + one_if(show_project && c.project.len() > 0, dimmed(on, cell(c.project, w))) + wrapped(
        c.title,
        less(w, 1),
        2,
    ).map_values(|l: Seq<char>| padded(l, w)) + one_if(
        c.claimed_by.len() > 0,
        colored(on, cell("@"@ + c.claimed_by, w), status_rgb(Status::InProgress)),
    ) + one_if(t.wait.len() > 0, dimmed(on, cell(t.wait, w))) + nonblank(lines(c.commits)).map_values(
        |l: Seq<char>| commit_cell(l, on, w),
    ) + seq![Seq::<char>::empty()]
}

/// The lines of several cards, one after the other.
pub open spec fn tiles_lines(ts: Seq<TileView>, on: bool, w: nat, show_project: bool) -> Seq<Seq<char>>
    decreases ts.len(),
{
    if ts.len() == 0 {
        Seq::empty()
    } else {
        tiles_lines(ts.drop_last(), on, w, show_project) + tile_lines(ts.last(), on, w, show_project)
    }
}

/// What done cards are ordered by: the last change, latest first.
pub open spec fn done_keys(ts: Seq<TileView>) -> Seq<KeyView> {
    ts.map_values(|t: TileView| KeyView { number: 0int, text: t.card.updated_at })
}

/// The done cards that are shown: those changed last.
pub open spec fn latest(ts: Seq<TileView>, limit: nat) -> Seq<TileView> {
    let all = sorted_order(done_keys(ts), Texts::Descending).map_values(|p: usize| ts[p as int]);
    if all.len() > limit {
        all.take(limit as int)
    } else {
        all
    }
}

/// The cards of a column that are shown.
pub open spec fn shown(ts: Seq<TileView>, status: Status, done: nat) -> Seq<TileView> {
    if status == Status::Done {
        latest(in_status(ts, status), done)
    } else {
        in_status(ts, status)
    }
}

/// The title of a column.
pub open spec fn column_name(status: Status) -> Seq<char> {
    match status {
        Status::New => "NEW"@,
        Status::Ready => "READY"@,
        Status::InProgress => "IN PROGRESS"@,
        Status::Done => "DONE"@,
    }
}

/// The lines of a column.
pub open spec fn column_lines(ts: Seq<TileView>, status: Status, on: bool, w: nat, done: nat, show_project: bool) -> Seq<
    Seq<char>,
> {
    let total = in_status(ts, status).len();
    let items = shown(ts, status, done);
    let hidden = less(total, items.len());
    seq![
        colored(on, padded(column_name(status), less(w, 4)), status_rgb(status)) + dimmed(
            on,
            align_right(dec(total as int), 4),
        ),
        colored(on, repeat("─"@, w), status_rgb(status)),
    ] + one_if(items.len() == 0, dimmed(on, padded("—"@, w))) + tiles_lines(items, on, w, show_project) + one_if(
        hidden > 0,
        dimmed(on, dec(hidden as int) + " older hidden"@),
    )
}

/// Line `row` of a column; empty below its end.
pub open spec fn cell_at(column: Seq<Seq<char>>, row: int) -> Seq<char> {
    if row < column.len() {
        column[row]
    } else {
        Seq::empty()
    }
}

/// A cell filled up so that the next column begins where it should. What
/// cannot be seen does not count.
pub open spec fn spaced(s: Seq<char>, w: nat) -> Seq<char> {
    s + repeat(" "@, less(w, visible(s)) + 2)
}

/// One row of the board.
pub open spec fn row_text(a: Seq<Seq<char>>, b: Seq<Seq<char>>, c: Seq<Seq<char>>, d: Seq<Seq<char>>, w: nat, row: int) -> Seq<
    char,
> {
    trim_end(
        spaced(cell_at(a, row), w) + spaced(cell_at(b, row), w) + spaced(cell_at(c, row), w) + cell_at(d, row),
    ) + "\n"@
}

/// The first `n` rows of the board.
pub open spec fn rows_text(a: Seq<Seq<char>>, b: Seq<Seq<char>>, c: Seq<Seq<char>>, d: Seq<Seq<char>>, w: nat, n: nat) -> Seq<
    char,
>
    decreases n,
{
    if n == 0 {
        Seq::empty()
    } else {
        rows_text(a, b, c, d, w, (n - 1) as nat) + row_text(a, b, c, d, w, n - 1)
    }
}

pub open spec fn larger(a: nat, b: nat) -> nat {
    if a > b {
        a
    } else {
        b
    }
}

/// The four columns side by side.
pub open spec fn columns_text(ts: Seq<TileView>, on: bool, w: nat, done: nat, show_project: bool) -> Seq<char> {
    let cw = column_width(w);
    let a = column_lines(ts, Status::New, on, cw, done, show_project);
    let b = column_lines(ts, Status::Ready, on, cw, done, show_project);
    let c = column_lines(ts, Status::InProgress, on, cw, done, show_project);
    let d = column_lines(ts, Status::Done, on, cw, done, show_project);
    rows_text(a, b, c, d, cw, larger(larger(a.len(), b.len()), larger(c.len(), d.len())))
}

fn cell_of(s: &str, w: usize) -> (out: String)
    ensures
        out@ == cell(s@, w as nat),
{
    pad(truncate(s, w).as_str(), w)
}

fn tile_head_of(c: &Card, p: &Paint, w: usize) -> (out: String)
    ensures
        out@ == tile_head(c@, p.on, w as nat),
{
    let id = copy("#").concat(decimal(c.id).as_str());
    let n: usize = width_of(id.as_str());
    let room: usize = if n < w && w - n >= 8 {
        w - n - 8
    } else {
        0
    };
    assert(room == less(w as nat, id@.len() + 8));
    let label = if c.label.as_str().is_empty() {
        repeated(" ", room)
    } else {
        p.dim(cell_of(c.label.as_str(), room).as_str())
    };
    let pri = aligned_right(decimal(c.priority as i64).as_str(), 5);
    p.dim(id.as_str()).concat(" ").concat(label.as_str()).concat(" ").concat(
        p.rgb(pri.as_str(), heat(c.priority)).as_str(),
    )
}

fn push_one_if(v: &mut Vec<String>, given: bool, line: String)
    ensures
        texts(final(v)@) == texts(old(v)@) + one_if(given, line@),
{
    let ghost before = texts(v@);
    if given {
        push_text(v, line);
    }
    assert(texts(v@) =~= before + one_if(given, line@));
}

fn title_lines(title: &str, w: usize) -> (out: Vec<String>)
    ensures
        texts(out@) == wrapped(title@, less(w as nat, 1), 2).map_values(|l: Seq<char>| padded(l, w as nat)),
{
    let room: usize = if w >= 1 {
        w - 1
    } else {
        0
    };
    let ls = wrap(title, room, 2);
    let ghost all = wrapped(title@, less(w as nat, 1), 2);
    let ghost wanted = all.map_values(|l: Seq<char>| padded(l, w as nat));
    let mut out: Vec<String> = Vec::new();
    let mut i: usize = 0;
    while i < ls.len()
        invariant
            i <= ls@.len(),
            texts(ls@) == all,
            wanted == all.map_values(|l: Seq<char>| padded(l, w as nat)),
            texts(out@) == wanted.take(i as int),
        decreases ls.len() - i,
    {
        assert(all[i as int] == ls@[i as int]@);
        push_text(&mut out, pad(ls[i].as_str(), w));
        assert(wanted.take(i + 1) =~= wanted.take(i as int).push(wanted[i as int]));
        i = i + 1;
    }
    assert(texts(ls@).len() == ls@.len());
    assert(wanted.take(i as int) =~= wanted);
    out
}

fn commit_cells(commits: &str, p: &Paint, w: usize) -> (out: Vec<String>)
    ensures
        texts(out@) == nonblank(lines(commits@)).map_values(|l: Seq<char>| commit_cell(l, p.on, w as nat)),
{
    let ls = keep_nonblank(lines_of(commits));
    let ghost all = nonblank(lines(commits@));
    let ghost wanted = all.map_values(|l: Seq<char>| commit_cell(l, p.on, w as nat));
    let mut out: Vec<String> = Vec::new();
    let mut i: usize = 0;
    while i < ls.len()
        invariant
            i <= ls@.len(),
            texts(ls@) == all,
            wanted == all.map_values(|l: Seq<char>| commit_cell(l, p.on, w as nat)),
            texts(out@) == wanted.take(i as int),
        decreases ls.len() - i,
    {
        assert(all[i as int] == ls@[i as int]@);
        let (sha, subject) = split_commit_line(ls[i].as_str());
        let line = copy(sha.as_str()).concat(" ").concat(subject.as_str());
        push_text(&mut out, p.dim(cell_of(line.as_str(), w).as_str()));
        assert(wanted.take(i + 1) =~= wanted.take(i as int).push(wanted[i as int]));
        i = i + 1;
    }
    assert(texts(ls@).len() == ls@.len());
    assert(wanted.take(i as int) =~= wanted);
    out
}

fn lines_of_tile(t: &Tile, p: &Paint, w: usize, show_project: bool) -> (out: Vec<String>)
    ensures
        texts(out@) == tile_lines(t@, p.on, w as nat, show_project),
{
    let c = &t.card;
    let mut out: Vec<String> = Vec::new();
    push_text(&mut out, tile_head_of(c, p, w));
    assert(texts(out@) =~= seq![tile_head(c@, p.on, w as nat)]);
    let project = p.dim(cell_of(c.project.as_str(), w).as_str());
    push_one_if(&mut out, show_project && !c.project.as_str().is_empty(), project);
    append_texts(&mut out, title_lines(c.title.as_str(), w));
    let who = copy("@").concat(c.claimed_by.as_str());
    let held = p.rgb(cell_of(who.as_str(), w).as_str(), status_color(Status::InProgress));
    push_one_if(&mut out, !c.claimed_by.as_str().is_empty(), held);
    let wait = p.dim(cell_of(t.wait.as_str(), w).as_str());
    push_one_if(&mut out, !t.wait.as_str().is_empty(), wait);
    append_texts(&mut out, commit_cells(c.commits.as_str(), p, w));
    let ghost before = texts(out@);
    push_text(&mut out, String::new());
    assert(texts(out@) =~= before + seq![Seq::<char>::empty()]);
    out
}

fn lines_of_tiles(ts: &Vec<Tile>, p: &Paint, w: usize, show_project: bool) -> (out: Vec<String>)
    ensures
        texts(out@) == tiles_lines(tile_views(ts@), p.on, w as nat, show_project),
{
    let ghost all = tile_views(ts@);
    let mut out: Vec<String> = Vec::new();
    let mut i: usize = 0;
    assert(texts(out@) =~= tiles_lines(all.take(0), p.on, w as nat, show_project));
    while i < ts.len()
        invariant
            i <= ts@.len(),
            all == tile_views(ts@),
            texts(out@) == tiles_lines(all.take(i as int), p.on, w as nat, show_project),
        decreases ts.len() - i,
    {
        assert(all.take(i + 1).drop_last() =~= all.take(i as int));
        assert(all.take(i + 1).last() == ts@[i as int]@);
        append_texts(&mut out, lines_of_tile(&ts[i], p, w, show_project));
        i = i + 1;
    }
    assert(all.take(i as int) =~= all);
    out
}

fn latest_of(ts: &Vec<Tile>, limit: usize) -> (out: Vec<Tile>)
    ensures
        tile_views(out@) == latest(tile_views(ts@), limit as nat),
{
    let ghost tv = tile_views(ts@);
    let ghost wanted = done_keys(tv);
    let mut keys: Vec<Key> = Vec::new();
    let mut i: usize = 0;
    while i < ts.len()
        invariant
            i <= ts@.len(),
            tv == tile_views(ts@),
            wanted == done_keys(tv),
            key_views(keys@) == wanted.take(i as int),
        decreases ts.len() - i,
    {
        let k = Key { number: 0, text: ts[i].card.updated_at.clone() };
        assert(tv[i as int] == ts@[i as int]@);
        assert(k@ == wanted[i as int]);
        let ghost before = key_views(keys@);
        keys.push(k);
        assert(key_views(keys@) =~= before.push(k@));
        assert(wanted.take(i + 1) =~= wanted.take(i as int).push(wanted[i as int]));
        i = i + 1;
    }
    assert(wanted.take(i as int) =~= wanted);
    let order = sorted(&keys, Texts::Descending);
    let ghost all = order@.map_values(|p: usize| tv[p as int]);
    let mut out: Vec<Tile> = Vec::new();
    let mut j: usize = 0;
    assert(tile_views(out@) =~= all.take(0));
    while j < order.len() && j < limit
        invariant
            j <= order@.len(),
            j <= limit,
            tv == tile_views(ts@),
            forall|k: int| 0 <= k < order@.len() ==> (#[trigger] order@[k]) < ts@.len(),
            all == order@.map_values(|p: usize| tv[p as int]),
            tile_views(out@) == all.take(j as int),
        decreases order.len() - j,
    {
        assert(order@[j as int] < ts@.len());
        let p: usize = order[j];
        assert(tv[p as int] == ts@[p as int]@);
        let ghost before = tile_views(out@);
        out.push(ts[p].clone());
        assert(tile_views(out@) =~= before.push(all[j as int]));
        assert(all.take(j + 1) =~= all.take(j as int).push(all[j as int]));
        j = j + 1;
    }
    assert(all.len() <= limit ==> all.take(j as int) =~= all);
    out
}

fn name_of_column(status: Status) -> (r: &'static str)
    ensures
        r@ == column_name(status),
{
    match status {
        Status::New => "NEW",
        Status::Ready => "READY",
        Status::InProgress => "IN PROGRESS",
        Status::Done => "DONE",
    }
}

fn column_of(ts: &Vec<Tile>, status: Status, p: &Paint, w: usize, done: usize, show_project: bool) -> (out: Vec<String>)
    ensures
        texts(out@) == column_lines(tile_views(ts@), status, p.on, w as nat, done as nat, show_project),
{
    let all = tiles_in(ts, status);
    assert(tile_views(all@).len() == all@.len());
    let total: usize = all.len();
    let items = if status == Status::Done {
        latest_of(&all, done)
    } else {
        all
    };
    assert(tile_views(items@) == shown(tile_views(ts@), status, done as nat));
    assert(tile_views(items@).len() == items@.len());
    let hidden: usize = if total >= items.len() {
        total - items.len()
    } else {
        0
    };
    let color = status_color(status);
    let room: usize = if w >= 4 {
        w - 4
    } else {
        0
    };
    let mut out: Vec<String> = Vec::new();
    let first = p.rgb(pad(name_of_column(status), room).as_str(), color).concat(
        p.dim(aligned_right(decimal_count(total).as_str(), 4).as_str()).as_str(),
    );
    let second = p.rgb(repeated("─", w).as_str(), color);
    push_text(&mut out, first);
    push_text(&mut out, second);
    assert(texts(out@) =~= seq![first@, second@]);
    push_one_if(&mut out, items.len() == 0, p.dim(pad("—", w).as_str()));
    append_texts(&mut out, lines_of_tiles(&items, p, w, show_project));
    let more = p.dim(decimal_count(hidden).concat(" older hidden").as_str());
    push_one_if(&mut out, hidden > 0, more);
    out
}

fn cell_in(column: &Vec<String>, row: usize) -> (out: String)
    ensures
        out@ == cell_at(texts(column@), row as int),
{
    if row < column.len() {
        column[row].clone()
    } else {
        String::new()
    }
}

fn space_out(s: &str, w: usize) -> (out: String)
    requires
        w < usize::MAX - 1,
    ensures
        out@ == spaced(s@, w as nat),
{
    let seen: usize = strip_ansi_len(s);
    let gap: usize = if w >= seen {
        w - seen
    } else {
        0
    };
    copy(s).concat(repeated(" ", gap + 2).as_str())
}

fn row_of(a: &Vec<String>, b: &Vec<String>, c: &Vec<String>, d: &Vec<String>, w: usize, row: usize) -> (out: String)
    requires
        w < usize::MAX - 1,
    ensures
        out@ == row_text(texts(a@), texts(b@), texts(c@), texts(d@), w as nat, row as int),
{
    let x = space_out(cell_in(a, row).as_str(), w);
    let y = space_out(cell_in(b, row).as_str(), w);
    let z = space_out(cell_in(c, row).as_str(), w);
    let line = x.concat(y.as_str()).concat(z.as_str()).concat(cell_in(d, row).as_str());
    trimmed_end(line.as_str()).concat("\n")
}

fn rows_of(a: &Vec<String>, b: &Vec<String>, c: &Vec<String>, d: &Vec<String>, w: usize, n: usize) -> (out: String)
    requires
        w < usize::MAX - 1,
    ensures
        out@ == rows_text(texts(a@), texts(b@), texts(c@), texts(d@), w as nat, n as nat),
{
    let mut out = String::new();
    let mut row: usize = 0;
    assert(out@ =~= rows_text(texts(a@), texts(b@), texts(c@), texts(d@), w as nat, 0));
    while row < n
        invariant
            row <= n,
            w < usize::MAX - 1,
            out@ == rows_text(texts(a@), texts(b@), texts(c@), texts(d@), w as nat, row as nat),
        decreases n - row,
    {
        out = out.concat(row_of(a, b, c, d, w, row).as_str());
        row = row + 1;
    }
    out
}

/// The four columns side by side.
pub fn board(ts: &Vec<Tile>, p: &Paint, w: usize, done: usize, show_project: bool) -> (out: String)
    ensures
        out@ == columns_text(tile_views(ts@), p.on, w as nat, done as nat, show_project),
{
    let wide: usize = if w >= 6 {
        (w - 6) / 4
    } else {
        0
    };
    let cw: usize = if wide < 16 {
        16
    } else {
        wide
    };
    assert(cw == column_width(w as nat));
    let a = column_of(ts, Status::New, p, cw, done, show_project);
    let b = column_of(ts, Status::Ready, p, cw, done, show_project);
    let c = column_of(ts, Status::InProgress, p, cw, done, show_project);
    let d = column_of(ts, Status::Done, p, cw, done, show_project);
    assert(texts(a@).len() == a@.len() && texts(b@).len() == b@.len());
    assert(texts(c@).len() == c@.len() && texts(d@).len() == d@.len());
    let left: usize = if a.len() > b.len() {
        a.len()
    } else {
        b.len()
    };
    let right: usize = if c.len() > d.len() {
        c.len()
    } else {
        d.len()
    };
    let height: usize = if left > right {
        left
    } else {
        right
    };
    rows_of(&a, &b, &c, &d, cw, height)
}

// ------------------------------------------------------------- the whole

/// The width drawn to: the one asked for or the terminal's, between 40 and
/// 240.
pub open spec fn drawn_width(width: Option<usize>, terminal: usize) -> nat {
    let w = match width {
        Some(n) => n,
        None => terminal,
    };
    if w < 40 {
        40
    } else if w > 240 {
        240
    } else {
        w as nat
    }
}

/// The whole board.
pub open spec fn board_text(
    title: Seq<char>,
    all: Seq<TileView>,
    label: Option<Seq<char>>,
    done: nat,
    show_project: bool,
    on: bool,
    w: nat,
) -> Seq<char> {
    let ts = chosen(all, label);
    header_text(title, ts, on, w, label) + "\n"@ + panels_text(ts, on, w) + "\n"@ + columns_text(
        ts,
        on,
        w,
        done,
        show_project,
    )
}

/// Whether color is on: asked for, on a terminal, and not switched off by
/// the environment.
pub fn color_on(opts: &Opts, terminal: bool, no_color: bool) -> (r: bool)
    ensures
        r == (opts.color && terminal && !no_color),
{
    opts.color && terminal && !no_color
}

/// The whole board: the summary, the panels and the columns.
pub fn render(title: &str, all: &Vec<Tile>, opts: &Opts, on: bool, terminal: usize) -> (out: String)
    ensures
        out@ == board_text(
            title@,
            tile_views(all@),
            opt_string(opts.label),
            opts.done as nat,
            opts.show_project,
            on,
            drawn_width(opts.width, terminal),
        ),
{
    let p = Paint { on };
    let asked: usize = match opts.width {
        Some(n) => n,
        None => terminal,
    };
    let w: usize = if asked < 40 {
        40
    } else if asked > 240 {
        240
    } else {
        asked
    };
    let label: Option<&str> = match &opts.label {
        Some(l) => Some(l.as_str()),
        None => None,
    };
    assert(opt_text(label) == opt_string(opts.label));
    let ts = choose_tiles(all, label);
    header(title, &ts, &p, w, label).concat("\n").concat(panels(&ts, &p, w).as_str()).concat("\n").concat(
        board(&ts, &p, w, opts.done, opts.show_project).as_str(),
    )
}

} // verus!
