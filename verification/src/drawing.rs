//! What the drawn board shows: which cards stand in which column and in
//! which order, what is counted at the top, and what each card says.

use vstd::prelude::*;

use crate::board::{
    agents, average, bucket, cell, chosen, column_lines, done_keys, holders, in_bucket, in_status, label_names,
    latest, less, priority_sum, share, shown, stats_text, still_open, tile_head, tile_lines, tiles_lines, top_labels,
    TileView,
};
use crate::commits::sha_and_subject;
use crate::layout::{padded, wrapped};
use crate::number::{align_right, dec};
use crate::order::{lemma_covers, lemma_order_exists, sorted_order, text_before, Texts};
use crate::reading::tagged_so;
use crate::status::Status;
use crate::tally::{
    law_names_told_once, law_tally_is_ranked, lemma_names_len, names_once, tally_keys, tally_of, times,
};
use crate::telling::ends_with;
use crate::text::{contains, join, lines, nonblank, occurs_at, repeat, starts_with};

verus! {

// ------------------------------------------------------------- which cards

/// Law: the board is drawn of the cards with a tag asked for, all of them, in
/// the order given.
pub proof fn law_board_keeps_tagged_cards(ts: Seq<TileView>, label: Option<Seq<char>>)
    ensures
        chosen(ts, label) == ts.filter(|t: TileView| tagged_so(label, t.card)),
    decreases ts.len(),
{
    reveal(Seq::filter);
    if ts.len() > 0 {
        law_board_keeps_tagged_cards(ts.drop_last(), label);
        crate::reading::lemma_asked(Seq::empty(), crate::select::Scope::Everything, label, ts.last().card);
    }
}

proof fn lemma_in_status(ts: Seq<TileView>, status: Status)
    ensures
        in_status(ts, status) == ts.filter(|t: TileView| t.card.status == status),
    decreases ts.len(),
{
    reveal(Seq::filter);
    if ts.len() > 0 {
        lemma_in_status(ts.drop_last(), status);
    }
}

proof fn lemma_still_open(ts: Seq<TileView>)
    ensures
        still_open(ts) == ts.filter(|t: TileView| t.card.status != Status::Done),
    decreases ts.len(),
{
    reveal(Seq::filter);
    if ts.len() > 0 {
        lemma_still_open(ts.drop_last());
    }
}

/// Law: in the columns new, ready and in progress every card of that status
/// is drawn, in the order given, and the limit on done cards has no say.
pub proof fn law_open_columns_draw_every_card(
    ts: Seq<TileView>,
    status: Status,
    on: bool,
    w: nat,
    done: nat,
    other: nat,
    show_project: bool,
)
    requires
        status != Status::Done,
    ensures
        ({
            let col = column_lines(ts, status, on, w, done, show_project);
            let own = ts.filter(|t: TileView| t.card.status == status);
            &&& col == column_lines(ts, status, on, w, other, show_project)
            &&& own.len() > 0 ==> col.skip(2) == tiles_lines(own, on, w, show_project)
            &&& own.len() == 0 ==> col.len() == 3
        }),
{
    lemma_in_status(ts, status);
    let col = column_lines(ts, status, on, w, done, show_project);
    let own = in_status(ts, status);
    if own.len() > 0 {
        assert(col.skip(2) =~= tiles_lines(own, on, w, show_project));
    } else {
        assert(tiles_lines(own, on, w, show_project).len() == 0);
    }
}

/// Law: a card more of a column's status is drawn below the others, and a
/// card of another status changes nothing in it but for the done column.
pub proof fn law_column_grows_by_its_cards(
    ts: Seq<TileView>,
    t: TileView,
    status: Status,
    on: bool,
    w: nat,
    done: nat,
    show_project: bool,
)
    requires
        status != Status::Done,
    ensures
        ({
            let before = column_lines(ts, status, on, w, done, show_project);
            let after = column_lines(ts.push(t), status, on, w, done, show_project);
            &&& t.card.status != status ==> after == before
            &&& t.card.status == status && (exists|k: int| 0 <= k < ts.len() && (#[trigger] ts[k]).card.status == status)
                ==> after.skip(2) == before.skip(2) + tile_lines(t, on, w, show_project)
            &&& t.card.status == status && (forall|k: int| 0 <= k < ts.len() ==> (#[trigger] ts[k]).card.status != status)
                ==> after.skip(2) == tile_lines(t, on, w, show_project)
        }),
{
    let more = ts.push(t);
    assert(more.drop_last() =~= ts);
    let own = in_status(ts, status);
    let now = in_status(more, status);
    let before = column_lines(ts, status, on, w, done, show_project);
    let after = column_lines(more, status, on, w, done, show_project);
    lemma_in_status(ts, status);
    let f = |t: TileView| t.card.status == status;
    if t.card.status == status {
        assert(now.drop_last() =~= own);
        assert(after.skip(2) =~= tiles_lines(own, on, w, show_project) + tile_lines(t, on, w, show_project));
        if exists|k: int| 0 <= k < ts.len() && (#[trigger] ts[k]).card.status == status {
            let k = choose|k: int| 0 <= k < ts.len() && (#[trigger] ts[k]).card.status == status;
            ts.lemma_filter_contains(f, k);
            assert(own.len() > 0);
            assert(before.skip(2) =~= tiles_lines(own, on, w, show_project));
        } else {
            if own.len() > 0 {
                ts.lemma_filter_pred(f, 0);
                ts.lemma_filter_contains_rev(f, own[0]);
                assert(own.contains(own[0]));
                let k = choose|k: int| 0 <= k < ts.len() && ts[k] == own[0];
                assert(ts[k].card.status == status);
            }
            assert(tiles_lines(own, on, w, show_project).len() == 0);
            assert(after.skip(2) =~= tile_lines(t, on, w, show_project));
        }
    }
}

/// Law: the done column draws as many done cards as allowed, those changed
/// last, the latest first, and tells how many older ones it hides.
pub proof fn law_done_column_draws_the_latest(
    ts: Seq<TileView>,
    on: bool,
    w: nat,
    done: nat,
    show_project: bool,
    i: int,
)
    requires
        ts.len() <= usize::MAX,
        0 <= i < ts.len(),
    ensures
        ({
            let col = column_lines(ts, Status::Done, on, w, done, show_project);
            let own = ts.filter(|t: TileView| t.card.status == Status::Done);
            let drawn = shown(ts, Status::Done, done);
            let hidden = own.len() - drawn.len();
            &&& drawn.len() == if own.len() > done { done } else { own.len() }
            &&& drawn.len() > 0 ==> col.skip(2) == tiles_lines(drawn, on, w, show_project) + if hidden > 0 {
                seq![crate::paint::dimmed(on, dec(hidden as int) + " older hidden"@)]
            } else {
                Seq::empty()
            }
            &&& forall|k: int| 0 <= k < drawn.len() ==> own.contains(#[trigger] drawn[k])
            &&& forall|a: int, b: int|
                0 <= a < b < drawn.len() ==> !text_before(
                    (#[trigger] drawn[a]).card.updated_at,
                    (#[trigger] drawn[b]).card.updated_at,
                )
            &&& ts[i].card.status == Status::Done && !drawn.contains(ts[i]) ==> forall|k: int|
                0 <= k < drawn.len() ==> !text_before((#[trigger] drawn[k]).card.updated_at, ts[i].card.updated_at)
        }),
{
    let own = in_status(ts, Status::Done);
    let f = |t: TileView| t.card.status == Status::Done;
    lemma_in_status(ts, Status::Done);
    ts.lemma_filter_len(f);
    let keys = done_keys(own);
    let order = sorted_order(keys, Texts::Descending);
    lemma_order_exists(keys, Texts::Descending);
    let all = order.map_values(|p: usize| own[p as int]);
    let drawn = latest(own, done);
    let col = column_lines(ts, Status::Done, on, w, done, show_project);
    let hidden = less(own.len(), drawn.len());
    if drawn.len() > 0 {
        assert(col.skip(2) =~= tiles_lines(drawn, on, w, show_project) + crate::board::one_if(
            hidden > 0,
            crate::paint::dimmed(on, dec(hidden as int) + " older hidden"@),
        ));
    }
    assert forall|k: int| 0 <= k < drawn.len() implies own.contains(#[trigger] drawn[k]) by {
        assert(order[k] < own.len());
        assert(drawn[k] == own[order[k] as int]);
    }
    assert forall|a: int, b: int| 0 <= a < b < all.len() implies !text_before(
        (#[trigger] all[a]).card.updated_at,
        (#[trigger] all[b]).card.updated_at,
    ) by {
        let (p, q) = (order[a] as int, order[b] as int);
        assert(order[a] < own.len() && order[b] < own.len());
        assert(crate::order::comes_before(keys, Texts::Descending, p, q));
        assert(keys[p].text == own[p].card.updated_at && keys[q].text == own[q].card.updated_at);
        let (x, y) = (own[p].card.updated_at, own[q].card.updated_at);
        if text_before(x, y) {
            if text_before(y, x) {
                crate::order::lemma_text_before_transitive(x, y, x);
            }
            crate::order::lemma_text_before_irreflexive(x);
        }
    }
    assert forall|a: int, b: int| 0 <= a < b < drawn.len() implies !text_before(
        (#[trigger] drawn[a]).card.updated_at,
        (#[trigger] drawn[b]).card.updated_at,
    ) by {
        assert(drawn[a] == all[a] && drawn[b] == all[b]);
    }
    if ts[i].card.status == Status::Done && !drawn.contains(ts[i]) {
        ts.lemma_filter_contains(f, i);
        let m = choose|m: int| 0 <= m < own.len() && own[m] == ts[i];
        lemma_covers(order, own.len() as int);
        assert(order.contains(m as usize));
        let j = choose|j: int| 0 <= j < order.len() && order[j] == m as usize;
        assert(all[j] == ts[i]);
        if j < drawn.len() {
            assert(drawn[j] == ts[i]);
        }
        assert forall|k: int| 0 <= k < drawn.len() implies !text_before(
            (#[trigger] drawn[k]).card.updated_at,
            ts[i].card.updated_at,
        ) by {
            assert(drawn[k] == all[k]);
            assert(!text_before(all[k].card.updated_at, all[j].card.updated_at));
        }
    }
}

/// Law: a column begins with its name and how many cards have its status,
/// shown or not; the columns are new, ready, in progress and done.
pub proof fn law_column_tells_its_count(ts: Seq<TileView>, status: Status, w: nat, done: nat, show_project: bool)
    ensures
        ({
            let col = column_lines(ts, status, false, w, done, show_project);
            let name = match status {
                Status::New => "NEW"@,
                Status::Ready => "READY"@,
                Status::InProgress => "IN PROGRESS"@,
                Status::Done => "DONE"@,
            };
            let n = ts.filter(|t: TileView| t.card.status == status).len();
            &&& col.len() >= 2
            &&& col[0] == padded(name, if w >= 4 { (w - 4) as nat } else { 0 }) + align_right(dec(n as int), 4)
        }),
{
    lemma_in_status(ts, status);
}

// ------------------------------------------------------------- the top

/// Law: the top of the board counts the cards that are not done, those in
/// progress and those that are done.
pub proof fn law_top_counts_the_cards(ts: Seq<TileView>, label: Option<Seq<char>>)
    ensures
        ({
            let open = ts.filter(|t: TileView| t.card.status != Status::Done).len();
            let prog = ts.filter(|t: TileView| t.card.status == Status::InProgress).len();
            let done = ts.filter(|t: TileView| t.card.status == Status::Done).len();
            let s = stats_text(ts, label);
            &&& starts_with(s, dec(open as int) + " open  ·  "@ + dec(prog as int) + " in progress"@)
            &&& contains(s, "  ·  "@ + dec(done as int) + " done"@)
            &&& label matches Some(l) ==> contains(s, "  ·  label="@ + l)
            &&& agents(ts).len() > 0 ==> contains(s, " ("@ + join(agents(ts), ", "@) + ")"@)
        }),
{
    lemma_still_open(ts);
    lemma_in_status(ts, Status::InProgress);
    lemma_in_status(ts, Status::Done);
    let open = still_open(ts);
    let held = if agents(ts).len() == 0 { Seq::empty() } else { " ("@ + join(agents(ts), ", "@) + ")"@ };
    let filter = match label {
        Some(l) => "  ·  label="@ + l,
        None => Seq::empty(),
    };
    lemma_stats(
        dec(open.len() as int) + " open  ·  "@ + dec(in_status(ts, Status::InProgress).len() as int) + " in progress"@,
        held,
        "  ·  avg priority "@,
        dec(average(open)),
        "  ·  "@,
        dec(in_status(ts, Status::Done).len() as int),
        " done"@,
        filter,
    );
}

/// Parts of the counts.
proof fn lemma_stats(
    a: Seq<char>,
    held: Seq<char>,
    b: Seq<char>,
    avg: Seq<char>,
    sep: Seq<char>,
    n: Seq<char>,
    d: Seq<char>,
    filter: Seq<char>,
)
    ensures
        ({
            let t = a + held + b + avg + sep + n + d + filter;
            &&& starts_with(t, a)
            &&& contains(t, held)
            &&& contains(t, b + avg + sep)
            &&& contains(t, sep + n + d)
            &&& contains(t, filter)
        }),
{
    let t = a + held + b + avg + sep + n + d + filter;
    assert(starts_with(t, a)) by {
        assert(t.subrange(0, a.len() as int) =~= a);
    }
    assert(contains(t, held)) by {
        let k = a.len() as int;
        assert(t.subrange(k, k + held.len()) =~= held);
        assert(occurs_at(t, held, k));
    }
    assert(contains(t, b + avg + sep)) by {
        let x = b + avg + sep;
        let k = (a + held).len() as int;
        assert(t.subrange(k, k + x.len()) =~= x);
        assert(occurs_at(t, x, k));
    }
    assert(contains(t, sep + n + d)) by {
        let x = sep + n + d;
        let k = (a + held + b + avg).len() as int;
        assert(t.subrange(k, k + x.len()) =~= x);
        assert(occurs_at(t, x, k));
    }
    assert(contains(t, filter)) by {
        let k = (a + held + b + avg + sep + n + d).len() as int;
        assert(t.subrange(k, k + filter.len()) =~= filter);
        assert(occurs_at(t, filter, k));
    }
}

/// Law: the average priority shown is that of the cards that are not done,
/// cut down to a whole number.
pub proof fn law_average_is_of_open_cards(ts: Seq<TileView>, label: Option<Seq<char>>)
    requires
        forall|k: int| 0 <= k < ts.len() ==> 0 <= (#[trigger] ts[k]).card.priority,
    ensures
        ({
            let open = ts.filter(|t: TileView| t.card.status != Status::Done);
            let sum = open.fold_left(0int, |s: int, t: TileView| s + t.card.priority);
            let n = open.len() as int;
            exists|avg: int| #[trigger]
                contains(stats_text(ts, label), "  ·  avg priority "@ + dec(avg) + "  ·  "@) && (n == 0 ==> avg == 0) && (n > 0
                    ==> avg * n <= sum < (avg + 1) * n)
        }),
{
    lemma_still_open(ts);
    let open = still_open(ts);
    lemma_sum(open);
    let avg = average(open);
    let n = open.len() as int;
    let f = |t: TileView| t.card.status != Status::Done;
    assert forall|k: int| 0 <= k < open.len() implies 0 <= (#[trigger] open[k]).card.priority by {
        ts.lemma_filter_contains_rev(f, open[k]);
        let j = choose|j: int| 0 <= j < ts.len() && ts[j] == open[k];
        assert(0 <= ts[j].card.priority);
    }
    lemma_sum_positive(open);
    if n > 0 {
        let sum = priority_sum(open);
        assert(avg * n <= sum < (avg + 1) * n) by (nonlinear_arith)
            requires
                n > 0,
                sum >= 0,
                avg == sum / n,
        ;
    }
    let held = if agents(ts).len() == 0 { Seq::empty() } else { " ("@ + join(agents(ts), ", "@) + ")"@ };
    let filter = match label {
        Some(l) => "  ·  label="@ + l,
        None => Seq::empty(),
    };
    lemma_stats(
        dec(open.len() as int) + " open  ·  "@ + dec(in_status(ts, Status::InProgress).len() as int) + " in progress"@,
        held,
        "  ·  avg priority "@,
        dec(avg),
        "  ·  "@,
        dec(in_status(ts, Status::Done).len() as int),
        " done"@,
        filter,
    );
    assert(contains(stats_text(ts, label), "  ·  avg priority "@ + dec(avg) + "  ·  "@));
}

proof fn lemma_sum(ts: Seq<TileView>)
    ensures
        priority_sum(ts) == ts.fold_left(0int, |s: int, t: TileView| s + t.card.priority),
    decreases ts.len(),
{
    if ts.len() > 0 {
        lemma_sum(ts.drop_last());
    }
}

proof fn lemma_sum_positive(ts: Seq<TileView>)
    requires
        forall|k: int| 0 <= k < ts.len() ==> 0 <= (#[trigger] ts[k]).card.priority,
    ensures
        priority_sum(ts) >= 0,
    decreases ts.len(),
{
    if ts.len() > 0 {
        let front = ts.drop_last();
        assert forall|k: int| 0 <= k < front.len() implies 0 <= (#[trigger] front[k]).card.priority by {
            assert(front[k] == ts[k]);
        }
        lemma_sum_positive(front);
        assert(0 <= ts[ts.len() - 1].card.priority);
    }
}

/// Law: the agents named at the top are those that hold a card, each once, in
/// the order of their names.
pub proof fn law_agents_are_the_holders(ts: Seq<TileView>, who: Seq<char>)
    ensures
        agents(ts).contains(who) <==> who.len() > 0 && exists|k: int|
            0 <= k < ts.len() && (#[trigger] ts[k]).card.claimed_by == who,
        crate::tally::ascending(agents(ts)),
{
    law_names_told_once(holders(ts));
    lemma_holders(ts, who);
}

proof fn lemma_holders(ts: Seq<TileView>, who: Seq<char>)
    ensures
        holders(ts).contains(who) <==> who.len() > 0 && exists|k: int|
            0 <= k < ts.len() && (#[trigger] ts[k]).card.claimed_by == who,
    decreases ts.len(),
{
    if ts.len() > 0 {
        let front = ts.drop_last();
        lemma_holders(front, who);
        let (now, before) = (holders(ts), holders(front));
        if now.contains(who) {
            let k = choose|k: int| 0 <= k < now.len() && now[k] == who;
            if k < before.len() {
                assert(before[k] == who);
                assert(before.contains(who));
                let j = choose|j: int| 0 <= j < front.len() && (#[trigger] front[j]).card.claimed_by == who;
                assert(ts[j].card.claimed_by == who);
            } else {
                assert(ts[ts.len() - 1].card.claimed_by == who);
            }
        }
        if who.len() > 0 && exists|k: int| 0 <= k < ts.len() && (#[trigger] ts[k]).card.claimed_by == who {
            let k = choose|k: int| 0 <= k < ts.len() && (#[trigger] ts[k]).card.claimed_by == who;
            if k < front.len() {
                assert(front[k].card.claimed_by == who);
                let j = choose|j: int| 0 <= j < before.len() && before[j] == who;
                assert(now[j] == who);
            } else {
                assert(now[now.len() - 1] == who);
            }
        }
    }
}

// ------------------------------------------------------------- the panels

/// How many of the names are this one.
pub open spec fn occurrences(v: Seq<Seq<char>>, name: Seq<char>) -> nat {
    v.filter(|x: Seq<char>| x == name).len()
}

/// Law: a tally has one row for each name that occurs, with how often it
/// does.
pub proof fn law_tally_counts_each_name(v: Seq<Seq<char>>, k: int)
    requires
        v.len() <= usize::MAX,
    ensures
        0 <= k < tally_of(v).len() ==> ({
            let (name, n) = tally_of(v)[k];
            v.contains(name) && n == occurrences(v, name)
        }),
        forall|x: Seq<char>| #[trigger] v.contains(x) ==> exists|j: int|
            0 <= j < tally_of(v).len() && (#[trigger] tally_of(v)[j]).0 == x,
        forall|i: int, j: int|
            0 <= i < j < tally_of(v).len() ==> (#[trigger] tally_of(v)[i]).0 != (#[trigger] tally_of(v)[j]).0,
{
    let names = names_once(v);
    let keys = tally_keys(v);
    let order = sorted_order(keys, Texts::Ascending);
    let rows = tally_of(v);
    law_names_told_once(v);
    lemma_names_len(v);
    lemma_order_exists(keys, Texts::Ascending);
    lemma_covers(order, names.len() as int);
    if 0 <= k < rows.len() {
        assert(order[k] < names.len());
        assert(names.contains(rows[k].0));
        lemma_times(v, rows[k].0);
    }
    assert forall|x: Seq<char>| #[trigger] v.contains(x) implies exists|j: int|
        0 <= j < rows.len() && (#[trigger] rows[j]).0 == x by {
        assert(names.contains(x));
        let m = choose|m: int| 0 <= m < names.len() && names[m] == x;
        assert(order.contains(m as usize));
        let j = choose|j: int| 0 <= j < order.len() && order[j] == m as usize;
        assert(rows[j].0 == x);
    }
    assert forall|i: int, j: int| 0 <= i < j < rows.len() implies (#[trigger] rows[i]).0 != (#[trigger] rows[j]).0 by {
        let (p, q) = (order[i] as int, order[j] as int);
        assert(order[i] < names.len() && order[j] < names.len());
        assert(p != q);
        assert(rows[i].0 == names[p] && rows[j].0 == names[q]);
        if p < q {
            assert(text_before(names[p], names[q]));
        } else {
            assert(text_before(names[q], names[p]));
        }
        crate::order::lemma_text_before_irreflexive(names[p]);
    }
}

proof fn lemma_times(v: Seq<Seq<char>>, name: Seq<char>)
    ensures
        times(v, name) == occurrences(v, name),
    decreases v.len(),
{
    reveal(Seq::filter);
    if v.len() > 0 {
        lemma_times(v.drop_last(), name);
    }
}

/// Law: the labels with bars are the six that most open cards have, each with
/// how many open cards have it; cards without a label count as `(none)`.
pub proof fn law_bars_count_open_cards(ts: Seq<TileView>, k: int)
    requires
        ts.len() <= usize::MAX,
        0 <= k < top_labels(ts).len(),
    ensures
        ({
            let rows = top_labels(ts);
            let name = |t: TileView| if t.card.label.len() == 0 { "(none)"@ } else { t.card.label };
            let names = ts.map_values(name);
            let (own, n) = rows[k];
            &&& rows.len() <= 6
            &&& names.contains(own)
            &&& n == occurrences(names, own)
            &&& forall|x: Seq<char>| #[trigger]
                names.contains(x) ==> (exists|j: int| 0 <= j < rows.len() && (#[trigger] rows[j]).0 == x) || (rows.len()
                    == 6 && occurrences(names, x) <= n)
        }),
{
    let v = label_names(ts);
    let name = |t: TileView| if t.card.label.len() == 0 { "(none)"@ } else { t.card.label };
    assert(v =~= ts.map_values(name));
    let all = tally_of(v);
    let rows = top_labels(ts);
    law_tally_counts_each_name(v, k);
    law_tally_is_ranked(v);
    assert(rows[k] == all[k]);
    assert forall|x: Seq<char>| #[trigger] v.contains(x) implies (exists|j: int|
        0 <= j < rows.len() && (#[trigger] rows[j]).0 == x) || (rows.len() == 6 && occurrences(v, x) <= rows[k].1) by {
        let j = choose|j: int| 0 <= j < all.len() && (#[trigger] all[j]).0 == x;
        law_tally_counts_each_name(v, j);
        if j < rows.len() {
            assert(rows[j].0 == x);
        } else {
            assert(all[k].1 >= all[j].1);
            assert(rows.len() == 6);
            assert(all[j] == (x, times(v, x)));
            lemma_times(v, x);
        }
    }
}

/// Law: a bar is as long in proportion as its count, rounded up: the largest
/// fills the width, and whatever is there is seen.
pub proof fn law_bar_is_in_proportion(n: nat, width: nat, max: nat)
    requires
        n <= max,
        max > 0,
    ensures
        share(n, width, max) <= width,
        n == max ==> share(n, width, max) == width,
        n == 0 ==> share(n, width, max) == 0,
        n > 0 && width > 0 ==> share(n, width, max) > 0,
        (share(n, width, max) - 1) * max < n * width <= share(n, width, max) * max,
{
    let q = (n * width + max - 1) / (max as int);
    assert(0 <= q <= width && (n == max ==> q == width) && (n == 0 ==> q == 0) && (n > 0 && width > 0 ==> q > 0) && (q
        - 1) * max < n * width <= q * max) by (nonlinear_arith)
        requires
            n <= max,
            max > 0,
            q == (n * width + max - 1) / (max as int),
    ;
}

/// Law: the spread of the priorities has twenty spans of 500 points, the last
/// of which takes the highest priority too; each open card counts in one.
pub proof fn law_spans_of_priorities(ts: Seq<TileView>, priority: int, k: int)
    requires
        0 <= priority <= 10000,
    ensures
        0 <= bucket(priority) < 20,
        500 * bucket(priority) <= priority,
        bucket(priority) < 19 ==> priority < 500 * (bucket(priority) + 1),
        priority < 500 ==> bucket(-priority) == 0,
        priority >= 500 ==> bucket(-priority) == 19,
        bucket(10000 + priority) == 19,
        in_bucket(ts, k) == ts.filter(|t: TileView| bucket(t.card.priority as int) == k).len(),
    decreases ts.len(),
{
    reveal(Seq::filter);
    if ts.len() > 0 {
        law_spans_of_priorities(ts.drop_last(), priority, k);
    }
}

// ------------------------------------------------------------- one card

/// Law: a card is drawn with its id first and its priority last on its first
/// line.
pub proof fn law_tile_begins_with_id_and_rank(t: TileView, w: nat, show_project: bool)
    ensures
        ({
            let ls = tile_lines(t, false, w, show_project);
            &&& starts_with(ls[0], "#"@ + dec(t.card.id as int) + " "@)
            &&& ends_with(ls[0], " "@ + align_right(dec(t.card.priority as int), 5))
            &&& ls.last().len() == 0
        }),
{
    let c = t.card;
    let id = "#"@ + dec(c.id as int);
    let room = less(w, id.len() + 8);
    let label = if c.label.len() == 0 { repeat(" "@, room) } else { cell(c.label, room) };
    assert(tile_lines(t, false, w, show_project)[0] == tile_head(c, false, w));
    lemma_head(id, " "@, label, align_right(dec(c.priority as int), 5));
}

/// Parts of the first line of a card.
proof fn lemma_head(id: Seq<char>, sp: Seq<char>, label: Seq<char>, rank: Seq<char>)
    ensures
        starts_with(id + sp + label + sp + rank, id + sp),
        ends_with(id + sp + label + sp + rank, sp + rank),
{
    let t = id + sp + label + sp + rank;
    assert(t.subrange(0, (id + sp).len() as int) =~= id + sp);
    let x = sp + rank;
    assert(t.skip(t.len() - x.len()) =~= x);
}

/// Law: below its first line a card is drawn with its project, where that is
/// asked for and there, its title, who holds it, what it waits on and its
/// commits, where it has them; and with nothing else.
pub proof fn law_tile_says_what_its_card_does(t: TileView, w: nat, show_project: bool)
    requires
        w >= 1,
    ensures
        ({
            let ls = tile_lines(t, false, w, show_project);
            let c = t.card;
            let title = wrapped(c.title, (w - 1) as nat, 2);
            let commits = nonblank(lines(c.commits));
            let a = if show_project && c.project.len() > 0 { 1int } else { 0 };
            let b = if c.claimed_by.len() > 0 { 1int } else { 0 };
            let d = if t.wait.len() > 0 { 1int } else { 0 };
            let n = 1 + a + title.len();
            &&& ls.len() == n + b + d + commits.len() + 1
            &&& a == 1 ==> ls[1] == cell(c.project, w)
            &&& forall|k: int| 0 <= k < title.len() ==> ls[1 + a + k] == padded(#[trigger] title[k], w)
            &&& b == 1 ==> ls[n] == cell("@"@ + c.claimed_by, w)
            &&& d == 1 ==> ls[n + b] == cell(t.wait, w)
            &&& forall|k: int|
                0 <= k < commits.len() ==> ls[n + b + d + k] == cell(
                    sha_and_subject(#[trigger] commits[k]).0 + " "@ + sha_and_subject(commits[k]).1,
                    w,
                )
        }),
{
}

} // verus!
