//! Names and how often each occurs: most frequent first, then by name.

use vstd::prelude::*;

use crate::order::{
    comes_before, is_before, key_views, lemma_order_exists, lemma_text_before_irreflexive, lemma_text_before_total,
    lemma_text_before_transitive, sorted, sorted_order, text_before, Key, KeyView, Texts,
};
use crate::text::{copy, same, texts};

verus! {

/// A name put where it belongs in an ordered list, unless it is there.
pub open spec fn inserted(v: Seq<Seq<char>>, t: Seq<char>) -> Seq<Seq<char>>
    decreases v.len(),
{
    if v.len() == 0 || text_before(v.last(), t) {
        v.push(t)
    } else if v.last() == t {
        v
    } else {
        inserted(v.drop_last(), t).push(v.last())
    }
}

/// The names that occur, each once, in order.
pub open spec fn names_once(v: Seq<Seq<char>>) -> Seq<Seq<char>>
    decreases v.len(),
{
    if v.len() == 0 {
        Seq::empty()
    } else {
        inserted(names_once(v.drop_last()), v.last())
    }
}

/// How often a name occurs.
pub open spec fn times(v: Seq<Seq<char>>, name: Seq<char>) -> nat
    decreases v.len(),
{
    if v.len() == 0 {
        0
    } else {
        times(v.drop_last(), name) + if v.last() == name {
            1nat
        } else {
            0nat
        }
    }
}

/// What the names are ranked by: how often they occur, most first, then the
/// name.
pub open spec fn tally_keys(v: Seq<Seq<char>>) -> Seq<KeyView> {
    names_once(v).map_values(|n: Seq<char>| KeyView { number: -(times(v, n) as int), text: n })
}

/// The names with their counts, ranked.
pub open spec fn tally_of(v: Seq<Seq<char>>) -> Seq<(Seq<char>, nat)> {
    sorted_order(tally_keys(v), Texts::Ascending).map_values(
        |p: usize| (names_once(v)[p as int], times(v, names_once(v)[p as int])),
    )
}

/// Each name comes before those after it.
pub open spec fn ascending(v: Seq<Seq<char>>) -> bool {
    forall|i: int, j: int| 0 <= i < j < v.len() ==> text_before(#[trigger] v[i], #[trigger] v[j])
}

proof fn lemma_inserted(v: Seq<Seq<char>>, t: Seq<char>)
    requires
        ascending(v),
    ensures
        ascending(inserted(v, t)),
        forall|x: Seq<char>| #[trigger] inserted(v, t).contains(x) <==> v.contains(x) || x == t,
    decreases v.len(),
{
    let w = inserted(v, t);
    if v.len() == 0 || text_before(v.last(), t) {
        assert forall|i: int, j: int| 0 <= i < j < w.len() implies text_before(#[trigger] w[i], #[trigger] w[j]) by {
            if j == v.len() && i < v.len() - 1 {
                assert(text_before(v[i], v[v.len() - 1]));
                lemma_text_before_transitive(v[i], v.last(), t);
            }
        }
        assert forall|x: Seq<char>| #[trigger] w.contains(x) <==> v.contains(x) || x == t by {
            if v.contains(x) {
                let i = choose|i: int| 0 <= i < v.len() && v[i] == x;
                assert(w[i] == x);
            }
            if x == t {
                assert(w[v.len() as int] == x);
            }
            if w.contains(x) && x != t {
                let i = choose|i: int| 0 <= i < w.len() && w[i] == x;
                assert(v[i] == x);
            }
        }
    } else if v.last() == t {
        assert(v[v.len() - 1] == t);
        assert(v.contains(t));
    } else {
        let front = v.drop_last();
        assert forall|i: int, j: int| 0 <= i < j < front.len() implies text_before(
            #[trigger] front[i],
            #[trigger] front[j],
        ) by {
            assert(text_before(v[i], v[j]));
        }
        lemma_inserted(front, t);
        lemma_text_before_total(v.last(), t);
        let mid = inserted(front, t);
        assert forall|i: int, j: int| 0 <= i < j < w.len() implies text_before(#[trigger] w[i], #[trigger] w[j]) by {
            if j == mid.len() {
                assert(mid.contains(mid[i]));
                if front.contains(mid[i]) {
                    let k = choose|k: int| 0 <= k < front.len() && front[k] == mid[i];
                    assert(text_before(v[k], v[v.len() - 1]));
                }
            } else {
                assert(w[i] == mid[i] && w[j] == mid[j]);
            }
        }
        assert forall|x: Seq<char>| #[trigger] w.contains(x) <==> v.contains(x) || x == t by {
            if w.contains(x) {
                let i = choose|i: int| 0 <= i < w.len() && w[i] == x;
                if i < mid.len() {
                    assert(mid[i] == x);
                    assert(mid.contains(x));
                    if front.contains(x) {
                        let k = choose|k: int| 0 <= k < front.len() && front[k] == x;
                        assert(v[k] == x);
                    }
                } else {
                    assert(v[v.len() - 1] == x);
                }
            }
            if v.contains(x) {
                let k = choose|k: int| 0 <= k < v.len() && v[k] == x;
                if k < front.len() {
                    assert(front[k] == x);
                    assert(front.contains(x));
                    assert(mid.contains(x));
                    let i = choose|i: int| 0 <= i < mid.len() && mid[i] == x;
                    assert(w[i] == x);
                } else {
                    assert(w[mid.len() as int] == x);
                }
            }
            if x == t {
                assert(mid.contains(x));
                let i = choose|i: int| 0 <= i < mid.len() && mid[i] == x;
                assert(w[i] == x);
            }
        }
    }
}

/// Law: the names are told once each, in order, and none that occurs is left
/// out.
pub proof fn law_names_told_once(v: Seq<Seq<char>>)
    ensures
        ascending(names_once(v)),
        forall|x: Seq<char>| #[trigger] names_once(v).contains(x) <==> v.contains(x),
    decreases v.len(),
{
    if v.len() > 0 {
        let front = v.drop_last();
        law_names_told_once(front);
        lemma_inserted(names_once(front), v.last());
        assert forall|x: Seq<char>| #[trigger] names_once(v).contains(x) <==> v.contains(x) by {
            if v.contains(x) {
                let k = choose|k: int| 0 <= k < v.len() && v[k] == x;
                if k < front.len() {
                    assert(front[k] == x);
                    assert(front.contains(x));
                    assert(names_once(front).contains(x));
                }
            }
            if names_once(v).contains(x) {
                if names_once(front).contains(x) {
                    assert(front.contains(x));
                    let k = choose|k: int| 0 <= k < front.len() && front[k] == x;
                    assert(v[k] == x);
                } else {
                    assert(v[v.len() - 1] == x);
                }
            }
        }
    }
}

proof fn lemma_inserted_len(v: Seq<Seq<char>>, t: Seq<char>)
    ensures
        inserted(v, t).len() <= v.len() + 1,
    decreases v.len(),
{
    if v.len() > 0 {
        lemma_inserted_len(v.drop_last(), t);
    }
}

/// There are no more names than there were.
pub proof fn lemma_names_len(v: Seq<Seq<char>>)
    ensures
        names_once(v).len() <= v.len(),
    decreases v.len(),
{
    if v.len() > 0 {
        lemma_names_len(v.drop_last());
        lemma_inserted_len(names_once(v.drop_last()), v.last());
    }
}

/// Law: a name that occurs more often stands before one that occurs less
/// often, and of two that occur equally often the earlier name stands first.
pub proof fn law_tally_is_ranked(v: Seq<Seq<char>>)
    requires
        v.len() <= usize::MAX,
    ensures
        forall|i: int, j: int|
            0 <= i < j < tally_of(v).len() ==> (#[trigger] tally_of(v)[i]).1 > (#[trigger] tally_of(v)[j]).1 || (
            tally_of(v)[i].1 == tally_of(v)[j].1 && text_before(tally_of(v)[i].0, tally_of(v)[j].0)),
{
    let keys = tally_keys(v);
    let order = sorted_order(keys, Texts::Ascending);
    lemma_names_len(v);
    law_names_told_once(v);
    lemma_order_exists(keys, Texts::Ascending);
    let rows = tally_of(v);
    assert forall|i: int, j: int| 0 <= i < j < rows.len() implies (#[trigger] rows[i]).1 > (#[trigger] rows[j]).1 || (
    rows[i].1 == rows[j].1 && text_before(rows[i].0, rows[j].0)) by {
        let (a, b) = (order[i] as int, order[j] as int);
        assert(comes_before(keys, Texts::Ascending, a, b));
        assert(order[i] < keys.len() && order[j] < keys.len());
        if keys[a].number == keys[b].number && keys[a].text == keys[b].text {
            assert(text_before(names_once(v)[a], names_once(v)[b]));
            lemma_text_before_irreflexive(names_once(v)[a]);
        }
    }
}

/// Puts a name where it belongs in an ordered list, unless it is there.
pub fn insert_name(v: &mut Vec<String>, t: &str)
    ensures
        texts(final(v)@) == inserted(texts(old(v)@), t@),
{
    let ghost start = texts(v@);
    let n: usize = v.len();
    let mut k: usize = n;
    assert(start.len() == n);
    assert(start.take(k as int) =~= start);
    assert(inserted(start.take(k as int), t@) + start.skip(k as int) =~= inserted(start, t@));
    while k > 0 && !is_before(v[k - 1].as_str(), t)
        invariant
            k <= n,
            n == v@.len(),
            texts(v@) == start,
            start.len() == n,
            inserted(start.take(k as int), t@) + start.skip(k as int) == inserted(start, t@),
        decreases k,
    {
        assert(start[k - 1] == v@[k - 1]@);
        assert(start.take(k as int).last() == start[k - 1]);
        assert(start.take(k as int).drop_last() =~= start.take(k - 1));
        if same(v[k - 1].as_str(), t) {
            assert(inserted(start.take(k as int), t@) == start.take(k as int));
            assert(start.take(k as int) + start.skip(k as int) =~= start);
            return;
        }
        assert(inserted(start.take(k - 1), t@) + start.skip(k - 1) =~= inserted(start.take(k as int), t@) + start.skip(
            k as int,
        ));
        k = k - 1;
    }
    if k > 0 {
        assert(start[k - 1] == v@[k - 1]@);
        assert(start.take(k as int).last() == start[k - 1]);
    }
    v.insert(k, copy(t));
    assert(texts(v@) =~= start.take(k as int).push(t@) + start.skip(k as int));
}

/// The names that occur, each once, in order.
pub fn distinct_names(v: &Vec<String>) -> (out: Vec<String>)
    ensures
        texts(out@) == names_once(texts(v@)),
{
    let ghost all = texts(v@);
    let mut out: Vec<String> = Vec::new();
    let mut i: usize = 0;
    assert(texts(out@) =~= names_once(all.take(0)));
    while i < v.len()
        invariant
            i <= v@.len(),
            all == texts(v@),
            texts(out@) == names_once(all.take(i as int)),
        decreases v.len() - i,
    {
        assert(all.take(i + 1).drop_last() =~= all.take(i as int));
        assert(all.take(i + 1).last() == v@[i as int]@);
        insert_name(&mut out, v[i].as_str());
        i = i + 1;
    }
    assert(all.take(i as int) =~= all);
    out
}

/// How often a name occurs.
pub fn count(v: &Vec<String>, name: &str) -> (n: usize)
    ensures
        n == times(texts(v@), name@),
        n <= v@.len(),
{
    let ghost all = texts(v@);
    let mut n: usize = 0;
    let mut i: usize = 0;
    while i < v.len()
        invariant
            i <= v@.len(),
            all == texts(v@),
            n == times(all.take(i as int), name@),
            n <= i,
        decreases v.len() - i,
    {
        assert(all.take(i + 1).drop_last() =~= all.take(i as int));
        assert(all.take(i + 1).last() == v@[i as int]@);
        if same(v[i].as_str(), name) {
            n = n + 1;
        }
        i = i + 1;
    }
    assert(all.take(i as int) =~= all);
    n
}

/// What each of several rows says.
pub open spec fn row_views(v: Seq<(String, usize)>) -> Seq<(Seq<char>, nat)> {
    v.map_values(|r: (String, usize)| (r.0@, r.1 as nat))
}

/// The names with their counts, ranked.
pub fn tally(v: &Vec<String>) -> (out: Vec<(String, usize)>)
    ensures
        row_views(out@) == tally_of(texts(v@)),
{
    let ghost tv = texts(v@);
    let names = distinct_names(v);
    let ghost nv = names_once(tv);
    let ghost wanted = tally_keys(tv);
    let mut keys: Vec<Key> = Vec::new();
    let mut i: usize = 0;
    while i < names.len()
        invariant
            i <= names@.len(),
            tv == texts(v@),
            texts(names@) == nv,
            nv == names_once(tv),
            wanted == tally_keys(tv),
            key_views(keys@) == wanted.take(i as int),
        decreases names.len() - i,
    {
        assert(nv[i as int] == names@[i as int]@);
        let n: usize = count(v, names[i].as_str());
        let k = Key { number: -(n as i128), text: names[i].clone() };
        assert(k@ == wanted[i as int]);
        let ghost before = key_views(keys@);
        keys.push(k);
        assert(key_views(keys@) =~= before.push(k@));
        assert(wanted.take(i + 1) =~= wanted.take(i as int).push(wanted[i as int]));
        i = i + 1;
    }
    assert(texts(names@).len() == names@.len());
    assert(wanted.take(i as int) =~= wanted);
    let order = sorted(&keys, Texts::Ascending);
    let ghost all = tally_of(tv);
    let mut out: Vec<(String, usize)> = Vec::new();
    let mut j: usize = 0;
    assert(row_views(out@) =~= all.take(0));
    while j < order.len()
        invariant
            j <= order@.len(),
            tv == texts(v@),
            texts(names@) == nv,
            nv == names_once(tv),
            nv.len() == names@.len(),
            forall|k: int| 0 <= k < order@.len() ==> (#[trigger] order@[k]) < names@.len(),
            order@ == sorted_order(tally_keys(tv), Texts::Ascending),
            all == tally_of(tv),
            row_views(out@) == all.take(j as int),
        decreases order.len() - j,
    {
        assert(order@[j as int] < names@.len());
        let p: usize = order[j];
        assert(nv[p as int] == names@[p as int]@);
        let n: usize = count(v, names[p].as_str());
        let ghost before = row_views(out@);
        out.push((names[p].clone(), n));
        assert(row_views(out@) =~= before.push(all[j as int]));
        assert(all.take(j + 1) =~= all.take(j as int).push(all[j as int]));
        j = j + 1;
    }
    assert(all.take(j as int) =~= all);
    out
}

} // verus!
