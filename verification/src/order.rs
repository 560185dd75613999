//! Text order and sorting: positions arranged by a key.

use vstd::prelude::*;

use crate::text::chars_of;

verus! {

/// `a` stands before `b` in the order of their characters.
pub open spec fn text_before(a: Seq<char>, b: Seq<char>) -> bool
    decreases a.len(),
{
    if b.len() == 0 {
        false
    } else if a.len() == 0 {
        true
    } else {
        a[0] < b[0] || (a[0] == b[0] && text_before(a.drop_first(), b.drop_first()))
    }
}

pub proof fn lemma_text_before_irreflexive(a: Seq<char>)
    ensures
        !text_before(a, a),
    decreases a.len(),
{
    if a.len() > 0 {
        lemma_text_before_irreflexive(a.drop_first());
    }
}

pub proof fn lemma_text_before_transitive(a: Seq<char>, b: Seq<char>, c: Seq<char>)
    requires
        text_before(a, b),
        text_before(b, c),
    ensures
        text_before(a, c),
    decreases a.len(),
{
    if a.len() > 0 && a[0] == b[0] && b[0] == c[0] {
        lemma_text_before_transitive(a.drop_first(), b.drop_first(), c.drop_first());
    }
}

pub proof fn lemma_text_before_total(a: Seq<char>, b: Seq<char>)
    ensures
        text_before(a, b) || a == b || text_before(b, a),
    decreases a.len(),
{
    if a.len() == 0 || b.len() == 0 {
        if a.len() == 0 && b.len() == 0 {
            assert(a =~= b);
        }
    } else if a[0] == b[0] {
        lemma_text_before_total(a.drop_first(), b.drop_first());
        if a.drop_first() == b.drop_first() {
            assert(a =~= seq![a[0]] + a.drop_first());
            assert(b =~= seq![b[0]] + b.drop_first());
        }
    }
}

/// Whether `a` stands before `b`.
pub fn is_before(a: &str, b: &str) -> (r: bool)
    ensures
        r == text_before(a@, b@),
{
    let x = chars_of(a);
    let y = chars_of(b);
    let mut i: usize = 0;
    assert(x@.skip(0) =~= a@);
    assert(y@.skip(0) =~= b@);
    while i < x.len() && i < y.len()
        invariant
            i <= x@.len(),
            i <= y@.len(),
            text_before(x@.skip(i as int), y@.skip(i as int)) == text_before(a@, b@),
        decreases x.len() - i,
    {
        assert(x@.skip(i as int).drop_first() =~= x@.skip(i + 1));
        assert(y@.skip(i as int).drop_first() =~= y@.skip(i + 1));
        if x[i] < y[i] {
            return true;
        }
        if x[i] != y[i] {
            return false;
        }
        i = i + 1;
    }
    i < y.len()
}

/// What a position is sorted by: a number first, then a text.
pub struct Key {
    pub number: i128,
    pub text: String,
}

/// The contents of a `Key`.
pub struct KeyView {
    pub number: int,
    pub text: Seq<char>,
}

impl View for Key {
    type V = KeyView;

    open spec fn view(&self) -> KeyView {
        KeyView { number: self.number as int, text: self.text@ }
    }
}

/// How the texts of equal numbers are arranged.
#[derive(Clone, Copy, Debug, PartialEq, Eq, Structural)]
pub enum Texts {
    Ascending,
    Descending,
}

/// Position `i` comes before position `j`: by the smaller number, then by
/// the text, then by the position itself.
pub open spec fn comes_before(keys: Seq<KeyView>, texts: Texts, i: int, j: int) -> bool {
    let (a, b) = (keys[i], keys[j]);
    if a.number != b.number {
        a.number < b.number
    } else if a.text != b.text {
        match texts {
            Texts::Ascending => text_before(a.text, b.text),
            Texts::Descending => text_before(b.text, a.text),
        }
    } else {
        i < j
    }
}

/// The keys behind a vector.
pub open spec fn key_views(v: Seq<Key>) -> Seq<KeyView> {
    v.map_values(|k: Key| k@)
}

/// `order` holds the positions below `n`, each once.
pub open spec fn holds_positions(order: Seq<usize>, n: int) -> bool {
    &&& order.len() == n
    &&& order.no_duplicates()
    &&& forall|k: int| 0 <= k < order.len() ==> (#[trigger] order[k]) < n
}

/// Each position in `order` comes before those after it.
pub open spec fn in_order(keys: Seq<KeyView>, texts: Texts, order: Seq<usize>) -> bool {
    forall|a: int, b: int|
        0 <= a < b < order.len() ==> comes_before(keys, texts, #[trigger] order[a] as int, #[trigger] order[b] as int)
}

/// `order` is all positions of `keys`, sorted.
pub open spec fn sorts(keys: Seq<KeyView>, texts: Texts, order: Seq<usize>) -> bool {
    holds_positions(order, keys.len() as int) && in_order(keys, texts, order)
}

/// The one sorted order of the positions.
pub open spec fn sorted_order(keys: Seq<KeyView>, texts: Texts) -> Seq<usize> {
    choose|order: Seq<usize>| #[trigger] sorts(keys, texts, order)
}

pub proof fn lemma_comes_before_total(keys: Seq<KeyView>, texts: Texts, i: int, j: int)
    requires
        i != j,
    ensures
        comes_before(keys, texts, i, j) <==> !comes_before(keys, texts, j, i),
{
    let (a, b) = (keys[i], keys[j]);
    lemma_text_before_total(a.text, b.text);
    if text_before(a.text, b.text) && text_before(b.text, a.text) {
        lemma_text_before_transitive(a.text, b.text, a.text);
        lemma_text_before_irreflexive(a.text);
    }
}

pub proof fn lemma_comes_before_transitive(keys: Seq<KeyView>, texts: Texts, i: int, j: int, k: int)
    requires
        comes_before(keys, texts, i, j),
        comes_before(keys, texts, j, k),
    ensures
        comes_before(keys, texts, i, k),
{
    let (a, b, c) = (keys[i], keys[j], keys[k]);
    if a.number == b.number && b.number == c.number && a.text != b.text && b.text != c.text {
        match texts {
            Texts::Ascending => {
                lemma_text_before_transitive(a.text, b.text, c.text);
                lemma_text_before_irreflexive(a.text);
            },
            Texts::Descending => {
                lemma_text_before_transitive(c.text, b.text, a.text);
                lemma_text_before_irreflexive(a.text);
            },
        }
    }
}

/// Law: there is one sorted order of the positions and no other.
pub proof fn law_sorted_order_unique(keys: Seq<KeyView>, texts: Texts, a: Seq<usize>, b: Seq<usize>)
    requires
        sorts(keys, texts, a),
        sorts(keys, texts, b),
    ensures
        a == b,
{
    lemma_same_members(a, b, keys.len() as int);
    lemma_sorted_agree(keys, texts, a, b, a.len() as int);
    assert(a =~= b);
}

/// Two arrangements of the positions below `n` hold the same positions.
proof fn lemma_same_members(a: Seq<usize>, b: Seq<usize>, n: int)
    requires
        holds_positions(a, n),
        holds_positions(b, n),
    ensures
        forall|x: usize| a.contains(x) ==> b.contains(x),
        forall|x: usize| b.contains(x) ==> a.contains(x),
{
    lemma_covers(a, n);
    lemma_covers(b, n);
}

/// `n` different positions below `n` are all of them.
pub proof fn lemma_covers(a: Seq<usize>, n: int)
    requires
        holds_positions(a, n),
    ensures
        forall|x: usize| x < n ==> a.contains(x),
{
    let below = Set::new(|x: int| 0 <= x < n);
    let got = a.map_values(|x: usize| x as int);
    assert(got.no_duplicates()) by {
        assert forall|i: int, j: int| 0 <= i < got.len() && 0 <= j < got.len() && i != j implies got[i] != got[j] by {
            assert(a[i] != a[j]);
        }
    }
    got.unique_seq_to_set();
    vstd::set_lib::lemma_int_range(0, n);
    assert(below =~= vstd::set_lib::set_int_range(0, n));
    assert(got.to_set().subset_of(below)) by {
        assert forall|x: int| got.to_set().contains(x) implies below.contains(x) by {
            let k = choose|k: int| 0 <= k < got.len() && got[k] == x;
            assert(a[k] < n);
        }
    }
    vstd::set_lib::lemma_subset_equality(got.to_set(), below);
    assert forall|x: usize| x < n implies a.contains(x) by {
        assert(below.contains(x as int));
        assert(got.to_set().contains(x as int));
        let k = choose|k: int| 0 <= k < got.len() && got[k] == x as int;
        assert(a[k] == x);
    }
}

proof fn lemma_sorted_agree(keys: Seq<KeyView>, texts: Texts, a: Seq<usize>, b: Seq<usize>, k: int)
    requires
        sorts(keys, texts, a),
        sorts(keys, texts, b),
        forall|x: usize| a.contains(x) ==> b.contains(x),
        forall|x: usize| b.contains(x) ==> a.contains(x),
        0 <= k <= a.len(),
    ensures
        forall|i: int| 0 <= i < k ==> a[i] == b[i],
    decreases k,
{
    if k > 0 {
        lemma_sorted_agree(keys, texts, a, b, k - 1);
        let x = a[k - 1];
        let y = b[k - 1];
        assert(a.contains(x));
        assert(b.contains(y));
        if x != y {
            let i = choose|i: int| 0 <= i < b.len() && b[i] == x;
            let j = choose|j: int| 0 <= j < a.len() && a[j] == y;
            if i < k - 1 {
                assert(a[i] == b[i]);
            }
            if j < k - 1 {
                assert(a[j] == b[j]);
            }
            assert(comes_before(keys, texts, b[k - 1] as int, b[i] as int));
            assert(comes_before(keys, texts, a[k - 1] as int, a[j] as int));
            lemma_comes_before_total(keys, texts, x as int, y as int);
        }
    }
}

/// Whether position `i` comes before position `j`.
fn earlier(keys: &Vec<Key>, texts: Texts, i: usize, j: usize) -> (r: bool)
    requires
        i < keys@.len(),
        j < keys@.len(),
    ensures
        r == comes_before(key_views(keys@), texts, i as int, j as int),
{
    let ghost (a, b) = (key_views(keys@)[i as int], key_views(keys@)[j as int]);
    if keys[i].number != keys[j].number {
        return keys[i].number < keys[j].number;
    }
    let less = is_before(keys[i].text.as_str(), keys[j].text.as_str());
    let more = is_before(keys[j].text.as_str(), keys[i].text.as_str());
    proof {
        lemma_text_before_total(a.text, b.text);
        lemma_text_before_irreflexive(a.text);
        if less && more {
            lemma_text_before_transitive(a.text, b.text, a.text);
        }
    }
    if less || more {
        match texts {
            Texts::Ascending => less,
            Texts::Descending => more,
        }
    } else {
        i < j
    }
}

/// A position put where it belongs keeps the order.
proof fn lemma_inserted(kv: Seq<KeyView>, texts: Texts, before: Seq<usize>, i: int, at: int)
    requires
        0 <= i < kv.len(),
        i <= usize::MAX,
        holds_positions(before, i),
        in_order(kv, texts, before),
        0 <= at <= before.len(),
        forall|k: int| 0 <= k < at ==> comes_before(kv, texts, #[trigger] before[k] as int, i),
        at < before.len() ==> comes_before(kv, texts, i, before[at] as int),
    ensures
        holds_positions(before.insert(at, i as usize), i + 1),
        in_order(kv, texts, before.insert(at, i as usize)),
{
    let out = before.insert(at, i as usize);
    assert forall|a: int, b: int| 0 <= a < b < out.len() implies comes_before(
        kv,
        texts,
        #[trigger] out[a] as int,
        #[trigger] out[b] as int,
    ) by {
        let oa = if a < at { a } else { a - 1 };
        let ob = if b < at { b } else { b - 1 };
        if a == at {
            assert(out[b] == before[ob]);
            if ob > at {
                assert(comes_before(kv, texts, before[at] as int, before[ob] as int));
                lemma_comes_before_transitive(
                    kv,
                    texts,
                    i,
                    before[at] as int,
                    before[ob] as int,
                );
            }
        } else if b == at {
            assert(out[a] == before[a]);
        } else {
            assert(out[a] == before[oa]);
            assert(out[b] == before[ob]);
        }
    }
    assert forall|k: int| 0 <= k < out.len() implies (#[trigger] out[k]) < i + 1 by {
        if k != at {
            let ok = if k < at { k } else { k - 1 };
            assert(out[k] == before[ok]);
        }
    }
    assert(out.no_duplicates()) by {
        assert forall|a: int, b: int| 0 <= a < out.len() && 0 <= b < out.len() && a != b implies out[a]
            != out[b] by {
            if a != at {
                let oa = if a < at { a } else { a - 1 };
                assert(out[a] == before[oa]);
            }
            if b != at {
                let ob = if b < at { b } else { b - 1 };
                assert(out[b] == before[ob]);
            }
        }
    }
}

/// The positions of any keys can be sorted.
pub proof fn lemma_order_exists(keys: Seq<KeyView>, texts: Texts)
    requires
        keys.len() <= usize::MAX,
    ensures
        sorts(keys, texts, sorted_order(keys, texts)),
{
    let order = lemma_prefix_sorted(keys, texts, keys.len() as int);
    assert(sorts(keys, texts, order));
}

proof fn lemma_prefix_sorted(keys: Seq<KeyView>, texts: Texts, n: int) -> (order: Seq<usize>)
    requires
        0 <= n <= keys.len() <= usize::MAX,
    ensures
        holds_positions(order, n),
        in_order(keys, texts, order),
    decreases n,
{
    if n == 0 {
        Seq::empty()
    } else {
        let before = lemma_prefix_sorted(keys, texts, n - 1);
        let at = lemma_place_for(keys, texts, before, n - 1, 0);
        lemma_inserted(keys, texts, before, n - 1, at);
        before.insert(at, (n - 1) as usize)
    }
}

proof fn lemma_place_for(keys: Seq<KeyView>, texts: Texts, before: Seq<usize>, i: int, from: int) -> (at: int)
    requires
        holds_positions(before, i),
        0 <= from <= before.len(),
        forall|k: int| 0 <= k < from ==> comes_before(keys, texts, #[trigger] before[k] as int, i),
    ensures
        from <= at <= before.len(),
        forall|k: int| 0 <= k < at ==> comes_before(keys, texts, #[trigger] before[k] as int, i),
        at < before.len() ==> comes_before(keys, texts, i, before[at] as int),
    decreases before.len() - from,
{
    if from == before.len() || comes_before(keys, texts, i, before[from] as int) {
        from
    } else {
        lemma_comes_before_total(keys, texts, before[from] as int, i);
        lemma_place_for(keys, texts, before, i, from + 1)
    }
}

/// The positions of the keys, sorted.
pub fn sorted(keys: &Vec<Key>, texts: Texts) -> (out: Vec<usize>)
    ensures
        sorts(key_views(keys@), texts, out@),
        out@ == sorted_order(key_views(keys@), texts),
{
    let mut out: Vec<usize> = Vec::new();
    let ghost kv = key_views(keys@);
    let mut i: usize = 0;
    while i < keys.len()
        invariant
            i <= keys@.len(),
            kv == key_views(keys@),
            holds_positions(out@, i as int),
            in_order(kv, texts, out@),
        decreases keys.len() - i,
    {
        let mut at: usize = 0;
        while at < out.len() && !earlier(keys, texts, i, out[at])
            invariant
                i < keys@.len(),
                at <= out@.len(),
                kv == key_views(keys@),
                holds_positions(out@, i as int),
                in_order(kv, texts, out@),
                forall|k: int| 0 <= k < at ==> comes_before(kv, texts, #[trigger] out@[k] as int, i as int),
            decreases out.len() - at,
        {
            proof {
                lemma_comes_before_total(kv, texts, out@[at as int] as int, i as int);
            }
            at = at + 1;
        }
        let ghost before = out@;
        out.insert(at, i);
        proof {
            lemma_inserted(kv, texts, before, i as int, at as int);
            assert(out@ =~= before.insert(at as int, i));
        }
        i = i + 1;
    }
    proof {
        law_sorted_order_unique(kv, texts, out@, sorted_order(kv, texts));
    }
    out
}

} // verus!
