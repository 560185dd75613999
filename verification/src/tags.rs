//! A card's label is a list of tags. Given with commas or spaces, it is kept
//! as `a,b,c`, with no blanks and no repeats.

use vstd::prelude::*;

use crate::text::{
    among, chars_of, contains, copy, cut_at, cuts, has, join, joined, keep_nonempty, lemma_pieces_uncut, lemma_split_join,
    nonempty, occurs_at, pieces, split, texts, Sep,
};

verus! {

/// Each text at its first place, later repeats left out.
pub open spec fn first_seen(v: Seq<Seq<char>>) -> Seq<Seq<char>>
    decreases v.len(),
{
    if v.len() == 0 {
        v
    } else {
        let before = first_seen(v.drop_last());
        if before.contains(v.last()) {
            before
        } else {
            before.push(v.last())
        }
    }
}

/// The tags of a label.
pub open spec fn tags(label: Seq<char>) -> Seq<Seq<char>> {
    first_seen(nonempty(split(label, Sep::Tag)))
}

/// The form a label is kept in.
pub open spec fn normal(label: Seq<char>) -> Seq<char> {
    join(tags(label), ","@)
}

/// A tag: at least one character, with no comma and no white space.
pub open spec fn is_tag(t: Seq<char>) -> bool {
    t.len() > 0 && forall|i: int| 0 <= i < t.len() ==> !cuts(Sep::Tag, #[trigger] t[i])
}

/// Nothing but tags, and none twice.
pub open spec fn tag_list(v: Seq<Seq<char>>) -> bool {
    v.no_duplicates() && forall|k: int| 0 <= k < v.len() ==> is_tag(#[trigger] v[k])
}

/// The label between commas.
pub open spec fn fenced(label: Seq<char>) -> Seq<char> {
    ","@ + label + ","@
}

/// The label carries this tag: it is one of its tags.
pub open spec fn carries(label: Seq<char>, tag: Seq<char>) -> bool {
    tags(label).contains(tag)
}

/// The label passes a filter: the two share a tag, or the label is empty
/// where the filter names none.
pub open spec fn passes(label: Seq<char>, filter: Seq<char>) -> bool {
    if tags(filter).len() == 0 {
        label.len() == 0
    } else {
        exists|t: Seq<char>| #[trigger] tags(filter).contains(t) && carries(label, t)
    }
}

/// The label is marked with a value: it carries it, where the value is a
/// tag. Any other value has to stand in the label from comma to comma: the
/// empty one does so only in the empty label, and `a,b` in one that has `b`
/// right after `a`.
pub open spec fn marked(label: Seq<char>, value: Seq<char>) -> bool {
    if is_tag(value) {
        carries(label, value)
    } else {
        contains(fenced(label), fenced(value))
    }
}

/// The tags of `v` that are not among `drop`, in order.
pub open spec fn without(v: Seq<Seq<char>>, drop: Seq<Seq<char>>) -> Seq<Seq<char>>
    decreases v.len(),
{
    if v.len() == 0 {
        v
    } else if drop.contains(v.last()) {
        without(v.drop_last(), drop)
    } else {
        without(v.drop_last(), drop).push(v.last())
    }
}

/// The tags of several labels, one label after the other.
pub open spec fn tags_of_all(v: Seq<Seq<char>>) -> Seq<Seq<char>>
    decreases v.len(),
{
    if v.len() == 0 {
        v
    } else {
        tags_of_all(v.drop_last()) + tags(v.last())
    }
}

/// `v` followed by those of `more` that it does not hold yet.
pub open spec fn extended(v: Seq<Seq<char>>, more: Seq<Seq<char>>) -> Seq<Seq<char>>
    decreases more.len(),
{
    if more.len() == 0 {
        v
    } else {
        let before = extended(v, more.drop_last());
        if before.contains(more.last()) {
            before
        } else {
            before.push(more.last())
        }
    }
}

// ----------------------------------------------------------------- facts

proof fn lemma_nonempty(v: Seq<Seq<char>>)
    ensures
        forall|k: int| 0 <= k < nonempty(v).len() ==> (#[trigger] nonempty(v)[k]).len() > 0 && v.contains(
            nonempty(v)[k],
        ),
    decreases v.len(),
{
    if v.len() > 0 {
        lemma_nonempty(v.drop_last());
        let n = nonempty(v);
        assert forall|k: int| 0 <= k < n.len() implies (#[trigger] n[k]).len() > 0 && v.contains(n[k]) by {
            if v.last().len() > 0 && k == n.len() - 1 {
                assert(n[k] == v[v.len() - 1]);
            } else {
                assert(n[k] == nonempty(v.drop_last())[k]);
                let j = choose|j: int| 0 <= j < v.drop_last().len() && v.drop_last()[j] == n[k];
                assert(v[j] == n[k]);
            }
        }
    }
}

proof fn lemma_nonempty_keeps(v: Seq<Seq<char>>)
    requires
        forall|k: int| 0 <= k < v.len() ==> (#[trigger] v[k]).len() > 0,
    ensures
        nonempty(v) == v,
    decreases v.len(),
{
    if v.len() > 0 {
        let w = v.drop_last();
        assert forall|k: int| 0 <= k < w.len() implies (#[trigger] w[k]).len() > 0 by {
            assert(w[k] == v[k]);
        }
        lemma_nonempty_keeps(w);
        assert(v[v.len() - 1].len() > 0);
        assert(w.push(v.last()) =~= v);
    }
}

/// What is left is distinct, and the same texts as before.
proof fn lemma_first_seen(v: Seq<Seq<char>>)
    ensures
        first_seen(v).no_duplicates(),
        forall|x: Seq<char>|
            #![trigger first_seen(v).contains(x)]
            #![trigger v.contains(x)]
            first_seen(v).contains(x) <==> v.contains(x),
    decreases v.len(),
{
    if v.len() > 0 {
        lemma_first_seen(v.drop_last());
        let before = first_seen(v.drop_last());
        let now = first_seen(v);
        assert forall|x: Seq<char>|
            #![trigger now.contains(x)]
            #![trigger v.contains(x)]
            now.contains(x) <==> v.contains(x) by {
            if v.contains(x) {
                let k = choose|k: int| 0 <= k < v.len() && v[k] == x;
                if k < v.len() - 1 {
                    assert(v.drop_last()[k] == x);
                    assert(v.drop_last().contains(x));
                    assert(before.contains(x));
                    let j = choose|j: int| 0 <= j < before.len() && before[j] == x;
                    assert(now[j] == x);
                } else if !before.contains(x) {
                    assert(now[now.len() - 1] == x);
                }
            }
            if now.contains(x) {
                let k = choose|k: int| 0 <= k < now.len() && now[k] == x;
                if k < before.len() {
                    assert(before[k] == x);
                    assert(before.contains(x));
                    assert(v.drop_last().contains(x));
                    let j = choose|j: int| 0 <= j < v.drop_last().len() && v.drop_last()[j] == x;
                    assert(v[j] == x);
                } else {
                    assert(v[v.len() - 1] == x);
                }
            }
        }
    }
}

proof fn lemma_first_seen_keeps(v: Seq<Seq<char>>)
    requires
        v.no_duplicates(),
    ensures
        first_seen(v) == v,
    decreases v.len(),
{
    if v.len() > 0 {
        lemma_first_seen_keeps(v.drop_last());
        if v.drop_last().contains(v.last()) {
            let k = choose|k: int| 0 <= k < v.drop_last().len() && v.drop_last()[k] == v.last();
            assert(v[k] == v[v.len() - 1]);
        }
        assert(v.drop_last().push(v.last()) =~= v);
    }
}

/// Law: the tags of a label are distinct, none is empty, and none holds a
/// comma or white space.
pub proof fn law_tags_are_clean(label: Seq<char>)
    ensures
        tag_list(tags(label)),
{
    let p = split(label, Sep::Tag);
    let n = nonempty(p);
    lemma_pieces_uncut(label, Sep::Tag);
    lemma_nonempty(p);
    lemma_first_seen(n);
    let t = tags(label);
    assert forall|k: int| 0 <= k < t.len() implies is_tag(#[trigger] t[k]) by {
        assert(t.contains(t[k]));
        assert(n.contains(t[k]));
        let j = choose|j: int| 0 <= j < n.len() && n[j] == t[k];
        assert(n[j].len() > 0);
        let i = choose|i: int| 0 <= i < p.len() && p[i] == t[k];
        assert forall|m: int| 0 <= m < t[k].len() implies !cuts(Sep::Tag, #[trigger] t[k][m]) by {
            assert(!cuts(Sep::Tag, p[i][m]));
        }
    }
}

/// Law: joined with commas, a list of tags is read back as that list.
pub proof fn law_tags_read_back(v: Seq<Seq<char>>)
    requires
        tag_list(v),
    ensures
        tags(join(v, ","@)) == v,
{
    if v.len() == 0 {
        let none = Seq::<char>::empty();
        assert(split(none, Sep::Tag) =~= seq![none]);
        assert(seq![none].last().len() == 0);
        assert(nonempty(seq![none].drop_last()) =~= Seq::<Seq<char>>::empty());
        assert(nonempty(seq![none]) =~= v);
        assert(first_seen(v) =~= v);
    } else {
        assert forall|k: int, i: int| 0 <= k < v.len() && 0 <= i < v[k].len() implies !cuts(
            Sep::Tag,
            #[trigger] v[k][i],
        ) by {
            assert(is_tag(v[k]));
        }
        reveal_strlit(",");
        assert(","@ =~= seq![',']);
        lemma_split_join(v, ',', Sep::Tag);
        assert forall|k: int| 0 <= k < v.len() implies (#[trigger] v[k]).len() > 0 by {
            assert(is_tag(v[k]));
        }
        lemma_nonempty_keeps(v);
        lemma_first_seen_keeps(v);
    }
}

/// Law: a label in the form it is kept in stays as it is, and says the same
/// tags.
pub proof fn law_normal_idempotent(label: Seq<char>)
    ensures
        normal(normal(label)) == normal(label),
        tags(normal(label)) == tags(label),
{
    law_tags_are_clean(label);
    law_tags_read_back(tags(label));
}

/// What `extended` holds, and that nothing in it is doubled.
pub proof fn lemma_extended(v: Seq<Seq<char>>, more: Seq<Seq<char>>)
    ensures
        forall|x: Seq<char>|
            #![trigger extended(v, more).contains(x)]
            extended(v, more).contains(x) <==> v.contains(x) || more.contains(x),
        v.no_duplicates() ==> extended(v, more).no_duplicates(),
    decreases more.len(),
{
    if more.len() == 0 {
        assert forall|x: Seq<char>| !more.contains(x) by {}
    } else {
        let front = more.drop_last();
        lemma_extended(v, front);
        let before = extended(v, front);
        let now = extended(v, more);
        assert forall|x: Seq<char>|
            #![trigger now.contains(x)]
            now.contains(x) <==> v.contains(x) || more.contains(x) by {
            assert(before.contains(x) <==> v.contains(x) || front.contains(x));
            if now.contains(x) {
                let k = choose|k: int| 0 <= k < now.len() && now[k] == x;
                if k < before.len() {
                    assert(before[k] == x);
                    if front.contains(x) {
                        let j = choose|j: int| 0 <= j < front.len() && front[j] == x;
                        assert(more[j] == x);
                    }
                } else {
                    assert(more[more.len() - 1] == x);
                }
            }
            if v.contains(x) || more.contains(x) {
                if !before.contains(x) {
                    let j = choose|j: int| 0 <= j < more.len() && more[j] == x;
                    if j < front.len() {
                        assert(front[j] == x);
                    }
                    assert(now[now.len() - 1] == x);
                } else {
                    let k = choose|k: int| 0 <= k < before.len() && before[k] == x;
                    assert(now[k] == x);
                }
            }
        }
    }
}

/// What `without` holds, and that nothing in it is doubled.
pub proof fn lemma_without(v: Seq<Seq<char>>, drop: Seq<Seq<char>>)
    ensures
        forall|x: Seq<char>|
            #![trigger without(v, drop).contains(x)]
            without(v, drop).contains(x) <==> v.contains(x) && !drop.contains(x),
        v.no_duplicates() ==> without(v, drop).no_duplicates(),
        (forall|k: int| 0 <= k < v.len() ==> !drop.contains(#[trigger] v[k])) ==> without(v, drop) == v,
    decreases v.len(),
{
    if v.len() > 0 {
        let front = v.drop_last();
        lemma_without(front, drop);
        let before = without(front, drop);
        let now = without(v, drop);
        assert forall|x: Seq<char>|
            #![trigger now.contains(x)]
            now.contains(x) <==> v.contains(x) && !drop.contains(x) by {
            assert(before.contains(x) <==> front.contains(x) && !drop.contains(x));
            if now.contains(x) {
                let k = choose|k: int| 0 <= k < now.len() && now[k] == x;
                if k < before.len() {
                    assert(before[k] == x);
                    let j = choose|j: int| 0 <= j < front.len() && front[j] == x;
                    assert(v[j] == x);
                } else {
                    assert(v[v.len() - 1] == x);
                }
            }
            if v.contains(x) && !drop.contains(x) {
                let j = choose|j: int| 0 <= j < v.len() && v[j] == x;
                if j < front.len() {
                    assert(front[j] == x);
                    let k = choose|k: int| 0 <= k < before.len() && before[k] == x;
                    assert(now[k] == x);
                } else {
                    assert(now[now.len() - 1] == x);
                }
            }
        }
        if v.no_duplicates() {
            assert(front.no_duplicates());
            assert(now.no_duplicates()) by {
                if !drop.contains(v.last()) {
                    assert(!front.contains(v.last())) by {
                        if front.contains(v.last()) {
                            let j = choose|j: int| 0 <= j < front.len() && front[j] == v.last();
                            assert(v[j] == v[v.len() - 1]);
                        }
                    }
                    assert(!before.contains(v.last()));
                    assert forall|a: int, b: int| 0 <= a < now.len() && 0 <= b < now.len() && a != b implies now[a]
                        != now[b] by {
                        if a < before.len() && b < before.len() {
                            assert(now[a] == before[a] && now[b] == before[b]);
                        } else if a < before.len() {
                            assert(before.contains(before[a]));
                        } else {
                            assert(before.contains(before[b]));
                        }
                    }
                }
            }
        }
        if forall|k: int| 0 <= k < v.len() ==> !drop.contains(#[trigger] v[k]) {
            assert forall|k: int| 0 <= k < front.len() implies !drop.contains(#[trigger] front[k]) by {
                assert(front[k] == v[k]);
            }
            assert(!drop.contains(v[v.len() - 1]));
            assert(front.push(v.last()) =~= v);
        }
    }
}

/// Adding what is there or goes again, and taking away what goes, changes
/// nothing.
proof fn lemma_readding(w: Seq<Seq<char>>, more: Seq<Seq<char>>, drop: Seq<Seq<char>>)
    requires
        forall|k: int| 0 <= k < w.len() ==> !drop.contains(#[trigger] w[k]),
        forall|k: int| 0 <= k < more.len() ==> w.contains(#[trigger] more[k]) || drop.contains(more[k]),
    ensures
        without(extended(w, more), drop) == w,
    decreases more.len(),
{
    if more.len() == 0 {
        lemma_without(w, drop);
    } else {
        let front = more.drop_last();
        assert forall|k: int| 0 <= k < front.len() implies w.contains(#[trigger] front[k]) || drop.contains(front[k]) by {
            assert(front[k] == more[k]);
        }
        lemma_readding(w, front, drop);
        lemma_extended(w, front);
        let before = extended(w, front);
        let x = more[more.len() - 1];
        if !before.contains(x) {
            assert(!w.contains(x));
            assert(drop.contains(x));
            assert(before.push(x).drop_last() =~= before);
        }
    }
}

/// The tags of several labels are tags.
proof fn lemma_tags_of_all(v: Seq<Seq<char>>)
    ensures
        forall|x: Seq<char>| #[trigger] tags_of_all(v).contains(x) ==> is_tag(x),
    decreases v.len(),
{
    if v.len() > 0 {
        lemma_tags_of_all(v.drop_last());
        law_tags_are_clean(v.last());
        let a = tags_of_all(v.drop_last());
        let b = tags(v.last());
        assert forall|x: Seq<char>| #[trigger] tags_of_all(v).contains(x) implies is_tag(x) by {
            let k = choose|k: int| 0 <= k < (a + b).len() && (a + b)[k] == x;
            if k < a.len() {
                assert(a[k] == x);
                assert(a.contains(x));
            } else {
                assert(b[k - a.len()] == x);
            }
        }
    }
}

/// Law: tags added and removed once more leave the label as it is.
pub proof fn law_retagging_twice(label: Seq<char>, plus: Seq<Seq<char>>, minus: Seq<Seq<char>>)
    ensures
        ({
            let w = without(extended(tags(label), tags_of_all(plus)), tags_of_all(minus));
            &&& tags(join(w, ","@)) == w
            &&& without(extended(w, tags_of_all(plus)), tags_of_all(minus)) == w
        }),
{
    let more = tags_of_all(plus);
    let drop = tags_of_all(minus);
    let wide = extended(tags(label), more);
    let w = without(wide, drop);
    law_tags_are_clean(label);
    lemma_tags_of_all(plus);
    lemma_extended(tags(label), more);
    lemma_without(wide, drop);
    assert forall|k: int| 0 <= k < w.len() implies is_tag(#[trigger] w[k]) && !drop.contains(w[k]) by {
        assert(w.contains(w[k]));
        assert(wide.contains(w[k]));
        if tags(label).contains(w[k]) {
            let j = choose|j: int| 0 <= j < tags(label).len() && tags(label)[j] == w[k];
            assert(is_tag(tags(label)[j]));
        } else {
            assert(more.contains(w[k]));
        }
    }
    law_tags_read_back(w);
    assert forall|k: int| 0 <= k < more.len() implies w.contains(#[trigger] more[k]) || drop.contains(more[k]) by {
        assert(more.contains(more[k]));
        assert(wide.contains(more[k]));
    }
    lemma_readding(w, more, drop);
}

/// Between commas, only a whole tag stands in a joined list.
proof fn lemma_fenced_holds(v: Seq<Seq<char>>, t: Seq<char>)
    requires
        forall|k: int, i: int| 0 <= k < v.len() && 0 <= i < v[k].len() ==> #[trigger] v[k][i] != ',',
        forall|i: int| 0 <= i < t.len() ==> #[trigger] t[i] != ',',
        t.len() > 0,
    ensures
        contains(fenced(join(v, ","@)), fenced(t)) <==> v.contains(t),
    decreases v.len(),
{
    reveal_strlit(",");
    assert(","@ =~= seq![',']);
    let all = fenced(join(v, ","@));
    let f = fenced(t);
    let n = t.len() as int;
    assert(f.len() == n + 2);
    assert(f[0] == ',' && f[n + 1] == ',');
    if v.len() == 0 {
        assert(all.len() == 2);
        if contains(all, f) {
            let at = choose|at: int| occurs_at(all, f, at);
            assert(false);
        }
    } else {
        let w = v.drop_last();
        let u = v.last();
        assert forall|k: int, i: int| 0 <= k < w.len() && 0 <= i < w[k].len() implies #[trigger] w[k][i] != ',' by {
            assert(v[k][i] != ',');
        }
        assert forall|i: int| 0 <= i < u.len() implies #[trigger] u[i] != ',' by {
            assert(v[v.len() - 1][i] != ',');
        }
        lemma_fenced_holds(w, t);
        // what stands before the last tag, with the comma that closes it
        let head = if v.len() == 1 { ","@ } else { fenced(join(w, ","@)) };
        if v.len() == 1 {
            assert(all =~= head + u + ","@);
            assert(w =~= Seq::<Seq<char>>::empty());
        } else {
            assert(all =~= head + u + ","@);
        }
        let h = head.len() as int;
        assert(head[h - 1] == ',');
        if contains(all, f) {
            let p = choose|p: int| occurs_at(all, f, p);
            let s = all.subrange(p, p + f.len());
            assert(s == f);
            assert forall|i: int| 0 <= i < f.len() implies all[p + i] == #[trigger] f[i] by {
                assert(s[i] == f[i]);
            }
            assert(all[p] == f[0]);
            assert(all[p + n + 1] == f[n + 1]);
            if p + n + 2 <= h {
                if v.len() == 1 {
                    assert(false);
                }
                assert(head.subrange(p, p + f.len()) =~= s);
                assert(occurs_at(head, f, p));
                assert(w.contains(t));
                let k = choose|k: int| 0 <= k < w.len() && w[k] == t;
                assert(v[k] == t);
            } else {
                let e = p + n + 1;
                if e < all.len() - 1 {
                    assert(all[e] == u[e - h]);
                    assert(false);
                }
                if p >= h {
                    assert(all[p] == u[p - h]);
                    assert(false);
                }
                if p < h - 1 {
                    assert(all[h - 1] == ',');
                    assert(f[h - 1 - p] == all[p + (h - 1 - p)]);
                    assert(f[h - 1 - p] == t[h - 2 - p]);
                    assert(false);
                }
                assert forall|i: int| 0 <= i < n implies #[trigger] t[i] == u[i] by {
                    assert(f[i + 1] == all[p + (i + 1)]);
                    assert(f[i + 1] == t[i]);
                }
                assert(t =~= u);
                assert(v[v.len() - 1] == t);
            }
        }
        if v.contains(t) {
            let k = choose|k: int| 0 <= k < v.len() && v[k] == t;
            if k == v.len() - 1 {
                assert(all.subrange(h - 1, h - 1 + f.len()) =~= f);
                assert(occurs_at(all, f, h - 1));
            } else {
                assert(w[k] == t);
                let p = choose|p: int| occurs_at(head, f, p);
                assert(all.subrange(p, p + f.len()) =~= head.subrange(p, p + f.len()));
                assert(occurs_at(all, f, p));
            }
        }
    }
}

/// Law: a kept label carries the tags of the label it was made from, and
/// those alone; each stands in it from comma to comma.
pub proof fn law_kept_label_carries_its_tags(label: Seq<char>, tag: Seq<char>)
    requires
        is_tag(tag),
    ensures
        carries(normal(label), tag) == carries(label, tag),
        contains(fenced(normal(label)), fenced(tag)) == carries(label, tag),
{
    let v = tags(label);
    law_normal_idempotent(label);
    law_tags_are_clean(label);
    assert forall|k: int, i: int| 0 <= k < v.len() && 0 <= i < v[k].len() implies #[trigger] v[k][i] != ',' by {
        assert(is_tag(v[k]));
        assert(!cuts(Sep::Tag, v[k][i]));
    }
    assert forall|i: int| 0 <= i < tag.len() implies #[trigger] tag[i] != ',' by {
        assert(!cuts(Sep::Tag, tag[i]));
    }
    lemma_fenced_holds(v, tag);
}

/// Law: a filter of several tags passes what any of them passes.
pub proof fn law_filter_passes_any_of_its_tags(label: Seq<char>, v: Seq<Seq<char>>)
    requires
        tag_list(v),
        v.len() > 0,
    ensures
        passes(label, join(v, ","@)) <==> exists|k: int| 0 <= k < v.len() && passes(label, #[trigger] v[k]),
{
    law_tags_read_back(v);
    assert forall|k: int| 0 <= k < v.len() implies passes(label, #[trigger] v[k]) == carries(label, v[k]) by {
        let one = seq![v[k]];
        assert(is_tag(v[k]));
        assert(tag_list(one));
        law_tags_read_back(one);
        assert(join(one, ","@) == v[k]);
        assert(one[0] == v[k]);
        assert(tags(v[k]).contains(v[k]));
        assert forall|t: Seq<char>| #[trigger] one.contains(t) implies t == v[k] by {}
    }
    if passes(label, join(v, ","@)) {
        let t = choose|t: Seq<char>| #[trigger] v.contains(t) && carries(label, t);
        let k = choose|k: int| 0 <= k < v.len() && v[k] == t;
        assert(passes(label, v[k]));
    }
    if exists|k: int| 0 <= k < v.len() && passes(label, #[trigger] v[k]) {
        let k = choose|k: int| 0 <= k < v.len() && passes(label, #[trigger] v[k]);
        assert(v.contains(v[k]));
    }
}

// ------------------------------------------------------------- executable

/// The tags of a label.
pub fn tags_of(label: &str) -> (out: Vec<String>)
    ensures
        texts(out@) == tags(label@),
{
    let found = keep_nonempty(pieces(label, Sep::Tag));
    let ghost all = texts(found@);
    let mut out: Vec<String> = Vec::new();
    let mut i: usize = 0;
    assert(texts(out@) =~= first_seen(all.take(0)));
    while i < found.len()
        invariant
            i <= found@.len(),
            all == texts(found@),
            texts(out@) == first_seen(all.take(i as int)),
        decreases found.len() - i,
    {
        assert(all.take(i + 1).drop_last() =~= all.take(i as int));
        assert(all.take(i + 1).last() == found@[i as int]@);
        if !among(&out, found[i].as_str()) {
            let ghost before = texts(out@);
            out.push(found[i].clone());
            assert(texts(out@) =~= before.push(found@[i as int]@));
        }
        i = i + 1;
    }
    assert(all.take(i as int) =~= all);
    out
}

/// The label in the form it is kept in.
pub fn normalize_tags(label: &str) -> (out: String)
    ensures
        out@ == normal(label@),
{
    let tags = tags_of(label);
    joined(&tags, ",")
}

/// Whether the label carries this tag.
pub fn has_tag(label: &str, tag: &str) -> (r: bool)
    ensures
        r == carries(label@, tag@),
{
    among(&tags_of(label), tag)
}

/// Whether the label passes a filter.
pub fn passes_filter(label: &str, filter: &str) -> (r: bool)
    ensures
        r == passes(label@, filter@),
{
    let wanted = tags_of(filter);
    assert(texts(wanted@).len() == wanted@.len());
    if wanted.len() == 0 {
        return label.is_empty();
    }
    let carried = tags_of(label);
    let mut i: usize = 0;
    while i < wanted.len()
        invariant
            i <= wanted@.len(),
            texts(wanted@) == tags(filter@),
            texts(carried@) == tags(label@),
            forall|k: int| 0 <= k < i ==> !carries(label@, #[trigger] tags(filter@)[k]),
        decreases wanted.len() - i,
    {
        assert(tags(filter@)[i as int] == wanted@[i as int]@);
        if among(&carried, wanted[i].as_str()) {
            assert(tags(filter@).contains(wanted@[i as int]@));
            return true;
        }
        i = i + 1;
    }
    assert forall|t: Seq<char>| #[trigger] tags(filter@).contains(t) implies !carries(label@, t) by {
        let k = choose|k: int| 0 <= k < tags(filter@).len() && tags(filter@)[k] == t;
        assert(!carries(label@, tags(filter@)[k]));
    }
    false
}

/// Whether the text is a tag.
fn tag_shaped(s: &str) -> (r: bool)
    ensures
        r == is_tag(s@),
{
    let v = chars_of(s);
    let mut i: usize = 0;
    while i < v.len()
        invariant
            i <= v@.len(),
            v@ == s@,
            forall|k: int| 0 <= k < i ==> !cuts(Sep::Tag, #[trigger] s@[k]),
        decreases v.len() - i,
    {
        if cut_at(Sep::Tag, v[i]) {
            assert(cuts(Sep::Tag, s@[i as int]));
            return false;
        }
        i = i + 1;
    }
    v.len() > 0
}

/// Whether the label is marked with a value.
pub fn is_marked(label: &str, value: &str) -> (r: bool)
    ensures
        r == marked(label@, value@),
{
    if tag_shaped(value) {
        has_tag(label, value)
    } else {
        let text = copy(",").concat(label).concat(",");
        let wanted = copy(",").concat(value).concat(",");
        has(text.as_str(), wanted.as_str())
    }
}

/// The tags of several labels, one label after the other.
pub fn tags_of_each(labels: &Vec<String>) -> (out: Vec<String>)
    ensures
        texts(out@) == tags_of_all(texts(labels@)),
{
    let mut out: Vec<String> = Vec::new();
    let mut i: usize = 0;
    let ghost all = texts(labels@);
    assert(texts(out@) =~= tags_of_all(all.take(0)));
    while i < labels.len()
        invariant
            i <= labels@.len(),
            all == texts(labels@),
            texts(out@) == tags_of_all(all.take(i as int)),
        decreases labels.len() - i,
    {
        assert(all.take(i + 1).drop_last() =~= all.take(i as int));
        assert(all.take(i + 1).last() == labels@[i as int]@);
        let mut more = tags_of(labels[i].as_str());
        let ghost (a, b) = (out@, more@);
        out.append(&mut more);
        assert(texts(out@) =~= texts(a) + texts(b));
        i = i + 1;
    }
    assert(all.take(i as int) =~= all);
    out
}

/// The list followed by those of `more` that it does not hold yet.
pub fn extend_with(list: Vec<String>, more: &Vec<String>) -> (out: Vec<String>)
    ensures
        texts(out@) == extended(texts(list@), texts(more@)),
{
    let ghost base = texts(list@);
    let ghost all = texts(more@);
    let mut out = list;
    let mut i: usize = 0;
    assert(all.take(0) =~= Seq::<Seq<char>>::empty());
    while i < more.len()
        invariant
            i <= more@.len(),
            all == texts(more@),
            texts(out@) == extended(base, all.take(i as int)),
        decreases more.len() - i,
    {
        assert(all.take(i + 1).drop_last() =~= all.take(i as int));
        assert(all.take(i + 1).last() == more@[i as int]@);
        if !among(&out, more[i].as_str()) {
            let ghost before = texts(out@);
            out.push(more[i].clone());
            assert(texts(out@) =~= before.push(more@[i as int]@));
        }
        i = i + 1;
    }
    assert(all.take(i as int) =~= all);
    out
}

/// The list without the strings among `drop`.
pub fn leave_out(list: &Vec<String>, drop: &Vec<String>) -> (out: Vec<String>)
    ensures
        texts(out@) == without(texts(list@), texts(drop@)),
{
    let ghost all = texts(list@);
    let mut out: Vec<String> = Vec::new();
    let mut i: usize = 0;
    assert(texts(out@) =~= without(all.take(0), texts(drop@)));
    while i < list.len()
        invariant
            i <= list@.len(),
            all == texts(list@),
            texts(out@) == without(all.take(i as int), texts(drop@)),
        decreases list.len() - i,
    {
        assert(all.take(i + 1).drop_last() =~= all.take(i as int));
        assert(all.take(i + 1).last() == list@[i as int]@);
        if !among(drop, list[i].as_str()) {
            let ghost before = texts(out@);
            out.push(list[i].clone());
            assert(texts(out@) =~= before.push(list@[i as int]@));
        }
        i = i + 1;
    }
    assert(all.take(i as int) =~= all);
    out
}

} // verus!
