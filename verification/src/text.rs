//! Text as a sequence of characters: trimming, splitting, joining,
//! searching and replacing.

use vstd::prelude::*;

verus! {

/// `String::push` of std: appends one character at the end.
pub assume_specification[ String::push ](s: &mut String, c: char)
    ensures
        final(s)@ == old(s)@.push(c),
;

// ------------------------------------------------------------- vocabulary

/// A character with the Unicode `White_Space` property.
pub open spec fn is_space(c: char) -> bool {
    ||| '\u{9}' <= c && c <= '\u{d}'
    ||| c == ' '
    ||| c == '\u{85}'
    ||| c == '\u{a0}'
    ||| c == '\u{1680}'
    ||| '\u{2000}' <= c && c <= '\u{200a}'
    ||| c == '\u{2028}'
    ||| c == '\u{2029}'
    ||| c == '\u{202f}'
    ||| c == '\u{205f}'
    ||| c == '\u{3000}'
}

/// What a text is cut at.
#[derive(Clone, Copy, Debug, PartialEq, Eq, Structural)]
pub enum Sep {
    /// One given character.
    Char(char),
    /// Any white space.
    Space,
    /// A comma or any white space.
    Tag,
}

/// Whether the text is cut at `c`.
pub open spec fn cuts(sep: Sep, c: char) -> bool {
    match sep {
        Sep::Char(x) => c == x,
        Sep::Space => is_space(c),
        Sep::Tag => c == ',' || is_space(c),
    }
}

/// The contents of a vector of strings.
pub open spec fn texts(v: Seq<String>) -> Seq<Seq<char>> {
    v.map_values(|s: String| s@)
}

/// Appends one text.
pub fn push_text(v: &mut Vec<String>, s: String)
    ensures
        texts(final(v)@) == texts(old(v)@).push(s@),
{
    let ghost before = texts(v@);
    v.push(s);
    assert(texts(v@) =~= before.push(s@));
}

/// Appends several texts.
pub fn append_texts(v: &mut Vec<String>, more: Vec<String>)
    ensures
        texts(final(v)@) == texts(old(v)@) + texts(more@),
{
    let ghost before = texts(v@);
    let ghost added = texts(more@);
    let mut more = more;
    v.append(&mut more);
    assert(texts(v@) =~= before + added);
}

/// Nothing but white space.
pub open spec fn blank(s: Seq<char>) -> bool {
    forall|i: int| 0 <= i < s.len() ==> is_space(#[trigger] s[i])
}

/// Without the white space at the start.
pub open spec fn trim_start(s: Seq<char>) -> Seq<char>
    decreases s.len(),
{
    if s.len() > 0 && is_space(s[0]) {
        trim_start(s.drop_first())
    } else {
        s
    }
}

/// Without the white space at the end.
pub open spec fn trim_end(s: Seq<char>) -> Seq<char>
    decreases s.len(),
{
    if s.len() > 0 && is_space(s.last()) {
        trim_end(s.drop_last())
    } else {
        s
    }
}

/// Without the white space at either end.
pub open spec fn trim(s: Seq<char>) -> Seq<char> {
    trim_end(trim_start(s))
}

/// The pieces between the cuts, one more than there are cuts; empty pieces
/// are kept.
pub open spec fn split(s: Seq<char>, sep: Sep) -> Seq<Seq<char>>
    decreases s.len(),
{
    if s.len() == 0 {
        seq![Seq::<char>::empty()]
    } else {
        let before = split(s.drop_last(), sep);
        if cuts(sep, s.last()) {
            before.push(Seq::<char>::empty())
        } else {
            before.drop_last().push(before.last().push(s.last()))
        }
    }
}

/// The pieces that are not empty, in order.
pub open spec fn nonempty(v: Seq<Seq<char>>) -> Seq<Seq<char>>
    decreases v.len(),
{
    if v.len() == 0 {
        v
    } else if v.last().len() == 0 {
        nonempty(v.drop_last())
    } else {
        nonempty(v.drop_last()).push(v.last())
    }
}

/// The words of a text: its maximal runs without white space.
pub open spec fn words(s: Seq<char>) -> Seq<Seq<char>> {
    nonempty(split(s, Sep::Space))
}

/// Without one carriage return at the end.
pub open spec fn strip_cr(s: Seq<char>) -> Seq<char> {
    if s.len() > 0 && s.last() == '\r' {
        s.drop_last()
    } else {
        s
    }
}

/// The lines of a text. A line ends with a line feed, or with a carriage
/// return and a line feed; the last one need not end.
pub open spec fn lines(s: Seq<char>) -> Seq<Seq<char>> {
    let pieces = split(s, Sep::Char('\n'));
    let ended = pieces.drop_last().map_values(|p: Seq<char>| strip_cr(p));
    if pieces.last().len() == 0 {
        ended
    } else {
        ended.push(pieces.last())
    }
}

/// The pieces with `sep` between them.
pub open spec fn join(v: Seq<Seq<char>>, sep: Seq<char>) -> Seq<char>
    decreases v.len(),
{
    if v.len() == 0 {
        Seq::empty()
    } else if v.len() == 1 {
        v[0]
    } else {
        join(v.drop_last(), sep) + sep + v.last()
    }
}

/// `needle` stands in `hay` at position `at`.
pub open spec fn occurs_at(hay: Seq<char>, needle: Seq<char>, at: int) -> bool {
    0 <= at && at + needle.len() <= hay.len() && hay.subrange(at, at + needle.len()) == needle
}

/// `needle` stands somewhere in `hay`.
pub open spec fn contains(hay: Seq<char>, needle: Seq<char>) -> bool {
    exists|at: int| occurs_at(hay, needle, at)
}

/// `s` begins with `prefix`.
pub open spec fn starts_with(s: Seq<char>, prefix: Seq<char>) -> bool {
    occurs_at(s, prefix, 0)
}

/// Every `c` replaced by `with`.
pub open spec fn replace_char(s: Seq<char>, c: char, with: Seq<char>) -> Seq<char>
    decreases s.len(),
{
    if s.len() == 0 {
        s
    } else if s.last() == c {
        replace_char(s.drop_last(), c, with) + with
    } else {
        replace_char(s.drop_last(), c, with).push(s.last())
    }
}

/// Every occurrence of `from` replaced by `to`, found from the left and
/// without overlaps. An empty `from` replaces nothing.
pub open spec fn replace_all(s: Seq<char>, from: Seq<char>, to: Seq<char>) -> Seq<char>
    decreases s.len(),
{
    if from.len() == 0 || s.len() < from.len() {
        s
    } else if s.take(from.len() as int) == from {
        to + replace_all(s.skip(from.len() as int), from, to)
    } else {
        seq![s[0]] + replace_all(s.drop_first(), from, to)
    }
}

/// `n` times the same text.
pub open spec fn repeat(s: Seq<char>, n: nat) -> Seq<char>
    decreases n,
{
    if n == 0 {
        Seq::empty()
    } else {
        repeat(s, (n - 1) as nat) + s
    }
}

/// The position of the first `c`, or the length where there is none.
pub open spec fn first_of(s: Seq<char>, c: char) -> int
    decreases s.len(),
{
    if s.len() == 0 || s[0] == c {
        0
    } else {
        1 + first_of(s.drop_first(), c)
    }
}

/// The text cut at the first `c`: what stands before it and what stands after.
pub open spec fn split_once(s: Seq<char>, c: char) -> Option<(Seq<char>, Seq<char>)> {
    let at = first_of(s, c);
    if at < s.len() {
        Some((s.take(at), s.skip(at + 1)))
    } else {
        None
    }
}

/// Where `needle` first stands in `hay`.
pub open spec fn find(hay: Seq<char>, needle: Seq<char>) -> Option<int>
    decreases hay.len(),
{
    if starts_with(hay, needle) {
        Some(0)
    } else if hay.len() == 0 {
        None
    } else {
        match find(hay.drop_first(), needle) {
            Some(at) => Some(at + 1),
            None => None,
        }
    }
}

/// The position of the last `c`, or -1 where there is none.
pub open spec fn last_of(s: Seq<char>, c: char) -> int
    decreases s.len(),
{
    if s.len() == 0 {
        -1
    } else if s.last() == c {
        s.len() - 1
    } else {
        last_of(s.drop_last(), c)
    }
}

/// The lines that are not blank, in order.
pub open spec fn nonblank(v: Seq<Seq<char>>) -> Seq<Seq<char>>
    decreases v.len(),
{
    if v.len() == 0 {
        v
    } else if blank(v.last()) {
        nonblank(v.drop_last())
    } else {
        nonblank(v.drop_last()).push(v.last())
    }
}

/// Without the `c`s at the start.
pub open spec fn strip_start(s: Seq<char>, c: char) -> Seq<char>
    decreases s.len(),
{
    if s.len() > 0 && s[0] == c {
        strip_start(s.drop_first(), c)
    } else {
        s
    }
}

/// Without the `c`s at the end.
pub open spec fn strip_end(s: Seq<char>, c: char) -> Seq<char>
    decreases s.len(),
{
    if s.len() > 0 && s.last() == c {
        strip_end(s.drop_last(), c)
    } else {
        s
    }
}

// ---------------------------------------------------------------- facts

/// What `find` gives is an occurrence, and the first one.
pub proof fn lemma_find(hay: Seq<char>, needle: Seq<char>)
    ensures
        match find(hay, needle) {
            Some(at) => occurs_at(hay, needle, at) && forall|k: int|
                0 <= k < at ==> !#[trigger] occurs_at(hay, needle, k),
            None => forall|k: int| !#[trigger] occurs_at(hay, needle, k),
        },
        find(hay, needle) is Some <==> contains(hay, needle),
    decreases hay.len(),
{
    if starts_with(hay, needle) {
    } else if hay.len() == 0 {
        assert forall|k: int| !#[trigger] occurs_at(hay, needle, k) by {
            if occurs_at(hay, needle, k) {
                assert(k == 0);
            }
        }
    } else {
        let rest = hay.drop_first();
        lemma_find(rest, needle);
        assert forall|k: int| k != 0 implies #[trigger] occurs_at(hay, needle, k) == occurs_at(rest, needle, k - 1) by {
            if 1 <= k && k + needle.len() <= hay.len() {
                assert(hay.subrange(k, k + needle.len()) =~= rest.subrange(k - 1, k - 1 + needle.len()));
            }
        }
        match find(rest, needle) {
            Some(at) => {
                assert(occurs_at(hay, needle, at + 1));
            },
            None => {},
        }
    }
}

/// An occurrence with none before it is the first one.
pub proof fn lemma_find_at(hay: Seq<char>, needle: Seq<char>, at: int)
    requires
        occurs_at(hay, needle, at),
        forall|k: int| 0 <= k < at ==> !#[trigger] occurs_at(hay, needle, k),
    ensures
        find(hay, needle) == Some(at),
{
    lemma_find(hay, needle);
}

/// The last occurrence is one, and nothing after it is.
pub proof fn lemma_last_of(s: Seq<char>, c: char)
    ensures
        -1 <= last_of(s, c) < s.len(),
        last_of(s, c) >= 0 ==> s[last_of(s, c)] == c,
        forall|i: int| last_of(s, c) < i < s.len() ==> #[trigger] s[i] != c,
    decreases s.len(),
{
    if s.len() > 0 && s.last() != c {
        lemma_last_of(s.drop_last(), c);
        let k = last_of(s, c);
        assert forall|i: int| k < i < s.len() implies #[trigger] s[i] != c by {
            if i < s.len() - 1 {
                assert(s.drop_last()[i] == s[i]);
            }
        }
    }
}

/// A cut and a piece without cuts after a text add that piece.
pub proof fn lemma_split_append(a: Seq<char>, c: char, b: Seq<char>, sep: Sep)
    requires
        cuts(sep, c),
        forall|i: int| 0 <= i < b.len() ==> !cuts(sep, #[trigger] b[i]),
    ensures
        split(a + seq![c] + b, sep) == split(a, sep).push(b),
    decreases b.len(),
{
    let s = a + seq![c] + b;
    if b.len() == 0 {
        assert(s.drop_last() =~= a);
        assert(s.last() == c);
        assert(b =~= Seq::<char>::empty());
    } else {
        let b1 = b.drop_last();
        assert forall|i: int| 0 <= i < b1.len() implies !cuts(sep, #[trigger] b1[i]) by {
            assert(b1[i] == b[i]);
        }
        lemma_split_append(a, c, b1, sep);
        assert(s.drop_last() =~= a + seq![c] + b1);
        assert(s.last() == b.last());
        assert(!cuts(sep, b[b.len() - 1]));
        let p = split(a, sep).push(b1);
        assert(p.drop_last() =~= split(a, sep));
        assert(p.last() == b1);
        assert(b1.push(b.last()) =~= b);
    }
}

/// A text without cuts is one piece.
pub proof fn lemma_split_whole(s: Seq<char>, sep: Sep)
    requires
        forall|i: int| 0 <= i < s.len() ==> !cuts(sep, #[trigger] s[i]),
    ensures
        split(s, sep) == seq![s],
    decreases s.len(),
{
    if s.len() > 0 {
        let t = s.drop_last();
        assert forall|i: int| 0 <= i < t.len() implies !cuts(sep, #[trigger] t[i]) by {
            assert(t[i] == s[i]);
        }
        lemma_split_whole(t, sep);
        assert(!cuts(sep, s[s.len() - 1]));
        assert(seq![t].drop_last() =~= Seq::<Seq<char>>::empty());
        assert(t.push(s.last()) =~= s);
        assert(split(s, sep) =~= seq![s]);
    } else {
        assert(s =~= Seq::<char>::empty());
    }
}

/// Pieces without cuts, joined by a cut, are read back as those pieces.
pub proof fn lemma_split_join(v: Seq<Seq<char>>, c: char, sep: Sep)
    requires
        v.len() > 0,
        cuts(sep, c),
        forall|k: int, i: int| 0 <= k < v.len() && 0 <= i < v[k].len() ==> !cuts(sep, #[trigger] v[k][i]),
    ensures
        split(join(v, seq![c]), sep) == v,
    decreases v.len(),
{
    let w = v.drop_last();
    let t = v.last();
    assert forall|i: int| 0 <= i < t.len() implies !cuts(sep, #[trigger] t[i]) by {
        assert(!cuts(sep, v[v.len() - 1][i]));
    }
    if v.len() == 1 {
        lemma_split_whole(v[0], sep);
        assert(v =~= seq![v[0]]);
    } else {
        assert forall|k: int, i: int| 0 <= k < w.len() && 0 <= i < w[k].len() implies !cuts(
            sep,
            #[trigger] w[k][i],
        ) by {
            assert(!cuts(sep, v[k][i]));
        }
        lemma_split_join(w, c, sep);
        lemma_split_append(join(w, seq![c]), c, t, sep);
        assert(w.push(t) =~= v);
    }
}

/// Lines that are not blank are all kept.
pub proof fn lemma_nonblank_keeps(v: Seq<Seq<char>>)
    requires
        forall|k: int| 0 <= k < v.len() ==> !blank(#[trigger] v[k]),
    ensures
        nonblank(v) == v,
    decreases v.len(),
{
    if v.len() > 0 {
        let w = v.drop_last();
        assert forall|k: int| 0 <= k < w.len() implies !blank(#[trigger] w[k]) by {
            assert(w[k] == v[k]);
        }
        lemma_nonblank_keeps(w);
        assert(!blank(v[v.len() - 1]));
        assert(w.push(v.last()) =~= v);
    }
}

/// Dropping blank lines goes line by line.
pub proof fn lemma_nonblank_concat(v: Seq<Seq<char>>, w: Seq<Seq<char>>)
    ensures
        nonblank(v + w) == nonblank(v) + nonblank(w),
    decreases w.len(),
{
    if w.len() == 0 {
        assert(v + w =~= v);
        assert(nonblank(v) + nonblank(w) =~= nonblank(v));
    } else {
        lemma_nonblank_concat(v, w.drop_last());
        assert((v + w).drop_last() =~= v + w.drop_last());
        assert((v + w).last() == w.last());
        assert(nonblank(v + w) =~= nonblank(v) + nonblank(w));
    }
}

/// What is left are lines of before, and none is blank.
pub proof fn lemma_nonblank_members(v: Seq<Seq<char>>)
    ensures
        forall|k: int|
            0 <= k < nonblank(v).len() ==> !blank(#[trigger] nonblank(v)[k]) && v.contains(nonblank(v)[k]),
    decreases v.len(),
{
    if v.len() > 0 {
        let w = v.drop_last();
        lemma_nonblank_members(w);
        let n = nonblank(v);
        assert forall|k: int| 0 <= k < n.len() implies !blank(#[trigger] n[k]) && v.contains(n[k]) by {
            if k < nonblank(w).len() {
                assert(n[k] == nonblank(w)[k]);
                let j = choose|j: int| 0 <= j < w.len() && w[j] == n[k];
                assert(v[j] == n[k]);
            } else {
                assert(v[v.len() - 1] == n[k]);
            }
        }
    }
}

/// A line that is not blank is left.
pub proof fn lemma_nonblank_holds(v: Seq<Seq<char>>, k: int)
    requires
        0 <= k < v.len(),
        !blank(v[k]),
    ensures
        nonblank(v).contains(v[k]),
    decreases v.len(),
{
    let n = nonblank(v);
    if k == v.len() - 1 {
        assert(n[n.len() - 1] == v[k]);
    } else {
        lemma_nonblank_holds(v.drop_last(), k);
        let before = nonblank(v.drop_last());
        let j = choose|j: int| 0 <= j < before.len() && before[j] == v[k];
        assert(n[j] == v[k]);
    }
}

/// Of blank lines none is left.
pub proof fn lemma_all_blank(v: Seq<Seq<char>>)
    requires
        forall|k: int| 0 <= k < v.len() ==> blank(#[trigger] v[k]),
    ensures
        nonblank(v) == Seq::<Seq<char>>::empty(),
    decreases v.len(),
{
    if v.len() > 0 {
        let w = v.drop_last();
        assert forall|k: int| 0 <= k < w.len() implies blank(#[trigger] w[k]) by {
            assert(w[k] == v[k]);
        }
        lemma_all_blank(w);
        assert(blank(v[v.len() - 1]));
    } else {
        assert(v =~= Seq::<Seq<char>>::empty());
    }
}

/// A carriage return at the end of a line does not make it blank or not.
pub proof fn lemma_blank_without_cr(l: Seq<char>)
    ensures
        blank(strip_cr(l)) == blank(l),
{
    let t = strip_cr(l);
    if blank(l) {
        assert forall|i: int| 0 <= i < t.len() implies is_space(#[trigger] t[i]) by {
            assert(t[i] == l[i]);
        }
    }
    if blank(t) {
        assert forall|i: int| 0 <= i < l.len() implies is_space(#[trigger] l[i]) by {
            if i < t.len() {
                assert(t[i] == l[i]);
            }
        }
    }
}

/// Nor does it change how many lines are not blank.
pub proof fn lemma_nonblank_without_cr(v: Seq<Seq<char>>)
    ensures
        nonblank(v.map_values(|p: Seq<char>| strip_cr(p))).len() == nonblank(v).len(),
    decreases v.len(),
{
    let w = v.map_values(|p: Seq<char>| strip_cr(p));
    if v.len() > 0 {
        lemma_nonblank_without_cr(v.drop_last());
        assert(w.drop_last() =~= v.drop_last().map_values(|p: Seq<char>| strip_cr(p)));
        lemma_blank_without_cr(v.last());
        assert(w.last() == strip_cr(v.last()));
    }
}

/// A text has as many lines that are not blank as pieces between line feeds
/// that are not.
pub proof fn lemma_nonblank_lines(s: Seq<char>)
    ensures
        nonblank(lines(s)).len() == nonblank(split(s, Sep::Char('\n'))).len(),
{
    let p = split(s, Sep::Char('\n'));
    lemma_split_len(s, Sep::Char('\n'));
    let ended = p.drop_last().map_values(|q: Seq<char>| strip_cr(q));
    lemma_nonblank_without_cr(p.drop_last());
    if p.last().len() > 0 {
        assert(lines(s).drop_last() =~= ended);
    }
}

/// A text that ends without white space is trimmed at the end.
pub proof fn lemma_trim_end_is(s: Seq<char>)
    ensures
        trim_end(s) == s <==> (s.len() == 0 || !is_space(s.last())),
    decreases s.len(),
{
    if s.len() > 0 && is_space(s.last()) {
        lemma_trim_end(s.drop_last());
    }
}

/// A text that begins without white space is trimmed at the start.
pub proof fn lemma_trim_start_is(s: Seq<char>)
    ensures
        trim_start(s) == s <==> (s.len() == 0 || !is_space(s[0])),
    decreases s.len(),
{
    if s.len() > 0 && is_space(s[0]) {
        lemma_trim_start(s.drop_first());
    }
}

/// No piece has a cut in it.
pub proof fn lemma_pieces_uncut(s: Seq<char>, sep: Sep)
    ensures
        split(s, sep).len() >= 1,
        forall|k: int, i: int|
            0 <= k < split(s, sep).len() && 0 <= i < split(s, sep)[k].len() ==> !cuts(
                sep,
                #[trigger] split(s, sep)[k][i],
            ),
    decreases s.len(),
{
    if s.len() > 0 {
        lemma_pieces_uncut(s.drop_last(), sep);
        let before = split(s.drop_last(), sep);
        let now = split(s, sep);
        assert forall|k: int, i: int| 0 <= k < now.len() && 0 <= i < now[k].len() implies !cuts(
            sep,
            #[trigger] now[k][i],
        ) by {
            if k < now.len() - 1 {
                assert(now[k] == before[k]);
                assert(!cuts(sep, before[k][i]));
            } else if !cuts(sep, s.last()) {
                let last = before[before.len() - 1];
                if i < last.len() {
                    assert(now[k][i] == last[i]);
                    assert(!cuts(sep, before[before.len() - 1][i]));
                }
            }
        }
    }
}

/// The first occurrence is one, and nothing before it is.
pub proof fn lemma_first_of(s: Seq<char>, c: char)
    ensures
        0 <= first_of(s, c) <= s.len(),
        first_of(s, c) < s.len() ==> s[first_of(s, c)] == c,
        forall|i: int| 0 <= i < first_of(s, c) ==> #[trigger] s[i] != c,
        first_of(s, c) == s.len() <==> !s.contains(c),
    decreases s.len(),
{
    if s.len() == 0 || s[0] == c {
    } else {
        let rest = s.drop_first();
        lemma_first_of(rest, c);
        assert forall|i: int| 0 <= i < first_of(s, c) implies #[trigger] s[i] != c by {
            if i > 0 {
                assert(s[i] == rest[i - 1]);
            }
        }
        if s.contains(c) {
            let k = choose|k: int| 0 <= k < s.len() && s[k] == c;
            assert(rest[k - 1] == c);
        }
        if rest.contains(c) {
            let k = choose|k: int| 0 <= k < rest.len() && rest[k] == c;
            assert(s[k + 1] == c);
        }
    }
}

/// A position with `c` at it and none before it is the first one.
pub proof fn lemma_first_of_at(s: Seq<char>, c: char, at: int)
    requires
        0 <= at <= s.len(),
        at < s.len() ==> s[at] == c,
        forall|i: int| 0 <= i < at ==> #[trigger] s[i] != c,
    ensures
        first_of(s, c) == at,
{
    lemma_first_of(s, c);
    if first_of(s, c) < at {
        assert(s[first_of(s, c)] != c);
    } else if at < first_of(s, c) {
        assert(s[at] != c);
    }
}

pub proof fn lemma_split_len(s: Seq<char>, sep: Sep)
    ensures
        split(s, sep).len() >= 1,
    decreases s.len(),
{
    if s.len() > 0 {
        lemma_split_len(s.drop_last(), sep);
    }
}

/// `trim_start` takes away white space, and then stops at a character that
/// is none.
pub proof fn lemma_trim_start(s: Seq<char>)
    ensures
        exists|k: int|
            0 <= k <= s.len() && trim_start(s) == #[trigger] s.skip(k) && blank(s.take(k)),
        trim_start(s).len() > 0 ==> !is_space(trim_start(s)[0]),
        trim_start(s).len() == 0 <==> blank(s),
    decreases s.len(),
{
    if s.len() > 0 && is_space(s[0]) {
        let rest = s.drop_first();
        lemma_trim_start(rest);
        let k = choose|k: int|
            0 <= k <= rest.len() && trim_start(rest) == #[trigger] rest.skip(k) && blank(rest.take(k));
        assert(rest.skip(k) =~= s.skip(k + 1));
        assert forall|i: int| 0 <= i < s.take(k + 1).len() implies is_space(#[trigger] s.take(k + 1)[i]) by {
            if i > 0 {
                assert(rest.take(k)[i - 1] == s[i]);
            }
        }
        if blank(rest) {
            assert forall|i: int| 0 <= i < s.len() implies is_space(#[trigger] s[i]) by {
                if i > 0 {
                    assert(s[i] == rest[i - 1]);
                }
            }
        }
        if blank(s) {
            assert forall|i: int| 0 <= i < rest.len() implies is_space(#[trigger] rest[i]) by {
                assert(rest[i] == s[i + 1]);
            }
        }
    } else {
        assert(s.skip(0) =~= s);
        assert(blank(s.take(0)));
    }
}

/// `trim_end` takes away white space, and then stops at a character that is
/// none.
pub proof fn lemma_trim_end(s: Seq<char>)
    ensures
        trim_end(s).len() <= s.len(),
        trim_end(s) == s.take(trim_end(s).len() as int),
        blank(s.skip(trim_end(s).len() as int)),
        trim_end(s).len() > 0 ==> !is_space(trim_end(s).last()),
        trim_end(s).len() == 0 <==> blank(s),
    decreases s.len(),
{
    if s.len() > 0 && is_space(s.last()) {
        let rest = s.drop_last();
        lemma_trim_end(rest);
        let n = trim_end(s).len() as int;
        assert(rest.take(n) =~= s.take(n));
        assert forall|i: int| 0 <= i < s.skip(n).len() implies is_space(#[trigger] s.skip(n)[i]) by {
            if n + i < rest.len() {
                assert(rest.skip(n)[i] == s[n + i]);
            }
        }
        if blank(rest) {
            assert forall|i: int| 0 <= i < s.len() implies is_space(#[trigger] s[i]) by {
                if i < rest.len() {
                    assert(s[i] == rest[i]);
                }
            }
        }
        if blank(s) {
            assert forall|i: int| 0 <= i < rest.len() implies is_space(#[trigger] rest[i]) by {
                assert(rest[i] == s[i]);
            }
        }
    } else {
        assert(s.take(s.len() as int) =~= s);
        if s.len() > 0 {
            assert(s.last() == s[s.len() - 1]);
        }
    }
}

/// A trimmed text is empty exactly where the text is blank, and has no white
/// space at its ends.
pub proof fn lemma_trim(s: Seq<char>)
    ensures
        trim(s).len() == 0 <==> blank(s),
        trim(s).len() <= s.len(),
        trim(s).len() > 0 ==> !is_space(trim(s)[0]) && !is_space(trim(s).last()),
{
    lemma_trim_start(s);
    let t = trim_start(s);
    lemma_trim_end(t);
    if trim(s).len() > 0 {
        assert(trim(s)[0] == t[0]);
    } else {
        if t.len() > 0 {
            assert(is_space(t[0]));
        }
    }
}

/// A text without white space at its ends is its own trimming.
pub proof fn lemma_trim_fixed(s: Seq<char>)
    requires
        s.len() > 0 ==> !is_space(s[0]) && !is_space(s.last()),
    ensures
        trim(s) == s,
        trim_end(s) == s,
        trim_start(s) == s,
{
}

/// Law: trimming twice is trimming once.
pub proof fn law_trim_idempotent(s: Seq<char>)
    ensures
        trim(trim(s)) == trim(s),
{
    lemma_trim(s);
    lemma_trim_fixed(trim(s));
}

// ------------------------------------------------------------ executable

/// Whether `c` is white space.
pub fn space(c: char) -> (r: bool)
    ensures
        r == is_space(c),
{
    ('\u{9}' <= c && c <= '\u{d}') || c == ' ' || c == '\u{85}' || c == '\u{a0}' || c == '\u{1680}'
        || ('\u{2000}' <= c && c <= '\u{200a}') || c == '\u{2028}' || c == '\u{2029}' || c
        == '\u{202f}' || c == '\u{205f}' || c == '\u{3000}'
}

/// Whether the text is cut at `c`.
pub fn cut_at(sep: Sep, c: char) -> (r: bool)
    ensures
        r == cuts(sep, c),
{
    match sep {
        Sep::Char(x) => c == x,
        Sep::Space => space(c),
        Sep::Tag => c == ',' || space(c),
    }
}

/// The characters of a string.
pub fn chars_of(s: &str) -> (out: Vec<char>)
    ensures
        out@ == s@,
{
    let mut out: Vec<char> = Vec::new();
    for c in it: s.chars()
        invariant
            it.seq() == s@,
            out@ == s@.take(it.index()),
    {
        out.push(c);
        assert(out@ =~= s@.take(it.index() + 1));
    }
    assert(out@ =~= s@);
    out
}

/// The characters from `from` up to `to` as a string.
pub fn part(v: &Vec<char>, from: usize, to: usize) -> (out: String)
    requires
        from <= to <= v@.len(),
    ensures
        out@ == v@.subrange(from as int, to as int),
{
    let mut out = String::new();
    let mut i: usize = from;
    while i < to
        invariant
            from <= i <= to <= v@.len(),
            out@ == v@.subrange(from as int, i as int),
        decreases to - i,
    {
        out.push(v[i]);
        assert(out@ =~= v@.subrange(from as int, i + 1));
        i = i + 1;
    }
    out
}

/// A string of its own with the same text.
pub fn copy(s: &str) -> (out: String)
    ensures
        out@ == s@,
{
    s.to_owned()
}

/// The number of characters.
pub fn count(s: &str) -> (n: usize)
    ensures
        n == s@.len(),
{
    let v = chars_of(s);
    v.len()
}

/// Whether two texts are the same.
pub fn same(a: &str, b: &str) -> (r: bool)
    ensures
        r == (a@ == b@),
{
    let x = chars_of(a);
    let y = chars_of(b);
    if x.len() != y.len() {
        return false;
    }
    let mut i: usize = 0;
    while i < x.len()
        invariant
            i <= x@.len(),
            x@.len() == y@.len(),
            x@ == a@,
            y@ == b@,
            forall|k: int| 0 <= k < i ==> x@[k] == y@[k],
        decreases x.len() - i,
    {
        if x[i] != y[i] {
            return false;
        }
        i = i + 1;
    }
    assert(x@ =~= y@);
    true
}

/// Whether one of the strings is this text.
pub fn among(v: &Vec<String>, s: &str) -> (r: bool)
    ensures
        r == texts(v@).contains(s@),
{
    let mut i: usize = 0;
    while i < v.len()
        invariant
            i <= v@.len(),
            forall|k: int| 0 <= k < i ==> texts(v@)[k] != s@,
        decreases v.len() - i,
    {
        if same(v[i].as_str(), s) {
            assert(texts(v@)[i as int] == s@);
            return true;
        }
        i = i + 1;
    }
    false
}

/// Whether there is nothing but white space.
pub fn is_blank(s: &str) -> (r: bool)
    ensures
        r == blank(s@),
{
    let v = chars_of(s);
    let mut i: usize = 0;
    while i < v.len()
        invariant
            i <= v@.len(),
            v@ == s@,
            forall|k: int| 0 <= k < i ==> is_space(#[trigger] s@[k]),
        decreases v.len() - i,
    {
        if !space(v[i]) {
            return false;
        }
        i = i + 1;
    }
    true
}

/// Where the text starts once the white space before it is gone.
fn skip_space(v: &Vec<char>) -> (k: usize)
    ensures
        k <= v@.len(),
        trim_start(v@) == v@.skip(k as int),
{
    let mut k: usize = 0;
    assert(v@.skip(0) =~= v@);
    while k < v.len() && space(v[k])
        invariant
            k <= v@.len(),
            trim_start(v@) == trim_start(v@.skip(k as int)),
        decreases v.len() - k,
    {
        assert(v@.skip(k as int).drop_first() =~= v@.skip(k + 1));
        k = k + 1;
    }
    k
}

/// Where the text from `from` on ends once the white space after it is gone.
fn back_space(v: &Vec<char>, from: usize) -> (n: usize)
    requires
        from <= v@.len(),
    ensures
        from <= n <= v@.len(),
        trim_end(v@.skip(from as int)) == v@.subrange(from as int, n as int),
{
    let mut n: usize = v.len();
    assert(v@.subrange(from as int, n as int) =~= v@.skip(from as int));
    while n > from && space(v[n - 1])
        invariant
            from <= n <= v@.len(),
            trim_end(v@.skip(from as int)) == trim_end(v@.subrange(from as int, n as int)),
        decreases n,
    {
        assert(v@.subrange(from as int, n as int).drop_last() =~= v@.subrange(from as int, n - 1));
        assert(v@.subrange(from as int, n as int).last() == v@[n - 1]);
        n = n - 1;
    }
    if n > from {
        assert(v@.subrange(from as int, n as int).last() == v@[n - 1]);
    }
    n
}

/// The text without the white space at either end.
pub fn trimmed(s: &str) -> (out: String)
    ensures
        out@ == trim(s@),
{
    let v = chars_of(s);
    let k = skip_space(&v);
    let n = back_space(&v, k);
    part(&v, k, n)
}

/// The text without the white space at the end.
pub fn trimmed_end(s: &str) -> (out: String)
    ensures
        out@ == trim_end(s@),
{
    let v = chars_of(s);
    let n = back_space(&v, 0);
    assert(v@.skip(0) =~= v@);
    part(&v, 0, n)
}

/// The pieces of the text between the cuts.
pub fn pieces(s: &str, sep: Sep) -> (out: Vec<String>)
    ensures
        texts(out@) == split(s@, sep),
        out@.len() >= 1,
{
    let v = chars_of(s);
    let mut out: Vec<String> = Vec::new();
    let mut cur = String::new();
    let mut i: usize = 0;
    assert(texts(out@).push(cur@) =~= split(v@.take(0), sep));
    while i < v.len()
        invariant
            i <= v@.len(),
            v@ == s@,
            texts(out@).push(cur@) == split(v@.take(i as int), sep),
        decreases v.len() - i,
    {
        assert(v@.take(i + 1).drop_last() =~= v@.take(i as int));
        assert(v@.take(i + 1).last() == v@[i as int]);
        let ghost before = texts(out@).push(cur@);
        assert(before.drop_last() =~= texts(out@));
        assert(before.last() == cur@);
        if cut_at(sep, v[i]) {
            let ghost done = out@;
            out.push(cur);
            cur = String::new();
            assert(texts(out@) =~= before);
        } else {
            cur.push(v[i]);
        }
        i = i + 1;
    }
    let ghost before = texts(out@).push(cur@);
    out.push(cur);
    assert(texts(out@) =~= before);
    assert(v@.take(i as int) =~= s@);
    out
}

/// The strings that are not empty, in order.
pub fn keep_nonempty(v: Vec<String>) -> (out: Vec<String>)
    ensures
        texts(out@) == nonempty(texts(v@)),
{
    let mut out: Vec<String> = Vec::new();
    let mut i: usize = 0;
    assert(texts(out@) =~= nonempty(texts(v@).take(0)));
    while i < v.len()
        invariant
            i <= v@.len(),
            texts(out@) == nonempty(texts(v@).take(i as int)),
        decreases v.len() - i,
    {
        assert(texts(v@).take(i + 1).drop_last() =~= texts(v@).take(i as int));
        assert(texts(v@).take(i + 1).last() == v@[i as int]@);
        if !v[i].as_str().is_empty() {
            let ghost before = texts(out@);
            out.push(v[i].clone());
            assert(texts(out@) =~= before.push(v@[i as int]@));
        }
        i = i + 1;
    }
    assert(texts(v@).take(i as int) =~= texts(v@));
    out
}

/// The words of the text.
pub fn words_of(s: &str) -> (out: Vec<String>)
    ensures
        texts(out@) == words(s@),
{
    keep_nonempty(pieces(s, Sep::Space))
}

/// The text without one carriage return at the end.
fn without_cr(s: &str) -> (out: String)
    ensures
        out@ == strip_cr(s@),
{
    let v = chars_of(s);
    if v.len() > 0 && v[v.len() - 1] == '\r' {
        assert(v@.subrange(0, v@.len() - 1) =~= s@.drop_last());
        part(&v, 0, v.len() - 1)
    } else {
        copy(s)
    }
}

/// The lines of the text.
pub fn lines_of(s: &str) -> (out: Vec<String>)
    ensures
        texts(out@) == lines(s@),
{
    let cut = pieces(s, Sep::Char('\n'));
    let ghost p = texts(cut@);
    let ghost ended = p.drop_last().map_values(|q: Seq<char>| strip_cr(q));
    let mut out: Vec<String> = Vec::new();
    let mut i: usize = 0;
    let last: usize = cut.len() - 1;
    while i < last
        invariant
            i <= last,
            last == cut@.len() - 1,
            p == texts(cut@),
            ended == p.drop_last().map_values(|q: Seq<char>| strip_cr(q)),
            texts(out@) == ended.take(i as int),
        decreases last - i,
    {
        let ghost before = texts(out@);
        let line = without_cr(cut[i].as_str());
        assert(ended[i as int] == strip_cr(p[i as int]));
        out.push(line);
        assert(texts(out@) =~= before.push(line@));
        assert(ended.take(i + 1) =~= ended.take(i as int).push(ended[i as int]));
        i = i + 1;
    }
    assert(ended.take(i as int) =~= ended);
    if !cut[last].as_str().is_empty() {
        let ghost before = texts(out@);
        out.push(cut[last].clone());
        assert(texts(out@) =~= before.push(cut@[last as int]@));
    }
    assert(p.last() == cut@[last as int]@);
    out
}

/// The strings joined with `sep` between them.
pub fn joined(v: &Vec<String>, sep: &str) -> (out: String)
    ensures
        out@ == join(texts(v@), sep@),
{
    let mut out = String::new();
    let mut i: usize = 0;
    let ghost t = texts(v@);
    assert(out@ =~= join(t.take(0), sep@));
    while i < v.len()
        invariant
            i <= v@.len(),
            t == texts(v@),
            out@ == join(t.take(i as int), sep@),
        decreases v.len() - i,
    {
        assert(t.take(i + 1).drop_last() =~= t.take(i as int));
        assert(t.take(i + 1).last() == v@[i as int]@);
        if i > 0 {
            out.append(sep);
            out.append(v[i].as_str());
        } else {
            out = v[i].clone();
            assert(t.take(1)[0] == v@[0]@);
        }
        i = i + 1;
    }
    assert(t.take(i as int) =~= t);
    out
}

/// Whether `needle` stands in `hay` at `at`.
pub fn stands_at(hay: &Vec<char>, needle: &Vec<char>, at: usize) -> (r: bool)
    ensures
        r == occurs_at(hay@, needle@, at as int),
{
    if needle.len() > hay.len() || at > hay.len() - needle.len() {
        return false;
    }
    let total: usize = hay.len();
    let mut i: usize = 0;
    while i < needle.len()
        invariant
            i <= needle@.len(),
            at + needle@.len() <= total == hay@.len(),
            forall|k: int| 0 <= k < i ==> hay@[at + k] == needle@[k],
        decreases needle.len() - i,
    {
        if hay[at + i] != needle[i] {
            assert(hay@.subrange(at as int, at + needle@.len())[i as int] != needle@[i as int]);
            return false;
        }
        i = i + 1;
    }
    assert(hay@.subrange(at as int, at + needle@.len()) =~= needle@);
    true
}

/// Whether `needle` stands somewhere in `hay`.
pub fn has(hay: &str, needle: &str) -> (r: bool)
    ensures
        r == contains(hay@, needle@),
{
    let h = chars_of(hay);
    let n = chars_of(needle);
    let mut at: usize = 0;
    loop
        invariant
            at <= h@.len(),
            h@ == hay@,
            n@ == needle@,
            forall|k: int| 0 <= k < at ==> !#[trigger] occurs_at(h@, n@, k),
        decreases h.len() - at,
    {
        if stands_at(&h, &n, at) {
            return true;
        }
        if at == h.len() {
            return false;
        }
        at = at + 1;
    }
}

/// Whether `s` begins with `prefix`.
pub fn begins(s: &str, prefix: &str) -> (r: bool)
    ensures
        r == starts_with(s@, prefix@),
{
    let h = chars_of(s);
    let n = chars_of(prefix);
    stands_at(&h, &n, 0)
}

/// The text with every `c` replaced by `with`.
pub fn replaced_char(s: &str, c: char, with: &str) -> (out: String)
    ensures
        out@ == replace_char(s@, c, with@),
{
    let v = chars_of(s);
    let mut out = String::new();
    let mut i: usize = 0;
    assert(out@ =~= replace_char(v@.take(0), c, with@));
    while i < v.len()
        invariant
            i <= v@.len(),
            v@ == s@,
            out@ == replace_char(v@.take(i as int), c, with@),
        decreases v.len() - i,
    {
        assert(v@.take(i + 1).drop_last() =~= v@.take(i as int));
        assert(v@.take(i + 1).last() == v@[i as int]);
        if v[i] == c {
            out.append(with);
        } else {
            out.push(v[i]);
        }
        i = i + 1;
    }
    assert(v@.take(i as int) =~= s@);
    out
}

/// The text with every occurrence of `from` replaced by `to`.
pub fn replaced(s: &str, from: &str, to: &str) -> (out: String)
    ensures
        out@ == replace_all(s@, from@, to@),
{
    let v = chars_of(s);
    let f = chars_of(from);
    if f.len() == 0 {
        return copy(s);
    }
    let mut out = String::new();
    let mut i: usize = 0;
    assert(out@ + replace_all(v@.skip(0), f@, to@) =~= replace_all(s@, f@, to@)) by {
        assert(v@.skip(0) =~= s@);
    }
    while i < v.len()
        invariant
            i <= v@.len(),
            v@ == s@,
            f@ == from@,
            f@.len() > 0,
            out@ + replace_all(v@.skip(i as int), f@, to@) == replace_all(s@, f@, to@),
        decreases v.len() - i,
    {
        let ghost rest = v@.skip(i as int);
        if stands_at(&v, &f, i) {
            assert(rest.take(f@.len() as int) =~= v@.subrange(i as int, i + f@.len()));
            assert(rest.skip(f@.len() as int) =~= v@.skip(i + f@.len()));
            let ghost before = out@;
            out.append(to);
            assert(before + (to@ + replace_all(v@.skip(i + f@.len()), f@, to@)) =~= out@
                + replace_all(v@.skip(i + f@.len()), f@, to@));
            i = i + f.len();
        } else {
            assert(rest.drop_first() =~= v@.skip(i + 1));
            let ghost before = out@;
            out.push(v[i]);
            let ghost tail = replace_all(v@.skip(i + 1), f@, to@);
            proof {
                if rest.len() >= f@.len() {
                    assert(rest.take(f@.len() as int) =~= v@.subrange(i as int, i + f@.len()));
                    assert(before + (seq![rest[0]] + tail) =~= out@ + tail);
                } else {
                    assert(before + rest =~= out@ + v@.skip(i + 1));
                }
            }
            i = i + 1;
        }
    }
    assert(v@.skip(i as int) =~= Seq::<char>::empty());
    assert(out@ + Seq::<char>::empty() =~= out@);
    out
}

/// `n` times the same text.
pub fn repeated(s: &str, n: usize) -> (out: String)
    ensures
        out@ == repeat(s@, n as nat),
{
    let mut out = String::new();
    let mut i: usize = 0;
    while i < n
        invariant
            i <= n,
            out@ == repeat(s@, i as nat),
        decreases n - i,
    {
        out.append(s);
        i = i + 1;
    }
    out
}

/// Where `needle` first stands in `hay`.
pub fn find_in(hay: &Vec<char>, needle: &Vec<char>) -> (r: Option<usize>)
    ensures
        match r {
            Some(at) => find(hay@, needle@) == Some(at as int) && at + needle@.len() <= hay@.len(),
            None => find(hay@, needle@) is None,
        },
{
    let mut at: usize = 0;
    loop
        invariant
            at <= hay@.len(),
            forall|k: int| 0 <= k < at ==> !#[trigger] occurs_at(hay@, needle@, k),
        decreases hay.len() - at,
    {
        if stands_at(hay, needle, at) {
            proof {
                lemma_find_at(hay@, needle@, at as int);
            }
            return Some(at);
        }
        if at == hay.len() {
            proof {
                lemma_find(hay@, needle@);
            }
            return None;
        }
        at = at + 1;
    }
}

/// The position of the last `c`.
pub fn last_in(v: &Vec<char>, c: char) -> (r: Option<usize>)
    ensures
        match r {
            Some(at) => last_of(v@, c) == at && at < v@.len(),
            None => last_of(v@, c) < 0,
        },
{
    let mut n: usize = v.len();
    assert(v@.take(n as int) =~= v@);
    while n > 0
        invariant
            n <= v@.len(),
            last_of(v@, c) == last_of(v@.take(n as int), c),
        decreases n,
    {
        assert(v@.take(n as int).last() == v@[n - 1]);
        assert(v@.take(n as int).drop_last() =~= v@.take(n - 1));
        if v[n - 1] == c {
            return Some(n - 1);
        }
        n = n - 1;
    }
    None
}

/// The strings that are not blank, in order.
pub fn keep_nonblank(v: Vec<String>) -> (out: Vec<String>)
    ensures
        texts(out@) == nonblank(texts(v@)),
{
    let mut out: Vec<String> = Vec::new();
    let mut i: usize = 0;
    assert(texts(out@) =~= nonblank(texts(v@).take(0)));
    while i < v.len()
        invariant
            i <= v@.len(),
            texts(out@) == nonblank(texts(v@).take(i as int)),
        decreases v.len() - i,
    {
        assert(texts(v@).take(i + 1).drop_last() =~= texts(v@).take(i as int));
        assert(texts(v@).take(i + 1).last() == v@[i as int]@);
        if !is_blank(v[i].as_str()) {
            let ghost before = texts(out@);
            out.push(v[i].clone());
            assert(texts(out@) =~= before.push(v@[i as int]@));
        }
        i = i + 1;
    }
    assert(texts(v@).take(i as int) =~= texts(v@));
    out
}

/// The text without the `c`s at the start.
pub fn stripped_start(s: &str, c: char) -> (out: String)
    ensures
        out@ == strip_start(s@, c),
{
    let v = chars_of(s);
    let mut k: usize = 0;
    assert(v@.skip(0) =~= s@);
    while k < v.len() && v[k] == c
        invariant
            k <= v@.len(),
            strip_start(s@, c) == strip_start(v@.skip(k as int), c),
        decreases v.len() - k,
    {
        assert(v@.skip(k as int).drop_first() =~= v@.skip(k + 1));
        k = k + 1;
    }
    assert(v@.subrange(k as int, v@.len() as int) =~= v@.skip(k as int));
    part(&v, k, v.len())
}

/// The text without the `c`s at the end.
pub fn stripped_end(s: &str, c: char) -> (out: String)
    ensures
        out@ == strip_end(s@, c),
{
    let v = chars_of(s);
    let mut n: usize = v.len();
    assert(v@.take(n as int) =~= s@);
    while n > 0 && v[n - 1] == c
        invariant
            n <= v@.len(),
            strip_end(s@, c) == strip_end(v@.take(n as int), c),
        decreases n,
    {
        assert(v@.take(n as int).last() == v@[n - 1]);
        assert(v@.take(n as int).drop_last() =~= v@.take(n - 1));
        n = n - 1;
    }
    if n > 0 {
        assert(v@.take(n as int).last() == v@[n - 1]);
    }
    assert(v@.subrange(0, n as int) =~= v@.take(n as int));
    part(&v, 0, n)
}

/// The text cut at the first `c`.
pub fn cut_once(s: &str, c: char) -> (out: Option<(String, String)>)
    ensures
        match out {
            Some((a, b)) => split_once(s@, c) == Some((a@, b@)),
            None => split_once(s@, c) is None,
        },
{
    let v = chars_of(s);
    let mut i: usize = 0;
    while i < v.len()
        invariant
            i <= v@.len(),
            v@ == s@,
            forall|k: int| 0 <= k < i ==> #[trigger] v@[k] != c,
        decreases v.len() - i,
    {
        if v[i] == c {
            proof {
                lemma_first_of_at(s@, c, i as int);
            }
            let a = part(&v, 0, i);
            let b = part(&v, i + 1, v.len());
            assert(a@ =~= s@.take(i as int));
            assert(b@ =~= s@.skip(i + 1));
            return Some((a, b));
        }
        i = i + 1;
    }
    proof {
        lemma_first_of_at(s@, c, i as int);
    }
    None
}

} // verus!
