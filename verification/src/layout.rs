//! Fitting text into columns: cutting, wrapping and padding. A character
//! counts as one column.

use vstd::prelude::*;

use crate::number::{read_count, unsigned_value, within};
use crate::notes::opt_text;
use crate::text::{chars_of, copy, count, part, repeat, repeated, texts, words, words_of};

verus! {

/// The text cut to `max` columns, with a mark where something is cut off.
pub open spec fn truncated(s: Seq<char>, max: nat) -> Seq<char> {
    if s.len() <= max {
        s
    } else {
        s.take(if max == 0 { 0int } else { max - 1 }) + "…"@
    }
}

/// The text filled up with blanks to `w` columns.
pub open spec fn padded(s: Seq<char>, w: nat) -> Seq<char> {
    if s.len() >= w {
        s
    } else {
        s + repeat(" "@, (w - s.len()) as nat)
    }
}

/// How far wrapping has come: the lines that are full, the line begun, and
/// whether the last line allowed is full.
#[verifier::ext_equal]
pub struct Fill {
    pub full: Seq<Seq<char>>,
    pub begun: Seq<char>,
    pub stopped: bool,
}

/// The line begun with one word more.
pub open spec fn longer(begun: Seq<char>, word: Seq<char>) -> Seq<char> {
    if begun.len() == 0 {
        word
    } else {
        begun + " "@ + word
    }
}

/// One word more: on the line begun where it fits, else on a new one.
pub open spec fn fill_step(f: Fill, word: Seq<char>, max: nat, limit: nat) -> Fill {
    if f.stopped {
        f
    } else {
        let line = longer(f.begun, word);
        let (full, begun) = if line.len() <= max {
            (f.full, line)
        } else if f.begun.len() == 0 {
            (f.full, truncated(word, max))
        } else {
            (f.full.push(f.begun), truncated(word, max))
        };
        Fill { full, begun, stopped: full.len() == limit }
    }
}

/// The words laid out one after the other.
pub open spec fn fill(ws: Seq<Seq<char>>, max: nat, limit: nat) -> Fill
    decreases ws.len(),
{
    if ws.len() == 0 {
        Fill { full: Seq::empty(), begun: Seq::empty(), stopped: false }
    } else {
        fill_step(fill(ws.drop_last(), max, limit), ws.last(), max, limit)
    }
}

/// The lines of a layout, the one begun included where there is room.
pub open spec fn laid_out(f: Fill, limit: nat) -> Seq<Seq<char>> {
    if f.full.len() < limit && f.begun.len() > 0 {
        f.full.push(f.begun)
    } else {
        f.full
    }
}

/// How many words some lines hold.
pub open spec fn words_in(ls: Seq<Seq<char>>) -> nat
    decreases ls.len(),
{
    if ls.len() == 0 {
        0
    } else {
        words_in(ls.drop_last()) + words(ls.last()).len()
    }
}

/// The text on at most `limit` lines of `max` columns, with a mark at the
/// end where it kept going.
pub open spec fn wrapped(s: Seq<char>, max: nat, limit: nat) -> Seq<Seq<char>> {
    let ls = laid_out(fill(words(s), max, limit), limit);
    if ls.len() == limit && ls.len() > 0 && words_in(ls) < words(s).len() {
        ls.drop_last().push(truncated(ls.last(), if max == 0 { 0 } else { (max - 1) as nat }) + "…"@)
    } else {
        ls
    }
}

/// The width of the terminal: what the environment says, else what the
/// terminal says, else 100.
pub open spec fn terminal_width(columns: Option<Seq<char>>, size: Option<Seq<char>>) -> int {
    let env = match columns {
        Some(c) => within(unsigned_value(c), 0, usize::MAX as int),
        None => None,
    };
    let tty = match size {
        Some(s) => if words(s).len() > 1 {
            within(unsigned_value(words(s)[1]), 1, usize::MAX as int)
        } else {
            None
        },
        None => None,
    };
    match env {
        Some(n) => n,
        None => match tty {
            Some(n) => n,
            None => 100,
        },
    }
}

// ------------------------------------------------------------- laws

/// Law: a text cut to some columns is no wider than them, as long as there
/// is one column for the mark.
pub proof fn law_truncated_fits(s: Seq<char>, max: nat)
    requires
        max > 0,
    ensures
        truncated(s, max).len() <= max,
        s.len() <= max ==> truncated(s, max) == s,
{
    reveal_strlit("…");
}

/// The width of a run of blanks.
pub proof fn lemma_repeat_len(s: Seq<char>, n: nat)
    ensures
        repeat(s, n).len() == s.len() * n,
    decreases n,
{
    if n > 0 {
        lemma_repeat_len(s, (n - 1) as nat);
        assert(s.len() * n == s.len() * (n - 1) + s.len()) by (nonlinear_arith)
            requires
                n > 0,
        ;
    } else {
        assert(s.len() * n == 0) by (nonlinear_arith)
            requires
                n == 0,
        ;
    }
}

/// Law: a text filled up is as wide as asked for, or as it was.
pub proof fn law_padded_is_wide(s: Seq<char>, w: nat)
    ensures
        padded(s, w).len() == if s.len() < w {
            w
        } else {
            s.len()
        },
{
    reveal_strlit(" ");
    if s.len() < w {
        lemma_repeat_len(" "@, (w - s.len()) as nat);
        assert(1 * ((w - s.len()) as nat) == w - s.len());
    }
}

proof fn lemma_fill_fits(ws: Seq<Seq<char>>, max: nat, limit: nat)
    requires
        max > 0,
    ensures
        ({
            let f = fill(ws, max, limit);
            &&& f.begun.len() <= max
            &&& forall|k: int| 0 <= k < f.full.len() ==> (#[trigger] f.full[k]).len() <= max
            &&& f.full.len() <= limit
            &&& limit > 0 && !f.stopped ==> f.full.len() < limit
            &&& limit == 0 ==> f.full.len() == 0
        }),
    decreases ws.len(),
{
    if ws.len() > 0 {
        lemma_fill_fits(ws.drop_last(), max, limit);
        let f = fill(ws.drop_last(), max, limit);
        let g = fill(ws, max, limit);
        law_truncated_fits(ws.last(), max);
        assert forall|k: int| 0 <= k < g.full.len() implies (#[trigger] g.full[k]).len() <= max by {
            if k < f.full.len() {
                assert(g.full[k] == f.full[k]);
            }
        }
        if limit == 0 && ws.len() > 1 {
            // the first word already stops the layout
            lemma_zero_limit(ws.drop_last(), max);
        }
    }
}

proof fn lemma_zero_limit(ws: Seq<Seq<char>>, max: nat)
    requires
        ws.len() > 0,
    ensures
        fill(ws, max, 0).full.len() == 0,
        fill(ws, max, 0).stopped,
    decreases ws.len(),
{
    if ws.len() > 1 {
        lemma_zero_limit(ws.drop_last(), max);
    } else {
        let f = fill(ws.drop_last(), max, 0);
        assert(f.full.len() == 0 && f.begun.len() == 0 && !f.stopped);
    }
}

/// Law: wrapped text takes no more lines than allowed, and no line is wider
/// than asked for.
pub proof fn law_wrapped_fits(s: Seq<char>, max: nat, limit: nat)
    requires
        max >= 2,
    ensures
        wrapped(s, max, limit).len() <= limit,
        forall|k: int| 0 <= k < wrapped(s, max, limit).len() ==> (#[trigger] wrapped(s, max, limit)[k]).len() <= max,
{
    reveal_strlit("…");
    lemma_fill_fits(words(s), max, limit);
    let f = fill(words(s), max, limit);
    let ls = laid_out(f, limit);
    assert forall|k: int| 0 <= k < ls.len() implies (#[trigger] ls[k]).len() <= max by {
        if k < f.full.len() {
            assert(ls[k] == f.full[k]);
        }
    }
    if ls.len() > 0 {
        law_truncated_fits(ls.last(), (max - 1) as nat);
    }
    let w = wrapped(s, max, limit);
    assert forall|k: int| 0 <= k < w.len() implies (#[trigger] w[k]).len() <= max by {
        if k < ls.len() - 1 {
            assert(w[k] == ls[k]);
        }
    }
}

// ------------------------------------------------------------- executable

/// The width of a text.
pub fn width_of(s: &str) -> (n: usize)
    ensures
        n == s@.len(),
{
    count(s)
}

/// The text cut to `max` columns.
pub fn truncate(s: &str, max: usize) -> (out: String)
    ensures
        out@ == truncated(s@, max as nat),
{
    let v = chars_of(s);
    if v.len() <= max {
        return copy(s);
    }
    let keep: usize = if max == 0 {
        0
    } else {
        max - 1
    };
    assert(v@.subrange(0, keep as int) =~= s@.take(keep as int));
    part(&v, 0, keep).concat("…")
}

/// The text filled up with blanks to `w` columns.
pub fn pad(s: &str, w: usize) -> (out: String)
    ensures
        out@ == padded(s@, w as nat),
{
    let n: usize = count(s);
    if n >= w {
        copy(s)
    } else {
        copy(s).concat(repeated(" ", w - n).as_str())
    }
}

fn count_words(ls: &Vec<String>, cap: usize) -> (n: usize)
    ensures
        n == if words_in(texts(ls@)) > cap {
            cap as nat
        } else {
            words_in(texts(ls@))
        },
{
    let ghost all = texts(ls@);
    let mut n: usize = 0;
    let mut i: usize = 0;
    assert(words_in(all.take(0)) == 0);
    while i < ls.len()
        invariant
            i <= ls@.len(),
            all == texts(ls@),
            n == if words_in(all.take(i as int)) > cap {
                cap as nat
            } else {
                words_in(all.take(i as int))
            },
            n <= cap,
        decreases ls.len() - i,
    {
        assert(all.take(i + 1).drop_last() =~= all.take(i as int));
        assert(all.take(i + 1).last() == ls@[i as int]@);
        let ws = words_of(ls[i].as_str());
        assert(texts(ws@).len() == ws@.len());
        if ws.len() > cap - n {
            n = cap;
        } else {
            n = n + ws.len();
        }
        i = i + 1;
    }
    assert(all.take(i as int) =~= all);
    n
}

/// The text on at most `lines` lines of `max` columns.
pub fn wrap(s: &str, max: usize, lines: usize) -> (out: Vec<String>)
    ensures
        texts(out@) == wrapped(s@, max as nat, lines as nat),
{
    let ws = words_of(s);
    let ghost wv = words(s@);
    assert(texts(ws@).len() == ws@.len());
    let mut out: Vec<String> = Vec::new();
    let mut cur = String::new();
    let mut stopped = false;
    let mut i: usize = 0;
    assert(texts(out@) =~= Seq::empty());
    assert(cur@ =~= Seq::empty());
    while i < ws.len()
        invariant
            i <= ws@.len(),
            texts(ws@) == wv,
            (Fill { full: texts(out@), begun: cur@, stopped }) == fill(wv.take(i as int), max as nat, lines as nat),
        decreases ws.len() - i,
    {
        assert(wv.take(i + 1).drop_last() =~= wv.take(i as int));
        assert(wv.take(i + 1).last() == ws@[i as int]@);
        if !stopped {
            let ghost before = texts(out@);
            let ghost begun = cur@;
            let line = if cur.as_str().is_empty() {
                ws[i].clone()
            } else {
                copy(cur.as_str()).concat(" ").concat(ws[i].as_str())
            };
            if count(line.as_str()) <= max {
                cur = line;
            } else {
                if !cur.as_str().is_empty() {
                    out.push(cur);
                    assert(texts(out@) =~= before.push(begun));
                }
                cur = truncate(ws[i].as_str(), max);
            }
            assert(texts(out@).len() == out@.len());
            stopped = out.len() == lines;
        }
        i = i + 1;
    }
    assert(wv.take(i as int) =~= wv);
    let ghost f = fill(wv, max as nat, lines as nat);
    assert(texts(out@).len() == out@.len());
    if out.len() < lines && !cur.as_str().is_empty() {
        out.push(cur);
        assert(texts(out@) =~= f.full.push(f.begun));
    }
    let ghost ls = laid_out(f, lines as nat);
    assert(texts(out@) == ls);
    assert(texts(out@).len() == out@.len());
    let total: usize = ws.len();
    let used: usize = count_words(&out, total);
    if out.len() == lines && out.len() > 0 && used < total {
        let last: usize = out.len() - 1;
        let room: usize = if max == 0 {
            0
        } else {
            max - 1
        };
        let marked = truncate(out[last].as_str(), room).concat("…");
        assert(ls.last() == out@[last as int]@);
        out.set(last, marked);
        assert(texts(out@) =~= ls.drop_last().push(marked@));
    }
    out
}

/// The width of the terminal, from what the environment and the terminal
/// say.
pub fn term_width(columns: Option<&str>, size: Option<&str>) -> (n: usize)
    ensures
        n == terminal_width(opt_text(columns), opt_text(size)),
{
    match columns {
        Some(c) => {
            match read_count(c) {
                Some(n) => {
                    return n;
                },
                None => {},
            }
        },
        None => {},
    }
    match size {
        Some(s) => {
            let ws = words_of(s);
            assert(texts(ws@).len() == ws@.len());
            if ws.len() > 1 {
                assert(texts(ws@)[1] == ws@[1]@);
                match read_count(ws[1].as_str()) {
                    Some(n) => {
                        if n > 0 {
                            return n;
                        }
                    },
                    None => {},
                }
            }
        },
        None => {},
    }
    100
}

} // verus!
