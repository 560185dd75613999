//! Color and measure for the terminal: escape sequences, and the width of
//! what can be seen.

use vstd::prelude::*;

use crate::number::{dec, decimal};
use crate::status::Status;
use crate::text::{chars_of, copy};

verus! {

/// A color: red, green, blue.
pub type Rgb = (u8, u8, u8);

/// Text in a color, where color is on.
pub open spec fn colored(on: bool, s: Seq<char>, c: Rgb) -> Seq<char> {
    if on {
        "\x1b[38;2;"@ + dec(c.0 as int) + ";"@ + dec(c.1 as int) + ";"@ + dec(c.2 as int) + "m"@ + s + "\x1b[0m"@
    } else {
        s
    }
}

/// Dimmed text, where color is on.
pub open spec fn dimmed(on: bool, s: Seq<char>) -> Seq<char> {
    if on {
        "\x1b[2m"@ + s + "\x1b[0m"@
    } else {
        s
    }
}

/// Bold text, where color is on.
pub open spec fn bolded(on: bool, s: Seq<char>) -> Seq<char> {
    if on {
        "\x1b[1m"@ + s + "\x1b[0m"@
    } else {
        s
    }
}

/// Between the least and the greatest priority.
pub open spec fn clamped(priority: int) -> int {
    if priority < 0 {
        0
    } else if priority > 10000 {
        10000
    } else {
        priority
    }
}

/// From cold at priority 0 to hot at 10000.
pub open spec fn heat_of(priority: int) -> (int, int, int) {
    let q = clamped(priority);
    (124 + 60 * q / 10000, (1470000 - 78 * q) / 10000, (1600000 - 113 * q) / 10000)
}

/// The color of a status.
pub open spec fn status_rgb(status: Status) -> Rgb {
    match status {
        Status::New => (147, 164, 181),
        Status::Ready => (79, 191, 169),
        Status::InProgress => (220, 165, 63),
        Status::Done => (108, 123, 116),
    }
}

/// The color of a priority.
pub open spec fn heat_rgb(priority: int) -> Rgb {
    let h = heat_of(priority);
    (h.0 as u8, h.1 as u8, h.2 as u8)
}

/// Reading on: how many characters are seen, and whether an escape sequence
/// is open. One runs from the escape character to the next `m`.
pub open spec fn scan(start: (nat, bool), s: Seq<char>) -> (nat, bool)
    decreases s.len(),
{
    if s.len() == 0 {
        start
    } else {
        let (n, inside) = scan(start, s.drop_last());
        if inside {
            (n, s.last() != 'm')
        } else if s.last() == '\x1b' {
            (n, true)
        } else {
            (n + 1, false)
        }
    }
}

/// How many characters of a text are seen.
pub open spec fn visible(s: Seq<char>) -> nat {
    scan((0, false), s).0
}

/// No escape sequence is left open at the end of the text.
pub open spec fn closed_paint(s: Seq<char>) -> bool {
    !scan((0, false), s).1
}

/// Reading on: the characters seen so far, and whether an escape sequence is
/// open.
pub open spec fn read_on(start: (Seq<char>, bool), s: Seq<char>) -> (Seq<char>, bool)
    decreases s.len(),
{
    if s.len() == 0 {
        start
    } else {
        let (t, inside) = read_on(start, s.drop_last());
        if inside {
            (t, s.last() != 'm')
        } else if s.last() == '\x1b' {
            (t, true)
        } else {
            (t.push(s.last()), false)
        }
    }
}

/// What is seen of a text: all of it but its escape sequences.
pub open spec fn seen(s: Seq<char>) -> Seq<char> {
    read_on((Seq::empty(), false), s).0
}

/// The character stands nowhere in the text.
pub open spec fn free_of(s: Seq<char>, c: char) -> bool {
    forall|i: int| 0 <= i < s.len() ==> #[trigger] s[i] != c
}

/// No escape character stands in the text.
pub open spec fn unpainted(s: Seq<char>) -> bool {
    free_of(s, '\x1b')
}

// ------------------------------------------------------------- laws

pub proof fn lemma_scan_append(start: (nat, bool), a: Seq<char>, b: Seq<char>)
    ensures
        scan(start, a + b) == scan(scan(start, a), b),
    decreases b.len(),
{
    if b.len() == 0 {
        assert(a + b =~= a);
    } else {
        lemma_scan_append(start, a, b.drop_last());
        assert((a + b).drop_last() =~= a + b.drop_last());
        assert((a + b).last() == b.last());
    }
}

/// Reading tells the same as measuring.
pub proof fn lemma_seen_is_visible(start: (Seq<char>, bool), s: Seq<char>)
    ensures
        read_on(start, s).0.len() == scan((start.0.len(), start.1), s).0,
        read_on(start, s).1 == scan((start.0.len(), start.1), s).1,
    decreases s.len(),
{
    if s.len() > 0 {
        lemma_seen_is_visible(start, s.drop_last());
    }
}

pub proof fn lemma_read_append(start: (Seq<char>, bool), a: Seq<char>, b: Seq<char>)
    ensures
        read_on(start, a + b) == read_on(read_on(start, a), b),
    decreases b.len(),
{
    if b.len() == 0 {
        assert(a + b =~= a);
    } else {
        lemma_read_append(start, a, b.drop_last());
        assert((a + b).drop_last() =~= a + b.drop_last());
        assert((a + b).last() == b.last());
    }
}

/// What was read before stands before what is read.
pub proof fn lemma_read_from(t: Seq<char>, inside: bool, s: Seq<char>)
    ensures
        read_on((t, inside), s).0 == t + read_on((Seq::empty(), inside), s).0,
        read_on((t, inside), s).1 == read_on((Seq::empty(), inside), s).1,
    decreases s.len(),
{
    if s.len() == 0 {
        assert(t + Seq::empty() =~= t);
    } else {
        lemma_read_from(t, inside, s.drop_last());
        let (u, _) = read_on((Seq::empty(), inside), s.drop_last());
        assert((t + u).push(s.last()) =~= t + u.push(s.last()));
    }
}

proof fn lemma_read_unpainted(t: Seq<char>, s: Seq<char>)
    requires
        unpainted(s),
    ensures
        read_on((t, false), s) == (t + s, false),
    decreases s.len(),
{
    if s.len() == 0 {
        assert(t + s =~= t);
    } else {
        let front = s.drop_last();
        assert forall|i: int| 0 <= i < front.len() implies #[trigger] front[i] != '\x1b' by {
            assert(front[i] == s[i]);
        }
        lemma_read_unpainted(t, front);
        assert(s[s.len() - 1] != '\x1b');
        assert((t + front).push(s.last()) =~= t + s);
    }
}

/// Inside a sequence nothing is seen up to the `m`.
proof fn lemma_read_inside(t: Seq<char>, s: Seq<char>)
    requires
        !s.contains('m'),
    ensures
        read_on((t, true), s) == (t, true),
    decreases s.len(),
{
    if s.len() > 0 {
        let front = s.drop_last();
        assert(!front.contains('m')) by {
            if front.contains('m') {
                let i = choose|i: int| 0 <= i < front.len() && front[i] == 'm';
                assert(s[i] == 'm');
            }
        }
        lemma_read_inside(t, front);
        assert(s[s.len() - 1] != 'm');
    }
}

/// A whole sequence is not seen.
proof fn lemma_read_sequence(t: Seq<char>, body: Seq<char>)
    requires
        !body.contains('m'),
    ensures
        read_on((t, false), seq!['\x1b'] + body + seq!['m']) == (t, false),
{
    let all = seq!['\x1b'] + body + seq!['m'];
    let head = seq!['\x1b'];
    assert(read_on((t, false), head.drop_last()) == (t, false));
    assert(read_on((t, false), head) == (t, true));
    lemma_read_append((t, false), head, body);
    lemma_read_inside(t, body);
    assert(all.drop_last() =~= head + body);
    assert(all.last() == 'm');
}

proof fn lemma_decimal_has_no_m(n: int)
    ensures
        !dec(n).contains('m'),
{
    lemma_digits_have_no_m(if n < 0 { (-n) as nat } else { n as nat });
    if dec(n).contains('m') {
        let i = choose|i: int| 0 <= i < dec(n).len() && dec(n)[i] == 'm';
        if n < 0 && i > 0 {
            assert(crate::number::digits((-n) as nat)[i - 1] == 'm');
            assert(crate::number::digits((-n) as nat).contains('m'));
        } else if n >= 0 {
            assert(crate::number::digits(n as nat).contains('m'));
        }
    }
}

proof fn lemma_digits_have_no_m(n: nat)
    ensures
        !crate::number::digits(n).contains('m'),
    decreases n,
{
    let d = crate::number::digits(n);
    if n >= 10 {
        lemma_digits_have_no_m(n / 10);
        if d.contains('m') {
            let i = choose|i: int| 0 <= i < d.len() && d[i] == 'm';
            if i < d.len() - 1 {
                assert(crate::number::digits(n / 10)[i] == 'm');
                assert(crate::number::digits(n / 10).contains('m'));
            }
        }
    }
}

/// Text between two whole sequences is seen as it is.
proof fn lemma_wrapped(open: Seq<char>, s: Seq<char>)
    requires
        !open.contains('m'),
        unpainted(s),
    ensures
        read_on((Seq::empty(), false), seq!['\x1b'] + open + seq!['m'] + s + "\x1b[0m"@) == (s, false),
{
    reveal_strlit("\x1b[0m");
    let none = Seq::<char>::empty();
    let close = seq!['[', '0'];
    assert("\x1b[0m"@ =~= seq!['\x1b'] + close + seq!['m']);
    let first = seq!['\x1b'] + open + seq!['m'];
    lemma_read_sequence(none, open);
    lemma_read_append((none, false), first, s);
    lemma_read_unpainted(none, s);
    assert(none + s =~= s);
    lemma_read_append((none, false), first + s, "\x1b[0m"@);
    lemma_read_sequence(s, close);
}

/// Law: painting changes nothing about a text but its color: a text without
/// escape characters is seen as it is, painted or not, and no paint runs on
/// past its end.
pub proof fn law_paint_keeps_text(on: bool, s: Seq<char>, c: Rgb)
    requires
        unpainted(s),
    ensures
        seen(s) == s,
        seen(colored(on, s, c)) == s,
        seen(dimmed(on, s)) == s,
        seen(bolded(on, s)) == s,
        closed_paint(s),
        closed_paint(colored(on, s, c)),
        closed_paint(dimmed(on, s)),
        closed_paint(bolded(on, s)),
{
    let none = (Seq::<char>::empty(), false);
    lemma_read_unpainted(none.0, s);
    assert(none.0 + s =~= s);
    lemma_seen_is_visible(none, s);
    lemma_seen_is_visible(none, colored(on, s, c));
    lemma_seen_is_visible(none, dimmed(on, s));
    lemma_seen_is_visible(none, bolded(on, s));
    reveal_strlit("\x1b[38;2;");
    reveal_strlit("\x1b[2m");
    reveal_strlit("\x1b[1m");
    reveal_strlit(";");
    reveal_strlit("m");
    if on {
        let a = dec(c.0 as int);
        let b = dec(c.1 as int);
        let d = dec(c.2 as int);
        lemma_decimal_has_no_m(c.0 as int);
        lemma_decimal_has_no_m(c.1 as int);
        lemma_decimal_has_no_m(c.2 as int);
        let lead = seq!['[', '3', '8', ';', '2', ';'];
        let body = lead + a + ";"@ + b + ";"@ + d;
        assert(!body.contains('m')) by {
            if body.contains('m') {
                let i = choose|i: int| 0 <= i < body.len() && body[i] == 'm';
                let (x, y) = (lead.len() as int, (lead.len() + a.len()) as int);
                let z = y + 1 + b.len();
                if i < x {
                } else if i < y {
                    assert(a[i - x] == 'm');
                    assert(a.contains('m'));
                } else if i == y {
                } else if i < z {
                    assert(b[i - y - 1] == 'm');
                    assert(b.contains('m'));
                } else if i == z {
                } else {
                    assert(d[i - z - 1] == 'm');
                    assert(d.contains('m'));
                }
            }
        }
        lemma_wrapped(body, s);
        assert(colored(on, s, c) =~= seq!['\x1b'] + body + seq!['m'] + s + "\x1b[0m"@);
        assert(!seq!['[', '2'].contains('m'));
        assert(!seq!['[', '1'].contains('m'));
        lemma_wrapped(seq!['[', '2'], s);
        assert(dimmed(on, s) =~= seq!['\x1b'] + seq!['[', '2'] + seq!['m'] + s + "\x1b[0m"@);
        lemma_wrapped(seq!['[', '1'], s);
        assert(bolded(on, s) =~= seq!['\x1b'] + seq!['[', '1'] + seq!['m'] + s + "\x1b[0m"@);
    }
}

/// Law: painting a text changes nothing about its width: a text without
/// escape characters is seen as wide as it is long, painted or not, and no
/// paint runs on past its end.
pub proof fn law_paint_keeps_width(on: bool, s: Seq<char>, c: Rgb)
    requires
        unpainted(s),
    ensures
        visible(s) == s.len(),
        visible(colored(on, s, c)) == s.len(),
        visible(dimmed(on, s)) == s.len(),
        visible(bolded(on, s)) == s.len(),
        closed_paint(s),
        closed_paint(colored(on, s, c)),
        closed_paint(dimmed(on, s)),
        closed_paint(bolded(on, s)),
{
    let none = (Seq::<char>::empty(), false);
    law_paint_keeps_text(on, s, c);
    lemma_seen_is_visible(none, s);
    lemma_seen_is_visible(none, colored(on, s, c));
    lemma_seen_is_visible(none, dimmed(on, s));
    lemma_seen_is_visible(none, bolded(on, s));
}

// ------------------------------------------------------------- executable

/// Whether color is on.
#[derive(Clone, Copy, Debug, PartialEq, Eq, Structural)]
pub struct Paint {
    pub on: bool,
}

impl Paint {
    pub fn rgb(&self, s: &str, c: Rgb) -> (out: String)
        ensures
            out@ == colored(self.on, s@, c),
    {
        if self.on {
            copy("\x1b[38;2;").concat(decimal(c.0 as i64).as_str()).concat(";").concat(
                decimal(c.1 as i64).as_str(),
            ).concat(";").concat(decimal(c.2 as i64).as_str()).concat("m").concat(s).concat("\x1b[0m")
        } else {
            copy(s)
        }
    }

    pub fn dim(&self, s: &str) -> (out: String)
        ensures
            out@ == dimmed(self.on, s@),
    {
        if self.on {
            copy("\x1b[2m").concat(s).concat("\x1b[0m")
        } else {
            copy(s)
        }
    }

    pub fn bold(&self, s: &str) -> (out: String)
        ensures
            out@ == bolded(self.on, s@),
    {
        if self.on {
            copy("\x1b[1m").concat(s).concat("\x1b[0m")
        } else {
            copy(s)
        }
    }
}

/// Priority heat, cold to hot across the range of priorities.
pub fn heat(priority: i32) -> (c: Rgb)
    ensures
        (c.0 as int, c.1 as int, c.2 as int) == heat_of(priority as int),
        c == heat_rgb(priority as int),
{
    let q: i32 = if priority < 0 {
        0
    } else if priority > 10000 {
        10000
    } else {
        priority
    };
    let r: i32 = 124 + 60 * q / 10000;
    let g: i32 = (1470000 - 78 * q) / 10000;
    let b: i32 = (1600000 - 113 * q) / 10000;
    (r as u8, g as u8, b as u8)
}

/// The color of a status.
pub fn status_color(status: Status) -> (c: Rgb)
    ensures
        c == status_rgb(status),
{
    match status {
        Status::New => (147, 164, 181),
        Status::Ready => (79, 191, 169),
        Status::InProgress => (220, 165, 63),
        Status::Done => (108, 123, 116),
    }
}

/// How many characters of a text that may hold escape sequences are seen.
pub fn strip_ansi_len(s: &str) -> (n: usize)
    ensures
        n == visible(s@),
{
    let v = chars_of(s);
    let mut n: usize = 0;
    let mut inside = false;
    let mut i: usize = 0;
    while i < v.len()
        invariant
            i <= v@.len(),
            n <= i,
            (n as nat, inside) == scan((0, false), v@.take(i as int)),
        decreases v.len() - i,
    {
        assert(v@.take(i + 1).drop_last() =~= v@.take(i as int));
        assert(v@.take(i + 1).last() == v@[i as int]);
        if inside {
            inside = v[i] != 'm';
        } else if v[i] == '\x1b' {
            inside = true;
        } else {
            n = n + 1;
        }
        i = i + 1;
    }
    assert(v@.take(i as int) =~= v@);
    n
}

} // verus!
