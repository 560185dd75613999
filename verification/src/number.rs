//! Numbers as text: writing them in decimal, padding them, reading them back.

use vstd::prelude::*;

use crate::text::{chars_of, count, repeat, repeated};

verus! {

/// The decimal digit `d`.
pub open spec fn digit(d: int) -> char {
    (48 + d) as char
}

/// The decimal digits of `n`.
pub open spec fn digits(n: nat) -> Seq<char>
    decreases n,
{
    if n < 10 {
        seq![digit(n as int)]
    } else {
        digits(n / 10).push(digit((n % 10) as int))
    }
}

/// `n` in decimal, with a minus sign where it is negative.
pub open spec fn dec(n: int) -> Seq<char> {
    if n < 0 {
        seq!['-'] + digits((-n) as nat)
    } else {
        digits(n as nat)
    }
}

/// Right-aligned in `w` columns; a longer text stays as it is.
pub open spec fn align_right(s: Seq<char>, w: nat) -> Seq<char> {
    if s.len() < w {
        repeat(" "@, (w - s.len()) as nat) + s
    } else {
        s
    }
}

/// Left-aligned in `w` columns; a longer text stays as it is.
pub open spec fn align_left(s: Seq<char>, w: nat) -> Seq<char> {
    if s.len() < w {
        s + repeat(" "@, (w - s.len()) as nat)
    } else {
        s
    }
}

pub open spec fn is_digit(c: char) -> bool {
    '0' <= c && c <= '9'
}

/// At least one character, and nothing but digits.
pub open spec fn all_digits(s: Seq<char>) -> bool {
    s.len() > 0 && forall|i: int| 0 <= i < s.len() ==> is_digit(#[trigger] s[i])
}

/// What a run of digits says.
pub open spec fn digits_value(s: Seq<char>) -> nat
    decreases s.len(),
{
    if s.len() == 0 {
        0
    } else {
        digits_value(s.drop_last()) * 10 + ((s.last() as int) - 48) as nat
    }
}

/// What a decimal number without a minus sign says, whatever its size.
pub open spec fn unsigned_value(s: Seq<char>) -> Option<int> {
    if all_digits(s) {
        Some(digits_value(s) as int)
    } else if s.len() > 0 && s[0] == '+' && all_digits(s.skip(1)) {
        Some(digits_value(s.skip(1)) as int)
    } else {
        None
    }
}

/// What a decimal number says, whatever its size.
pub open spec fn signed_value(s: Seq<char>) -> Option<int> {
    if s.len() > 0 && s[0] == '-' && all_digits(s.skip(1)) {
        Some(-(digits_value(s.skip(1)) as int))
    } else {
        unsigned_value(s)
    }
}

/// The number where it lies between `lo` and `hi`.
pub open spec fn within(n: Option<int>, lo: int, hi: int) -> Option<int> {
    match n {
        Some(k) => if lo <= k <= hi { Some(k) } else { None },
        None => None,
    }
}

/// Writing a number takes digits only, and they say that number.
pub proof fn lemma_digits_read_back(n: nat)
    ensures
        all_digits(digits(n)),
        digits_value(digits(n)) == n,
    decreases n,
{
    reveal_with_fuel(digits_value, 2);
    if n < 10 {
        let s = digits(n);
        assert(s.drop_last() =~= Seq::<char>::empty());
        assert(s.last() == digit(n as int));
    } else {
        lemma_digits_read_back(n / 10);
        let s = digits(n);
        assert(s.drop_last() =~= digits(n / 10));
        assert(s.last() == digit((n % 10) as int));
        assert forall|i: int| 0 <= i < s.len() implies is_digit(#[trigger] s[i]) by {
            if i < s.len() - 1 {
                assert(s[i] == digits(n / 10)[i]);
            }
        }
    }
}

/// Law: a number written in decimal is read back as that number.
pub proof fn law_decimal_reads_back(n: int)
    ensures
        signed_value(dec(n)) == Some(n),
        n >= 0 ==> unsigned_value(dec(n)) == Some(n),
{
    if n < 0 {
        lemma_digits_read_back((-n) as nat);
        assert(dec(n).skip(1) =~= digits((-n) as nat));
    } else {
        lemma_digits_read_back(n as nat);
        assert(is_digit(digits(n as nat)[0]));
    }
}

/// The decimal digits of `n`.
fn digits_of(n: u64) -> (out: String)
    ensures
        out@ == digits(n as nat),
    decreases n,
{
    if n < 10 {
        let mut out = String::new();
        out.push((48 + n as u8) as char);
        assert(out@ =~= digits(n as nat));
        out
    } else {
        let mut out = digits_of(n / 10);
        out.push((48 + (n % 10) as u8) as char);
        out
    }
}

/// `n` in decimal.
pub fn decimal(n: i64) -> (out: String)
    ensures
        out@ == dec(n as int),
{
    if n < 0 {
        let mut out = String::new();
        out.push('-');
        let m: u64 = (-(n as i128)) as u64;
        let rest = digits_of(m);
        out.append(rest.as_str());
        assert(out@ =~= dec(n as int));
        out
    } else {
        digits_of(n as u64)
    }
}

/// A count in decimal.
pub fn decimal_count(n: usize) -> (out: String)
    ensures
        out@ == dec(n as int),
{
    digits_of(n as u64)
}

/// The text right-aligned in `w` columns.
pub fn aligned_right(s: &str, w: usize) -> (out: String)
    ensures
        out@ == align_right(s@, w as nat),
{
    let n = count(s);
    if n < w {
        let mut out = repeated(" ", w - n);
        out.append(s);
        out
    } else {
        s.to_owned()
    }
}

/// The text left-aligned in `w` columns.
pub fn aligned_left(s: &str, w: usize) -> (out: String)
    ensures
        out@ == align_left(s@, w as nat),
{
    let n = count(s);
    let mut out = s.to_owned();
    if n < w {
        let fill = repeated(" ", w - n);
        out.append(fill.as_str());
    }
    out
}

/// Whether the characters from `from` on are a run of digits, and what they
/// say if that fits.
fn read_digits(v: &Vec<char>, from: usize) -> (r: (bool, Option<u64>))
    requires
        from <= v@.len(),
    ensures
        r.0 == all_digits(v@.skip(from as int)),
        r.0 ==> (match r.1 {
            Some(n) => n == digits_value(v@.skip(from as int)),
            None => digits_value(v@.skip(from as int)) > u64::MAX,
        }),
{
    let ghost s = v@.skip(from as int);
    if from == v.len() {
        return (false, None);
    }
    let mut acc: Option<u64> = Some(0);
    let mut i: usize = from;
    while i < v.len()
        invariant
            from <= i <= v@.len(),
            s == v@.skip(from as int),
            forall|k: int| 0 <= k < i - from ==> is_digit(#[trigger] s[k]),
            match acc {
                Some(n) => n == digits_value(s.take(i - from)),
                None => digits_value(s.take(i - from)) > u64::MAX,
            },
        decreases v.len() - i,
    {
        let c = v[i];
        assert(s[i - from] == c);
        if !('0' <= c && c <= '9') {
            return (false, None);
        }
        assert(s.take(i + 1 - from).drop_last() =~= s.take(i - from));
        assert(s.take(i + 1 - from).last() == c);
        let d: u64 = (c as u32 - 48) as u64;
        acc = match acc {
            Some(n) => {
                let next: u128 = n as u128 * 10 + d as u128;
                if next <= 0xffff_ffff_ffff_ffff {
                    Some(next as u64)
                } else {
                    None
                }
            },
            None => None,
        };
        i = i + 1;
    }
    assert(s.take(i - from) =~= s);
    (true, acc)
}

/// The number that the text says, where it is one between `lo` and `hi`.
pub fn read_signed(s: &str, lo: i64, hi: i64) -> (r: Option<i64>)
    ensures
        match r {
            Some(n) => within(signed_value(s@), lo as int, hi as int) == Some(n as int),
            None => within(signed_value(s@), lo as int, hi as int) is None,
        },
{
    let v = chars_of(s);
    assert(v@.skip(0) =~= v@);
    if v.len() == 0 {
        return None;
    }
    let mut negative = false;
    let mut from: usize = 0;
    if v[0] == '-' {
        negative = true;
        from = 1;
        assert(!is_digit(v@[0]));
    } else if v[0] == '+' {
        from = 1;
        assert(!is_digit(v@[0]));
    }
    let (ok, value) = read_digits(&v, from);
    if !ok {
        return None;
    }
    match value {
        Some(m) => {
            let n: i128 = if negative { -(m as i128) } else { m as i128 };
            if lo as i128 <= n && n <= hi as i128 {
                Some(n as i64)
            } else {
                None
            }
        },
        None => None,
    }
}

/// The count that the text says, where it is one that fits.
pub fn read_count(s: &str) -> (r: Option<usize>)
    ensures
        match r {
            Some(n) => within(unsigned_value(s@), 0, usize::MAX as int) == Some(n as int),
            None => within(unsigned_value(s@), 0, usize::MAX as int) is None,
        },
{
    let v = chars_of(s);
    assert(v@.skip(0) =~= v@);
    if v.len() == 0 {
        return None;
    }
    let mut from: usize = 0;
    if v[0] == '+' {
        from = 1;
        assert(!is_digit(v@[0]));
    }
    let (ok, value) = read_digits(&v, from);
    if !ok {
        return None;
    }
    match value {
        Some(m) => if m <= usize::MAX as u64 {
            Some(m as usize)
        } else {
            None
        },
        None => None,
    }
}

} // verus!
