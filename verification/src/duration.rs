//! Spans of time: `90s`, `30m`, `2h`, `1d`.

use vstd::prelude::*;

use crate::number::{read_signed, signed_value, within};
use crate::refusal::{Refusal, RefusalView};
use crate::text::{blank, chars_of, is_blank, part, trim, trimmed};

verus! {

/// The seconds in one unit.
pub open spec fn unit(c: char) -> Option<int> {
    if c == 's' {
        Some(1)
    } else if c == 'm' {
        Some(60)
    } else if c == 'h' {
        Some(3600)
    } else if c == 'd' {
        Some(86400)
    } else {
        None
    }
}

/// The number of a span, and the seconds its unit has; minutes where it
/// names none.
pub open spec fn number_and_unit(s: Seq<char>) -> (Seq<char>, int) {
    if s.len() > 0 && unit(s.last()) is Some {
        (s.drop_last(), unit(s.last())->0)
    } else {
        (s, 60)
    }
}

/// The seconds in a span, or why it is refused. A span of more seconds than
/// an `i64` holds is refused too.
pub open spec fn span(text: Seq<char>) -> Result<int, RefusalView> {
    let s = trim(text);
    let (num, seconds) = number_and_unit(s);
    if blank(text) {
        Err(RefusalView::EmptyDuration)
    } else {
        match within(signed_value(trim(num)), i64::MIN as int, i64::MAX as int) {
            None => Err(RefusalView::BadDuration(s)),
            Some(n) => if n < 0 {
                Err(RefusalView::NegativeDuration)
            } else if n * seconds > i64::MAX {
                Err(RefusalView::BadDuration(s))
            } else {
                Ok(n * seconds)
            },
        }
    }
}

/// The seconds in a span such as `90s`, `30m`, `2h` or `1d`; a bare number
/// means minutes.
pub fn parse_duration(text: &str) -> (r: Result<i64, Refusal>)
    ensures
        match r {
            Ok(n) => span(text@) == Ok::<int, RefusalView>(n as int),
            Err(e) => span(text@) == Err::<int, RefusalView>(e@),
        },
{
    if is_blank(text) {
        return Err(Refusal::EmptyDuration);
    }
    let s = trimmed(text);
    let v = chars_of(s.as_str());
    let n: usize = v.len();
    let unit_seconds: Option<i64> = if n == 0 {
        None
    } else {
        match v[n - 1] {
            's' => Some(1),
            'm' => Some(60),
            'h' => Some(3600),
            'd' => Some(86400),
            _ => None,
        }
    };
    let (num, seconds): (String, i64) = match unit_seconds {
        Some(k) => {
            assert(v@.subrange(0, n - 1) =~= s@.drop_last());
            (part(&v, 0, n - 1), k)
        },
        None => (s.clone(), 60),
    };
    assert((num@, seconds as int) == number_and_unit(s@));
    let digits = trimmed(num.as_str());
    match read_signed(digits.as_str(), i64::MIN, i64::MAX) {
        None => Err(Refusal::BadDuration(s)),
        Some(k) => {
            if k < 0 {
                return Err(Refusal::NegativeDuration);
            }
            match k.checked_mul(seconds) {
                Some(total) => Ok(total),
                None => {
                    assert(k * seconds > i64::MAX) by (nonlinear_arith)
                        requires
                            k >= 0,
                            seconds >= 1,
                            !(i64::MIN <= k * seconds <= i64::MAX),
                    ;
                    Err(Refusal::BadDuration(s))
                },
            }
        },
    }
}

} // verus!
