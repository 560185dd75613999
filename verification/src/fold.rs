//! ASCII letters without regard to their case.

use vstd::prelude::*;

use crate::text::chars_of;

verus! {

/// An ASCII capital as its small letter, any other character as it is.
pub open spec fn fold(c: char) -> char {
    if 'A' <= c && c <= 'Z' {
        (c as int + 32) as char
    } else {
        c
    }
}

/// Every character folded.
pub open spec fn fold_all(s: Seq<char>) -> Seq<char> {
    s.map_values(|c: char| fold(c))
}

/// `c` folded.
pub fn folded(c: char) -> (r: char)
    ensures
        r == fold(c),
{
    if 'A' <= c && c <= 'Z' {
        ((c as u8) + 32) as char
    } else {
        c
    }
}

/// The text with every character folded.
pub fn folded_text(s: &str) -> (out: String)
    ensures
        out@ == fold_all(s@),
{
    let v = chars_of(s);
    let mut out = String::new();
    let mut i: usize = 0;
    while i < v.len()
        invariant
            i <= v@.len(),
            v@ == s@,
            out@ == fold_all(v@.take(i as int)),
        decreases v.len() - i,
    {
        out.push(folded(v[i]));
        assert(out@ =~= fold_all(v@.take(i + 1)));
        i = i + 1;
    }
    assert(v@.take(i as int) =~= s@);
    out
}

} // verus!
