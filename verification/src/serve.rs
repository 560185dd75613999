//! The feed of a read-only server: the databases it may read and their cards
//! as JSON.

use vstd::prelude::*;

use crate::card::{card_views, Card, CardView};
use crate::number::{dec, decimal, decimal_count};
use crate::status::status_name;
use crate::text::{copy, join, joined, push_text, texts};

verus! {

/// A database the server is allowed to read. Paths are fixed at launch, so
/// a request can only pick one of them.
#[derive(Debug, PartialEq, Eq)]
pub struct Source {
    pub label: String,
    pub path: String,
}

#[verifier::ext_equal]
pub struct SourceView {
    pub label: Seq<char>,
    pub path: Seq<char>,
}

impl View for Source {
    type V = SourceView;

    open spec fn view(&self) -> SourceView {
        SourceView { label: self.label@, path: self.path@ }
    }
}

pub open spec fn source_views(v: Seq<Source>) -> Seq<SourceView> {
    v.map_values(|s: Source| s@)
}

// ------------------------------------------------------------- strings

/// A hexadecimal digit.
pub open spec fn hex_digit(d: int) -> char {
    if d < 10 {
        (48 + d) as char
    } else {
        (87 + d) as char
    }
}

/// How a character stands in a JSON string.
pub open spec fn escaped(c: char) -> Seq<char> {
    if c == '"' {
        seq!['\\', '"']
    } else if c == '\\' {
        seq!['\\', '\\']
    } else if c == '\x08' {
        seq!['\\', 'b']
    } else if c == '\t' {
        seq!['\\', 't']
    } else if c == '\n' {
        seq!['\\', 'n']
    } else if c == '\x0c' {
        seq!['\\', 'f']
    } else if c == '\r' {
        seq!['\\', 'r']
    } else if (c as int) < 32 {
        seq!['\\', 'u', '0', '0', hex_digit(c as int / 16), hex_digit(c as int % 16)]
    } else {
        seq![c]
    }
}

/// The characters of a text as they stand in a JSON string.
pub open spec fn escaped_all(s: Seq<char>) -> Seq<char>
    decreases s.len(),
{
    if s.len() == 0 {
        Seq::empty()
    } else {
        escaped_all(s.drop_last()) + escaped(s.last())
    }
}

/// A text as a JSON string.
pub open spec fn quoted(s: Seq<char>) -> Seq<char> {
    seq!['"'] + escaped_all(s) + seq!['"']
}

/// `serde_json::to_string` on a text: the text between quotation marks, with
/// quotation marks, backslashes and the control characters below U+0020
/// escaped. On a text it does not fail.
#[verifier::external_body]
fn serde_string(s: &str) -> (r: Option<String>)
    ensures
        r is Some,
        r->0@ == quoted(s@),
{
    serde_json::to_string(s).ok()
}

/// A text as a JSON string.
pub fn json_string(s: &str) -> (out: String)
    ensures
        out@ == quoted(s@),
{
    match serde_string(s) {
        Some(t) => t,
        None => copy("\"\""),
    }
}

proof fn lemma_escaped(c: char)
    ensures
        forall|i: int|
            0 <= i < escaped(c).len() ==> (#[trigger] escaped(c)[i] as int) >= 32 && (escaped(c)[i] == '"' ==> i > 0
                && escaped(c)[i - 1] == '\\'),
{
    let code = c as int;
    if code < 32 {
        assert(0 <= code / 16 < 2);
        assert(0 <= code % 16 < 16);
        assert(48 <= hex_digit(code / 16) as int);
        assert(48 <= hex_digit(code % 16) as int);
    }
}

/// Law: what stands between the quotation marks of a JSON string holds no
/// bare quotation mark and no line end, so that it stays one string on one
/// line.
pub proof fn law_quoted_stays_one_string(s: Seq<char>)
    ensures
        forall|i: int|
            0 <= i < escaped_all(s).len() ==> (#[trigger] escaped_all(s)[i] as int) >= 32 && (escaped_all(s)[i] == '"'
                ==> i > 0 && escaped_all(s)[i - 1] == '\\'),
    decreases s.len(),
{
    if s.len() > 0 {
        law_quoted_stays_one_string(s.drop_last());
        lemma_escaped(s.last());
        let a = escaped_all(s.drop_last());
        let b = escaped(s.last());
        let all = escaped_all(s);
        assert forall|i: int| 0 <= i < all.len() implies (#[trigger] all[i] as int) >= 32 && (all[i] == '"' ==> i > 0
            && all[i - 1] == '\\') by {
            if i < a.len() {
                assert(all[i] == a[i]);
                if i > 0 {
                    assert(all[i - 1] == a[i - 1]);
                }
            } else {
                let k = i - a.len();
                assert(all[i] == b[k]);
                assert((b[k] as int) >= 32);
                if k > 0 {
                    assert(all[i - 1] == b[k - 1]);
                }
            }
        }
    }
}

// ------------------------------------------------------------- the feed

/// A database as JSON.
pub open spec fn db_json(index: nat, s: SourceView) -> Seq<char> {
    "{\"index\":"@ + dec(index as int) + ",\"label\":"@ + quoted(s.label) + ",\"path\":"@ + quoted(s.path) + "}"@
}

/// A card as JSON.
pub open spec fn card_json(c: CardView) -> Seq<char> {
    "{\"id\":"@ + dec(c.id as int) + ",\"title\":"@ + quoted(c.title) + ",\"notes\":"@ + quoted(c.notes)
        + ",\"label\":"@ + quoted(c.label) + ",\"status\":"@ + quoted(status_name(c.status)) + ",\"priority\":"@ + dec(
        c.priority as int,
    ) + ",\"outcome\":"@ + quoted(c.outcome) + ",\"claimed_by\":"@ + quoted(c.claimed_by) + ",\"claimed_at\":"@
        + quoted(c.claimed_at) + ",\"created_at\":"@ + quoted(c.created_at) + ",\"updated_at\":"@ + quoted(c.updated_at)
        + "}"@
}

/// The databases as JSON, each with its number.
pub open spec fn dbs_json(v: Seq<SourceView>) -> Seq<Seq<char>> {
    Seq::new(v.len(), |i: int| db_json(i as nat, v[i]))
}

/// The feed: the database asked for, all databases, and its cards.
pub open spec fn feed_text(sources: Seq<SourceView>, index: nat, cards: Seq<CardView>) -> Seq<char> {
    "{\"db\":"@ + db_json(index, sources[index as int]) + ",\"databases\":["@ + join(dbs_json(sources), ","@)
        + "],\"cards\":["@ + join(cards.map_values(|c: CardView| card_json(c)), ","@) + "]}"@
}

/// The body of an answer that tells an error.
pub open spec fn error_json(message: Seq<char>) -> Seq<char> {
    "{\"error\":"@ + quoted(message) + "}"@
}

fn db_text(index: usize, s: &Source) -> (out: String)
    ensures
        out@ == db_json(index as nat, s@),
{
    copy("{\"index\":").concat(decimal_count(index).as_str()).concat(",\"label\":").concat(
        json_string(s.label.as_str()).as_str(),
    ).concat(",\"path\":").concat(json_string(s.path.as_str()).as_str()).concat("}")
}

/// A card as JSON.
pub fn card_text_json(c: &Card) -> (out: String)
    ensures
        out@ == card_json(c@),
{
    copy("{\"id\":").concat(decimal(c.id).as_str()).concat(",\"title\":").concat(
        json_string(c.title.as_str()).as_str(),
    ).concat(",\"notes\":").concat(json_string(c.notes.as_str()).as_str()).concat(",\"label\":").concat(
        json_string(c.label.as_str()).as_str(),
    ).concat(",\"status\":").concat(json_string(c.status.as_str()).as_str()).concat(",\"priority\":").concat(
        decimal(c.priority as i64).as_str(),
    ).concat(",\"outcome\":").concat(json_string(c.outcome.as_str()).as_str()).concat(",\"claimed_by\":").concat(
        json_string(c.claimed_by.as_str()).as_str(),
    ).concat(",\"claimed_at\":").concat(json_string(c.claimed_at.as_str()).as_str()).concat(
        ",\"created_at\":",
    ).concat(json_string(c.created_at.as_str()).as_str()).concat(",\"updated_at\":").concat(
        json_string(c.updated_at.as_str()).as_str(),
    ).concat("}")
}

/// The feed of one of the databases.
pub fn feed_json(sources: &Vec<Source>, index: usize, cards: &Vec<Card>) -> (out: String)
    requires
        index < sources@.len(),
    ensures
        out@ == feed_text(source_views(sources@), index as nat, card_views(cards@)),
{
    let ghost sv = source_views(sources@);
    let ghost cv = card_views(cards@);
    let ghost wanted = dbs_json(sv);
    let mut dbs: Vec<String> = Vec::new();
    let mut i: usize = 0;
    assert(texts(dbs@) =~= wanted.take(0));
    while i < sources.len()
        invariant
            i <= sources@.len(),
            sv == source_views(sources@),
            wanted == dbs_json(sv),
            texts(dbs@) == wanted.take(i as int),
        decreases sources.len() - i,
    {
        assert(sv[i as int] == sources@[i as int]@);
        push_text(&mut dbs, db_text(i, &sources[i]));
        assert(wanted.take(i + 1) =~= wanted.take(i as int).push(wanted[i as int]));
        i = i + 1;
    }
    assert(wanted.take(i as int) =~= wanted);
    let ghost told = cv.map_values(|c: CardView| card_json(c));
    let mut bodies: Vec<String> = Vec::new();
    let mut j: usize = 0;
    assert(texts(bodies@) =~= told.take(0));
    while j < cards.len()
        invariant
            j <= cards@.len(),
            cv == card_views(cards@),
            told == cv.map_values(|c: CardView| card_json(c)),
            texts(bodies@) == told.take(j as int),
        decreases cards.len() - j,
    {
        assert(cv[j as int] == cards@[j as int]@);
        push_text(&mut bodies, card_text_json(&cards[j]));
        assert(told.take(j + 1) =~= told.take(j as int).push(told[j as int]));
        j = j + 1;
    }
    assert(told.take(j as int) =~= told);
    assert(sv[index as int] == sources@[index as int]@);
    copy("{\"db\":").concat(db_text(index, &sources[index]).as_str()).concat(",\"databases\":[").concat(
        joined(&dbs, ",").as_str(),
    ).concat("],\"cards\":[").concat(joined(&bodies, ",").as_str()).concat("]}")
}

/// The body of an answer that tells an error.
pub fn error_body(message: &str) -> (out: String)
    ensures
        out@ == error_json(message@),
{
    copy("{\"error\":").concat(json_string(message).as_str()).concat("}")
}

} // verus!
