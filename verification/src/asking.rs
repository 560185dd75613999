//! What is typed and what is meant by it: conditions, lists of ids and spans
//! of time.

use vstd::prelude::*;

use crate::card::{has_card, CardView};
use crate::changing::lemma_dec_has_no_space;
use crate::condition::{
    begins_sign, condition, conditions, holds_of, law_condition_keeps_its_value, listed_id, listed_ids, relation_sign,
    ConditionView, Relation,
};
use crate::duration::span;
use crate::number::{
    all_digits, dec, is_digit, law_decimal_reads_back, lemma_digits_read_back, signed_value, unsigned_value,
};
use crate::project::{looked_up, ProjectView};
use crate::refusal::RefusalView;
use crate::status::status_name;
use crate::tags::marked;
use crate::text::{is_space, lemma_trim_fixed, strip_start, trim};

verus! {

// ------------------------------------------------------------- conditions

/// A field's name is cut from the sign behind it, and the value from what is
/// before it.
proof fn lemma_cut(k: Seq<char>, r: Relation, v: Seq<char>)
    requires
        k.len() > 0,
        forall|i: int| 0 <= i < k.len() ==> 'a' <= #[trigger] k[i] <= 'z' || k[i] == '_',
        r == Relation::Below || r == Relation::Above ==> v.len() == 0 || v[0] != '=',
        trim(v) == v,
    ensures
        crate::condition::parts(k + relation_sign(r) + v) == Some((k, r, v)),
{
    assert forall|i: int| 0 <= i < k.len() implies !begins_sign(#[trigger] k[i]) by {
        assert('a' <= k[i] <= 'z' || k[i] == '_');
    }
    law_condition_keeps_its_value(k, r, v);
    assert('a' <= k[0] <= 'z' || k[0] == '_');
    assert('a' <= k[k.len() - 1] <= 'z' || k[k.len() - 1] == '_');
    lemma_trim_fixed(k);
}

/// The names of fields are small letters, and differ.
proof fn lemma_field_names()
    ensures
        forall|i: int| 0 <= i < "priority"@.len() ==> 'a' <= #[trigger] "priority"@[i] <= 'z',
        "priority"@.len() == 8,
        forall|i: int| 0 <= i < "id"@.len() ==> 'a' <= #[trigger] "id"@[i] <= 'z',
        "id"@.len() == 2,
        forall|i: int| 0 <= i < "status"@.len() ==> 'a' <= #[trigger] "status"@[i] <= 'z',
        "status"@.len() == 6,
        forall|i: int|
            0 <= i < "claimed_by"@.len() ==> 'a' <= #[trigger] "claimed_by"@[i] <= 'z' || "claimed_by"@[i] == '_',
        "claimed_by"@.len() == 10,
        forall|i: int| 0 <= i < "title"@.len() ==> 'a' <= #[trigger] "title"@[i] <= 'z',
        "title"@.len() == 5,
        "title"@[0] == 't',
        forall|i: int| 0 <= i < "outcome"@.len() ==> 'a' <= #[trigger] "outcome"@[i] <= 'z',
        "outcome"@.len() == 7,
        "outcome"@[0] == 'o',
        forall|i: int| 0 <= i < "label"@.len() ==> 'a' <= #[trigger] "label"@[i] <= 'z',
        "label"@.len() == 5,
        "label"@[0] == 'l',
        forall|i: int| 0 <= i < "tag"@.len() ==> 'a' <= #[trigger] "tag"@[i] <= 'z',
        "tag"@.len() == 3,
        forall|i: int| 0 <= i < "project"@.len() ==> 'a' <= #[trigger] "project"@[i] <= 'z',
        "project"@.len() == 7,
        "project"@[0] == 'p',
{
    reveal_strlit("priority");
    reveal_strlit("id");
    reveal_strlit("status");
    reveal_strlit("claimed_by");
    reveal_strlit("title");
    reveal_strlit("outcome");
    reveal_strlit("label");
    reveal_strlit("tag");
    reveal_strlit("project");
}

/// The expression states a condition that holds of the card exactly where
/// `wanted` does.
pub open spec fn states(projects: Seq<ProjectView>, expr: Seq<char>, c: CardView, wanted: bool) -> bool {
    condition(projects, expr) is Ok && holds_of(condition(projects, expr)->Ok_0, c) == wanted
}

proof fn lemma_number_sign(projects: Seq<ProjectView>, k: Seq<char>, r: Relation, n: i64, c: CardView)
    requires
        k == "priority"@ || k == "id"@,
    ensures
        states(
            projects,
            k + relation_sign(r) + dec(n as int),
            c,
            crate::condition::related(if k == "id"@ { c.id as int } else { c.priority as int }, r, n as int),
        ),
{
    lemma_field_names();
    lemma_dec_has_no_space(n as int);
    lemma_trim_fixed(dec(n as int));
    law_decimal_reads_back(n as int);
    let m = if n < 0 { (-n) as nat } else { n as nat };
    lemma_digits_read_back(m);
    assert(is_digit(crate::number::digits(m)[0]));
    lemma_cut(k, r, dec(n as int));
}

/// Law: a condition on the priority or the id of a card compares it with the
/// number given, in the way its sign says.
pub proof fn law_number_expressions(projects: Seq<ProjectView>, n: i64, c: CardView)
    ensures
        states(projects, "priority"@ + "<="@ + dec(n as int), c, c.priority <= n),
        states(projects, "priority"@ + ">="@ + dec(n as int), c, c.priority >= n),
        states(projects, "priority"@ + "!="@ + dec(n as int), c, c.priority != n),
        states(projects, "priority"@ + "="@ + dec(n as int), c, c.priority == n),
        states(projects, "priority"@ + "<"@ + dec(n as int), c, c.priority < n),
        states(projects, "priority"@ + ">"@ + dec(n as int), c, c.priority > n),
        states(projects, "id"@ + "<="@ + dec(n as int), c, c.id <= n),
        states(projects, "id"@ + ">="@ + dec(n as int), c, c.id >= n),
        states(projects, "id"@ + "!="@ + dec(n as int), c, c.id != n),
        states(projects, "id"@ + "="@ + dec(n as int), c, c.id == n),
        states(projects, "id"@ + "<"@ + dec(n as int), c, c.id < n),
        states(projects, "id"@ + ">"@ + dec(n as int), c, c.id > n),
{
    lemma_field_names();
    lemma_number_sign(projects, "priority"@, Relation::AtMost, n, c);
    lemma_number_sign(projects, "priority"@, Relation::AtLeast, n, c);
    lemma_number_sign(projects, "priority"@, Relation::Differs, n, c);
    lemma_number_sign(projects, "priority"@, Relation::Equals, n, c);
    lemma_number_sign(projects, "priority"@, Relation::Below, n, c);
    lemma_number_sign(projects, "priority"@, Relation::Above, n, c);
    lemma_number_sign(projects, "id"@, Relation::AtMost, n, c);
    lemma_number_sign(projects, "id"@, Relation::AtLeast, n, c);
    lemma_number_sign(projects, "id"@, Relation::Differs, n, c);
    lemma_number_sign(projects, "id"@, Relation::Equals, n, c);
    lemma_number_sign(projects, "id"@, Relation::Below, n, c);
    lemma_number_sign(projects, "id"@, Relation::Above, n, c);
}

/// Law: a condition on a text holds where the field is the text after the
/// sign, or where it is not.
pub proof fn law_text_expressions(projects: Seq<ProjectView>, v: Seq<char>, c: CardView)
    requires
        trim(v) == v,
    ensures
        states(projects, "status"@ + "="@ + v, c, status_name(c.status) == v),
        states(projects, "status"@ + "!="@ + v, c, status_name(c.status) != v),
        states(projects, "claimed_by"@ + "="@ + v, c, c.claimed_by == v),
        states(projects, "claimed_by"@ + "!="@ + v, c, c.claimed_by != v),
        states(projects, "title"@ + "="@ + v, c, c.title == v),
        states(projects, "title"@ + "!="@ + v, c, c.title != v),
        states(projects, "outcome"@ + "="@ + v, c, c.outcome == v),
        states(projects, "outcome"@ + "!="@ + v, c, c.outcome != v),
        states(projects, "label"@ + "="@ + v, c, marked(c.label, v)),
        states(projects, "label"@ + "!="@ + v, c, !marked(c.label, v)),
        states(projects, "tag"@ + "="@ + v, c, marked(c.label, v)),
        states(projects, "tag"@ + "!="@ + v, c, !marked(c.label, v)),
{
    lemma_field_names();
    lemma_cut("status"@, Relation::Equals, v);
    lemma_cut("status"@, Relation::Differs, v);
    lemma_cut("claimed_by"@, Relation::Equals, v);
    lemma_cut("claimed_by"@, Relation::Differs, v);
    lemma_cut("title"@, Relation::Equals, v);
    lemma_cut("title"@, Relation::Differs, v);
    lemma_cut("outcome"@, Relation::Equals, v);
    lemma_cut("outcome"@, Relation::Differs, v);
    lemma_cut("label"@, Relation::Equals, v);
    lemma_cut("label"@, Relation::Differs, v);
    lemma_cut("tag"@, Relation::Equals, v);
    lemma_cut("tag"@, Relation::Differs, v);
}

/// Law: a condition on the project holds of the cards of the project that is
/// meant, or of the others; one that means no project is refused.
pub proof fn law_project_expressions(projects: Seq<ProjectView>, v: Seq<char>, c: CardView)
    requires
        trim(v) == v,
    ensures
        looked_up(projects, v) >= 0 ==> states(
            projects,
            "project"@ + "="@ + v,
            c,
            c.project_id == projects[looked_up(projects, v)].id,
        ) && states(projects, "project"@ + "!="@ + v, c, c.project_id != projects[looked_up(projects, v)].id),
        looked_up(projects, v) < 0 ==> condition(projects, "project"@ + "="@ + v) == Err::<ConditionView, RefusalView>(
            RefusalView::NoProject(v),
        ),
{
    lemma_field_names();
    lemma_cut("project"@, Relation::Equals, v);
    lemma_cut("project"@, Relation::Differs, v);
}

/// Law: a text is not ranked: a condition that asks which of two texts is
/// the greater is refused.
pub proof fn law_texts_are_not_ranked(projects: Seq<ProjectView>, k: Seq<char>, r: Relation, v: Seq<char>)
    requires
        k == "status"@ || k == "claimed_by"@ || k == "title"@ || k == "outcome"@ || k == "label"@ || k == "tag"@ || k
            == "project"@,
        r == Relation::AtMost || r == Relation::AtLeast || r == Relation::Below || r == Relation::Above,
        r == Relation::Below || r == Relation::Above ==> v.len() == 0 || v[0] != '=',
        trim(v) == v,
    ensures
        condition(projects, k + relation_sign(r) + v) is Err,
{
    lemma_field_names();
    lemma_cut(k, r, v);
}

/// Law: several expressions state each its own condition, in order, exactly
/// where each of them states one.
pub proof fn law_each_expression_is_a_condition(projects: Seq<ProjectView>, exprs: Seq<Seq<char>>)
    ensures
        conditions(projects, exprs) is Ok <==> forall|k: int|
            0 <= k < exprs.len() ==> condition(projects, #[trigger] exprs[k]) is Ok,
        conditions(projects, exprs) matches Ok(cs) ==> cs.len() == exprs.len() && forall|k: int|
            0 <= k < exprs.len() ==> condition(projects, #[trigger] exprs[k]) == Ok::<ConditionView, RefusalView>(cs[k]),
    decreases exprs.len(),
{
    if exprs.len() > 0 {
        let front = exprs.drop_last();
        law_each_expression_is_a_condition(projects, front);
        assert forall|k: int| 0 <= k < front.len() implies #[trigger] front[k] == exprs[k] by {}
        if conditions(projects, exprs) is Ok {
            assert forall|k: int| 0 <= k < exprs.len() implies condition(projects, #[trigger] exprs[k]) == Ok::<
                ConditionView,
                RefusalView,
            >(conditions(projects, exprs)->Ok_0[k]) by {
                if k < front.len() {
                    assert(front[k] == exprs[k]);
                }
            }
        }
        if forall|k: int| 0 <= k < exprs.len() ==> condition(projects, #[trigger] exprs[k]) is Ok {
            assert forall|k: int| 0 <= k < front.len() implies condition(projects, #[trigger] front[k]) is Ok by {
                assert(front[k] == exprs[k]);
            }
            assert(condition(projects, exprs[exprs.len() - 1]) is Ok);
        }
    }
}

// ------------------------------------------------------------- numbers

/// Law: a number is digits, with one sign before them or none; a plus sign
/// says nothing, and whatever else stands there makes it no number.
pub proof fn law_what_is_a_number(s: Seq<char>, n: nat)
    ensures
        signed_value(s) is Some <==> s.len() > 0 && (is_digit(s[0]) || (s.len() > 1 && (s[0] == '-' || s[0] == '+'))) && forall|
            i: int,
        |
            1 <= i < s.len() ==> '0' <= #[trigger] s[i] <= '9',
        signed_value(seq!['+'] + dec(n as int)) == Some(n as int),
        unsigned_value(seq!['-'] + dec(n as int)) is None,
{
    let rest = s.skip(1);
    if s.len() > 0 && forall|i: int| 1 <= i < s.len() ==> '0' <= #[trigger] s[i] <= '9' {
        assert forall|i: int| 0 <= i < rest.len() implies is_digit(#[trigger] rest[i]) by {
            assert(rest[i] == s[i + 1]);
        }
        if is_digit(s[0]) {
            assert forall|i: int| 0 <= i < s.len() implies is_digit(#[trigger] s[i]) by {
                if i > 0 {
                    assert('0' <= s[i] <= '9');
                }
            }
        }
    }
    if all_digits(s) {
        assert(is_digit(s[0]));
        assert forall|i: int| 1 <= i < s.len() implies '0' <= #[trigger] s[i] <= '9' by {
            assert(is_digit(s[i]));
        }
    }
    if s.len() > 0 && all_digits(rest) {
        assert forall|i: int| 1 <= i < s.len() implies '0' <= #[trigger] s[i] <= '9' by {
            assert(is_digit(rest[i - 1]));
        }
    }
    lemma_digits_read_back(n);
    let p = seq!['+'] + dec(n as int);
    assert(p[0] == '+');
    assert(p.skip(1) =~= dec(n as int));
    assert(!all_digits(p)) by {
        assert(!is_digit(p[0]));
    }
    let m = seq!['-'] + dec(n as int);
    assert(m[0] == '-');
    assert(!all_digits(m)) by {
        assert(!is_digit(m[0]));
    }
}

// ------------------------------------------------------------- ids

/// Law: a number names the card with that id, with a `#` before it or
/// without; a number that no card has is not found.
pub proof fn law_id_names_its_card(cards: Seq<CardView>, id: i64)
    ensures
        has_card(cards, id) ==> listed_id(cards, dec(id as int)) == Ok::<i64, RefusalView>(id) && listed_id(
            cards,
            seq!['#'] + dec(id as int),
        ) == Ok::<i64, RefusalView>(id),
        !has_card(cards, id) ==> listed_id(cards, dec(id as int)) == Err::<i64, RefusalView>(RefusalView::NotFound(id)),
{
    let d = dec(id as int);
    law_decimal_reads_back(id as int);
    let m = if id < 0 { (-id) as nat } else { id as nat };
    lemma_digits_read_back(m);
    assert(is_digit(crate::number::digits(m)[0]));
    assert(d[0] != '#');
    let s = seq!['#'] + d;
    assert(s[0] == '#');
    assert(s.drop_first() =~= d);
    reveal_with_fuel(strip_start, 2);
    assert(strip_start(s, '#') == d);
}

/// Law: a list names its cards in order, each as often as it stands there,
/// and none where one of its pieces names none.
pub proof fn law_list_names_each_card(cards: Seq<CardView>, ps: Seq<Seq<char>>)
    ensures
        listed_ids(cards, ps) is Ok <==> forall|k: int| 0 <= k < ps.len() ==> listed_id(cards, #[trigger] ps[k]) is Ok,
        listed_ids(cards, ps) matches Ok(ids) ==> ids.len() == ps.len() && forall|k: int|
            0 <= k < ps.len() ==> listed_id(cards, #[trigger] ps[k]) == Ok::<i64, RefusalView>(ids[k]) && has_card(
                cards,
                ids[k],
            ),
    decreases ps.len(),
{
    if ps.len() > 0 {
        let front = ps.drop_last();
        law_list_names_each_card(cards, front);
        assert forall|k: int| 0 <= k < front.len() implies #[trigger] front[k] == ps[k] by {}
        if listed_ids(cards, ps) is Ok {
            assert forall|k: int| 0 <= k < ps.len() implies listed_id(cards, #[trigger] ps[k]) == Ok::<i64, RefusalView>(
                listed_ids(cards, ps)->Ok_0[k],
            ) && has_card(cards, listed_ids(cards, ps)->Ok_0[k]) by {
                if k < front.len() {
                    assert(front[k] == ps[k]);
                }
            }
        }
        if forall|k: int| 0 <= k < ps.len() ==> listed_id(cards, #[trigger] ps[k]) is Ok {
            assert forall|k: int| 0 <= k < front.len() implies listed_id(cards, #[trigger] front[k]) is Ok by {
                assert(front[k] == ps[k]);
            }
            assert(listed_id(cards, ps[ps.len() - 1]) is Ok);
        }
    }
}

// ------------------------------------------------------------- spans

/// A number with a letter behind it.
proof fn lemma_span_unit(n: i64, c: char, per: int)
    requires
        crate::duration::unit(c) == Some(per),
        per > 0,
        !is_space(c),
    ensures
        n < 0 ==> span(dec(n as int).push(c)) == Err::<int, RefusalView>(RefusalView::NegativeDuration),
        n >= 0 && n * per <= i64::MAX ==> span(dec(n as int).push(c)) == Ok::<int, RefusalView>(n * per),
        n >= 0 && n * per > i64::MAX ==> span(dec(n as int).push(c)) is Err,
{
    let d = dec(n as int);
    let s = d.push(c);
    lemma_dec_has_no_space(n as int);
    lemma_trim_fixed(d);
    assert(s[0] == d[0]);
    lemma_trim_fixed(s);
    law_decimal_reads_back(n as int);
    assert(s.drop_last() =~= d);
    assert(!is_space(s[0]));
}

/// Law: a span is its number times its unit: seconds, minutes, hours or days,
/// and minutes where it names none; a negative span is refused.
pub proof fn law_span_is_number_times_unit(n: i64)
    ensures
        n >= 0 ==> span(dec(n as int).push('s')) == Ok::<int, RefusalView>(n as int),
        n >= 0 && n * 60 <= i64::MAX ==> span(dec(n as int).push('m')) == Ok::<int, RefusalView>(n * 60),
        n >= 0 && n * 60 <= i64::MAX ==> span(dec(n as int)) == Ok::<int, RefusalView>(n * 60),
        n >= 0 && n * 3600 <= i64::MAX ==> span(dec(n as int).push('h')) == Ok::<int, RefusalView>(n * 3600),
        n >= 0 && n * 86400 <= i64::MAX ==> span(dec(n as int).push('d')) == Ok::<int, RefusalView>(n * 86400),
        n < 0 ==> span(dec(n as int)) == Err::<int, RefusalView>(RefusalView::NegativeDuration),
        n < 0 ==> span(dec(n as int).push('s')) == Err::<int, RefusalView>(RefusalView::NegativeDuration),
{
    lemma_span_unit(n, 's', 1);
    lemma_span_unit(n, 'm', 60);
    lemma_span_unit(n, 'h', 3600);
    lemma_span_unit(n, 'd', 86400);
    let d = dec(n as int);
    lemma_dec_has_no_space(n as int);
    lemma_trim_fixed(d);
    law_decimal_reads_back(n as int);
    let m = if n < 0 { (-n) as nat } else { n as nat };
    lemma_digits_read_back(m);
    let s = crate::number::digits(m);
    assert(is_digit(s[s.len() - 1]));
    assert(d.last() == s[s.len() - 1]);
    assert(!is_space(d[0]));
}

} // verus!
