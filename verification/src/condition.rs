//! Conditions on cards: `label=art`, `status!=done`, `priority<2000`.

use vstd::prelude::*;

use crate::card::{card_views, find_card, has_card, Card, CardView};
use crate::number::{read_signed, signed_value, within};
use crate::project::{lookup, looked_up, project_views, Project, ProjectView};
use crate::refusal::{Refusal, RefusalView};
use crate::select::{in_scope, name_list, names_of, numbered, numbering, within_scope, Scope};
use crate::status::status_name;
use crate::tags::{is_marked, marked};
use crate::text::{chars_of, copy, occurs_at, part, same, stands_at, strip_start, stripped_start, texts, trim, trimmed};

verus! {

/// How a field is held against a value.
#[derive(Clone, Copy, Debug, PartialEq, Eq, Structural)]
pub enum Relation {
    AtMost,
    AtLeast,
    Differs,
    Equals,
    Below,
    Above,
}

/// How a relation is written.
pub open spec fn relation_sign(r: Relation) -> Seq<char> {
    match r {
        Relation::AtMost => "<="@,
        Relation::AtLeast => ">="@,
        Relation::Differs => "!="@,
        Relation::Equals => "="@,
        Relation::Below => "<"@,
        Relation::Above => ">"@,
    }
}

#[derive(Clone, Copy, Debug, PartialEq, Eq, Structural)]
pub enum NumberField {
    Priority,
    Id,
}

#[derive(Clone, Copy, Debug, PartialEq, Eq, Structural)]
pub enum TextField {
    Status,
    ClaimedBy,
    Title,
    Outcome,
}

/// One condition on a card.
#[derive(Debug, PartialEq, Eq)]
pub enum Condition {
    Number(NumberField, Relation, i64),
    /// The card's label is marked with the value, or is not.
    Tag(bool, String),
    /// The field is this text, or is not.
    Text(TextField, bool, String),
    /// The card is in the project, or is not.
    Project(bool, i64),
}

pub enum ConditionView {
    Number(NumberField, Relation, i64),
    Tag(bool, Seq<char>),
    Text(TextField, bool, Seq<char>),
    Project(bool, i64),
}

impl View for Condition {
    type V = ConditionView;

    open spec fn view(&self) -> ConditionView {
        match self {
            Condition::Number(f, r, n) => ConditionView::Number(*f, *r, *n),
            Condition::Tag(eq, t) => ConditionView::Tag(*eq, t@),
            Condition::Text(f, eq, t) => ConditionView::Text(*f, *eq, t@),
            Condition::Project(eq, id) => ConditionView::Project(*eq, *id),
        }
    }
}

/// What each of several conditions says.
pub open spec fn condition_views(v: Seq<Condition>) -> Seq<ConditionView> {
    v.map_values(|c: Condition| c@)
}

// ------------------------------------------------------------- meaning

pub open spec fn related(a: int, r: Relation, b: int) -> bool {
    match r {
        Relation::AtMost => a <= b,
        Relation::AtLeast => a >= b,
        Relation::Differs => a != b,
        Relation::Equals => a == b,
        Relation::Below => a < b,
        Relation::Above => a > b,
    }
}

pub open spec fn number_of(c: CardView, f: NumberField) -> int {
    match f {
        NumberField::Priority => c.priority as int,
        NumberField::Id => c.id as int,
    }
}

pub open spec fn text_of(c: CardView, f: TextField) -> Seq<char> {
    match f {
        TextField::Status => status_name(c.status),
        TextField::ClaimedBy => c.claimed_by,
        TextField::Title => c.title,
        TextField::Outcome => c.outcome,
    }
}

/// The condition holds of the card.
pub open spec fn holds_of(cond: ConditionView, c: CardView) -> bool {
    match cond {
        ConditionView::Number(f, r, n) => related(number_of(c, f), r, n as int),
        ConditionView::Tag(eq, t) => marked(c.label, t) == eq,
        ConditionView::Text(f, eq, t) => (text_of(c, f) == t) == eq,
        ConditionView::Project(eq, id) => (c.project_id == id) == eq,
    }
}

/// All of the conditions hold of the card.
pub open spec fn all_hold(conds: Seq<ConditionView>, c: CardView) -> bool {
    forall|k: int| 0 <= k < conds.len() ==> holds_of(#[trigger] conds[k], c)
}

// ------------------------------------------------------------- reading

/// The relation whose sign stands at a place; of two that do, the one with
/// the longer sign.
pub open spec fn sign_at(expr: Seq<char>, at: int) -> Option<Relation> {
    if occurs_at(expr, relation_sign(Relation::AtMost), at) {
        Some(Relation::AtMost)
    } else if occurs_at(expr, relation_sign(Relation::AtLeast), at) {
        Some(Relation::AtLeast)
    } else if occurs_at(expr, relation_sign(Relation::Differs), at) {
        Some(Relation::Differs)
    } else if occurs_at(expr, relation_sign(Relation::Equals), at) {
        Some(Relation::Equals)
    } else if occurs_at(expr, relation_sign(Relation::Below), at) {
        Some(Relation::Below)
    } else if occurs_at(expr, relation_sign(Relation::Above), at) {
        Some(Relation::Above)
    } else {
        None
    }
}

/// The first place from `at` on where a sign stands.
pub open spec fn sign_from(expr: Seq<char>, at: int) -> Option<int>
    decreases expr.len() - at,
{
    if at >= expr.len() {
        None
    } else if sign_at(expr, at) is Some {
        Some(at)
    } else {
        sign_from(expr, at + 1)
    }
}

/// The field, relation and value an expression names: what stands before
/// its first sign, that sign, and all that stands after it.
pub open spec fn parts(expr: Seq<char>) -> Option<(Seq<char>, Relation, Seq<char>)> {
    match sign_from(expr, 0) {
        Some(at) => {
            let r = sign_at(expr, at)->0;
            Some((trim(expr.take(at)), r, trim(expr.skip(at + relation_sign(r).len()))))
        },
        None => None,
    }
}

/// A character that may begin a sign.
pub open spec fn begins_sign(c: char) -> bool {
    c == '<' || c == '>' || c == '!' || c == '='
}

/// Law: an expression is cut at the sign behind its field, whatever the
/// value after it holds; only `<` and `>` want a value that does not begin
/// with `=`.
pub proof fn law_condition_keeps_its_value(k: Seq<char>, r: Relation, v: Seq<char>)
    requires
        forall|i: int| 0 <= i < k.len() ==> !begins_sign(#[trigger] k[i]),
        r == Relation::Below || r == Relation::Above ==> v.len() == 0 || v[0] != '=',
    ensures
        parts(k + relation_sign(r) + v) == Some((trim(k), r, trim(v))),
{
    let e = k + relation_sign(r) + v;
    let n = k.len() as int;
    reveal_strlit("<=");
    reveal_strlit(">=");
    reveal_strlit("!=");
    reveal_strlit("=");
    reveal_strlit("<");
    reveal_strlit(">");
    let m = relation_sign(r).len() as int;
    assert(e.subrange(n, n + m) =~= relation_sign(r));
    assert(occurs_at(e, relation_sign(r), n));
    assert(e[n] == relation_sign(r)[0]);
    if m == 2 {
        assert(e[n + 1] == '=');
    }
    assert forall|q: Relation| #[trigger] occurs_at(e, relation_sign(q), n) implies e[n] == relation_sign(q)[0] && (
    relation_sign(q).len() == 2 ==> n + 1 < e.len() && e[n + 1] == relation_sign(q)[1]) by {
        let s = e.subrange(n, n + relation_sign(q).len());
        assert(s[0] == e[n]);
        if relation_sign(q).len() == 2 {
            assert(s[1] == e[n + 1]);
        }
    }
    if m == 1 && v.len() > 0 {
        assert(e[n + 1] == v[0]);
    }
    assert(sign_at(e, n) == Some(r));
    lemma_no_sign_before(e, 0, n);
    assert(e.take(n) =~= k);
    assert(e.skip(n + m) =~= v);
}

/// No sign stands where none can begin.
proof fn lemma_no_sign_before(e: Seq<char>, from: int, to: int)
    requires
        0 <= from <= to < e.len(),
        forall|i: int| from <= i < to ==> !begins_sign(#[trigger] e[i]),
        sign_at(e, to) is Some,
    ensures
        sign_from(e, from) == Some(to),
    decreases to - from,
{
    if from < to {
        reveal_strlit("<=");
        reveal_strlit(">=");
        reveal_strlit("!=");
        reveal_strlit("=");
        reveal_strlit("<");
        reveal_strlit(">");
        assert(!begins_sign(e[from]));
        assert forall|q: Relation| !#[trigger] occurs_at(e, relation_sign(q), from) by {
            if occurs_at(e, relation_sign(q), from) {
                assert(e.subrange(from, from + relation_sign(q).len())[0] == e[from]);
            }
        }
        lemma_no_sign_before(e, from + 1, to);
    }
}

/// The number field with this name.
pub open spec fn number_field(k: Seq<char>) -> Option<NumberField> {
    if k == "priority"@ {
        Some(NumberField::Priority)
    } else if k == "id"@ {
        Some(NumberField::Id)
    } else {
        None
    }
}

/// The text field with this name.
pub open spec fn text_field(k: Seq<char>) -> Option<TextField> {
    if k == "status"@ {
        Some(TextField::Status)
    } else if k == "claimed_by"@ {
        Some(TextField::ClaimedBy)
    } else if k == "title"@ {
        Some(TextField::Title)
    } else if k == "outcome"@ {
        Some(TextField::Outcome)
    } else {
        None
    }
}

/// The condition an expression states, or why it states none.
pub open spec fn condition(projects: Seq<ProjectView>, expr: Seq<char>) -> Result<ConditionView, RefusalView> {
    match parts(expr) {
        None => Err(RefusalView::WhereShape(expr)),
        Some((k, r, v)) => {
            let eq = r == Relation::Equals;
            let worded = r == Relation::Equals || r == Relation::Differs;
            if number_field(k) is Some {
                match within(signed_value(v), i64::MIN as int, i64::MAX as int) {
                    Some(n) => Ok(ConditionView::Number(number_field(k)->0, r, n as i64)),
                    None => Err(RefusalView::BadNumber(k, v)),
                }
            } else if (k == "label"@ || k == "tag"@) && worded {
                Ok(ConditionView::Tag(eq, v))
            } else if text_field(k) is Some && worded {
                Ok(ConditionView::Text(text_field(k)->0, eq, v))
            } else if k == "project"@ && worded {
                if looked_up(projects, v) >= 0 {
                    Ok(ConditionView::Project(eq, projects[looked_up(projects, v)].id))
                } else {
                    Err(RefusalView::NoProject(v))
                }
            } else {
                Err(RefusalView::UnknownWhere(expr))
            }
        },
    }
}

/// The conditions that expressions state, or why the first bad one states
/// none.
pub open spec fn conditions(projects: Seq<ProjectView>, exprs: Seq<Seq<char>>) -> Result<
    Seq<ConditionView>,
    RefusalView,
>
    decreases exprs.len(),
{
    if exprs.len() == 0 {
        Ok(Seq::empty())
    } else {
        match conditions(projects, exprs.drop_last()) {
            Ok(before) => match condition(projects, exprs.last()) {
                Ok(c) => Ok(before.push(c)),
                Err(e) => Err(e),
            },
            Err(e) => Err(e),
        }
    }
}

// ------------------------------------------------------------- executable

fn sign_of(r: Relation) -> (out: &'static str)
    ensures
        out@ == relation_sign(r),
{
    match r {
        Relation::AtMost => "<=",
        Relation::AtLeast => ">=",
        Relation::Differs => "!=",
        Relation::Equals => "=",
        Relation::Below => "<",
        Relation::Above => ">",
    }
}

fn signed_at(e: &Vec<char>, r: Relation, at: usize) -> (out: bool)
    ensures
        out == occurs_at(e@, relation_sign(r), at as int),
{
    let s = chars_of(sign_of(r));
    stands_at(e, &s, at)
}

fn relation_at(e: &Vec<char>, at: usize) -> (out: Option<Relation>)
    ensures
        out == sign_at(e@, at as int),
        out is Some ==> occurs_at(e@, relation_sign(out->0), at as int),
{
    if signed_at(e, Relation::AtMost, at) {
        Some(Relation::AtMost)
    } else if signed_at(e, Relation::AtLeast, at) {
        Some(Relation::AtLeast)
    } else if signed_at(e, Relation::Differs, at) {
        Some(Relation::Differs)
    } else if signed_at(e, Relation::Equals, at) {
        Some(Relation::Equals)
    } else if signed_at(e, Relation::Below, at) {
        Some(Relation::Below)
    } else if signed_at(e, Relation::Above, at) {
        Some(Relation::Above)
    } else {
        None
    }
}

fn parts_of(expr: &str) -> (out: Option<(String, Relation, String)>)
    ensures
        match out {
            Some((k, r, v)) => parts(expr@) == Some((k@, r, v@)),
            None => parts(expr@) is None,
        },
{
    let e = chars_of(expr);
    let mut at: usize = 0;
    while at < e.len()
        invariant
            at <= e@.len(),
            e@ == expr@,
            sign_from(expr@, 0) == sign_from(expr@, at as int),
        decreases e.len() - at,
    {
        match relation_at(&e, at) {
            Some(r) => {
                let s = chars_of(sign_of(r));
                let k = part(&e, 0, at);
                let v = part(&e, at + s.len(), e.len());
                assert(k@ =~= expr@.take(at as int));
                assert(v@ =~= expr@.skip(at + s@.len()));
                return Some((trimmed(k.as_str()), r, trimmed(v.as_str())));
            },
            None => {},
        }
        at = at + 1;
    }
    None
}

fn number_field_of(k: &str) -> (r: Option<NumberField>)
    ensures
        r == number_field(k@),
{
    if same(k, "priority") {
        Some(NumberField::Priority)
    } else if same(k, "id") {
        Some(NumberField::Id)
    } else {
        None
    }
}

fn text_field_of(k: &str) -> (r: Option<TextField>)
    ensures
        r == text_field(k@),
{
    if same(k, "status") {
        Some(TextField::Status)
    } else if same(k, "claimed_by") {
        Some(TextField::ClaimedBy)
    } else if same(k, "title") {
        Some(TextField::Title)
    } else if same(k, "outcome") {
        Some(TextField::Outcome)
    } else {
        None
    }
}

/// The condition an expression states, or why it states none.
pub fn parse_where(projects: &Vec<Project>, expr: &str) -> (r: Result<Condition, Refusal>)
    ensures
        match r {
            Ok(c) => condition(project_views(projects@), expr@) == Ok::<ConditionView, RefusalView>(c@),
            Err(e) => condition(project_views(projects@), expr@) == Err::<ConditionView, RefusalView>(e@),
        },
{
    let (k, rel, v) = match parts_of(expr) {
        Some(p) => p,
        None => {
            return Err(Refusal::WhereShape(copy(expr)));
        },
    };
    let eq = rel == Relation::Equals;
    let worded = rel == Relation::Equals || rel == Relation::Differs;
    match number_field_of(k.as_str()) {
        Some(f) => {
            return match read_signed(v.as_str(), i64::MIN, i64::MAX) {
                Some(n) => Ok(Condition::Number(f, rel, n)),
                None => Err(Refusal::BadNumber(k, v)),
            };
        },
        None => {},
    }
    if worded {
        if same(k.as_str(), "label") || same(k.as_str(), "tag") {
            return Ok(Condition::Tag(eq, v));
        }
        match text_field_of(k.as_str()) {
            Some(f) => {
                return Ok(Condition::Text(f, eq, v));
            },
            None => {},
        }
        if same(k.as_str(), "project") {
            return match lookup(projects, v.as_str()) {
                Some(at) => {
                    assert(project_views(projects@)[at as int] == projects@[at as int]@);
                    Ok(Condition::Project(eq, projects[at].id))
                },
                None => Err(Refusal::NoProject(v)),
            };
        }
    }
    Err(Refusal::UnknownWhere(copy(expr)))
}

fn compare(a: i64, r: Relation, b: i64) -> (out: bool)
    ensures
        out == related(a as int, r, b as int),
{
    match r {
        Relation::AtMost => a <= b,
        Relation::AtLeast => a >= b,
        Relation::Differs => a != b,
        Relation::Equals => a == b,
        Relation::Below => a < b,
        Relation::Above => a > b,
    }
}

/// Whether the condition holds of the card.
pub fn satisfies(cond: &Condition, card: &Card) -> (r: bool)
    ensures
        r == holds_of(cond@, card@),
{
    match cond {
        Condition::Number(f, rel, n) => {
            let v: i64 = match f {
                NumberField::Priority => card.priority as i64,
                NumberField::Id => card.id,
            };
            compare(v, *rel, *n)
        },
        Condition::Tag(eq, t) => is_marked(card.label.as_str(), t.as_str()) == *eq,
        Condition::Text(f, eq, t) => {
            let v = match f {
                TextField::Status => card.status.as_str(),
                TextField::ClaimedBy => card.claimed_by.as_str(),
                TextField::Title => card.title.as_str(),
                TextField::Outcome => card.outcome.as_str(),
            };
            same(v, t.as_str()) == *eq
        },
        Condition::Project(eq, id) => (card.project_id == *id) == *eq,
    }
}

fn satisfies_all(conds: &Vec<Condition>, card: &Card) -> (r: bool)
    ensures
        r == all_hold(condition_views(conds@), card@),
{
    let ghost all = condition_views(conds@);
    let mut i: usize = 0;
    while i < conds.len()
        invariant
            i <= conds@.len(),
            all == condition_views(conds@),
            forall|k: int| 0 <= k < i ==> holds_of(#[trigger] all[k], card@),
        decreases conds.len() - i,
    {
        assert(all[i as int] == conds@[i as int]@);
        if !satisfies(&conds[i], card) {
            return false;
        }
        i = i + 1;
    }
    true
}

fn parse_all(projects: &Vec<Project>, exprs: &Vec<String>) -> (r: Result<Vec<Condition>, Refusal>)
    ensures
        match r {
            Ok(v) => conditions(project_views(projects@), texts(exprs@)) == Ok::<Seq<ConditionView>, RefusalView>(
                condition_views(v@),
            ),
            Err(e) => conditions(project_views(projects@), texts(exprs@)) == Err::<Seq<ConditionView>, RefusalView>(e@),
        },
{
    let ghost pv = project_views(projects@);
    let ghost all = texts(exprs@);
    let mut out: Vec<Condition> = Vec::new();
    let mut i: usize = 0;
    assert(condition_views(out@) =~= Seq::empty());
    while i < exprs.len()
        invariant
            i <= exprs@.len(),
            pv == project_views(projects@),
            all == texts(exprs@),
            conditions(pv, all.take(i as int)) == Ok::<Seq<ConditionView>, RefusalView>(condition_views(out@)),
        decreases exprs.len() - i,
    {
        assert(all.take(i + 1).drop_last() =~= all.take(i as int));
        assert(all.take(i + 1).last() == exprs@[i as int]@);
        match parse_where(projects, exprs[i].as_str()) {
            Ok(c) => {
                let ghost before = condition_views(out@);
                out.push(c);
                assert(condition_views(out@) =~= before.push(c@));
            },
            Err(e) => {
                proof {
                    lemma_conditions_fail(pv, all, i + 1);
                }
                return Err(e);
            },
        }
        i = i + 1;
    }
    assert(all.take(i as int) =~= all);
    Ok(out)
}

/// Once an expression is bad, so is the list.
proof fn lemma_conditions_fail(projects: Seq<ProjectView>, exprs: Seq<Seq<char>>, n: int)
    requires
        0 <= n <= exprs.len(),
        conditions(projects, exprs.take(n)) is Err,
    ensures
        conditions(projects, exprs) == conditions(projects, exprs.take(n)),
    decreases exprs.len() - n,
{
    if n == exprs.len() {
        assert(exprs.take(n) =~= exprs);
    } else {
        assert(exprs.take(n + 1).drop_last() =~= exprs.take(n));
        lemma_conditions_fail(projects, exprs, n + 1);
    }
}

/// The card is selected: in the scope, and all conditions hold of it.
pub open spec fn selected(projects: Seq<ProjectView>, scope: Scope, conds: Seq<ConditionView>, c: CardView) -> bool {
    in_scope(projects, scope, c) && all_hold(conds, c)
}

/// The cards that the conditions select: their positions, lowest id first.
pub fn select_where(cards: &Vec<Card>, projects: &Vec<Project>, scope: Scope, exprs: &Vec<String>) -> (r: Result<
    Vec<usize>,
    Refusal,
>)
    ensures
        ({
            let pv = project_views(projects@);
            let cv = card_views(cards@);
            match r {
                Ok(out) => conditions(pv, texts(exprs@)) is Ok && out@ == numbering(
                    cv,
                    cv.map_values(|c: CardView| selected(pv, scope, conditions(pv, texts(exprs@))->Ok_0, c)),
                ) && forall|k: int| 0 <= k < out@.len() ==> (#[trigger] out@[k]) < cards@.len(),
                Err(e) => conditions(pv, texts(exprs@)) == Err::<Seq<ConditionView>, RefusalView>(e@),
            }
        }),
{
    let conds = match parse_all(projects, exprs) {
        Ok(v) => v,
        Err(e) => {
            return Err(e);
        },
    };
    let ghost cv = card_views(cards@);
    let ghost pv = project_views(projects@);
    let ghost cs = condition_views(conds@);
    let ghost flags = cv.map_values(|c: CardView| selected(pv, scope, cs, c));
    let mut keep: Vec<bool> = Vec::new();
    let mut i: usize = 0;
    while i < cards.len()
        invariant
            i <= cards@.len(),
            cv == card_views(cards@),
            pv == project_views(projects@),
            cs == condition_views(conds@),
            flags == cv.map_values(|c: CardView| selected(pv, scope, cs, c)),
            keep@ == flags.take(i as int),
        decreases cards.len() - i,
    {
        assert(cv[i as int] == cards@[i as int]@);
        let k = within_scope(projects, scope, &cards[i]) && satisfies_all(&conds, &cards[i]);
        assert(k == flags[i as int]);
        keep.push(k);
        assert(flags.take(i + 1) =~= flags.take(i as int).push(flags[i as int]));
        i = i + 1;
    }
    assert(flags.take(i as int) =~= flags);
    Ok(numbered(cards, &keep))
}

// ------------------------------------------------------------- ids

/// The card a piece of an id list names, or why it names none.
pub open spec fn listed_id(cards: Seq<CardView>, piece: Seq<char>) -> Result<i64, RefusalView> {
    match within(signed_value(strip_start(piece, '#')), i64::MIN as int, i64::MAX as int) {
        Some(n) => if has_card(cards, n as i64) {
            Ok(n as i64)
        } else {
            Err(RefusalView::NotFound(n as i64))
        },
        None => Err(RefusalView::BadId(piece)),
    }
}

/// The cards that pieces name, or why the first bad one names none.
pub open spec fn listed_ids(cards: Seq<CardView>, ps: Seq<Seq<char>>) -> Result<Seq<i64>, RefusalView>
    decreases ps.len(),
{
    if ps.len() == 0 {
        Ok(Seq::empty())
    } else {
        match listed_ids(cards, ps.drop_last()) {
            Ok(before) => match listed_id(cards, ps.last()) {
                Ok(n) => Ok(before.push(n)),
                Err(e) => Err(e),
            },
            Err(e) => Err(e),
        }
    }
}

proof fn lemma_ids_fail(cards: Seq<CardView>, ps: Seq<Seq<char>>, n: int)
    requires
        0 <= n <= ps.len(),
        listed_ids(cards, ps.take(n)) is Err,
    ensures
        listed_ids(cards, ps) == listed_ids(cards, ps.take(n)),
    decreases ps.len() - n,
{
    if n == ps.len() {
        assert(ps.take(n) =~= ps);
    } else {
        assert(ps.take(n + 1).drop_last() =~= ps.take(n));
        lemma_ids_fail(cards, ps, n + 1);
    }
}

/// The cards a list such as `1,2,#3` names.
pub fn parse_ids(cards: &Vec<Card>, list: &str) -> (r: Result<Vec<i64>, Refusal>)
    ensures
        match r {
            Ok(v) => listed_ids(card_views(cards@), name_list(list@)) == Ok::<Seq<i64>, RefusalView>(v@),
            Err(e) => listed_ids(card_views(cards@), name_list(list@)) == Err::<Seq<i64>, RefusalView>(e@),
        },
{
    let names = names_of(list);
    let ghost cv = card_views(cards@);
    let ghost all = texts(names@);
    let mut out: Vec<i64> = Vec::new();
    let mut i: usize = 0;
    assert(out@ =~= Seq::<i64>::empty());
    while i < names.len()
        invariant
            i <= names@.len(),
            cv == card_views(cards@),
            all == texts(names@),
            all == name_list(list@),
            listed_ids(cv, all.take(i as int)) == Ok::<Seq<i64>, RefusalView>(out@),
        decreases names.len() - i,
    {
        assert(all.take(i + 1).drop_last() =~= all.take(i as int));
        assert(all.take(i + 1).last() == names@[i as int]@);
        let number = stripped_start(names[i].as_str(), '#');
        match read_signed(number.as_str(), i64::MIN, i64::MAX) {
            Some(n) => {
                if find_card(cards, n).is_none() {
                    proof {
                        lemma_ids_fail(cv, all, i + 1);
                    }
                    return Err(Refusal::NotFound(n));
                }
                out.push(n);
            },
            None => {
                proof {
                    lemma_ids_fail(cv, all, i + 1);
                }
                return Err(Refusal::BadId(names[i].clone()));
            },
        }
        i = i + 1;
    }
    assert(all.take(i as int) =~= all);
    Ok(out)
}

} // verus!
