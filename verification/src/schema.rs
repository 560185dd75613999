//! Databases that were written before today's columns: what to add to them,
//! and how to read them as they are.

use vstd::prelude::*;

use crate::text::{among, contains, copy, has, join, joined, push_text, texts};

verus! {

/// The columns of a card, in the order they are read.
pub open spec fn card_columns() -> Seq<Seq<char>> {
    seq![
        "id"@,
        "title"@,
        "notes"@,
        "label"@,
        "status"@,
        "priority"@,
        "outcome"@,
        "claimed_by"@,
        "claimed_at"@,
        "commits"@,
        "created_at"@,
        "updated_at"@,
        "project_id"@,
        "legacy_id"@,
    ]
}

/// A column that came after the first databases, with its type. It is added
/// to a table that does not have the column it came with.
#[verifier::ext_equal]
pub struct LaterColumn {
    pub with: Seq<char>,
    pub name: Seq<char>,
    pub kind: Seq<char>,
}

/// A column that came by itself.
pub open spec fn alone(name: Seq<char>, kind: Seq<char>) -> LaterColumn {
    LaterColumn { with: name, name, kind }
}

/// The columns that came after the first databases. The two about claims
/// came together.
pub open spec fn later_columns() -> Seq<LaterColumn> {
    seq![
        alone("project_id"@, "INTEGER NOT NULL DEFAULT 0"@),
        alone("legacy_id"@, "INTEGER"@),
        alone("claimed_by"@, "TEXT NOT NULL DEFAULT ''"@),
        LaterColumn { with: "claimed_by"@, name: "claimed_at"@, kind: "TEXT NOT NULL DEFAULT ''"@ },
        alone("commits"@, "TEXT NOT NULL DEFAULT ''"@),
    ]
}

/// How a column is read: as empty where the database does not have it.
pub open spec fn column_read(present: Seq<Seq<char>>, column: Seq<char>) -> Seq<char> {
    if present.contains(column) {
        column
    } else {
        "'' AS "@ + column
    }
}

/// How the columns of a card are read.
pub open spec fn columns_read(present: Seq<Seq<char>>) -> Seq<char> {
    join(card_columns().map_values(|c: Seq<char>| column_read(present, c)), ", "@)
}

/// The statement that adds a column to the cards.
pub open spec fn column_added(column: LaterColumn) -> Seq<char> {
    "ALTER TABLE cards ADD COLUMN "@ + column.name + " "@ + column.kind + ";"@
}

/// The statements that add those of the columns that the present ones show
/// to be missing.
pub open spec fn additions(present: Seq<Seq<char>>, columns: Seq<LaterColumn>) -> Seq<Seq<char>>
    decreases columns.len(),
{
    if columns.len() == 0 {
        Seq::empty()
    } else {
        let before = additions(present, columns.drop_last());
        if present.contains(columns.last().with) {
            before
        } else {
            before.push(column_added(columns.last()))
        }
    }
}

fn push_read(out: &mut Vec<String>, present: &Vec<String>, column: &str)
    ensures
        texts(final(out)@) == texts(old(out)@).push(column_read(texts(present@), column@)),
{
    if among(present, column) {
        push_text(out, copy(column));
    } else {
        push_text(out, copy("'' AS ").concat(column));
    }
}

/// How the columns of a card are read from a database that has the `present`
/// ones.
pub fn read_columns(present: &Vec<String>) -> (out: String)
    ensures
        out@ == columns_read(texts(present@)),
{
    let mut v: Vec<String> = Vec::new();
    push_read(&mut v, present, "id");
    push_read(&mut v, present, "title");
    push_read(&mut v, present, "notes");
    push_read(&mut v, present, "label");
    push_read(&mut v, present, "status");
    push_read(&mut v, present, "priority");
    push_read(&mut v, present, "outcome");
    push_read(&mut v, present, "claimed_by");
    push_read(&mut v, present, "claimed_at");
    push_read(&mut v, present, "commits");
    push_read(&mut v, present, "created_at");
    push_read(&mut v, present, "updated_at");
    push_read(&mut v, present, "project_id");
    push_read(&mut v, present, "legacy_id");
    let ghost pv = texts(present@);
    assert(texts(v@) =~= card_columns().map_values(|c: Seq<char>| column_read(pv, c)));
    joined(&v, ", ")
}

fn push_missing(
    out: &mut Vec<String>,
    present: &Vec<String>,
    with: &str,
    name: &str,
    kind: &str,
    Ghost(before): Ghost<Seq<LaterColumn>>,
)
    requires
        texts(old(out)@) == additions(texts(present@), before),
    ensures
        texts(final(out)@) == additions(
            texts(present@),
            before.push(LaterColumn { with: with@, name: name@, kind: kind@ }),
        ),
{
    let ghost column = LaterColumn { with: with@, name: name@, kind: kind@ };
    let ghost all = before.push(column);
    assert(all.drop_last() =~= before);
    assert(all.last() == column);
    if !among(present, with) {
        push_text(out, copy("ALTER TABLE cards ADD COLUMN ").concat(name).concat(" ").concat(kind).concat(";"));
    }
}

/// The statements that bring the cards of a database up to date that has the
/// `present` columns.
pub fn missing_columns(present: &Vec<String>) -> (out: Vec<String>)
    ensures
        texts(out@) == additions(texts(present@), later_columns()),
{
    let mut out: Vec<String> = Vec::new();
    let ghost all = later_columns();
    assert(texts(out@) =~= additions(texts(present@), all.take(0)));
    push_missing(&mut out, present, "project_id", "project_id", "INTEGER NOT NULL DEFAULT 0", Ghost(all.take(0)));
    assert(all.take(0).push(all[0]) =~= all.take(1));
    push_missing(&mut out, present, "legacy_id", "legacy_id", "INTEGER", Ghost(all.take(1)));
    assert(all.take(1).push(all[1]) =~= all.take(2));
    push_missing(&mut out, present, "claimed_by", "claimed_by", "TEXT NOT NULL DEFAULT ''", Ghost(all.take(2)));
    assert(all.take(2).push(all[2]) =~= all.take(3));
    push_missing(&mut out, present, "claimed_by", "claimed_at", "TEXT NOT NULL DEFAULT ''", Ghost(all.take(3)));
    assert(all.take(3).push(all[3]) =~= all.take(4));
    push_missing(&mut out, present, "commits", "commits", "TEXT NOT NULL DEFAULT ''", Ghost(all.take(4)));
    assert(all.take(4).push(all[4]) =~= all);
    out
}

/// Whether the table was made before `in_progress` was a status. `sql` is
/// the statement that made it; empty where it is not known.
pub fn predates_claims(sql: &str) -> (r: bool)
    ensures
        r == (sql@.len() > 0 && !contains(sql@, "in_progress"@)),
{
    let known = has(sql, "in_progress");
    !sql.is_empty() && !known
}

} // verus!
