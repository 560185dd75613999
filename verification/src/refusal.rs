//! Why a request is refused, and the words that say so.

use vstd::prelude::*;

use crate::number::{dec, decimal, decimal_count};
use crate::status::{status_name, Status};
use crate::text::copy;

verus! {

/// Why a request is refused.
#[derive(Debug)]
pub enum Refusal {
    NotFound(i64),
    NoHistory(i64),
    EmptyTitle,
    LongTitle(usize),
    LongOutcome(usize),
    PriorityRange,
    NothingToChange,
    NoProject(String),
    UnknownProject(String),
    ClaimedCard(i64, String),
    NoAgent,
    ClaimNeedsAgent,
    Contended(i64, String),
    NotClaimable(i64, Status),
    NotReleased(i64, Status, String, String),
    NotInProgress(i64, Status),
    LostClaim(i64, String),
    NegativeAmount,
    EmptyDuration,
    BadDuration(String),
    NegativeDuration,
    UnknownLinkKind(String),
    SelfLink,
    LinkCycle(i64, i64),
    SetShape(String),
    BadPriority(String),
    BadStatus(String),
    UnknownSetField(String),
    WhereShape(String),
    BadNumber(String, String),
    UnknownWhere(String),
    BadId(String),
    WhichCard,
    EmptyNote,
    NoteUnchanged,
    NoNote(i64),
    NotDirectory(String),
    PathTaken(String, String, i64),
    NameTaken(String, String, i64),
    ProjectHasCards(String, usize),
    NotInProject,
    NoProjectRow(String),
    Unassigned(usize),
    NeedsStore,
    NotFile(String),
    SourceIsStore(String),
    NoBacklog(String),
    NoDatabase(String),
    NoDatabases,
    MissingDatabase(String),
    NoSlot,
    GitUnresolved(String, String),
    GitNoCommit(String),
    StoreFull,
}

/// What a `Refusal` says, with its texts as sequences of characters.
pub enum RefusalView {
    NotFound(i64),
    NoHistory(i64),
    EmptyTitle,
    LongTitle(nat),
    LongOutcome(nat),
    PriorityRange,
    NothingToChange,
    NoProject(Seq<char>),
    UnknownProject(Seq<char>),
    ClaimedCard(i64, Seq<char>),
    NoAgent,
    ClaimNeedsAgent,
    Contended(i64, Seq<char>),
    NotClaimable(i64, Status),
    NotReleased(i64, Status, Seq<char>, Seq<char>),
    NotInProgress(i64, Status),
    LostClaim(i64, Seq<char>),
    NegativeAmount,
    EmptyDuration,
    BadDuration(Seq<char>),
    NegativeDuration,
    UnknownLinkKind(Seq<char>),
    SelfLink,
    LinkCycle(i64, i64),
    SetShape(Seq<char>),
    BadPriority(Seq<char>),
    BadStatus(Seq<char>),
    UnknownSetField(Seq<char>),
    WhereShape(Seq<char>),
    BadNumber(Seq<char>, Seq<char>),
    UnknownWhere(Seq<char>),
    BadId(Seq<char>),
    WhichCard,
    EmptyNote,
    NoteUnchanged,
    NoNote(i64),
    NotDirectory(Seq<char>),
    PathTaken(Seq<char>, Seq<char>, i64),
    NameTaken(Seq<char>, Seq<char>, i64),
    ProjectHasCards(Seq<char>, nat),
    NotInProject,
    NoProjectRow(Seq<char>),
    Unassigned(nat),
    NeedsStore,
    NotFile(Seq<char>),
    SourceIsStore(Seq<char>),
    NoBacklog(Seq<char>),
    NoDatabase(Seq<char>),
    NoDatabases,
    MissingDatabase(Seq<char>),
    NoSlot,
    GitUnresolved(Seq<char>, Seq<char>),
    GitNoCommit(Seq<char>),
    StoreFull,
}

impl View for Refusal {
    type V = RefusalView;

    open spec fn view(&self) -> RefusalView {
        match self {
            Refusal::NotFound(id) => RefusalView::NotFound(*id),
            Refusal::NoHistory(id) => RefusalView::NoHistory(*id),
            Refusal::EmptyTitle => RefusalView::EmptyTitle,
            Refusal::LongTitle(n) => RefusalView::LongTitle(*n as nat),
            Refusal::LongOutcome(n) => RefusalView::LongOutcome(*n as nat),
            Refusal::PriorityRange => RefusalView::PriorityRange,
            Refusal::NothingToChange => RefusalView::NothingToChange,
            Refusal::NoProject(s) => RefusalView::NoProject(s@),
            Refusal::UnknownProject(s) => RefusalView::UnknownProject(s@),
            Refusal::ClaimedCard(id, s) => RefusalView::ClaimedCard(*id, s@),
            Refusal::NoAgent => RefusalView::NoAgent,
            Refusal::ClaimNeedsAgent => RefusalView::ClaimNeedsAgent,
            Refusal::Contended(id, s) => RefusalView::Contended(*id, s@),
            Refusal::NotClaimable(id, status) => RefusalView::NotClaimable(*id, *status),
            Refusal::NotReleased(id, status, a, b) => RefusalView::NotReleased(*id, *status, a@, b@),
            Refusal::NotInProgress(id, status) => RefusalView::NotInProgress(*id, *status),
            Refusal::LostClaim(id, s) => RefusalView::LostClaim(*id, s@),
            Refusal::NegativeAmount => RefusalView::NegativeAmount,
            Refusal::EmptyDuration => RefusalView::EmptyDuration,
            Refusal::BadDuration(s) => RefusalView::BadDuration(s@),
            Refusal::NegativeDuration => RefusalView::NegativeDuration,
            Refusal::UnknownLinkKind(s) => RefusalView::UnknownLinkKind(s@),
            Refusal::SelfLink => RefusalView::SelfLink,
            Refusal::LinkCycle(a, b) => RefusalView::LinkCycle(*a, *b),
            Refusal::SetShape(s) => RefusalView::SetShape(s@),
            Refusal::BadPriority(s) => RefusalView::BadPriority(s@),
            Refusal::BadStatus(s) => RefusalView::BadStatus(s@),
            Refusal::UnknownSetField(s) => RefusalView::UnknownSetField(s@),
            Refusal::WhereShape(s) => RefusalView::WhereShape(s@),
            Refusal::BadNumber(a, b) => RefusalView::BadNumber(a@, b@),
            Refusal::UnknownWhere(s) => RefusalView::UnknownWhere(s@),
            Refusal::BadId(s) => RefusalView::BadId(s@),
            Refusal::WhichCard => RefusalView::WhichCard,
            Refusal::EmptyNote => RefusalView::EmptyNote,
            Refusal::NoteUnchanged => RefusalView::NoteUnchanged,
            Refusal::NoNote(id) => RefusalView::NoNote(*id),
            Refusal::NotDirectory(s) => RefusalView::NotDirectory(s@),
            Refusal::PathTaken(a, b, id) => RefusalView::PathTaken(a@, b@, *id),
            Refusal::NameTaken(a, b, id) => RefusalView::NameTaken(a@, b@, *id),
            Refusal::ProjectHasCards(s, n) => RefusalView::ProjectHasCards(s@, *n as nat),
            Refusal::NotInProject => RefusalView::NotInProject,
            Refusal::NoProjectRow(s) => RefusalView::NoProjectRow(s@),
            Refusal::Unassigned(n) => RefusalView::Unassigned(*n as nat),
            Refusal::NeedsStore => RefusalView::NeedsStore,
            Refusal::NotFile(s) => RefusalView::NotFile(s@),
            Refusal::SourceIsStore(s) => RefusalView::SourceIsStore(s@),
            Refusal::NoBacklog(s) => RefusalView::NoBacklog(s@),
            Refusal::NoDatabase(s) => RefusalView::NoDatabase(s@),
            Refusal::NoDatabases => RefusalView::NoDatabases,
            Refusal::MissingDatabase(s) => RefusalView::MissingDatabase(s@),
            Refusal::NoSlot => RefusalView::NoSlot,
            Refusal::GitUnresolved(a, b) => RefusalView::GitUnresolved(a@, b@),
            Refusal::GitNoCommit(s) => RefusalView::GitNoCommit(s@),
            Refusal::StoreFull => RefusalView::StoreFull,
        }
    }
}

/// The words that tell a refusal.
pub open spec fn refusal_text(r: RefusalView) -> Seq<char> {
    match r {
        RefusalView::NotFound(id) => "card #"@ + dec(id as int) + " not found"@,
        RefusalView::NoHistory(id) => "card #"@ + dec(id as int) + " not found and it left no history"@,
        RefusalView::EmptyTitle => "a title cannot be empty"@,
        RefusalView::LongTitle(n) => "title is "@ + dec(n as int)
            + " characters (limit 120): keep the title to one line and put the detail in a note (`bl note <id> \"...\"`), or pass --force"@,
        RefusalView::LongOutcome(n) => "outcome is "@ + dec(n as int)
            + " characters (limit 300): say the result in a line and put the detail in a note (`bl note <id> \"...\" -k finding`), or pass --force"@,
        RefusalView::PriorityRange => "priority must be 0..=10000"@,
        RefusalView::NothingToChange =>
            "nothing to change: give at least one of --title --label --add-tag --rm-tag --priority --notes --outcome --status --move"@,
        RefusalView::NoProject(s) => "no project named '"@ + s + "'"@,
        RefusalView::UnknownProject(s) => "no project named '"@ + s
            + "'; `bl project list` shows the registered ones"@,
        RefusalView::ClaimedCard(id, s) => "card #"@ + dec(id as int) + " is claimed by '"@ + s
            + "'; `bl release "@ + dec(id as int) + "` first, or --force"@,
        RefusalView::NoAgent => "--by must be a non-empty agent identity"@,
        RefusalView::ClaimNeedsAgent => "--claim requires --by <agent-id>"@,
        RefusalView::Contended(id, s) => "card #"@ + dec(id as int) + " already claimed by '"@ + s + "'"@,
        RefusalView::NotClaimable(id, status) => "card #"@ + dec(id as int) + " is status '"@ + status_name(
            status,
        ) + "' (must be new or ready to claim)"@,
        RefusalView::NotReleased(id, status, a, b) => "card #"@ + dec(id as int) + " not released (status="@
            + status_name(status) + ", claimed_by='"@ + a + "', required by='"@ + b + "')"@,
        RefusalView::NotInProgress(id, status) => "card #"@ + dec(id as int)
            + " is not in_progress (status="@ + status_name(status) + ")"@,
        RefusalView::LostClaim(id, s) => "#"@ + dec(id as int) + " is not claimed by "@ + s + " any more"@,
        RefusalView::NegativeAmount => "amount must be >= 0"@,
        RefusalView::EmptyDuration => "empty duration"@,
        RefusalView::BadDuration(s) => "bad duration '"@ + s + "' (try 90s, 30m, 2h, 1d)"@,
        RefusalView::NegativeDuration => "duration must not be negative"@,
        RefusalView::UnknownLinkKind(s) => "unknown link kind '"@ + s + "' (blocks, child_of, related)"@,
        RefusalView::SelfLink => "a card cannot be linked to itself"@,
        RefusalView::LinkCycle(a, b) => "#"@ + dec(a as int) + " already waits on #"@ + dec(b as int)
            + " (directly or through other cards); that would be a cycle"@,
        RefusalView::SetShape(s) => "--set wants FIELD=VALUE, got '"@ + s + "'"@,
        RefusalView::BadPriority(s) => "priority '"@ + s + "' is not a number"@,
        RefusalView::BadStatus(s) => "status '"@ + s + "' is not one of new, ready, in_progress, done"@,
        RefusalView::UnknownSetField(s) => "--set does not know the field '"@ + s
            + "' (title, label, priority, outcome, notes, status, project)"@,
        RefusalView::WhereShape(s) => "--where wants FIELD=VALUE, got '"@ + s + "'"@,
        RefusalView::BadNumber(a, b) => a + " '"@ + b + "' is not a number"@,
        RefusalView::UnknownWhere(s) => "--where does not understand '"@ + s
            + "' (label, status, claimed_by, title, outcome, project with = or !=; priority, id with = != < > <= >=)"@,
        RefusalView::BadId(s) => "'"@ + s + "' is not a card id"@,
        RefusalView::WhichCard => "which card? give an id, --ids 1,2,3 or --where FIELD=VALUE"@,
        RefusalView::EmptyNote => "the note is empty"@,
        RefusalView::NoteUnchanged => "nothing to change: give new text and/or --kind"@,
        RefusalView::NoNote(id) => "note "@ + dec(id as int) + " not found"@,
        RefusalView::NotDirectory(s) => s + " is not a directory"@,
        RefusalView::PathTaken(a, b, id) => a + " is already project '"@ + b + "' (#"@ + dec(id as int)
            + ")"@,
        RefusalView::NameTaken(a, b, id) => "project '"@ + a + "' already exists at "@ + b + " (#"@ + dec(
            id as int,
        ) + "); pass --name"@,
        RefusalView::ProjectHasCards(s, n) => "project '"@ + s + "' still has "@ + dec(n as int)
            + " card(s); deactivate it, or --force to delete them too"@,
        RefusalView::NotInProject =>
            "this directory is not inside a registered project: pass --project <name>, or run `bl project add` from the repository"@,
        RefusalView::NoProjectRow(s) => "this database has no project row; run `bl init --db "@ + s + "`"@,
        RefusalView::Unassigned(n) => dec(n as int)
            + " unassigned card(s) in a database with several projects; `bl edit --where project_id=0 --project <name>` is not available yet, so assign them by hand before continuing"@,
        RefusalView::NeedsStore =>
            "import needs the central store; run `bl init` first, then import from anywhere"@,
        RefusalView::NotFile(s) => s + " is not a file"@,
        RefusalView::SourceIsStore(s) => s + " is the central store itself"@,
        RefusalView::NoBacklog(s) => "no backlog found: "@ + s
            + " does not exist and there is no ./backlog.db here.\nRun `bl init` to create the central store and register this repository,\nor pass --db <path> to use a specific database."@,
        RefusalView::NoDatabase(s) => "database not found: "@ + s + "\nRun `bl init --db "@ + s
            + "` to create it."@,
        RefusalView::NoDatabases => "no databases to read"@,
        RefusalView::MissingDatabase(s) => "database not found: "@ + s,
        RefusalView::NoSlot => "dashboard template is missing its data slot"@,
        RefusalView::GitUnresolved(a, b) => "git could not resolve '"@ + a + "': "@ + b,
        RefusalView::GitNoCommit(s) => "git returned no commit for '"@ + s + "'"@,
        RefusalView::StoreFull => "the store has no card ids left"@,
    }
}

/// Somebody else holds the claim: the caller should take another card.
pub open spec fn is_contention(r: RefusalView) -> bool {
    r is Contended || r is LostClaim
}

impl Refusal {
    /// The words that tell the refusal.
    pub fn message(&self) -> (out: String)
        ensures
            out@ == refusal_text(self@),
    {
        match self {
            Refusal::NotFound(id) => copy("card #").concat(decimal(*id).as_str()).concat(" not found"),
            Refusal::NoHistory(id) => copy("card #").concat(decimal(*id).as_str()).concat(
                " not found and it left no history",
            ),
            Refusal::EmptyTitle => copy("a title cannot be empty"),
            Refusal::LongTitle(n) => copy("title is ").concat(decimal_count(*n).as_str()).concat(
                " characters (limit 120): keep the title to one line and put the detail in a note (`bl note <id> \"...\"`), or pass --force",
            ),
            Refusal::LongOutcome(n) => copy("outcome is ").concat(decimal_count(*n).as_str()).concat(
                " characters (limit 300): say the result in a line and put the detail in a note (`bl note <id> \"...\" -k finding`), or pass --force",
            ),
            Refusal::PriorityRange => copy("priority must be 0..=10000"),
            Refusal::NothingToChange => copy(
                "nothing to change: give at least one of --title --label --add-tag --rm-tag --priority --notes --outcome --status --move",
            ),
            Refusal::NoProject(s) => copy("no project named '").concat(s.as_str()).concat("'"),
            Refusal::UnknownProject(s) => copy("no project named '").concat(s.as_str()).concat(
                "'; `bl project list` shows the registered ones",
            ),
            Refusal::ClaimedCard(id, s) => copy("card #").concat(decimal(*id).as_str()).concat(
                " is claimed by '",
            ).concat(s.as_str()).concat("'; `bl release ").concat(decimal(*id).as_str()).concat(
                "` first, or --force",
            ),
            Refusal::NoAgent => copy("--by must be a non-empty agent identity"),
            Refusal::ClaimNeedsAgent => copy("--claim requires --by <agent-id>"),
            Refusal::Contended(id, s) => copy("card #").concat(decimal(*id).as_str()).concat(
                " already claimed by '",
            ).concat(s.as_str()).concat("'"),
            Refusal::NotClaimable(id, status) => copy("card #").concat(decimal(*id).as_str()).concat(
                " is status '",
            ).concat(status.as_str()).concat("' (must be new or ready to claim)"),
            Refusal::NotReleased(id, status, a, b) => copy("card #").concat(
                decimal(*id).as_str(),
            ).concat(" not released (status=").concat(status.as_str()).concat(", claimed_by='").concat(
                a.as_str(),
            ).concat("', required by='").concat(b.as_str()).concat("')"),
            Refusal::NotInProgress(id, status) => copy("card #").concat(decimal(*id).as_str()).concat(
                " is not in_progress (status=",
            ).concat(status.as_str()).concat(")"),
            Refusal::LostClaim(id, s) => copy("#").concat(decimal(*id).as_str()).concat(
                " is not claimed by ",
            ).concat(s.as_str()).concat(" any more"),
            Refusal::NegativeAmount => copy("amount must be >= 0"),
            Refusal::EmptyDuration => copy("empty duration"),
            Refusal::BadDuration(s) => copy("bad duration '").concat(s.as_str()).concat(
                "' (try 90s, 30m, 2h, 1d)",
            ),
            Refusal::NegativeDuration => copy("duration must not be negative"),
            Refusal::UnknownLinkKind(s) => copy("unknown link kind '").concat(s.as_str()).concat(
                "' (blocks, child_of, related)",
            ),
            Refusal::SelfLink => copy("a card cannot be linked to itself"),
            Refusal::LinkCycle(a, b) => copy("#").concat(decimal(*a).as_str()).concat(
                " already waits on #",
            ).concat(decimal(*b).as_str()).concat(
                " (directly or through other cards); that would be a cycle",
            ),
            Refusal::SetShape(s) => copy("--set wants FIELD=VALUE, got '").concat(s.as_str()).concat("'"),
            Refusal::BadPriority(s) => copy("priority '").concat(s.as_str()).concat("' is not a number"),
            Refusal::BadStatus(s) => copy("status '").concat(s.as_str()).concat(
                "' is not one of new, ready, in_progress, done",
            ),
            Refusal::UnknownSetField(s) => copy("--set does not know the field '").concat(
                s.as_str(),
            ).concat("' (title, label, priority, outcome, notes, status, project)"),
            Refusal::WhereShape(s) => copy("--where wants FIELD=VALUE, got '").concat(s.as_str()).concat(
                "'",
            ),
            Refusal::BadNumber(a, b) => copy(a.as_str()).concat(" '").concat(b.as_str()).concat(
                "' is not a number",
            ),
            Refusal::UnknownWhere(s) => copy("--where does not understand '").concat(s.as_str()).concat(
                "' (label, status, claimed_by, title, outcome, project with = or !=; priority, id with = != < > <= >=)",
            ),
            Refusal::BadId(s) => copy("'").concat(s.as_str()).concat("' is not a card id"),
            Refusal::WhichCard => copy("which card? give an id, --ids 1,2,3 or --where FIELD=VALUE"),
            Refusal::EmptyNote => copy("the note is empty"),
            Refusal::NoteUnchanged => copy("nothing to change: give new text and/or --kind"),
            Refusal::NoNote(id) => copy("note ").concat(decimal(*id).as_str()).concat(" not found"),
            Refusal::NotDirectory(s) => copy(s.as_str()).concat(" is not a directory"),
            Refusal::PathTaken(a, b, id) => copy(a.as_str()).concat(" is already project '").concat(
                b.as_str(),
            ).concat("' (#").concat(decimal(*id).as_str()).concat(")"),
            Refusal::NameTaken(a, b, id) => copy("project '").concat(a.as_str()).concat(
                "' already exists at ",
            ).concat(b.as_str()).concat(" (#").concat(decimal(*id).as_str()).concat("); pass --name"),
            Refusal::ProjectHasCards(s, n) => copy("project '").concat(s.as_str()).concat(
                "' still has ",
            ).concat(decimal_count(*n).as_str()).concat(
                " card(s); deactivate it, or --force to delete them too",
            ),
            Refusal::NotInProject => copy(
                "this directory is not inside a registered project: pass --project <name>, or run `bl project add` from the repository",
            ),
            Refusal::NoProjectRow(s) => copy("this database has no project row; run `bl init --db ").concat(
                s.as_str(),
            ).concat("`"),
            Refusal::Unassigned(n) => decimal_count(*n).concat(
                " unassigned card(s) in a database with several projects; `bl edit --where project_id=0 --project <name>` is not available yet, so assign them by hand before continuing",
            ),
            Refusal::NeedsStore => copy(
                "import needs the central store; run `bl init` first, then import from anywhere",
            ),
            Refusal::NotFile(s) => copy(s.as_str()).concat(" is not a file"),
            Refusal::SourceIsStore(s) => copy(s.as_str()).concat(" is the central store itself"),
            Refusal::NoBacklog(s) => copy("no backlog found: ").concat(s.as_str()).concat(
                " does not exist and there is no ./backlog.db here.\nRun `bl init` to create the central store and register this repository,\nor pass --db <path> to use a specific database.",
            ),
            Refusal::NoDatabase(s) => copy("database not found: ").concat(s.as_str()).concat(
                "\nRun `bl init --db ",
            ).concat(s.as_str()).concat("` to create it."),
            Refusal::NoDatabases => copy("no databases to read"),
            Refusal::MissingDatabase(s) => copy("database not found: ").concat(s.as_str()),
            Refusal::NoSlot => copy("dashboard template is missing its data slot"),
            Refusal::GitUnresolved(a, b) => copy("git could not resolve '").concat(a.as_str()).concat(
                "': ",
            ).concat(b.as_str()),
            Refusal::GitNoCommit(s) => copy("git returned no commit for '").concat(s.as_str()).concat(
                "'",
            ),
            Refusal::StoreFull => copy("the store has no card ids left"),
        }
    }

    /// The code the program leaves with: 3 where somebody else holds the
    /// claim, 1 for every other refusal.
    pub fn exit_code(&self) -> (code: i32)
        ensures
            code == if is_contention(self@) { 3i32 } else { 1i32 },
    {
        match self {
            Refusal::Contended(_, _) => 3,
            Refusal::LostClaim(_, _) => 3,
            _ => 1,
        }
    }
}

} // verus!
