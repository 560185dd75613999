//! Where a card stands on the board.

use vstd::prelude::*;

use crate::fold::{fold_all, folded_text};
use crate::text::same;

verus! {

#[derive(Clone, Copy, Debug, PartialEq, Eq, Structural)]
pub enum Status {
    New,
    Ready,
    InProgress,
    Done,
}

/// The name a status is written with.
pub open spec fn status_name(status: Status) -> Seq<char> {
    match status {
        Status::New => "new"@,
        Status::Ready => "ready"@,
        Status::InProgress => "in_progress"@,
        Status::Done => "done"@,
    }
}

/// Moving a card here takes it out of its agent's hands.
pub open spec fn frees(status: Status) -> bool {
    status != Status::InProgress
}

/// Law: no two statuses share a name.
pub proof fn law_status_names_differ(a: Status, b: Status)
    requires
        status_name(a) == status_name(b),
    ensures
        a == b,
{
    reveal_strlit("new");
    reveal_strlit("ready");
    reveal_strlit("in_progress");
    reveal_strlit("done");
    assert("new"@.len() == 3 && "ready"@.len() == 5 && "in_progress"@.len() == 11 && "done"@.len() == 4);
}

/// Law: a status name is written in small letters, so that it reads back
/// whether or not capitals count.
pub proof fn law_status_names_are_small(status: Status)
    ensures
        fold_all(status_name(status)) == status_name(status),
{
    reveal_strlit("new");
    reveal_strlit("ready");
    reveal_strlit("in_progress");
    reveal_strlit("done");
    assert(fold_all(status_name(status)) =~= status_name(status));
}

impl Status {
    /// The name of the status.
    pub fn as_str(&self) -> (r: &'static str)
        ensures
            r@ == status_name(*self),
    {
        match self {
            Status::New => "new",
            Status::Ready => "ready",
            Status::InProgress => "in_progress",
            Status::Done => "done",
        }
    }

    /// The status with this name.
    pub fn named(name: &str) -> (r: Option<Status>)
        ensures
            match r {
                Some(status) => name@ == status_name(status),
                None => forall|status: Status| name@ != #[trigger] status_name(status),
            },
    {
        if same(name, "new") {
            return Some(Status::New);
        }
        if same(name, "ready") {
            return Some(Status::Ready);
        }
        if same(name, "in_progress") {
            return Some(Status::InProgress);
        }
        if same(name, "done") {
            return Some(Status::Done);
        }
        None
    }

    /// The status with this name, written with capitals or without.
    pub fn named_any_case(name: &str) -> (r: Option<Status>)
        ensures
            match r {
                Some(status) => fold_all(name@) == status_name(status),
                None => forall|status: Status| fold_all(name@) != #[trigger] status_name(status),
            },
    {
        let low = folded_text(name);
        Status::named(low.as_str())
    }

    /// Whether moving a card here clears its claim.
    pub fn drops_claim(&self) -> (r: bool)
        ensures
            r == frees(*self),
    {
        match self {
            Status::InProgress => false,
            _ => true,
        }
    }
}

} // verus!
