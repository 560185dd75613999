//! Notes on the cards of a backlog: added, corrected and removed.

use vstd::prelude::*;

use crate::backlog::{lemma_with_card_sound, sound, with_card, Backlog, BacklogView};
use crate::card::{card_views, find_card, has_card, position, Card, CardView};
use crate::commits::{link_commit, with_commit};
use crate::events::{difference, event, event_views, record, record_change, EventView};
use crate::notes::{
    already_noted, find_row, lemma_row_of, noted, opt_text, reconciled, rendered, reworded, row_of, with_entries, Note,
    NoteView,
};
use crate::refusal::{Refusal, RefusalView};
use crate::text::{blank, copy, is_blank, trim_end, trimmed_end};

verus! {

/// Why a note is not taken.
pub open spec fn note_refusal(b: BacklogView, id: i64, text: Seq<char>) -> Option<RefusalView> {
    if blank(text) {
        Some(RefusalView::EmptyNote)
    } else if !has_card(b.cards, id) {
        Some(RefusalView::NotFound(id))
    } else {
        None
    }
}

/// The note that is added.
pub open spec fn new_note(
    kind: Seq<char>,
    by: Seq<char>,
    text: Seq<char>,
    commit: Option<(Seq<char>, Seq<char>)>,
    now: Seq<char>,
) -> NoteView {
    NoteView {
        id: 0,
        kind,
        author: by,
        body: trim_end(text),
        commit_sha: match commit {
            Some(c) => c.0,
            None => Seq::empty(),
        },
        commit_subject: match commit {
            Some(c) => c.1,
            None => Seq::empty(),
        },
        created_at: now,
    }
}

/// The card once a note is added, with the commit it describes linked.
pub open spec fn jotted(c: CardView, n: NoteView, commit: Option<(Seq<char>, Seq<char>)>, now: Seq<char>) -> CardView {
    let d = noted(c, n, now);
    match commit {
        Some(pair) => CardView { commits: with_commit(c.commits, pair.0, pair.1), ..d },
        None => d,
    }
}

/// A commit as the contracts speak of it.
pub open spec fn commit_view(c: Option<(String, String)>) -> Option<(Seq<char>, Seq<char>)> {
    match c {
        Some(pair) => Some((pair.0@, pair.1@)),
        None => None,
    }
}

/// The card that has a row with this id, or -1.
pub open spec fn home_of(cards: Seq<CardView>, note_id: i64) -> int
    decreases cards.len(),
{
    if cards.len() == 0 {
        -1
    } else if home_of(cards.drop_last(), note_id) >= 0 {
        home_of(cards.drop_last(), note_id)
    } else if row_of(cards.last().entries, note_id) >= 0 {
        cards.len() - 1
    } else {
        -1
    }
}

/// Why a note is not changed.
pub open spec fn reword_refusal(
    b: BacklogView,
    note_id: i64,
    text: Option<Seq<char>>,
    kind: Option<Seq<char>>,
) -> Option<RefusalView> {
    if text is None && kind is None {
        Some(RefusalView::NoteUnchanged)
    } else if home_of(b.cards, note_id) < 0 {
        Some(RefusalView::NoNote(note_id))
    } else {
        None
    }
}

/// What changing a note leaves in the log.
pub open spec fn reword_events(
    c: CardView,
    n: NoteView,
    text: Option<Seq<char>>,
    kind: Option<Seq<char>>,
    by: Seq<char>,
    now: Seq<char>,
) -> Seq<EventView> {
    (match text {
        Some(t) => difference(c.id, c.project_id, "note_edit"@, n.body, t, by, now),
        None => Seq::empty(),
    }) + match kind {
        Some(k) => difference(c.id, c.project_id, "note_kind"@, n.kind, k, by, now),
        None => Seq::empty(),
    }
}

/// The store once a note is changed.
pub open spec fn reworded_in(
    b: BacklogView,
    note_id: i64,
    text: Option<Seq<char>>,
    kind: Option<Seq<char>>,
    by: Seq<char>,
    now: Seq<char>,
) -> BacklogView {
    let at = home_of(b.cards, note_id);
    let c = reconciled(b.cards[at]);
    let k = row_of(c.entries, note_id);
    with_card(
        b,
        at,
        with_entries(c, c.entries.update(k, reworded(c.entries[k], text, kind)), now),
        reword_events(b.cards[at], c.entries[k], text, kind, by, now),
    )
}

/// The store once a note is removed.
pub open spec fn struck_in(b: BacklogView, note_id: i64, by: Seq<char>, now: Seq<char>) -> BacklogView {
    let at = home_of(b.cards, note_id);
    let c = reconciled(b.cards[at]);
    let k = row_of(c.entries, note_id);
    with_card(
        b,
        at,
        with_entries(c, c.entries.remove(k), now),
        seq![event(b.cards[at].id, b.cards[at].project_id, "note_rm"@, rendered(c.entries[k]), ""@, by, now)],
    )
}

/// The note that a row id stands for.
pub open spec fn row_in(b: BacklogView, note_id: i64) -> NoteView {
    let c = b.cards[home_of(b.cards, note_id)];
    c.entries[row_of(c.entries, note_id)]
}

pub proof fn lemma_home_of(cards: Seq<CardView>, note_id: i64)
    ensures
        -1 <= home_of(cards, note_id) < cards.len(),
        home_of(cards, note_id) >= 0 ==> row_of(cards[home_of(cards, note_id)].entries, note_id) >= 0,
        forall|k: int|
            0 <= k < cards.len() && (home_of(cards, note_id) < 0 || k < home_of(cards, note_id)) ==> row_of(
                (#[trigger] cards[k]).entries,
                note_id,
            ) < 0,
    decreases cards.len(),
{
    if cards.len() > 0 {
        let front = cards.drop_last();
        lemma_home_of(front, note_id);
        let p = home_of(cards, note_id);
        let q = home_of(front, note_id);
        if q >= 0 {
            assert(front[q] == cards[q]);
        }
        assert forall|k: int| 0 <= k < cards.len() && (p < 0 || k < p) implies row_of(
            (#[trigger] cards[k]).entries,
            note_id,
        ) < 0 by {
            if k < cards.len() - 1 {
                assert(front[k] == cards[k]);
            }
        }
    }
}

/// Adopting lines moves no row.
pub proof fn lemma_row_stays(c: CardView, note_id: i64)
    requires
        row_of(c.entries, note_id) >= 0,
    ensures
        row_of(reconciled(c).entries, note_id) == row_of(c.entries, note_id),
        reconciled(c).entries[row_of(c.entries, note_id)] == c.entries[row_of(c.entries, note_id)],
{
    let e = reconciled(c).entries;
    let k = row_of(c.entries, note_id);
    lemma_row_of(c.entries, note_id);
    lemma_row_of(e, note_id);
    assert forall|j: int| 0 <= j < c.entries.len() implies e[j] == #[trigger] c.entries[j] by {}
    let p = row_of(e, note_id);
    if p < 0 || k < p {
        assert(e[k].id != note_id);
    } else if p < k {
        assert(c.entries[p].id != note_id);
    }
}

impl Backlog {
    fn find_home(&self, note_id: i64) -> (r: Option<usize>)
        ensures
            match r {
                Some(at) => home_of(self@.cards, note_id) == at && at < self@.cards.len(),
                None => home_of(self@.cards, note_id) < 0,
            },
    {
        let ghost cv = self@.cards;
        proof {
            lemma_home_of(cv, note_id);
        }
        let mut i: usize = 0;
        while i < self.cards.len()
            invariant
                i <= self.cards@.len(),
                cv == card_views(self.cards@),
                -1 <= home_of(cv, note_id) < cv.len(),
                home_of(cv, note_id) >= 0 ==> row_of(cv[home_of(cv, note_id)].entries, note_id) >= 0,
                forall|k: int|
                    0 <= k < cv.len() && (home_of(cv, note_id) < 0 || k < home_of(cv, note_id)) ==> row_of(
                        (#[trigger] cv[k]).entries,
                        note_id,
                    ) < 0,
                forall|k: int| 0 <= k < i ==> row_of((#[trigger] cv[k]).entries, note_id) < 0,
            decreases self.cards.len() - i,
        {
            assert(cv[i as int] == self.cards@[i as int]@);
            if find_row(&self.cards[i].entries, note_id).is_some() {
                return Some(i);
            }
            i = i + 1;
        }
        None
    }

    /// Adds a note to a card, and links the commit it describes where one is
    /// given. `false` where `unique` held back a repeat.
    pub fn note(
        &mut self,
        id: i64,
        kind: &str,
        by: &str,
        text: &str,
        commit: Option<(String, String)>,
        unique: bool,
        now: &str,
    ) -> (r: Result<bool, Refusal>)
        ensures
            ({
                let b = old(self)@;
                let at = position(b.cards, id);
                let n = new_note(kind@, by@, text@, commit_view(commit), now@);
                match r {
                    Ok(added) => {
                        &&& note_refusal(b, id, text@) is None
                        &&& added == !(unique && already_noted(reconciled(b.cards[at]).entries, kind@, n.body))
                        &&& final(self)@ == with_card(
                            b,
                            at,
                            if added {
                                jotted(b.cards[at], n, commit_view(commit), now@)
                            } else {
                                reconciled(b.cards[at])
                            },
                            Seq::empty(),
                        )
                    },
                    Err(e) => note_refusal(b, id, text@) == Some(e@) && final(self)@ == b,
                }
            }),
            sound(old(self)@) ==> sound(final(self)@),
    {
        if is_blank(text) {
            return Err(Refusal::EmptyNote);
        }
        let at: usize = match find_card(&self.cards, id) {
            None => {
                return Err(Refusal::NotFound(id));
            },
            Some(at) => at,
        };
        let ghost before = self@;
        let ghost cards = self.cards@;
        let ghost c = before.cards[at as int];
        assert(c == cards[at as int]@);
        let (sha, subject) = match &commit {
            Some(pair) => (pair.0.clone(), pair.1.clone()),
            None => (String::new(), String::new()),
        };
        let n = Note {
            id: 0,
            kind: copy(kind),
            author: copy(by),
            body: trimmed_end(text),
            commit_sha: sha,
            commit_subject: subject,
            created_at: copy(now),
        };
        assert(n@ =~= new_note(kind@, by@, text@, commit_view(commit), now@));
        let ghost nv = n@;
        let added = crate::notes::add(&mut self.cards[at], n, unique, now);
        assert(self.cards@ =~= cards.update(at as int, self.cards@[at as int]));
        let ghost mid = self.cards@;
        if added {
            match commit {
                Some(pair) => {
                    let all = link_commit(self.cards[at].commits.as_str(), pair.0.as_str(), pair.1.as_str());
                    put_commits(&mut self.cards[at], all);
                    assert(self.cards@ =~= mid.update(at as int, self.cards@[at as int]));
                },
                None => {},
            }
        }
        let ghost d = if added { jotted(c, nv, commit_view(commit), now@) } else { reconciled(c) };
        assert(self.cards@[at as int]@ =~= d);
        assert(self@.cards =~= before.cards.update(at as int, d));
        assert(self@ =~= with_card(before, at as int, d, Seq::empty()));
        proof {
            if sound(before) {
                lemma_with_card_sound(before, at as int, d, Seq::empty());
            }
        }
        Ok(added)
    }

    /// Rewrites one note's text, its kind, or both. Gives the card's id and
    /// the note as it was.
    pub fn note_edit(&mut self, note_id: i64, text: Option<&str>, kind: Option<&str>, by: &str, now: &str) -> (r: Result<
        (i64, Note),
        Refusal,
    >)
        ensures
            ({
                let b = old(self)@;
                match r {
                    Ok((id, n)) => reword_refusal(b, note_id, opt_text(text), opt_text(kind)) is None && id
                        == b.cards[home_of(b.cards, note_id)].id && n@ == row_in(b, note_id) && final(self)@
                        == reworded_in(b, note_id, opt_text(text), opt_text(kind), by@, now@),
                    Err(e) => reword_refusal(b, note_id, opt_text(text), opt_text(kind)) == Some(e@) && final(self)@
                        == b,
                }
            }),
            sound(old(self)@) ==> sound(final(self)@),
    {
        if text.is_none() && kind.is_none() {
            return Err(Refusal::NoteUnchanged);
        }
        let at: usize = match self.find_home(note_id) {
            None => {
                return Err(Refusal::NoNote(note_id));
            },
            Some(at) => at,
        };
        let ghost before = self@;
        let ghost cards = self.cards@;
        let ghost c = before.cards[at as int];
        assert(c == cards[at as int]@);
        proof {
            lemma_home_of(before.cards, note_id);
            lemma_row_stays(c, note_id);
        }
        let (id, project): (i64, i64) = (self.cards[at].id, self.cards[at].project_id);
        let r = crate::notes::edit(&mut self.cards[at], note_id, text, kind, now);
        assert(self.cards@ =~= cards.update(at as int, self.cards@[at as int]));
        match r {
            Err(e) => {
                assert(false);
                Err(e)
            },
            Ok(was) => {
                let ghost start = event_views(self.events@);
                match text {
                    Some(t) => {
                        record_change(&mut self.events, id, project, "note_edit", was.body.as_str(), t, by, now);
                    },
                    None => {},
                }
                match kind {
                    Some(k) => {
                        record_change(&mut self.events, id, project, "note_kind", was.kind.as_str(), k, by, now);
                    },
                    None => {},
                }
                let ghost more = reword_events(c, was@, opt_text(text), opt_text(kind), by@, now@);
                assert(self@.events =~= start + more);
                let ghost d = self.cards@[at as int]@;
                assert(self@.cards =~= before.cards.update(at as int, d));
                assert(self@ =~= reworded_in(before, note_id, opt_text(text), opt_text(kind), by@, now@));
                proof {
                    if sound(before) {
                        lemma_with_card_sound(before, at as int, d, more);
                    }
                }
                Ok((id, was))
            },
        }
    }

    /// Removes one note. Gives the card's id and the note.
    pub fn note_remove(&mut self, note_id: i64, by: &str, now: &str) -> (r: Result<(i64, Note), Refusal>)
        ensures
            ({
                let b = old(self)@;
                match r {
                    Ok((id, n)) => home_of(b.cards, note_id) >= 0 && id == b.cards[home_of(b.cards, note_id)].id && n@
                        == row_in(b, note_id) && final(self)@ == struck_in(b, note_id, by@, now@),
                    Err(e) => home_of(b.cards, note_id) < 0 && e@ == RefusalView::NoNote(note_id) && final(self)@ == b,
                }
            }),
            sound(old(self)@) ==> sound(final(self)@),
    {
        let at: usize = match self.find_home(note_id) {
            None => {
                return Err(Refusal::NoNote(note_id));
            },
            Some(at) => at,
        };
        let ghost before = self@;
        let ghost cards = self.cards@;
        let ghost c = before.cards[at as int];
        assert(c == cards[at as int]@);
        proof {
            lemma_home_of(before.cards, note_id);
            lemma_row_stays(c, note_id);
        }
        let (id, project): (i64, i64) = (self.cards[at].id, self.cards[at].project_id);
        let r = crate::notes::remove(&mut self.cards[at], note_id, now);
        assert(self.cards@ =~= cards.update(at as int, self.cards@[at as int]));
        match r {
            Err(e) => {
                assert(false);
                Err(e)
            },
            Ok(was) => {
                let ghost start = event_views(self.events@);
                let line = was.render();
                record(&mut self.events, id, project, "note_rm", line.as_str(), "", by, now);
                let ghost more = seq![event(id, project, "note_rm"@, rendered(was@), ""@, by@, now@)];
                assert(self@.events =~= start + more);
                let ghost d = self.cards@[at as int]@;
                assert(self@.cards =~= before.cards.update(at as int, d));
                assert(self@ =~= struck_in(before, note_id, by@, now@));
                proof {
                    if sound(before) {
                        lemma_with_card_sound(before, at as int, d, more);
                    }
                }
                Ok((id, was))
            },
        }
    }
}

fn put_commits(card: &mut Card, all: String)
    ensures
        final(card)@ == (CardView { commits: all@, ..old(card)@ }),
{
    card.commits = all;
}

} // verus!
