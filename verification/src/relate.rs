//! Linking cards of a backlog, and what that leaves in the log.

use vstd::prelude::*;

use crate::backlog::{sound, Backlog, BacklogView};
use crate::card::{find_card, has_card, position, CardView};
use crate::events::{event, record};
use crate::links::{
    check_kind, ends, has_link, kind_name, link_refusal, linked, links_sound, named_kind, without_link, LinkKind,
};
use crate::number::{dec, decimal};
use crate::refusal::{Refusal, RefusalView};
use crate::text::copy;

verus! {

/// How the log names a link.
pub open spec fn link_words(kind: LinkKind, to: i64) -> Seq<char> {
    kind_name(kind) + " #"@ + dec(to as int)
}

/// The project of a card; 0 where there is no such card.
pub open spec fn project_of(cards: Seq<CardView>, id: i64) -> i64 {
    if has_card(cards, id) {
        cards[position(cards, id)].project_id
    } else {
        0
    }
}

/// Why a link is refused.
pub open spec fn relate_refusal(b: BacklogView, from: i64, kind: Seq<char>, to: i64) -> Option<RefusalView> {
    match named_kind(kind) {
        Some(k) => link_refusal(b.cards, b.links, from, k, to),
        None => Some(RefusalView::UnknownLinkKind(kind)),
    }
}

/// The store once the link is made; what is there already is not logged.
pub open spec fn related_in(
    b: BacklogView,
    from: i64,
    kind: LinkKind,
    to: i64,
    by: Seq<char>,
    now: Seq<char>,
) -> BacklogView {
    let (f, t) = ends(kind, from, to);
    if has_link(b.links, f, kind, t) {
        b
    } else {
        BacklogView {
            links: linked(b.links, from, kind, to, by, now),
            events: b.events.push(
                event(f, project_of(b.cards, f), "link"@, ""@, link_words(kind, t), by, now),
            ),
            ..b
        }
    }
}

/// The store once the link is gone; what was not there is not logged.
pub open spec fn unrelated_in(
    b: BacklogView,
    from: i64,
    kind: LinkKind,
    to: i64,
    by: Seq<char>,
    now: Seq<char>,
) -> BacklogView {
    let (f, t) = ends(kind, from, to);
    if has_link(b.links, f, kind, t) {
        BacklogView {
            links: without_link(b.links, f, kind, t),
            events: b.events.push(
                event(f, project_of(b.cards, f), "unlink"@, link_words(kind, t), ""@, by, now),
            ),
            ..b
        }
    } else {
        b
    }
}

fn words_of_link(kind: LinkKind, to: i64) -> (out: String)
    ensures
        out@ == link_words(kind, to),
{
    copy(kind.as_str()).concat(" #").concat(decimal(to).as_str())
}

impl Backlog {
    fn project_of_card(&self, id: i64) -> (r: i64)
        ensures
            r == project_of(self@.cards, id),
    {
        match find_card(&self.cards, id) {
            Some(at) => {
                assert(self@.cards[at as int] == self.cards@[at as int]@);
                self.cards[at].project_id
            },
            None => 0,
        }
    }

    /// Links two cards. `false` where they are linked so already.
    pub fn link(&mut self, from: i64, kind: &str, to: i64, by: &str, now: &str) -> (r: Result<bool, Refusal>)
        ensures
            match r {
                Ok(added) => relate_refusal(old(self)@, from, kind@, to) is None && ({
                    let k = named_kind(kind@)->0;
                    let (f, t) = ends(k, from, to);
                    added == !has_link(old(self)@.links, f, k, t) && final(self)@ == related_in(
                        old(self)@,
                        from,
                        k,
                        to,
                        by@,
                        now@,
                    )
                }),
                Err(e) => relate_refusal(old(self)@, from, kind@, to) == Some(e@) && final(self)@ == old(self)@,
            },
            sound(old(self)@) ==> sound(final(self)@),
    {
        let ghost before = self@;
        let k = match check_kind(kind) {
            Ok(k) => k,
            Err(e) => {
                return Err(e);
            },
        };
        let (f, t) = crate::links::stored_ends(k, from, to);
        let project: i64 = self.project_of_card(f);
        match crate::links::add(&self.cards, &mut self.links, from, k, to, by, now) {
            Err(e) => {
                assert(self@ =~= before);
                Err(e)
            },
            Ok(added) => {
                if added {
                    let words = words_of_link(k, t);
                    record(&mut self.events, f, project, "link", "", words.as_str(), by, now);
                    assert(self@ =~= related_in(before, from, k, to, by@, now@));
                } else {
                    assert(self@ =~= before);
                }
                Ok(added)
            },
        }
    }

    /// Takes a link away. `false` where there was none.
    pub fn unlink(&mut self, from: i64, kind: &str, to: i64, by: &str, now: &str) -> (r: Result<bool, Refusal>)
        ensures
            match r {
                Ok(removed) => named_kind(kind@) is Some && ({
                    let k = named_kind(kind@)->0;
                    let (f, t) = ends(k, from, to);
                    removed == has_link(old(self)@.links, f, k, t) && final(self)@ == unrelated_in(
                        old(self)@,
                        from,
                        k,
                        to,
                        by@,
                        now@,
                    )
                }),
                Err(e) => named_kind(kind@) is None && e@ == RefusalView::UnknownLinkKind(kind@) && final(self)@
                    == old(self)@,
            },
            sound(old(self)@) ==> sound(final(self)@),
    {
        let ghost before = self@;
        let k = match check_kind(kind) {
            Ok(k) => k,
            Err(e) => {
                return Err(e);
            },
        };
        let (f, t) = crate::links::stored_ends(k, from, to);
        let project: i64 = self.project_of_card(f);
        let removed = crate::links::remove(&mut self.links, from, k, to);
        assert(links_sound(before.cards, before.links) ==> links_sound(before.cards, self@.links));
        if removed {
            let words = words_of_link(k, t);
            record(&mut self.events, f, project, "unlink", words.as_str(), "", by, now);
            assert(self@ =~= unrelated_in(before, from, k, to, by@, now@));
        } else {
            proof {
                crate::links::lemma_without_link(before.links, f, k, t);
            }
            assert(self@ =~= before);
        }
        Ok(removed)
    }
}

} // verus!
