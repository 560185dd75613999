//! The instructions for agents, filled in with the backlog at hand.

use vstd::prelude::*;

use crate::card::{card_views, Card, CardView};
use crate::notes::opt_text;
use crate::number::{dec, decimal, decimal_count};
use crate::project::{project_views, Project, ProjectView};
use crate::select::{in_scope, within_scope, Scope};
use crate::status::Status;
use crate::tags::{tags, tags_of};
use crate::tally::{row_views, tally, tally_of};
use crate::text::{append_texts, copy, join, joined, push_text, replace_all, replaced, texts};

verus! {

/// The tags on the open cards of the scope, once for each card.
pub open spec fn tags_in_use(projects: Seq<ProjectView>, scope: Scope, cards: Seq<CardView>) -> Seq<Seq<char>>
    decreases cards.len(),
{
    if cards.len() == 0 {
        Seq::empty()
    } else {
        let before = tags_in_use(projects, scope, cards.drop_last());
        let c = cards.last();
        if c.status != Status::Done && in_scope(projects, scope, c) {
            before + tags(c.label)
        } else {
            before
        }
    }
}

/// A tag with its count.
pub open spec fn tag_count(row: (Seq<char>, nat)) -> Seq<char> {
    row.0 + " ("@ + dec(row.1 as int) + ")"@
}

/// The section on tags; nothing where none is in use.
pub open spec fn tags_section(used: Seq<Seq<char>>) -> Seq<char> {
    let rows = tally_of(used);
    if rows.len() == 0 {
        Seq::empty()
    } else {
        "\n## Tags in use\n\n"@ + join(rows.map_values(|r: (Seq<char>, nat)| tag_count(r)), ", "@)
            + "\n\nReuse one of these rather than inventing a near-duplicate; a card may carry several (`-l art,enemies`).\n"@
    }
}

/// The section on the page that is kept in sync; nothing where there is none.
pub open spec fn auto_section(target: Option<Seq<char>>) -> Seq<char> {
    match target {
        Some(t) => "\nThe board at `"@ + t + "` refreshes itself on every write — never run `bl export`.\n"@,
        None => Seq::empty(),
    }
}

/// The section on the project at hand.
pub open spec fn project_section(project: Option<ProjectView>, central: bool) -> Seq<char> {
    match project {
        Some(p) => "This repository is project **"@ + p.name + "** (#"@ + dec(p.id as int) + ", `"@ + p.path
            + "`). Commands run from inside it,\nor any of its worktrees, are scoped to it automatically; nothing has to be pinned."@,
        None => if central {
            "No project is scoped: this directory is not a registered repository. Pass `--project <name>` or run `bl project add`."@
        } else {
            Seq::empty()
        },
    }
}

/// The template with its four places filled in, one after the other.
pub open spec fn filled(template: Seq<char>, db: Seq<char>, project: Seq<char>, auto: Seq<char>, labels: Seq<char>) -> Seq<
    char,
> {
    replace_all(
        replace_all(replace_all(replace_all(template, "{{DB}}"@, db), "{{PROJECT}}"@, project), "{{AUTO}}"@, auto),
        "{{LABELS}}"@,
        labels,
    )
}

fn use_of_tags(projects: &Vec<Project>, scope: Scope, cards: &Vec<Card>) -> (out: Vec<String>)
    ensures
        texts(out@) == tags_in_use(project_views(projects@), scope, card_views(cards@)),
{
    let ghost pv = project_views(projects@);
    let ghost all = card_views(cards@);
    let mut out: Vec<String> = Vec::new();
    let mut i: usize = 0;
    assert(texts(out@) =~= tags_in_use(pv, scope, all.take(0)));
    while i < cards.len()
        invariant
            i <= cards@.len(),
            pv == project_views(projects@),
            all == card_views(cards@),
            texts(out@) == tags_in_use(pv, scope, all.take(i as int)),
        decreases cards.len() - i,
    {
        assert(all.take(i + 1).drop_last() =~= all.take(i as int));
        assert(all.take(i + 1).last() == cards@[i as int]@);
        let c = &cards[i];
        if c.status != Status::Done && within_scope(projects, scope, c) {
            append_texts(&mut out, tags_of(c.label.as_str()));
        }
        i = i + 1;
    }
    assert(all.take(i as int) =~= all);
    out
}

/// The section on tags.
pub fn labels_text(used: &Vec<String>) -> (out: String)
    ensures
        out@ == tags_section(texts(used@)),
{
    let rows = tally(used);
    let ghost rv = row_views(rows@);
    assert(rv.len() == rows@.len());
    if rows.len() == 0 {
        return String::new();
    }
    let ghost wanted = rv.map_values(|r: (Seq<char>, nat)| tag_count(r));
    let mut parts: Vec<String> = Vec::new();
    let mut i: usize = 0;
    assert(texts(parts@) =~= wanted.take(0));
    while i < rows.len()
        invariant
            i <= rows@.len(),
            rv == row_views(rows@),
            wanted == rv.map_values(|r: (Seq<char>, nat)| tag_count(r)),
            texts(parts@) == wanted.take(i as int),
        decreases rows.len() - i,
    {
        assert(rv[i as int] == (rows@[i as int].0@, rows@[i as int].1 as nat));
        push_text(
            &mut parts,
            rows[i].0.clone().concat(" (").concat(decimal_count(rows[i].1).as_str()).concat(")"),
        );
        assert(wanted.take(i + 1) =~= wanted.take(i as int).push(wanted[i as int]));
        i = i + 1;
    }
    assert(wanted.take(i as int) =~= wanted);
    copy("\n## Tags in use\n\n").concat(joined(&parts, ", ").as_str()).concat(
        "\n\nReuse one of these rather than inventing a near-duplicate; a card may carry several (`-l art,enemies`).\n",
    )
}

/// The section on the page that is kept in sync.
pub fn auto_text(target: Option<&str>) -> (out: String)
    ensures
        out@ == auto_section(opt_text(target)),
{
    match target {
        Some(t) => copy("\nThe board at `").concat(t).concat(
            "` refreshes itself on every write — never run `bl export`.\n",
        ),
        None => String::new(),
    }
}

/// The section on the project at hand.
pub fn project_text(project: Option<&Project>, central: bool) -> (out: String)
    ensures
        out@ == project_section(
            match project {
                Some(p) => Some(p@),
                None => None,
            },
            central,
        ),
{
    match project {
        Some(p) => copy("This repository is project **").concat(p.name.as_str()).concat("** (#").concat(
            decimal(p.id).as_str(),
        ).concat(", `").concat(p.path.as_str()).concat(
            "`). Commands run from inside it,\nor any of its worktrees, are scoped to it automatically; nothing has to be pinned.",
        ),
        None => if central {
            copy(
                "No project is scoped: this directory is not a registered repository. Pass `--project <name>` or run `bl project add`.",
            )
        } else {
            String::new()
        },
    }
}

/// The instructions for agents: the template filled in with the path of the
/// store, the project at hand, the page kept in sync and the tags in use.
pub fn agent_prompt(
    template: &str,
    db: &str,
    project: Option<&Project>,
    central: bool,
    target: Option<&str>,
    cards: &Vec<Card>,
    projects: &Vec<Project>,
    scope: Scope,
) -> (out: String)
    ensures
        out@ == filled(
            template@,
            db@,
            project_section(
                match project {
                    Some(p) => Some(p@),
                    None => None,
                },
                central,
            ),
            auto_section(opt_text(target)),
            tags_section(tags_in_use(project_views(projects@), scope, card_views(cards@))),
        ),
{
    let used = use_of_tags(projects, scope, cards);
    let a = replaced(template, "{{DB}}", db);
    let b = replaced(a.as_str(), "{{PROJECT}}", project_text(project, central).as_str());
    let c = replaced(b.as_str(), "{{AUTO}}", auto_text(target).as_str());
    replaced(c.as_str(), "{{LABELS}}", labels_text(&used).as_str())
}

} // verus!
