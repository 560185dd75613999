//! The projects that share a store: one for each repository.

use vstd::prelude::*;

use crate::number::{read_signed, signed_value, within};
use crate::order::{key_views, sorted, sorted_order, sorts, Key, KeyView, Texts};
use crate::path::{base_name, file_name};
use crate::refusal::{Refusal, RefusalView};
use crate::text::{blank, copy, is_blank, same, strip_start, stripped_start, trim, trimmed};

verus! {

/// One project. `path` is the main checkout of its repository.
#[derive(Debug, PartialEq, Eq)]
pub struct Project {
    pub id: i64,
    pub name: String,
    pub path: String,
    /// Inactive projects are left out of reads across projects.
    pub active: bool,
    /// The page kept in sync for this project; empty for none.
    pub autoexport: String,
    pub created_at: String,
}

/// What a project says.
#[verifier::ext_equal]
pub struct ProjectView {
    pub id: i64,
    pub name: Seq<char>,
    pub path: Seq<char>,
    pub active: bool,
    pub autoexport: Seq<char>,
    pub created_at: Seq<char>,
}

impl View for Project {
    type V = ProjectView;

    open spec fn view(&self) -> ProjectView {
        ProjectView {
            id: self.id,
            name: self.name@,
            path: self.path@,
            active: self.active,
            autoexport: self.autoexport@,
            created_at: self.created_at@,
        }
    }
}

impl Clone for Project {
    fn clone(&self) -> (r: Project)
        ensures
            r@ == self@,
    {
        Project {
            id: self.id,
            name: self.name.clone(),
            path: self.path.clone(),
            active: self.active,
            autoexport: self.autoexport.clone(),
            created_at: self.created_at.clone(),
        }
    }
}

/// What each of several projects says.
pub open spec fn project_views(v: Seq<Project>) -> Seq<ProjectView> {
    v.map_values(|p: Project| p@)
}

// ------------------------------------------------------------- vocabulary

/// The position of the first project for which `f` holds, or -1.
pub open spec fn first(projects: Seq<ProjectView>, f: spec_fn(ProjectView) -> bool) -> int
    decreases projects.len(),
{
    if projects.len() == 0 {
        -1
    } else if first(projects.drop_last(), f) >= 0 {
        first(projects.drop_last(), f)
    } else if f(projects.last()) {
        projects.len() - 1
    } else {
        -1
    }
}

pub open spec fn with_id(projects: Seq<ProjectView>, id: i64) -> int {
    first(projects, |p: ProjectView| p.id == id)
}

pub open spec fn with_name(projects: Seq<ProjectView>, name: Seq<char>) -> int {
    first(projects, |p: ProjectView| p.name == name)
}

pub open spec fn with_path(projects: Seq<ProjectView>, path: Seq<char>) -> int {
    first(projects, |p: ProjectView| p.path == path)
}

/// The project a name or `#id` stands for: a name first, then an id.
pub open spec fn looked_up(projects: Seq<ProjectView>, key: Seq<char>) -> int {
    let k = trim(key);
    if with_name(projects, k) >= 0 {
        with_name(projects, k)
    } else {
        match within(signed_value(strip_start(k, '#')), i64::MIN as int, i64::MAX as int) {
            Some(id) => with_id(projects, id as i64),
            None => -1,
        }
    }
}

/// The name a new project gets: the one given, else its directory's.
pub open spec fn chosen_name(path: Seq<char>, name: Option<Seq<char>>) -> Seq<char> {
    if name is Some && !blank(name->0) {
        trim(name->0)
    } else {
        match base_name(path) {
            Some(n) => n,
            None => "project"@,
        }
    }
}

/// Why a directory is not registered.
pub open spec fn add_refusal(
    projects: Seq<ProjectView>,
    path: Seq<char>,
    is_dir: bool,
    name: Option<Seq<char>>,
) -> Option<RefusalView> {
    let n = chosen_name(path, name);
    let at = with_path(projects, path);
    let same_name = with_name(projects, n);
    if !is_dir {
        Some(RefusalView::NotDirectory(path))
    } else if at >= 0 {
        Some(RefusalView::PathTaken(path, projects[at].name, projects[at].id))
    } else if same_name >= 0 {
        Some(RefusalView::NameTaken(n, projects[same_name].path, projects[same_name].id))
    } else {
        None
    }
}

/// The project a registered directory becomes.
pub open spec fn new_project(id: i64, path: Seq<char>, name: Option<Seq<char>>, now: Seq<char>) -> ProjectView {
    ProjectView {
        id,
        name: chosen_name(path, name),
        path,
        active: true,
        autoexport: Seq::empty(),
        created_at: now,
    }
}

/// What projects are listed by: the active ones first, then by name.
pub open spec fn listing_keys(projects: Seq<ProjectView>) -> Seq<KeyView> {
    projects.map_values(|p: ProjectView| KeyView { number: if p.active { 0int } else { 1int }, text: p.name })
}

/// The positions of the projects in listing order.
pub open spec fn listing_order(projects: Seq<ProjectView>) -> Seq<usize> {
    sorted_order(listing_keys(projects), Texts::Ascending)
}

/// What holds of the projects of a store: no id, name or path twice.
pub open spec fn projects_sound(projects: Seq<ProjectView>, last: i64) -> bool {
    &&& forall|i: int, j: int|
        0 <= i < j < projects.len() ==> (#[trigger] projects[i]).id != (#[trigger] projects[j]).id
            && projects[i].name != projects[j].name && projects[i].path != projects[j].path
    &&& forall|i: int| 0 <= i < projects.len() ==> 0 < (#[trigger] projects[i]).id <= last
}

// ------------------------------------------------------------- facts

pub proof fn lemma_first(projects: Seq<ProjectView>, f: spec_fn(ProjectView) -> bool)
    ensures
        -1 <= first(projects, f) < projects.len(),
        first(projects, f) >= 0 ==> f(projects[first(projects, f)]),
        forall|k: int|
            0 <= k < projects.len() && (first(projects, f) < 0 || k < first(projects, f)) ==> !f(#[trigger] projects[k]),
    decreases projects.len(),
{
    if projects.len() > 0 {
        let front = projects.drop_last();
        lemma_first(front, f);
        let p = first(projects, f);
        let q = first(front, f);
        if q >= 0 {
            assert(front[q] == projects[q]);
        }
        assert forall|k: int| 0 <= k < projects.len() && (p < 0 || k < p) implies !f(#[trigger] projects[k]) by {
            if k < projects.len() - 1 {
                assert(front[k] == projects[k]);
            }
        }
    }
}

pub proof fn lemma_first_is(projects: Seq<ProjectView>, f: spec_fn(ProjectView) -> bool, at: int)
    requires
        0 <= at < projects.len(),
        f(projects[at]),
        forall|k: int| 0 <= k < at ==> !f(#[trigger] projects[k]),
    ensures
        first(projects, f) == at,
{
    lemma_first(projects, f);
    let p = first(projects, f);
    if p < 0 || at < p {
        assert(!f(projects[at]));
    } else if p < at {
        assert(!f(projects[p]));
    }
}

/// What is looked up is one of the projects.
pub proof fn lemma_looked_up(projects: Seq<ProjectView>, key: Seq<char>)
    ensures
        -1 <= looked_up(projects, key) < projects.len(),
{
    let k = trim(key);
    lemma_first(projects, |p: ProjectView| p.name == k);
    match within(signed_value(strip_start(k, '#')), i64::MIN as int, i64::MAX as int) {
        Some(id) => {
            lemma_first(projects, |p: ProjectView| p.id == id as i64);
        },
        None => {},
    }
}

/// Law: `#3` and `3` stand for the same project, as long as no project has
/// one of them for a name.
pub proof fn law_hash_is_optional(projects: Seq<ProjectView>, id: Seq<char>)
    requires
        trim(id) == id,
        trim(seq!['#'] + id) == seq!['#'] + id,
        id.len() > 0,
        id[0] != '#',
        with_name(projects, id) < 0,
        with_name(projects, seq!['#'] + id) < 0,
    ensures
        looked_up(projects, seq!['#'] + id) == looked_up(projects, id),
{
    let k = seq!['#'] + id;
    assert(k.drop_first() =~= id);
    assert(strip_start(k, '#') == strip_start(id, '#'));
}

/// A project more keeps ids, names and paths distinct.
pub proof fn lemma_added_sound(
    projects: Seq<ProjectView>,
    last: i64,
    path: Seq<char>,
    is_dir: bool,
    name: Option<Seq<char>>,
    now: Seq<char>,
)
    requires
        projects_sound(projects, last),
        0 <= last < i64::MAX,
        add_refusal(projects, path, is_dir, name) is None,
    ensures
        projects_sound(projects.push(new_project((last + 1) as i64, path, name, now)), (last + 1) as i64),
{
    let n = chosen_name(path, name);
    let p = new_project((last + 1) as i64, path, name, now);
    let more = projects.push(p);
    lemma_first(projects, |q: ProjectView| q.path == path);
    lemma_first(projects, |q: ProjectView| q.name == n);
    let by_path = |q: ProjectView| q.path == path;
    let by_name = |q: ProjectView| q.name == n;
    assert(first(projects, by_path) < 0 && first(projects, by_name) < 0);
    assert forall|i: int, j: int| 0 <= i < j < more.len() implies (#[trigger] more[i]).id != (#[trigger] more[j]).id
        && more[i].name != more[j].name && more[i].path != more[j].path by {
        assert(more[i] == projects[i]);
        if j < projects.len() {
            assert(more[j] == projects[j]);
        } else {
            assert(!by_path(projects[i]));
            assert(!by_name(projects[i]));
        }
    }
    assert forall|i: int| 0 <= i < more.len() implies 0 < (#[trigger] more[i]).id <= last + 1 by {
        if i < projects.len() {
            assert(more[i] == projects[i]);
        }
    }
}

// ------------------------------------------------------------- executable

/// The project with this id.
pub fn by_id(projects: &Vec<Project>, id: i64) -> (r: Option<usize>)
    ensures
        match r {
            Some(at) => with_id(project_views(projects@), id) == at && at < projects@.len(),
            None => with_id(project_views(projects@), id) < 0,
        },
{
    let ghost all = project_views(projects@);
    let ghost f = |p: ProjectView| p.id == id;
    let mut i: usize = 0;
    while i < projects.len()
        invariant
            i <= projects@.len(),
            all == project_views(projects@),
            f == (|p: ProjectView| p.id == id),
            forall|k: int| 0 <= k < i ==> !f(#[trigger] all[k]),
        decreases projects.len() - i,
    {
        assert(all[i as int] == projects@[i as int]@);
        if projects[i].id == id {
            proof {
                lemma_first_is(all, f, i as int);
            }
            return Some(i);
        }
        i = i + 1;
    }
    proof {
        lemma_first(all, f);
    }
    None
}

/// The project with this name.
pub fn by_name(projects: &Vec<Project>, name: &str) -> (r: Option<usize>)
    ensures
        match r {
            Some(at) => with_name(project_views(projects@), name@) == at && at < projects@.len(),
            None => with_name(project_views(projects@), name@) < 0,
        },
{
    let ghost all = project_views(projects@);
    let ghost f = |p: ProjectView| p.name == name@;
    let mut i: usize = 0;
    while i < projects.len()
        invariant
            i <= projects@.len(),
            all == project_views(projects@),
            f == (|p: ProjectView| p.name == name@),
            forall|k: int| 0 <= k < i ==> !f(#[trigger] all[k]),
        decreases projects.len() - i,
    {
        assert(all[i as int] == projects@[i as int]@);
        if same(projects[i].name.as_str(), name) {
            proof {
                lemma_first_is(all, f, i as int);
            }
            return Some(i);
        }
        i = i + 1;
    }
    proof {
        lemma_first(all, f);
    }
    None
}

/// The project of this directory.
pub fn by_path(projects: &Vec<Project>, path: &str) -> (r: Option<usize>)
    ensures
        match r {
            Some(at) => with_path(project_views(projects@), path@) == at && at < projects@.len(),
            None => with_path(project_views(projects@), path@) < 0,
        },
{
    let ghost all = project_views(projects@);
    let ghost f = |p: ProjectView| p.path == path@;
    let mut i: usize = 0;
    while i < projects.len()
        invariant
            i <= projects@.len(),
            all == project_views(projects@),
            f == (|p: ProjectView| p.path == path@),
            forall|k: int| 0 <= k < i ==> !f(#[trigger] all[k]),
        decreases projects.len() - i,
    {
        assert(all[i as int] == projects@[i as int]@);
        if same(projects[i].path.as_str(), path) {
            proof {
                lemma_first_is(all, f, i as int);
            }
            return Some(i);
        }
        i = i + 1;
    }
    proof {
        lemma_first(all, f);
    }
    None
}

/// The project a name or `#id` stands for.
pub fn lookup(projects: &Vec<Project>, key: &str) -> (r: Option<usize>)
    ensures
        match r {
            Some(at) => looked_up(project_views(projects@), key@) == at && at < projects@.len(),
            None => looked_up(project_views(projects@), key@) < 0,
        },
{
    let k = trimmed(key);
    let found = by_name(projects, k.as_str());
    if found.is_some() {
        return found;
    }
    let number = stripped_start(k.as_str(), '#');
    match read_signed(number.as_str(), i64::MIN, i64::MAX) {
        Some(id) => by_id(projects, id),
        None => None,
    }
}

/// The project with this key, or a refusal that names the key.
pub fn require(projects: &Vec<Project>, key: &str) -> (r: Result<usize, Refusal>)
    ensures
        match r {
            Ok(at) => looked_up(project_views(projects@), key@) == at && at < projects@.len(),
            Err(e) => looked_up(project_views(projects@), key@) < 0 && e@ == RefusalView::NoProject(key@),
        },
{
    match lookup(projects, key) {
        Some(at) => Ok(at),
        None => Err(Refusal::NoProject(copy(key))),
    }
}

/// The name a new project gets.
pub fn name_for(path: &str, name: Option<&str>) -> (out: String)
    ensures
        out@ == chosen_name(path@, crate::notes::opt_text(name)),
{
    match name {
        Some(n) => {
            if !is_blank(n) {
                return trimmed(n);
            }
        },
        None => {},
    }
    match file_name(path) {
        Some(n) => n,
        None => copy("project"),
    }
}

/// Whether a directory can be registered.
pub fn check_add(projects: &Vec<Project>, path: &str, is_dir: bool, name: Option<&str>) -> (r: Result<(), Refusal>)
    ensures
        match r {
            Ok(()) => add_refusal(project_views(projects@), path@, is_dir, crate::notes::opt_text(name)) is None,
            Err(e) => add_refusal(project_views(projects@), path@, is_dir, crate::notes::opt_text(name)) == Some(e@),
        },
{
    if !is_dir {
        return Err(Refusal::NotDirectory(copy(path)));
    }
    let n = name_for(path, name);
    match by_path(projects, path) {
        Some(at) => {
            let p = &projects[at];
            assert(project_views(projects@)[at as int] == p@);
            return Err(Refusal::PathTaken(copy(path), p.name.clone(), p.id));
        },
        None => {},
    }
    match by_name(projects, n.as_str()) {
        Some(at) => {
            let p = &projects[at];
            assert(project_views(projects@)[at as int] == p@);
            Err(Refusal::NameTaken(n, p.path.clone(), p.id))
        },
        None => Ok(()),
    }
}

/// The positions of the projects in listing order: the active ones first,
/// then by name.
pub fn all(projects: &Vec<Project>) -> (order: Vec<usize>)
    ensures
        order@ == listing_order(project_views(projects@)),
        sorts(listing_keys(project_views(projects@)), Texts::Ascending, order@),
{
    let ghost wanted = listing_keys(project_views(projects@));
    let mut keys: Vec<Key> = Vec::new();
    let mut i: usize = 0;
    while i < projects.len()
        invariant
            i <= projects@.len(),
            wanted == listing_keys(project_views(projects@)),
            key_views(keys@) == wanted.take(i as int),
        decreases projects.len() - i,
    {
        let ghost before = key_views(keys@);
        let k = Key {
            number: if projects[i].active {
                0
            } else {
                1
            },
            text: projects[i].name.clone(),
        };
        assert(k@ == wanted[i as int]);
        keys.push(k);
        assert(key_views(keys@) =~= before.push(k@));
        assert(wanted.take(i + 1) =~= wanted.take(i as int).push(wanted[i as int]));
        i = i + 1;
    }
    assert(wanted.take(i as int) =~= wanted);
    sorted(&keys, Texts::Ascending)
}

} // verus!
