//! Where the backlog lives and which project a command is about.
//!
//! One central database holds every project's cards. A command run inside a
//! repository is scoped to that repository's project. The environment, the
//! file system and git are read elsewhere; what was read is handed in.

use vstd::prelude::*;

use crate::notes::opt_text;
use crate::path::{base_name, file_name, join_path, opt_string, path_join};
use crate::project::{
    all, by_path, listing_order, lookup, looked_up, project_views, with_path, Project, ProjectView,
};
use crate::refusal::{Refusal, RefusalView};
use crate::tags::{extend_with, extended};
use crate::text::{
    begins, blank, copy, cut_once, is_blank, lines, lines_of, same, split_once, starts_with, strip_end, strip_start,
    stripped_end, stripped_start, texts, trim, trimmed,
};

verus! {

// ------------------------------------------------------------- places

/// The directory of the store: `BL_HOME`, else `.bl` under the home.
pub open spec fn store_home(bl_home: Option<Seq<char>>, home: Option<Seq<char>>) -> Seq<char> {
    match bl_home {
        Some(h) => h,
        None => match home {
            Some(h) => path_join(h, ".bl"@),
            None => path_join("."@, ".bl"@),
        },
    }
}

/// A path with `~/` standing for the home.
pub open spec fn home_expanded(p: Seq<char>, home: Option<Seq<char>>) -> Seq<char> {
    if starts_with(p, "~/"@) && home is Some {
        path_join(home->0, p.skip(2))
    } else {
        p
    }
}

/// Without the `c`s at either end.
pub open spec fn unquoted(s: Seq<char>, c: char) -> Seq<char> {
    strip_end(strip_start(s, c), c)
}

/// The database that one line of the configuration names.
pub open spec fn line_db(line: Seq<char>) -> Option<Seq<char>> {
    let l = trim(line);
    if starts_with(l, "#"@) {
        None
    } else {
        match split_once(l, ':') {
            Some((k, v)) => {
                let value = unquoted(unquoted(trim(v), '"'), '\'');
                if trim(k) == "db"@ && value.len() > 0 {
                    Some(value)
                } else {
                    None
                }
            },
            None => None,
        }
    }
}

/// The database that the first line to name one names.
pub open spec fn lines_db(ls: Seq<Seq<char>>) -> Option<Seq<char>>
    decreases ls.len(),
{
    if ls.len() == 0 {
        None
    } else if line_db(ls[0]) is Some {
        line_db(ls[0])
    } else {
        lines_db(ls.drop_first())
    }
}

/// The central database: the `db:` key of the configuration, else
/// `backlog.db` in the store's directory.
pub open spec fn central_db(config: Option<Seq<char>>, store: Seq<char>, home: Option<Seq<char>>) -> Seq<char> {
    let fallback = path_join(store, "backlog.db"@);
    match config {
        Some(text) => match lines_db(lines(text)) {
            Some(db) => home_expanded(db, home),
            None => fallback,
        },
        None => fallback,
    }
}

/// The configuration written when the store is created.
pub open spec fn config_text(db: Seq<char>) -> Seq<char> {
    "# bl central store. Every project's cards live in this one database;\n# `bl project list` shows which repositories map to it.\ndb: "@
        + db + "\n"@
}

/// The directory of the store.
pub fn home(bl_home: Option<&str>, user_home: Option<&str>) -> (out: String)
    ensures
        out@ == store_home(opt_text(bl_home), opt_text(user_home)),
{
    match bl_home {
        Some(h) => copy(h),
        None => match user_home {
            Some(h) => join_path(h, ".bl"),
            None => join_path(".", ".bl"),
        },
    }
}

/// The configuration file of the store.
pub fn config_path(store: &str) -> (out: String)
    ensures
        out@ == path_join(store@, "config.yml"@),
{
    join_path(store, "config.yml")
}

/// A path with `~/` standing for the home.
pub fn expand_home(p: &str, home: Option<&str>) -> (out: String)
    ensures
        out@ == home_expanded(p@, opt_text(home)),
{
    proof {
        reveal_strlit("~/");
    }
    if begins(p, "~/") {
        match home {
            Some(h) => {
                let v = crate::text::chars_of(p);
                let n: usize = v.len();
                let rest = crate::text::part(&v, 2, n);
                assert(rest@ =~= p@.skip(2));
                return join_path(h, rest.as_str());
            },
            None => {},
        }
    }
    copy(p)
}

fn db_of_line(line: &str) -> (r: Option<String>)
    ensures
        opt_string(r) == line_db(line@),
{
    let l = trimmed(line);
    if begins(l.as_str(), "#") {
        return None;
    }
    match cut_once(l.as_str(), ':') {
        Some((k, v)) => {
            let value = trimmed(v.as_str());
            let value = stripped_end(stripped_start(value.as_str(), '"').as_str(), '"');
            let value = stripped_end(stripped_start(value.as_str(), '\'').as_str(), '\'');
            let key = trimmed(k.as_str());
            if same(key.as_str(), "db") && !value.as_str().is_empty() {
                Some(value)
            } else {
                None
            }
        },
        None => None,
    }
}

fn db_of_config(text: &str) -> (r: Option<String>)
    ensures
        opt_string(r) == lines_db(lines(text@)),
{
    let ls = lines_of(text);
    let ghost all = lines(text@);
    let mut i: usize = 0;
    assert(all.skip(0) =~= all);
    while i < ls.len()
        invariant
            i <= ls@.len(),
            texts(ls@) == all,
            all == lines(text@),
            lines_db(all) == lines_db(all.skip(i as int)),
        decreases ls.len() - i,
    {
        assert(all.skip(i as int)[0] == ls@[i as int]@);
        assert(all.skip(i as int).drop_first() =~= all.skip(i + 1));
        let found = db_of_line(ls[i].as_str());
        if found.is_some() {
            return found;
        }
        i = i + 1;
    }
    assert(all.skip(i as int).len() == 0);
    None
}

/// The central database. The file may not exist yet.
pub fn central_db_path(config: Option<&str>, store: &str, home: Option<&str>) -> (out: String)
    ensures
        out@ == central_db(opt_text(config), store@, opt_text(home)),
{
    match config {
        Some(text) => {
            match db_of_config(text) {
                Some(db) => {
                    return expand_home(db.as_str(), home);
                },
                None => {},
            }
        },
        None => {},
    }
    join_path(store, "backlog.db")
}

/// The configuration written when the store is created.
pub fn default_config(db: &str) -> (out: String)
    ensures
        out@ == config_text(db@),
{
    copy(
        "# bl central store. Every project's cards live in this one database;\n# `bl project list` shows which repositories map to it.\ndb: ",
    ).concat(db).concat("\n")
}

/// The configuration there is once the store is created: the one that was
/// there, else a new one.
pub open spec fn config_after(existing: Option<Seq<char>>, db: Seq<char>) -> Seq<char> {
    match existing {
        Some(text) => text,
        None => config_text(db),
    }
}

/// Law: a configuration is never replaced, so that creating the store again
/// leaves it as it is, wherever the database is by then.
pub proof fn law_config_is_kept(existing: Option<Seq<char>>, db: Seq<char>, other: Seq<char>)
    ensures
        existing is Some ==> config_after(existing, db) == existing->0,
        config_after(Some(config_after(existing, db)), other) == config_after(existing, db),
{
}

/// The configuration to write when the store is created; none where there is
/// one already.
pub fn config_to_write(existing: Option<&str>, db: &str) -> (r: Option<String>)
    ensures
        match r {
            Some(text) => existing is None && text@ == config_after(opt_text(existing), db@),
            None => existing is Some,
        },
{
    match existing {
        Some(_) => None,
        None => Some(default_config(db)),
    }
}

// ------------------------------------------------------------- targets

/// Where a command should look.
#[derive(Debug, PartialEq, Eq)]
pub enum Target {
    /// The database named by hand.
    Explicit(String),
    /// The central store.
    Central(String),
    /// The file in the current directory.
    RepoLocal(String),
}

pub enum TargetView {
    Explicit(Seq<char>),
    Central(Seq<char>),
    RepoLocal(Seq<char>),
}

impl View for Target {
    type V = TargetView;

    open spec fn view(&self) -> TargetView {
        match self {
            Target::Explicit(p) => TargetView::Explicit(p@),
            Target::Central(p) => TargetView::Central(p@),
            Target::RepoLocal(p) => TargetView::RepoLocal(p@),
        }
    }
}

/// The text, where it is not empty.
pub open spec fn given(s: Option<Seq<char>>) -> Option<Seq<char>> {
    if s is Some && s->0.len() > 0 {
        s
    } else {
        None
    }
}

/// Where a command looks: `--db`, then `BL_DB`, then the central store, then
/// the file in the current directory.
pub open spec fn target_of(
    flag: Option<Seq<char>>,
    env: Option<Seq<char>>,
    central: Seq<char>,
    central_exists: bool,
    local_exists: bool,
) -> Option<TargetView> {
    if flag is Some {
        Some(TargetView::Explicit(flag->0))
    } else if given(env) is Some {
        Some(TargetView::Explicit(env->0))
    } else if central_exists {
        Some(TargetView::Central(central))
    } else if local_exists {
        Some(TargetView::RepoLocal("backlog.db"@))
    } else {
        None
    }
}

/// Where a command looks.
pub fn target(
    flag: Option<&str>,
    env: Option<&str>,
    central: &str,
    central_exists: bool,
    local_exists: bool,
) -> (r: Result<Target, Refusal>)
    ensures
        ({
            let t = target_of(opt_text(flag), opt_text(env), central@, central_exists, local_exists);
            match r {
                Ok(found) => t == Some(found@),
                Err(e) => t is None && e@ == RefusalView::NoBacklog(central@),
            }
        }),
{
    match flag {
        Some(p) => {
            return Ok(Target::Explicit(copy(p)));
        },
        None => {},
    }
    match env {
        Some(p) => {
            if !p.is_empty() {
                return Ok(Target::Explicit(copy(p)));
            }
        },
        None => {},
    }
    if central_exists {
        return Ok(Target::Central(copy(central)));
    }
    if local_exists {
        return Ok(Target::RepoLocal(copy("backlog.db")));
    }
    Err(Refusal::NoBacklog(copy(central)))
}

/// Whether the database a command looks in is there: none is made in passing.
pub fn check_there(path: &str, exists: bool) -> (r: Result<(), Refusal>)
    ensures
        match r {
            Ok(()) => exists,
            Err(e) => !exists && e@ == RefusalView::NoDatabase(path@),
        },
{
    if exists {
        Ok(())
    } else {
        Err(Refusal::NoDatabase(copy(path)))
    }
}

/// What a command is about, as far as picking a database goes.
#[derive(Clone, Copy, Debug, PartialEq, Eq, Structural)]
pub enum Verb {
    Project,
    ImportFile,
    ImportStdin,
    Migrate,
    /// Any command on cards.
    Cards,
}

/// The command is about the store itself.
pub open spec fn about_store(verb: Verb) -> bool {
    verb == Verb::Project || verb == Verb::ImportFile || verb == Verb::Migrate
}

impl Verb {
    /// Whether the command is about the store itself, and so is never
    /// redirected to a repository's own file.
    pub fn wants_store(&self) -> (r: bool)
        ensures
            r == about_store(*self),
    {
        match self {
            Verb::Project | Verb::ImportFile | Verb::Migrate => true,
            _ => false,
        }
    }
}

/// Whether a command turns to `./backlog.db`: the store is central, no
/// project was found or named, the command is not about the store itself,
/// and the file is there.
pub fn falls_back(central: bool, found: bool, named: bool, verb: Verb, local_exists: bool) -> (r: bool)
    ensures
        r == (central && !found && !named && !about_store(verb) && local_exists),
{
    central && !found && !named && !verb.wants_store() && local_exists
}

// ------------------------------------------------------------- projects

/// The project named by hand.
pub open spec fn named_project(flag: Option<Seq<char>>, env: Option<Seq<char>>) -> Option<Seq<char>> {
    if flag is Some {
        flag
    } else {
        given(env)
    }
}

/// The first of the directories that is a project's, or -1.
pub open spec fn first_registered(projects: Seq<ProjectView>, dirs: Seq<Seq<char>>) -> int
    decreases dirs.len(),
{
    if dirs.len() == 0 {
        -1
    } else if with_path(projects, dirs[0]) >= 0 {
        with_path(projects, dirs[0])
    } else {
        first_registered(projects, dirs.drop_first())
    }
}

/// The directories a command may belong to, most specific first: the main
/// repository, then the current directory and those above it, none twice.
pub fn candidate_dirs(root: Option<&str>, above: &Vec<String>) -> (out: Vec<String>)
    ensures
        texts(out@) == extended(
            match opt_text(root) {
                Some(r) => seq![r],
                None => Seq::empty(),
            },
            texts(above@),
        ),
{
    let mut start: Vec<String> = Vec::new();
    match root {
        Some(r) => {
            start.push(copy(r));
            assert(texts(start@) =~= seq![r@]);
        },
        None => {
            assert(texts(start@) =~= Seq::empty());
        },
    }
    extend_with(start, above)
}

/// The project of a command: `--project`, then `BL_PROJECT`; in a single
/// file the project listed first; else the one whose directory the command
/// runs in.
pub fn resolve_project(
    projects: &Vec<Project>,
    central: bool,
    flag: Option<&str>,
    env: Option<&str>,
    dirs: &Vec<String>,
) -> (r: Result<Option<usize>, Refusal>)
    ensures
        ({
            let pv = project_views(projects@);
            match named_project(opt_text(flag), opt_text(env)) {
                Some(key) => match r {
                    Ok(found) => found is Some && found->0 == looked_up(pv, key),
                    Err(e) => looked_up(pv, key) < 0 && e@ == RefusalView::UnknownProject(key),
                },
                None => if !central {
                    match r {
                        Ok(Some(at)) => pv.len() > 0 && at == listing_order(pv)[0],
                        Ok(None) => pv.len() == 0,
                        Err(_) => false,
                    }
                } else {
                    match r {
                        Ok(Some(at)) => first_registered(pv, texts(dirs@)) == at,
                        Ok(None) => first_registered(pv, texts(dirs@)) < 0,
                        Err(_) => false,
                    }
                },
            }
        }),
        r matches Ok(Some(at)) ==> at < projects@.len(),
{
    let key = match flag {
        Some(k) => Some(k),
        None => match env {
            Some(k) => if k.is_empty() {
                None
            } else {
                Some(k)
            },
            None => None,
        },
    };
    match key {
        Some(k) => {
            return match lookup(projects, k) {
                Some(at) => Ok(Some(at)),
                None => Err(Refusal::UnknownProject(copy(k))),
            };
        },
        None => {},
    }
    if !central {
        let order = all(projects);
        if order.len() == 0 {
            return Ok(None);
        }
        assert(order@[0] < projects@.len());
        return Ok(Some(order[0]));
    }
    let ghost pv = project_views(projects@);
    let ghost dv = texts(dirs@);
    let mut i: usize = 0;
    assert(dv.skip(0) =~= dv);
    while i < dirs.len()
        invariant
            i <= dirs@.len(),
            pv == project_views(projects@),
            dv == texts(dirs@),
            central,
            named_project(opt_text(flag), opt_text(env)) is None,
            first_registered(pv, dv) == first_registered(pv, dv.skip(i as int)),
        decreases dirs.len() - i,
    {
        assert(dv.skip(i as int)[0] == dirs@[i as int]@);
        assert(dv.skip(i as int).drop_first() =~= dv.skip(i + 1));
        let found = by_path(projects, dirs[i].as_str());
        if found.is_some() {
            return Ok(found);
        }
        i = i + 1;
    }
    assert(dv.skip(i as int).len() == 0);
    Ok(None)
}

/// The project a new card belongs to.
pub fn require_project<'a>(project: Option<&'a Project>, central: bool, path: &str) -> (r: Result<
    &'a Project,
    Refusal,
>)
    ensures
        match r {
            Ok(p) => project == Some(p),
            Err(e) => project is None && e@ == if central {
                RefusalView::NotInProject
            } else {
                RefusalView::NoProjectRow(path@)
            },
        },
{
    match project {
        Some(p) => Ok(p),
        None => if central {
            Err(Refusal::NotInProject)
        } else {
            Err(Refusal::NoProjectRow(copy(path)))
        },
    }
}

/// Where git runs for a command: the project's checkout, where it has one.
pub open spec fn git_place(project: Option<Seq<char>>, beside: Seq<char>) -> Seq<char> {
    match given(project) {
        Some(p) => p,
        None => beside,
    }
}

/// Where git runs for a command: the project's checkout, else the directory
/// of the database.
pub fn git_dir(project: Option<&Project>, beside: &str) -> (out: String)
    ensures
        out@ == git_place(
            match project {
                Some(p) => Some(p.path@),
                None => None,
            },
            beside@,
        ),
{
    match project {
        Some(p) => {
            if !p.path.as_str().is_empty() {
                return p.path.clone();
            }
        },
        None => {},
    }
    copy(beside)
}

/// What git says its common directory is.
pub fn git_common_dir(success: bool, stdout: &str) -> (r: Option<String>)
    ensures
        opt_string(r) == if success && !blank(stdout@) {
            Some(trim(stdout@))
        } else {
            None
        },
{
    if success && !is_blank(stdout) {
        Some(trimmed(stdout))
    } else {
        None
    }
}

/// Whether a repository's root is the directory above its common directory:
/// `<root>/.git` for a normal repository; a bare one is its own root.
pub fn root_is_above(common: &str) -> (r: bool)
    ensures
        r == (base_name(common@) == Some(".git"@)),
{
    match file_name(common) {
        Some(name) => same(name.as_str(), ".git"),
        None => false,
    }
}

} // verus!
