//! Where a command looks and what it shows, told by what is typed, what is
//! set and what is there.

use vstd::prelude::*;

use crate::card::CardView;
use crate::number::{dec, law_decimal_reads_back};
use crate::order::{lemma_order_exists, Texts};
use crate::path::{base_name, naming, parent_name, path_join, short_label, steps};
use crate::project::{lemma_first, listing_keys, listing_order, with_path, ProjectView};
use crate::refusal::RefusalView;
use crate::select::{in_scope, Scope};
use crate::store::{
    central_db, config_text, first_registered, git_place, home_expanded, line_db, lines_db, named_project, store_home,
    target_of, TargetView,
};
use crate::text::{
    cuts, lemma_first_of_at, lemma_split_append, lemma_split_whole, lemma_trim_fixed, lines, split, starts_with, trim,
    words, Sep,
};
use crate::view::{
    asked_for, extra_source, first_absent, is_there, primary_source, route_of, source_scope, sources_refusal,
    stale_of, stale_pages, sync_target, Route, SourceView,
};

verus! {

// ------------------------------------------------------------- paths

/// A name that a path can end with.
pub open spec fn names_a_file(name: Seq<char>) -> bool {
    &&& name.len() > 0
    &&& name != "."@
    &&& name != ".."@
    &&& !name.contains('/')
}

proof fn lemma_step(path: Seq<char>, name: Seq<char>)
    requires
        names_a_file(name),
    ensures
        steps(path + seq!['/'] + name) == steps(path).push(name),
{
    assert forall|i: int| 0 <= i < name.len() implies !cuts(Sep::Char('/'), #[trigger] name[i]) by {
        assert(name.contains(name[i]));
    }
    lemma_split_append(path, '/', name, Sep::Char('/'));
    let before = split(path, Sep::Char('/'));
    assert(before.push(name).drop_last() =~= before);
}

/// Law: the last name of a path is the name it ends with, and the name
/// before that is the directory it is in; a bare name is its own. Both
/// together are the label of a database.
pub proof fn law_path_ends_with_its_name(path: Seq<char>, dir: Seq<char>, name: Seq<char>)
    requires
        names_a_file(dir),
        names_a_file(name),
    ensures
        base_name(path + seq!['/'] + name) == Some(name),
        base_name(name) == Some(name),
        parent_name(path + seq!['/'] + dir + seq!['/'] + name) == Some(dir),
        parent_name(name) is None,
        short_label(path + seq!['/'] + dir + seq!['/'] + name) == dir + "/"@ + name,
        short_label(name) == name,
{
    lemma_step(path, name);
    lemma_step(path, dir);
    lemma_step(path + seq!['/'] + dir, name);
    assert forall|i: int| 0 <= i < name.len() implies !cuts(Sep::Char('/'), #[trigger] name[i]) by {
        assert(name.contains(name[i]));
    }
    lemma_split_whole(name, Sep::Char('/'));
    reveal_with_fuel(naming, 2);
    assert(seq![name].drop_last() =~= Seq::<Seq<char>>::empty());
    assert(steps(name) =~= seq![name]);
}

/// Law: an end in `/` or `/.` names nothing more, and one in `/..` names
/// nothing at all.
pub proof fn law_path_steps(path: Seq<char>)
    ensures
        base_name(path + seq!['/']) == base_name(path),
        base_name(path + seq!['/', '.']) == base_name(path),
        base_name(path + seq!['/', '.', '.']) is None,
{
    reveal_strlit(".");
    reveal_strlit("..");
    let sep = Sep::Char('/');
    let before = split(path, sep);
    let none = Seq::<char>::empty();
    lemma_split_append(path, '/', none, sep);
    assert(path + seq!['/'] + none =~= path + seq!['/']);
    assert(before.push(none).drop_last() =~= before);
    lemma_split_append(path, '/', seq!['.'], sep);
    assert(path + seq!['/'] + seq!['.'] =~= path + seq!['/', '.']);
    assert("."@ =~= seq!['.']);
    assert(before.push(seq!['.']).drop_last() =~= before);
    lemma_split_append(path, '/', seq!['.', '.'], sep);
    assert(path + seq!['/'] + seq!['.', '.'] =~= path + seq!['/', '.', '.']);
    assert(".."@ =~= seq!['.', '.']);
    assert(".."@ != "."@);
    assert(before.push(seq!['.', '.']).drop_last() =~= before);
}

/// Law: a path is taken from the directory it is seen from, with one `/`
/// between; an absolute path stays as it is.
pub proof fn law_joined_paths(base: Seq<char>, rest: Seq<char>)
    requires
        base.len() > 0,
        base.last() != '/',
        rest.len() > 0,
    ensures
        rest[0] != '/' ==> path_join(base, rest) == base + seq!['/'] + rest,
        rest[0] != '/' ==> path_join(base.push('/'), rest) == base + seq!['/'] + rest,
        rest[0] == '/' ==> path_join(base, rest) == rest,
        path_join(Seq::empty(), rest) == rest,
{
    reveal_strlit("/");
    assert("/"@ =~= seq!['/']);
    if starts_with(rest, "/"@) {
        assert(rest.subrange(0, 1)[0] == "/"@[0]);
    }
    if rest[0] == '/' {
        assert(rest.subrange(0, 1) =~= "/"@);
    }
    assert(base.push('/') =~= base + seq!['/']);
}

// ------------------------------------------------------------- the store

/// Law: the store is where `BL_HOME` says, else in `.bl` under the home.
pub proof fn law_store_is_at_home(home: Seq<char>, bl_home: Seq<char>, other: Option<Seq<char>>)
    requires
        home.len() > 0,
        home.last() != '/',
    ensures
        store_home(Some(bl_home), other) == bl_home,
        store_home(None, Some(home)) == home + "/.bl"@,
{
    reveal_strlit(".bl");
    reveal_strlit("/.bl");
    law_joined_paths(home, ".bl"@);
    assert(home + seq!['/'] + ".bl"@ =~= home + "/.bl"@);
}

/// Law: `~/` stands for the home; any other path stays as it is.
pub proof fn law_tilde_is_the_home(home: Seq<char>, rest: Seq<char>)
    requires
        home.len() > 0,
        home.last() != '/',
        rest.len() > 0,
        rest[0] != '/',
    ensures
        home_expanded(seq!['~', '/'] + rest, Some(home)) == home + seq!['/'] + rest,
        home_expanded(seq!['~', '/'] + rest, None) == seq!['~', '/'] + rest,
        rest[0] != '~' ==> home_expanded(rest, Some(home)) == rest,
{
    reveal_strlit("~/");
    let p = seq!['~', '/'] + rest;
    assert(p.subrange(0, 2) =~= "~/"@);
    assert(p.skip(2) =~= rest);
    law_joined_paths(home, rest);
    if starts_with(rest, "~/"@) {
        assert(rest.subrange(0, 2)[0] == "~/"@[0]);
    }
}

/// Law: a line of the configuration names the database behind `db:`, with or
/// without quotation marks round it; a comment names none, nor does a line
/// with another key.
pub proof fn law_line_names_its_database(db: Seq<char>)
    requires
        db.len() > 0,
        !crate::text::is_space(db[0]),
        !crate::text::is_space(db.last()),
        db[0] != '"' && db[0] != '\'',
        db.last() != '"' && db.last() != '\'',
    ensures
        line_db("db: "@ + db) == Some(db),
        line_db("db: "@ + seq!['"'] + db + seq!['"']) == Some(db),
        line_db("db: "@ + seq!['\''] + db + seq!['\'']) == Some(db),
        line_db("#db: "@ + db) is None,
{
    lemma_line_value(db);
    lemma_no_quotes(db, '"');
    lemma_no_quotes(db, '\'');
    let q = seq!['"'] + db + seq!['"'];
    lemma_line_value(q);
    assert("db: "@ + seq!['"'] + db + seq!['"'] =~= "db: "@ + q);
    lemma_quotes(db, '"');
    let r = seq!['\''] + db + seq!['\''];
    lemma_line_value(r);
    assert("db: "@ + seq!['\''] + db + seq!['\''] =~= "db: "@ + r);
    lemma_no_quotes(r, '"');
    lemma_quotes(db, '\'');
    reveal_strlit("#db: ");
    reveal_strlit("#");
    let c = "#db: "@ + db;
    assert(c[0] == '#');
    assert(c.last() == db.last());
    lemma_trim_fixed(c);
    assert(c.subrange(0, 1) =~= "#"@);
}

/// The key and the value of a line.
proof fn lemma_line_value(v: Seq<char>)
    requires
        v.len() > 0,
        !crate::text::is_space(v[0]),
        !crate::text::is_space(v.last()),
    ensures
        ({
            let l = "db: "@ + v;
            &&& trim(l) == l
            &&& !starts_with(l, "#"@)
            &&& crate::text::split_once(l, ':') == Some(("db"@, seq![' '] + v))
            &&& trim("db"@) == "db"@
            &&& trim(seq![' '] + v) == v
        }),
{
    reveal_strlit("db: ");
    reveal_strlit("db");
    reveal_strlit("#");
    let l = "db: "@ + v;
    assert(l[0] == 'd' && l[1] == 'b' && l[2] == ':' && l[3] == ' ');
    assert(l.last() == v.last());
    lemma_trim_fixed(l);
    if starts_with(l, "#"@) {
        assert(l.subrange(0, 1)[0] == "#"@[0]);
    }
    assert forall|i: int| 0 <= i < 2 implies #[trigger] l[i] != ':' by {}
    lemma_first_of_at(l, ':', 2);
    assert(l.take(2) =~= "db"@);
    assert(l.skip(3) =~= seq![' '] + v);
    lemma_trim_fixed("db"@);
    let s = seq![' '] + v;
    assert(s.drop_first() =~= v);
    assert(s[0] == ' ');
    reveal_with_fuel(crate::text::trim_start, 2);
    lemma_trim_fixed(v);
}

/// A text that neither begins nor ends with the mark loses nothing.
proof fn lemma_no_quotes(s: Seq<char>, c: char)
    requires
        s.len() > 0,
        s[0] != c,
        s.last() != c,
    ensures
        crate::store::unquoted(s, c) == s,
{
}

/// A text between two marks loses them.
proof fn lemma_quotes(s: Seq<char>, c: char)
    requires
        s.len() > 0,
        s[0] != c,
        s.last() != c,
    ensures
        crate::store::unquoted(seq![c] + s + seq![c], c) == s,
{
    let q = seq![c] + s + seq![c];
    let tail = s + seq![c];
    assert(q[0] == c);
    assert(q.drop_first() =~= tail);
    assert(tail[0] == s[0]);
    reveal_with_fuel(crate::text::strip_start, 3);
    reveal_with_fuel(crate::text::strip_end, 3);
    assert(crate::text::strip_start(q, c) == tail);
    assert(tail.last() == c);
    assert(tail.drop_last() =~= s);
}

/// Law: the first line to name a database decides; where none does, the
/// database is `backlog.db` in the store's directory.
pub proof fn law_first_line_decides(ls: Seq<Seq<char>>, k: int)
    ensures
        0 <= k < ls.len() && line_db(ls[k]) is Some && (forall|j: int| 0 <= j < k ==> line_db(#[trigger] ls[j]) is None)
            ==> lines_db(ls) == line_db(ls[k]),
        (forall|j: int| 0 <= j < ls.len() ==> line_db(#[trigger] ls[j]) is None) ==> lines_db(ls) is None,
    decreases ls.len(),
{
    if ls.len() > 0 {
        let rest = ls.drop_first();
        law_first_line_decides(rest, k - 1);
        assert forall|j: int| 0 <= j < rest.len() implies #[trigger] rest[j] == ls[j + 1] by {}
        if forall|j: int| 0 <= j < ls.len() ==> line_db(#[trigger] ls[j]) is None {
            assert(line_db(ls[0]) is None);
            assert forall|j: int| 0 <= j < rest.len() implies line_db(#[trigger] rest[j]) is None by {
                assert(rest[j] == ls[j + 1]);
            }
        }
        if 0 < k < ls.len() && line_db(ls[k]) is Some && (forall|j: int| 0 <= j < k ==> line_db(#[trigger] ls[j]) is None) {
            assert(line_db(ls[0]) is None);
            assert forall|j: int| 0 <= j < k - 1 implies line_db(#[trigger] rest[j]) is None by {
                assert(rest[j] == ls[j + 1]);
            }
        }
    }
}

/// Law: the configuration that is written when the store is created is read
/// back as the database it was written for.
pub proof fn law_config_reads_back(db: Seq<char>, store: Seq<char>, home: Option<Seq<char>>)
    requires
        db.len() > 0,
        !crate::text::is_space(db[0]),
        !crate::text::is_space(db.last()),
        db[0] != '"' && db[0] != '\'' && db[0] != '~',
        db.last() != '"' && db.last() != '\'',
        !db.contains('\n'),
    ensures
        central_db(Some(config_text(db)), store, home) == db,
{
    let one = "# bl central store. Every project's cards live in this one database;"@;
    let two = "# `bl project list` shows which repositories map to it."@;
    let three = "db: "@ + db;
    reveal_strlit("# bl central store. Every project's cards live in this one database;");
    reveal_strlit("# `bl project list` shows which repositories map to it.");
    reveal_strlit("db: ");
    reveal_strlit("\n");
    reveal_strlit(
        "# bl central store. Every project's cards live in this one database;\n# `bl project list` shows which repositories map to it.\ndb: ",
    );
    reveal_strlit("#");
    reveal_strlit("~/");
    let sep = Sep::Char('\n');
    let nl = seq!['\n'];
    let none = Seq::<char>::empty();
    let text = config_text(db);
    assert(text =~= one + nl + two + nl + three + nl + none);
    assert forall|i: int| 0 <= i < three.len() implies !cuts(sep, #[trigger] three[i]) by {
        if i >= 4 {
            assert(three[i] == db[i - 4]);
            assert(db.contains(db[i - 4]));
        }
    }
    lemma_split_whole(one, sep);
    lemma_split_append(one, '\n', two, sep);
    lemma_split_append(one + nl + two, '\n', three, sep);
    lemma_split_append(one + nl + two + nl + three, '\n', none, sep);
    let ps = split(text, sep);
    assert(ps =~= seq![one, two, three, none]);
    assert(three.last() == db.last());
    let ls = lines(text);
    assert(ls.len() == 3);
    assert(ls[0] == one && ls[1] == two && ls[2] == three);
    assert(one[0] == '#' && two[0] == '#');
    assert(one.subrange(0, 1) =~= "#"@);
    assert(two.subrange(0, 1) =~= "#"@);
    lemma_trim_fixed(one);
    lemma_trim_fixed(two);
    law_line_names_its_database(db);
    law_first_line_decides(ls, 2);
    if starts_with(db, "~/"@) {
        assert(db.subrange(0, 2)[0] == "~/"@[0]);
    }
}

/// Law: a command looks in the database named by hand, then in the one the
/// environment names, then in the central store, then in the current
/// directory; an empty name in the environment is none.
pub proof fn law_where_a_command_looks(db: Seq<char>, env: Option<Seq<char>>, central: Seq<char>, there: bool, local: bool)
    ensures
        target_of(Some(db), env, central, there, local) == Some(TargetView::Explicit(db)),
        db.len() > 0 ==> target_of(None, Some(db), central, there, local) == Some(TargetView::Explicit(db)),
        target_of(None, Some(Seq::empty()), central, there, local) == target_of(None, None, central, there, local),
        target_of(None, None, central, true, local) == Some(TargetView::Central(central)),
        target_of(None, None, central, false, true) == Some(TargetView::RepoLocal("backlog.db"@)),
        target_of(None, None, central, false, false) is None,
{
}

/// Law: a project named by hand goes before one named in the environment,
/// where an empty name is none.
pub proof fn law_which_project_is_named(flag: Seq<char>, env: Seq<char>, other: Option<Seq<char>>)
    ensures
        named_project(Some(flag), other) == Some(flag),
        env.len() > 0 ==> named_project(None, Some(env)) == Some(env),
        named_project(None, Some(Seq::empty())) is None,
        named_project(None, None) is None,
{
}

/// Law: a command belongs to the project of the first directory that is a
/// project's, and to none where no directory is.
pub proof fn law_first_directory_decides(projects: Seq<ProjectView>, dirs: Seq<Seq<char>>, k: int)
    requires
        0 <= k < projects.len(),
    ensures
        ({
            let at = first_registered(projects, dirs);
            &&& at >= 0 ==> at < projects.len() && exists|j: int|
                0 <= j < dirs.len() && #[trigger] dirs[j] == projects[at].path && forall|i: int|
                    0 <= i < j ==> with_path(projects, #[trigger] dirs[i]) < 0
            &&& dirs.contains(projects[k].path) ==> at >= 0
        }),
    decreases dirs.len(),
{
    if dirs.len() > 0 {
        let rest = dirs.drop_first();
        law_first_directory_decides(projects, rest, k);
        let d = dirs[0];
        lemma_first(projects, |p: ProjectView| p.path == d);
        let at = first_registered(projects, dirs);
        if with_path(projects, d) >= 0 {
            assert(dirs[0] == projects[at].path);
        } else {
            if at >= 0 {
                let j = choose|j: int|
                    0 <= j < rest.len() && #[trigger] rest[j] == projects[at].path && forall|i: int|
                        0 <= i < j ==> with_path(projects, #[trigger] rest[i]) < 0;
                assert(dirs[j + 1] == rest[j]);
                assert forall|i: int| 0 <= i < j + 1 implies with_path(projects, #[trigger] dirs[i]) < 0 by {
                    if i > 0 {
                        assert(rest[i - 1] == dirs[i]);
                    }
                }
            }
            if dirs.contains(projects[k].path) {
                let j = choose|j: int| 0 <= j < dirs.len() && dirs[j] == projects[k].path;
                assert(j > 0);
                assert(rest[j - 1] == projects[k].path);
            }
        }
    }
}

/// Law: git runs in the project's checkout, and beside the database where
/// there is no project or it has no path.
pub proof fn law_where_git_runs(path: Seq<char>, beside: Seq<char>)
    ensures
        path.len() > 0 ==> git_place(Some(path), beside) == path,
        git_place(Some(Seq::empty()), beside) == beside,
        git_place(None, beside) == beside,
{
}

// ------------------------------------------------------------- the view

/// Law: a source shows a card where it is one of its project; without a
/// project it shows every card, or every card that is not of a parked
/// project.
pub proof fn law_source_shows_its_cards(s: SourceView, projects: Seq<ProjectView>, c: CardView)
    ensures
        s.project matches Some(id) ==> in_scope(projects, source_scope(s), c) == (c.project_id == id),
        s.project is None && !s.active_only ==> in_scope(projects, source_scope(s), c),
        s.project is None && s.active_only ==> source_scope(s) == Scope::ActiveProjects,
{
}

/// Law: the first source is the database at hand: of it the project at hand,
/// under its name, or, asked for all, the whole, under the name of the file.
pub proof fn law_first_source(path: Seq<char>, full: Seq<char>, id: i64, name: Seq<char>, central: bool)
    ensures
        ({
            let s = primary_source(path, full, Some((id, name)), false, central);
            s.path == path && s.project == Some(id) && s.label == name
        }),
        ({
            let s = primary_source(path, full, Some((id, name)), true, central);
            s.path == path && s.project is None && s.label == short_label(full) && s.active_only == central
        }),
        primary_source(path, full, None, false, central) == primary_source(path, full, Some((id, name)), true, central),
{
}

/// Law: a further source is a file of its own, and is shown whole.
pub proof fn law_further_sources(path: Seq<char>, full: Seq<char>, projects: Seq<ProjectView>, c: CardView)
    ensures
        ({
            let s = extra_source(path, full);
            s.path == path && s.label == short_label(full) && in_scope(projects, source_scope(s), c)
        }),
{
}

/// Law: the databases can be shown where there is at least one and each is
/// there; else the one that is told is not there, and those before it are.
pub proof fn law_databases_must_be_there(sources: Seq<SourceView>, there: Seq<bool>)
    requires
        sources.len() == there.len(),
    ensures
        sources_refusal(sources, there) is None <==> sources.len() > 0 && forall|k: int|
            0 <= k < there.len() ==> #[trigger] there[k],
        sources.len() > 0 && sources_refusal(sources, there) is Some ==> exists|k: int|
            0 <= k < there.len() && !there[k] && sources_refusal(sources, there) == Some(
                RefusalView::MissingDatabase((#[trigger] sources[k]).path),
            ) && forall|j: int| 0 <= j < k ==> #[trigger] there[j],
{
    lemma_absent(sources, there);
}

proof fn lemma_absent(sources: Seq<SourceView>, there: Seq<bool>)
    requires
        sources.len() <= there.len(),
    ensures
        match first_absent(sources, there) {
            None => forall|k: int| 0 <= k < sources.len() ==> #[trigger] there[k],
            Some(p) => exists|k: int|
                0 <= k < sources.len() && !there[k] && p == (#[trigger] sources[k]).path && forall|j: int|
                    0 <= j < k ==> #[trigger] there[j],
        },
    decreases sources.len(),
{
    if sources.len() > 0 {
        let front = sources.drop_last();
        lemma_absent(front, there);
        match first_absent(front, there) {
            Some(p) => {
                let k = choose|k: int|
                    0 <= k < front.len() && !there[k] && p == (#[trigger] front[k]).path && forall|j: int|
                        0 <= j < k ==> #[trigger] there[j];
                assert(sources[k] == front[k]);
            },
            None => {
                let k = sources.len() - 1;
                if !is_there(there, k) {
                    assert(sources[k] == sources.last());
                }
            },
        }
    }
}

/// Law: a request asks for the target of a `GET`, whatever follows it; any
/// other method asks for what is not there.
pub proof fn law_only_get_is_answered(line: Seq<char>, n: nat)
    ensures
        words(line).len() > 1 && words(line)[0] == "GET"@ ==> asked_for(line) == words(line)[1],
        words(line).len() > 0 && words(line)[0] != "GET"@ ==> route_of(asked_for(line), n) == Route::NotFound,
        words(line).len() == 0 ==> route_of(asked_for(line), n) == Route::NotFound,
{
    let t = "/__method_not_allowed"@;
    reveal_strlit("/__method_not_allowed");
    reveal_strlit("/");
    reveal_strlit("/index.html");
    reveal_strlit("/api/cards");
    crate::text::lemma_first_of(t, '?');
    assert(t.len() == 21 && "/index.html"@.len() == 11 && "/api/cards"@.len() == 10);
    assert forall|i: int| 0 <= i < t.len() implies #[trigger] t[i] != '?' by {}
}

/// Law: the page is at `/` and at `/index.html`, with any query; the cards
/// of a database are where its number is asked for.
pub proof fn law_where_the_cards_are(query: Seq<char>, i: nat, n: nat)
    requires
        i < n,
        i <= usize::MAX,
    ensures
        route_of("/"@, n) == Route::Page,
        route_of("/"@ + seq!['?'] + query, n) == Route::Page,
        route_of("/index.html"@, n) == Route::Page,
        route_of("/api/cards"@, n) == Route::Cards(0),
        route_of("/api/cards"@ + seq!['?'] + "db="@ + dec(i as int), n) == Route::Cards(i as usize),
        n <= usize::MAX ==> route_of("/api/cards"@ + seq!['?'] + "db="@ + dec(n as int), n) == Route::Cards(0),
{
    reveal_strlit("/");
    reveal_strlit("/index.html");
    reveal_strlit("/api/cards");
    assert("/api/cards"@.len() == 10 && "/index.html"@.len() == 11 && "/"@.len() == 1);
    lemma_without_query("/"@);
    lemma_without_query("/index.html"@);
    lemma_without_query("/api/cards"@);
    lemma_with_query("/"@, query);
    let none = Seq::<char>::empty();
    assert(split(none, Sep::Char('&')) =~= seq![none]);
    assert(crate::view::param(seq![none], "db"@) is None) by {
        assert(crate::text::split_once(none, '=') is None);
        assert(seq![none].drop_first() =~= Seq::<Seq<char>>::empty());
        reveal_with_fuel(crate::view::param, 3);
    }
    lemma_asks_for(i as int);
    lemma_asks_for(n as int);
    let a = "db="@ + dec(i as int);
    let b = "db="@ + dec(n as int);
    lemma_with_query("/api/cards"@, a);
    lemma_with_query("/api/cards"@, b);
    assert("/api/cards"@ + seq!['?'] + "db="@ + dec(i as int) =~= "/api/cards"@ + seq!['?'] + a);
    assert("/api/cards"@ + seq!['?'] + "db="@ + dec(n as int) =~= "/api/cards"@ + seq!['?'] + b);
    law_decimal_reads_back(i as int);
    law_decimal_reads_back(n as int);
}

proof fn lemma_without_query(path: Seq<char>)
    requires
        forall|i: int| 0 <= i < path.len() ==> #[trigger] path[i] != '?',
    ensures
        crate::view::path_and_query(path) == (path, Seq::<char>::empty()),
{
    crate::text::lemma_first_of(path, '?');
}

proof fn lemma_with_query(path: Seq<char>, query: Seq<char>)
    requires
        forall|i: int| 0 <= i < path.len() ==> #[trigger] path[i] != '?',
    ensures
        crate::view::path_and_query(path + seq!['?'] + query) == (path, query),
{
    let t = path + seq!['?'] + query;
    let n = path.len() as int;
    assert(t[n] == '?');
    assert forall|i: int| 0 <= i < n implies #[trigger] t[i] != '?' by {
        assert(t[i] == path[i]);
    }
    lemma_first_of_at(t, '?', n);
    assert(t.take(n) =~= path);
    assert(t.skip(n + 1) =~= query);
}

/// A query with nothing but the number of a database asks for that.
proof fn lemma_asks_for(i: int)
    requires
        i >= 0,
    ensures
        crate::view::param(split("db="@ + dec(i), Sep::Char('&')), "db"@) == Some(dec(i)),
{
    reveal_strlit("db=");
    reveal_strlit("db");
    let q = "db="@ + dec(i);
    crate::number::lemma_digits_read_back(i as nat);
    assert forall|k: int| 0 <= k < q.len() implies !cuts(Sep::Char('&'), #[trigger] q[k]) by {
        if k >= 3 {
            assert(q[k] == dec(i)[k - 3]);
            assert(crate::number::is_digit(dec(i)[k - 3]));
        }
    }
    lemma_split_whole(q, Sep::Char('&'));
    assert(q[0] == 'd' && q[1] == 'b' && q[2] == '=');
    lemma_first_of_at(q, '=', 2);
    assert(q.take(2) =~= "db"@);
    assert(q.skip(3) =~= dec(i));
    assert(seq![q][0] == q);
}

/// Law: no page is kept in sync where that is switched off; else the one the
/// environment names, then the project's, then the store's, where an empty
/// name is none.
pub proof fn law_which_page_is_kept(t: Seq<char>, project: Option<Seq<char>>, setting: Option<Seq<char>>)
    requires
        t.len() > 0,
    ensures
        sync_target(true, Some(t), project, setting) is None,
        sync_target(false, Some(t), project, setting) == Some(t),
        sync_target(false, Some(Seq::empty()), project, setting) == sync_target(false, None, project, setting),
        sync_target(false, None, Some(t), setting) == Some(t),
        sync_target(false, None, Some(Seq::empty()), setting) == sync_target(false, None, None, setting),
        sync_target(false, None, None, Some(t)) == Some(t),
        sync_target(false, None, None, Some(Seq::empty())) is None,
        sync_target(false, None, None, None) is None,
{
}

/// Law: a write makes no other page stale than those of the projects it
/// touched, each of which shows its own project, and that of the whole
/// store, which shows all.
pub proof fn law_write_spares_other_pages(
    scoped: Option<i64>,
    touched: Option<i64>,
    projects: Seq<ProjectView>,
    setting: Option<Seq<char>>,
    k: int,
)
    requires
        projects.len() <= usize::MAX,
        0 <= k < stale_of(false, None, scoped, touched, projects, setting).len(),
    ensures
        ({
            let page = stale_of(false, None, scoped, touched, projects, setting)[k];
            ||| page.1 is None && setting == Some(page.0) && page.0.len() > 0
            ||| exists|i: int|
                0 <= i < projects.len() && page == ((#[trigger] projects[i]).autoexport, Some(projects[i].id))
                    && page.0.len() > 0 && (touched is None || touched == Some(projects[i].id))
        }),
{
    let order = listing_order(projects);
    lemma_order_exists(listing_keys(projects), Texts::Ascending);
    let pages = stale_pages(projects, order, touched);
    if k < pages.len() {
        lemma_pages(projects, order, touched, k);
    }
}

proof fn lemma_pages(projects: Seq<ProjectView>, order: Seq<usize>, touched: Option<i64>, k: int)
    requires
        forall|i: int| 0 <= i < order.len() ==> (#[trigger] order[i]) < projects.len(),
        0 <= k < stale_pages(projects, order, touched).len(),
    ensures
        ({
            let page = stale_pages(projects, order, touched)[k];
            exists|i: int|
                0 <= i < projects.len() && page == ((#[trigger] projects[i]).autoexport, Some(projects[i].id))
                    && page.0.len() > 0 && (touched is None || touched == Some(projects[i].id))
        }),
    decreases order.len(),
{
    let front = order.drop_last();
    assert forall|i: int| 0 <= i < front.len() implies (#[trigger] front[i]) < projects.len() by {
        assert(front[i] == order[i]);
    }
    if k < stale_pages(projects, front, touched).len() {
        lemma_pages(projects, front, touched, k);
    } else {
        assert(order[order.len() - 1] < projects.len());
        assert(projects[order.last() as int].autoexport.len() > 0);
    }
}

/// Law: with the environment naming a page, that one alone is made stale,
/// and with pages switched off none is.
pub proof fn law_one_named_page(t: Seq<char>, scoped: Option<i64>, touched: Option<i64>, projects: Seq<ProjectView>, setting: Option<Seq<char>>)
    requires
        t.len() > 0,
    ensures
        stale_of(true, Some(t), scoped, touched, projects, setting).len() == 0,
        stale_of(true, None, scoped, touched, projects, setting).len() == 0,
        stale_of(false, Some(t), scoped, touched, projects, setting) == seq![(t, scoped)],
{
}

} // verus!
