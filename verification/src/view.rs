//! The board page, delivered live over HTTP or as a snapshot file: which
//! databases it shows, how requests are answered, and which snapshots a write
//! makes stale.

use vstd::prelude::*;

use crate::notes::opt_text;
use crate::number::{dec, decimal_count, read_count, unsigned_value, within};
use crate::order::{lemma_covers, lemma_order_exists, Texts};
use crate::path::{opt_string, short_label, source_label};
use crate::project::{all, listing_keys, listing_order, project_views, Project, ProjectView};
use crate::refusal::{Refusal, RefusalView};
use crate::select::Scope;
use crate::store::given;
use crate::text::{
    copy, cut_once, pieces, replace_all, replace_char, replaced, replaced_char, same, split, split_once, starts_with,
    texts, words, words_of, Sep,
};

verus! {

/// A database the board is allowed to read, and which of its cards.
#[derive(Debug, PartialEq, Eq)]
pub struct Source {
    pub label: String,
    pub path: String,
    /// Only the cards of this project.
    pub project: Option<i64>,
    /// Without a project: only the cards of active projects.
    pub active_only: bool,
}

#[verifier::ext_equal]
pub struct SourceView {
    pub label: Seq<char>,
    pub path: Seq<char>,
    pub project: Option<i64>,
    pub active_only: bool,
}

impl View for Source {
    type V = SourceView;

    open spec fn view(&self) -> SourceView {
        SourceView {
            label: self.label@,
            path: self.path@,
            project: self.project,
            active_only: self.active_only,
        }
    }
}

pub open spec fn source_views(v: Seq<Source>) -> Seq<SourceView> {
    v.map_values(|s: Source| s@)
}

// ------------------------------------------------------------- sources

/// The cards a source shows.
pub open spec fn source_scope(s: SourceView) -> Scope {
    match s.project {
        Some(id) => Scope::Project(id),
        None => if s.active_only {
            Scope::ActiveProjects
        } else {
            Scope::Everything
        },
    }
}

/// The cards a source shows.
pub fn scope_of_source(s: &Source) -> (r: Scope)
    ensures
        r == source_scope(s@),
{
    match s.project {
        Some(id) => Scope::Project(id),
        None => if s.active_only {
            Scope::ActiveProjects
        } else {
            Scope::Everything
        },
    }
}

/// What a snapshot is rewritten from: the database itself, under its own
/// path, and of it the given project or every active one.
pub fn refresh(db: &str, project: Option<i64>, central: bool) -> (s: Source)
    ensures
        s@ == (SourceView { label: db@, path: db@, project, active_only: central }),
{
    Source { label: copy(db), path: copy(db), project, active_only: central }
}

/// The first of the sources.
pub open spec fn primary_source(
    path: Seq<char>,
    full: Seq<char>,
    project: Option<(i64, Seq<char>)>,
    all: bool,
    central: bool,
) -> SourceView {
    SourceView {
        label: if project is Some && !all { (project->0).1 } else { short_label(full) },
        path,
        project: if project is Some && !all { Some((project->0).0) } else { None },
        active_only: central,
    }
}

/// A further source: a file shown whole.
pub open spec fn extra_source(path: Seq<char>, full: Seq<char>) -> SourceView {
    SourceView { label: short_label(full), path, project: None, active_only: false }
}

/// The databases the board may read: the primary one, scoped like every
/// other read, then further files, shown whole. `full` and `also_full` are
/// the paths made absolute.
pub fn view_sources(
    path: &str,
    full: &str,
    project: Option<&Project>,
    all: bool,
    central: bool,
    also: &Vec<String>,
    also_full: &Vec<String>,
) -> (out: Vec<Source>)
    requires
        also@.len() == also_full@.len(),
    ensures
        source_views(out@) == seq![
            primary_source(
                path@,
                full@,
                match project {
                    Some(p) => Some((p.id, p.name@)),
                    None => None,
                },
                all,
                central,
            ),
        ] + Seq::new(also@.len(), |i: int| extra_source(also@[i]@, also_full@[i]@)),
{
    let scoped: Option<&Project> = if all {
        None
    } else {
        project
    };
    let first = match scoped {
        Some(p) => Source { label: p.name.clone(), path: copy(path), project: Some(p.id), active_only: central },
        None => Source { label: source_label(full), path: copy(path), project: None, active_only: central },
    };
    let ghost lead = seq![first@];
    let ghost rest = Seq::new(also@.len(), |i: int| extra_source(also@[i]@, also_full@[i]@));
    let mut out: Vec<Source> = Vec::new();
    out.push(first);
    let mut i: usize = 0;
    assert(source_views(out@) =~= lead + rest.take(0));
    while i < also.len()
        invariant
            i <= also@.len(),
            also@.len() == also_full@.len(),
            rest == Seq::new(also@.len(), |k: int| extra_source(also@[k]@, also_full@[k]@)),
            source_views(out@) == lead + rest.take(i as int),
        decreases also.len() - i,
    {
        let s = Source {
            label: source_label(also_full[i].as_str()),
            path: also[i].clone(),
            project: None,
            active_only: false,
        };
        assert(s@ == rest[i as int]);
        let ghost before = source_views(out@);
        out.push(s);
        assert(source_views(out@) =~= before.push(s@));
        assert(rest.take(i + 1) =~= rest.take(i as int).push(rest[i as int]));
        assert(source_views(out@) =~= lead + rest.take(i + 1));
        i = i + 1;
    }
    assert(rest.take(i as int) =~= rest);
    out
}

/// The database is there.
pub open spec fn is_there(exists: Seq<bool>, k: int) -> bool {
    k < exists.len() && exists[k]
}

/// The first of the databases that is not there.
pub open spec fn first_absent(sources: Seq<SourceView>, exists: Seq<bool>) -> Option<Seq<char>>
    decreases sources.len(),
{
    if sources.len() == 0 {
        None
    } else if first_absent(sources.drop_last(), exists) is Some {
        first_absent(sources.drop_last(), exists)
    } else if !is_there(exists, sources.len() - 1) {
        Some(sources.last().path)
    } else {
        None
    }
}

/// Why the databases cannot be shown.
pub open spec fn sources_refusal(sources: Seq<SourceView>, exists: Seq<bool>) -> Option<RefusalView> {
    if sources.len() == 0 {
        Some(RefusalView::NoDatabases)
    } else {
        match first_absent(sources, exists) {
            Some(p) => Some(RefusalView::MissingDatabase(p)),
            None => None,
        }
    }
}

/// Whether the databases can be shown: there is one, and each is there.
pub fn check_sources(sources: &Vec<Source>, exists: &Vec<bool>) -> (r: Result<(), Refusal>)
    ensures
        match r {
            Ok(()) => sources_refusal(source_views(sources@), exists@) is None,
            Err(e) => sources_refusal(source_views(sources@), exists@) == Some(e@),
        },
{
    let ghost sv = source_views(sources@);
    if sources.len() == 0 {
        return Err(Refusal::NoDatabases);
    }
    let mut i: usize = 0;
    while i < sources.len()
        invariant
            i <= sources@.len(),
            sv == source_views(sources@),
            sv.len() > 0,
            first_absent(sv.take(i as int), exists@) is None,
        decreases sources.len() - i,
    {
        assert(sv.take(i + 1).drop_last() =~= sv.take(i as int));
        assert(sv.take(i + 1).last() == sources@[i as int]@);
        if !(i < exists.len() && exists[i]) {
            proof {
                lemma_first_absent(sv, exists@, i + 1);
            }
            return Err(Refusal::MissingDatabase(sources[i].path.clone()));
        }
        i = i + 1;
    }
    assert(sv.take(i as int) =~= sv);
    Ok(())
}

proof fn lemma_first_absent(sources: Seq<SourceView>, exists: Seq<bool>, n: int)
    requires
        0 <= n <= sources.len(),
        first_absent(sources.take(n), exists) is Some,
    ensures
        first_absent(sources, exists) == first_absent(sources.take(n), exists),
    decreases sources.len() - n,
{
    if n == sources.len() {
        assert(sources.take(n) =~= sources);
    } else {
        assert(sources.take(n + 1).drop_last() =~= sources.take(n));
        lemma_first_absent(sources, exists, n + 1);
    }
}

// ------------------------------------------------------------- requests

/// What a request asks for, from its first line: the target of a `GET`;
/// anything else asks for nothing there is.
pub open spec fn asked_for(line: Seq<char>) -> Seq<char> {
    let ws = words(line);
    if ws.len() == 0 || ws[0] != "GET"@ {
        "/__method_not_allowed"@
    } else if ws.len() > 1 {
        ws[1]
    } else {
        "/"@
    }
}

/// The value of the first pair with this key in a query.
pub open spec fn param(pairs: Seq<Seq<char>>, key: Seq<char>) -> Option<Seq<char>>
    decreases pairs.len(),
{
    if pairs.len() == 0 {
        None
    } else {
        match split_once(pairs[0], '=') {
            Some((k, v)) => if k == key {
                Some(v)
            } else {
                param(pairs.drop_first(), key)
            },
            None => param(pairs.drop_first(), key),
        }
    }
}

/// What the server answers with.
#[derive(Clone, Copy, Debug, PartialEq, Eq, Structural)]
pub enum Route {
    /// The page.
    Page,
    /// The cards of a database.
    Cards(usize),
    NotFound,
}

/// The path and the query of a target.
pub open spec fn path_and_query(target: Seq<char>) -> (Seq<char>, Seq<char>) {
    match split_once(target, '?') {
        Some(pair) => pair,
        None => (target, Seq::empty()),
    }
}

/// The database a query picks: the first where it picks none that is there.
pub open spec fn picked(query: Seq<char>, n: nat) -> usize {
    match param(split(query, Sep::Char('&')), "db"@) {
        Some(v) => match within(unsigned_value(v), 0, usize::MAX as int) {
            Some(i) => if i < n {
                i as usize
            } else {
                0
            },
            None => 0,
        },
        None => 0,
    }
}

/// What a target is answered with, where there are `n` databases.
pub open spec fn route_of(target: Seq<char>, n: nat) -> Route {
    let (path, query) = path_and_query(target);
    if path == "/"@ || path == "/index.html"@ {
        Route::Page
    } else if path == "/api/cards"@ {
        Route::Cards(picked(query, n))
    } else {
        Route::NotFound
    }
}

/// Law: a request can pick only one of the databases the server was started
/// with.
pub proof fn law_only_given_databases(target: Seq<char>, n: nat)
    requires
        n > 0,
    ensures
        route_of(target, n) matches Route::Cards(i) ==> i < n,
{
}

/// What a request asks for, from its first line.
pub fn read_request_target(line: &str) -> (out: String)
    ensures
        out@ == asked_for(line@),
{
    let ws = words_of(line);
    assert(texts(ws@).len() == ws@.len());
    if ws.len() == 0 {
        return copy("/__method_not_allowed");
    }
    assert(texts(ws@)[0] == ws@[0]@);
    if !same(ws[0].as_str(), "GET") {
        return copy("/__method_not_allowed");
    }
    if ws.len() > 1 {
        assert(texts(ws@)[1] == ws@[1]@);
        ws[1].clone()
    } else {
        copy("/")
    }
}

/// Whether a header line ends the headers.
pub fn ends_headers(line: &str) -> (r: bool)
    ensures
        r == (line@.len() == 0 || line@ == "\r\n"@ || line@ == "\n"@),
{
    line.is_empty() || same(line, "\r\n") || same(line, "\n")
}

/// The value of the first pair with this key in a query.
pub fn query_param(query: &str, key: &str) -> (r: Option<String>)
    ensures
        opt_string(r) == param(split(query@, Sep::Char('&')), key@),
{
    let ps = pieces(query, Sep::Char('&'));
    let ghost all = split(query@, Sep::Char('&'));
    let mut i: usize = 0;
    assert(all.skip(0) =~= all);
    while i < ps.len()
        invariant
            i <= ps@.len(),
            texts(ps@) == all,
            all == split(query@, Sep::Char('&')),
            param(all, key@) == param(all.skip(i as int), key@),
        decreases ps.len() - i,
    {
        assert(all.skip(i as int)[0] == ps@[i as int]@);
        assert(all.skip(i as int).drop_first() =~= all.skip(i + 1));
        match cut_once(ps[i].as_str(), '=') {
            Some((k, v)) => {
                if same(k.as_str(), key) {
                    return Some(v);
                }
            },
            None => {},
        }
        i = i + 1;
    }
    assert(texts(ps@).len() == ps@.len());
    assert(all.skip(i as int).len() == 0);
    None
}

/// What a target is answered with, where there are `n` databases.
pub fn route(target: &str, n: usize) -> (r: Route)
    ensures
        r == route_of(target@, n as nat),
{
    let (path, query) = match cut_once(target, '?') {
        Some(pair) => pair,
        None => (copy(target), String::new()),
    };
    if same(path.as_str(), "/") || same(path.as_str(), "/index.html") {
        return Route::Page;
    }
    if same(path.as_str(), "/api/cards") {
        let k: usize = match query_param(query.as_str(), "db") {
            Some(v) => match read_count(v.as_str()) {
                Some(i) => if i < n {
                    i
                } else {
                    0
                },
                None => 0,
            },
            None => 0,
        };
        return Route::Cards(k);
    }
    Route::NotFound
}

/// The words that go with a status code.
pub open spec fn reason_of(code: u16) -> Seq<char> {
    if code == 200 {
        "OK"@
    } else if code == 404 {
        "Not Found"@
    } else {
        "Internal Server Error"@
    }
}

/// The head of an answer with a body of `length` bytes.
pub open spec fn head_text(code: u16, content_type: Seq<char>, length: nat) -> Seq<char> {
    "HTTP/1.1 "@ + dec(code as int) + " "@ + reason_of(code) + "\r\nContent-Type: "@ + content_type
        + "\r\nContent-Length: "@ + dec(length as int)
        + "\r\nCache-Control: no-store\r\nConnection: close\r\n\r\n"@
}

/// The head of an answer with a body of `length` bytes.
pub fn response_head(code: u16, content_type: &str, length: usize) -> (out: String)
    ensures
        out@ == head_text(code, content_type@, length as nat),
{
    let reason = if code == 200 {
        "OK"
    } else if code == 404 {
        "Not Found"
    } else {
        "Internal Server Error"
    };
    copy("HTTP/1.1 ").concat(decimal_count(code as usize).as_str()).concat(" ").concat(reason).concat(
        "\r\nContent-Type: ",
    ).concat(content_type).concat("\r\nContent-Length: ").concat(decimal_count(length).as_str()).concat(
        "\r\nCache-Control: no-store\r\nConnection: close\r\n\r\n",
    )
}

// ------------------------------------------------------------- snapshots

/// The place in the page that data is put in.
pub open spec fn slot() -> Seq<char> {
    "<script id=\"bldata\" type=\"application/json\">null</script>"@
}

/// The data with no `<` in it.
pub open spec fn safe_json(json: Seq<char>) -> Seq<char> {
    replace_char(json, '<', "\\u003c"@)
}

/// The data as it stands in the page.
pub open spec fn data_block(json: Seq<char>) -> Seq<char> {
    "<script id=\"bldata\" type=\"application/json\">"@ + safe_json(json) + "</script>"@
}

/// The page with the data put in.
pub open spec fn baked(page: Seq<char>, json: Seq<char>) -> Seq<char> {
    replace_all(page, slot(), data_block(json))
}

/// Law: no text in the data can close the block it stands in: there is no
/// `<` between its tags.
pub proof fn law_data_cannot_close_its_block(json: Seq<char>)
    ensures
        !safe_json(json).contains('<'),
    decreases json.len(),
{
    reveal_strlit("\\u003c");
    if json.len() > 0 {
        law_data_cannot_close_its_block(json.drop_last());
        let front = safe_json(json.drop_last());
        let all = safe_json(json);
        if all.contains('<') {
            let i = choose|i: int| 0 <= i < all.len() && all[i] == '<';
            if i < front.len() {
                assert(front[i] == '<');
                assert(front.contains('<'));
            } else if json.last() == '<' {
                assert("\\u003c"@[i - front.len()] == '<');
            }
        }
    }
}

/// How a `<` is written in the page.
pub open spec fn mark() -> Seq<char> {
    seq!['\\', 'u', '0', '0', '3', 'c']
}

/// The data as a reader of JSON takes it, as far as `<` goes: `\u003c` is a
/// `<`; any other escape is left as the two characters it begins with.
pub open spec fn read_json(s: Seq<char>) -> Seq<char>
    decreases s.len(),
{
    if s.len() == 0 {
        s
    } else if starts_with(s, mark()) {
        seq!['<'] + read_json(s.skip(6))
    } else if s[0] == '\\' && s.len() > 1 {
        s.take(2) + read_json(s.skip(2))
    } else {
        seq![s[0]] + read_json(s.drop_first())
    }
}

/// No `<` is escaped by a backslash before it, as holds of every text in
/// JSON.
pub open spec fn escapes_no_bracket(s: Seq<char>) -> bool
    decreases s.len(),
{
    if s.len() == 0 {
        true
    } else if s[0] == '\\' && s.len() > 1 {
        s[1] != '<' && escapes_no_bracket(s.skip(2))
    } else {
        escapes_no_bracket(s.drop_first())
    }
}

proof fn lemma_replace_concat(a: Seq<char>, b: Seq<char>, c: char, with: Seq<char>)
    ensures
        replace_char(a + b, c, with) == replace_char(a, c, with) + replace_char(b, c, with),
    decreases b.len(),
{
    if b.len() == 0 {
        assert(a + b =~= a);
        assert(replace_char(a, c, with) + replace_char(b, c, with) =~= replace_char(a, c, with));
    } else {
        lemma_replace_concat(a, b.drop_last(), c, with);
        assert((a + b).drop_last() =~= a + b.drop_last());
        assert((a + b).last() == b.last());
        assert(replace_char(a + b, c, with) =~= replace_char(a, c, with) + replace_char(b, c, with));
    }
}

/// The first character of the data, made safe, and the rest.
proof fn lemma_safe_first(s: Seq<char>)
    requires
        s.len() > 0,
    ensures
        safe_json(s) == (if s[0] == '<' { "\\u003c"@ } else { seq![s[0]] }) + safe_json(s.drop_first()),
{
    let one = seq![s[0]];
    assert(s =~= one + s.drop_first());
    lemma_replace_concat(one, s.drop_first(), '<', "\\u003c"@);
    assert(one.drop_last() =~= Seq::<char>::empty());
    assert(replace_char(one.drop_last(), '<', "\\u003c"@) =~= Seq::<char>::empty());
    assert(safe_json(one) =~= if s[0] == '<' { "\\u003c"@ } else { one });
}

/// What the data, made safe, begins with it began with before, up to the
/// first backslash.
proof fn lemma_safe_prefix(s: Seq<char>, n: int)
    requires
        0 <= n <= safe_json(s).len(),
        forall|i: int| 0 <= i < n ==> #[trigger] safe_json(s)[i] != '\\',
    ensures
        n <= s.len(),
        forall|i: int| 0 <= i < n ==> #[trigger] s[i] == safe_json(s)[i],
    decreases n,
{
    reveal_strlit("\\u003c");
    if n > 0 {
        if s.len() > 0 {
            lemma_safe_first(s);
            let rest = s.drop_first();
            assert(safe_json(s)[0] != '\\');
            assert(s[0] != '<');
            assert forall|i: int| 0 <= i < n - 1 implies #[trigger] safe_json(rest)[i] != '\\' by {
                assert(safe_json(s)[i + 1] == safe_json(rest)[i]);
            }
            lemma_safe_prefix(rest, n - 1);
            assert forall|i: int| 0 <= i < n implies #[trigger] s[i] == safe_json(s)[i] by {
                if i > 0 {
                    assert(rest[i - 1] == s[i]);
                    assert(safe_json(s)[i] == safe_json(rest)[i - 1]);
                }
            }
        }
    }
}

/// Where the data has the mark itself, so has the data made safe.
proof fn lemma_safe_marked(json: Seq<char>)
    requires
        starts_with(json, mark()),
        escapes_no_bracket(json),
    ensures
        escapes_no_bracket(json.skip(6)),
        safe_json(json) == mark() + safe_json(json.skip(6)),
{
    assert forall|i: int| 0 <= i < 6 implies json[i] == #[trigger] mark()[i] by {
        assert(json.subrange(0, 6)[i] == mark()[i]);
    }
    assert(json[0] == mark()[0] && json[1] == mark()[1] && json[2] == mark()[2]);
    assert(json[3] == mark()[3] && json[4] == mark()[4] && json[5] == mark()[5]);
    assert(escapes_no_bracket(json.skip(2)));
    assert(json.skip(2).drop_first() =~= json.skip(3));
    assert(escapes_no_bracket(json.skip(3)));
    assert(json.skip(3).drop_first() =~= json.skip(4));
    assert(escapes_no_bracket(json.skip(4)));
    assert(json.skip(4).drop_first() =~= json.skip(5));
    assert(escapes_no_bracket(json.skip(5)));
    assert(json.skip(5).drop_first() =~= json.skip(6));
    assert(json =~= mark() + json.skip(6));
    lemma_replace_concat(mark(), json.skip(6), '<', "\\u003c"@);
    lemma_safe_is(mark());
}

/// Data without a `<` is safe as it is.
proof fn lemma_safe_is(s: Seq<char>)
    requires
        forall|i: int| 0 <= i < s.len() ==> #[trigger] s[i] != '<',
    ensures
        safe_json(s) == s,
    decreases s.len(),
{
    if s.len() > 0 {
        let front = s.drop_last();
        assert forall|i: int| 0 <= i < front.len() implies #[trigger] front[i] != '<' by {
            assert(front[i] == s[i]);
        }
        lemma_safe_is(front);
        assert(s[s.len() - 1] != '<');
        assert(front.push(s.last()) =~= s);
    }
}

/// Another escape is the same escape once the data is made safe.
proof fn lemma_safe_escape(json: Seq<char>)
    requires
        json.len() > 1,
        json[0] == '\\',
        json[1] != '<',
        !starts_with(json, mark()),
    ensures
        safe_json(json) == seq![json[0], json[1]] + safe_json(json.skip(2)),
        !starts_with(safe_json(json), mark()),
{
    let safe = safe_json(json);
    let tail = json.skip(2);
    let two = seq![json[0], json[1]];
    assert(json =~= two + tail);
    lemma_replace_concat(two, tail, '<', "\\u003c"@);
    lemma_safe_is(two);
    if starts_with(safe, mark()) {
        assert forall|i: int| 0 <= i < 6 implies safe[i] == #[trigger] mark()[i] by {
            assert(safe.subrange(0, 6)[i] == mark()[i]);
        }
        assert forall|i: int| 0 <= i < 4 implies #[trigger] safe_json(tail)[i] != '\\' by {
            assert(safe[i + 2] == safe_json(tail)[i]);
            assert(safe[i + 2] == mark()[i + 2]);
        }
        lemma_safe_prefix(tail, 4);
        assert forall|i: int| 0 <= i < 6 implies json[i] == #[trigger] mark()[i] by {
            assert(safe[i] == mark()[i]);
            if i >= 2 {
                assert(tail[i - 2] == safe_json(tail)[i - 2]);
                assert(safe[i] == safe_json(tail)[i - 2]);
                assert(json[i] == tail[i - 2]);
            }
        }
        assert(json.subrange(0, 6) =~= mark());
    }
}

/// Law: the data in the page is the data given: read as JSON, with `\u003c`
/// for `<`, the one says what the other does.
pub proof fn law_baked_data_reads_back(json: Seq<char>)
    requires
        escapes_no_bracket(json),
    ensures
        read_json(safe_json(json)) == read_json(json),
    decreases json.len(),
{
    let safe = safe_json(json);
    if json.len() == 0 {
    } else if starts_with(json, mark()) {
        let rest = json.skip(6);
        lemma_safe_marked(json);
        law_baked_data_reads_back(rest);
        assert(safe.subrange(0, 6) =~= mark());
        assert(safe.skip(6) =~= safe_json(rest));
    } else if json[0] == '\\' && json.len() > 1 {
        let rest = json.skip(2);
        lemma_safe_escape(json);
        law_baked_data_reads_back(rest);
        assert(safe.take(2) =~= json.take(2));
        assert(safe.skip(2) =~= safe_json(rest));
    } else {
        let rest = json.drop_first();
        lemma_safe_first(json);
        law_baked_data_reads_back(rest);
        if json[0] == '<' {
            reveal_strlit("\\u003c");
            assert("\\u003c"@ =~= mark());
            assert(safe.subrange(0, 6) =~= mark());
            assert(safe.skip(6) =~= safe_json(rest));
        } else {
            assert(safe[0] == json[0]);
            assert(safe.drop_first() =~= safe_json(rest));
            if starts_with(safe, mark()) {
                assert(safe.subrange(0, 6)[0] == mark()[0]);
                assert(rest =~= Seq::<char>::empty());
            }
            if json[0] == '\\' {
                assert(rest =~= Seq::<char>::empty());
                assert(safe =~= json);
            }
        }
    }
}

/// Puts the data into the page. Refused where the page has no place for it.
pub fn bake(page: &str, json: &str) -> (r: Result<String, Refusal>)
    ensures
        match r {
            Ok(out) => baked(page@, json@) != page@ && out@ == baked(page@, json@),
            Err(e) => baked(page@, json@) == page@ && e@ == RefusalView::NoSlot,
        },
{
    let safe = replaced_char(json, '<', "\\u003c");
    let block = copy("<script id=\"bldata\" type=\"application/json\">").concat(safe.as_str()).concat("</script>");
    let out = replaced(page, "<script id=\"bldata\" type=\"application/json\">null</script>", block.as_str());
    if same(out.as_str(), page) {
        return Err(Refusal::NoSlot);
    }
    Ok(out)
}

/// Where the page for the current scope is kept in sync: nowhere when
/// switched off, else where the environment says, else at the project's own
/// place, else at the one for the whole store.
pub open spec fn sync_target(
    off: bool,
    env: Option<Seq<char>>,
    project: Option<Seq<char>>,
    setting: Option<Seq<char>>,
) -> Option<Seq<char>> {
    if off {
        None
    } else if given(env) is Some {
        env
    } else if given(project) is Some {
        project
    } else {
        given(setting)
    }
}

fn pick_given(s: Option<&str>) -> (r: Option<String>)
    ensures
        opt_string(r) == given(opt_text(s)),
{
    match s {
        Some(t) => if t.is_empty() {
            None
        } else {
            Some(copy(t))
        },
        None => None,
    }
}

/// Where the page for the current scope is kept in sync.
pub fn autoexport_target(off: bool, env: Option<&str>, project: Option<&str>, setting: Option<&str>) -> (r: Option<String>)
    ensures
        opt_string(r) == sync_target(off, opt_text(env), opt_text(project), opt_text(setting)),
{
    if off {
        return None;
    }
    let e = pick_given(env);
    if e.is_some() {
        return e;
    }
    let p = pick_given(project);
    if p.is_some() {
        return p;
    }
    pick_given(setting)
}

/// The project's page is made stale by a write that touched a card of
/// `touched`, or of any project.
pub open spec fn made_stale(p: ProjectView, touched: Option<i64>) -> bool {
    p.autoexport.len() > 0 && (touched is None || touched == Some(p.id))
}

/// The pages of projects that a write makes stale, in listing order.
pub open spec fn stale_pages(projects: Seq<ProjectView>, order: Seq<usize>, touched: Option<i64>) -> Seq<
    (Seq<char>, Option<i64>),
>
    decreases order.len(),
{
    if order.len() == 0 {
        Seq::empty()
    } else {
        let before = stale_pages(projects, order.drop_last(), touched);
        let p = projects[order.last() as int];
        if made_stale(p, touched) {
            before.push((p.autoexport, Some(p.id)))
        } else {
            before
        }
    }
}

/// Every page a write makes stale, and the project it shows.
pub open spec fn stale_of(
    off: bool,
    env: Option<Seq<char>>,
    scoped: Option<i64>,
    touched: Option<i64>,
    projects: Seq<ProjectView>,
    setting: Option<Seq<char>>,
) -> Seq<(Seq<char>, Option<i64>)> {
    if off {
        Seq::empty()
    } else if given(env) is Some {
        seq![(env->0, scoped)]
    } else {
        let pages = stale_pages(projects, listing_order(projects), touched);
        match given(setting) {
            Some(s) => pages.push((s, None)),
            None => pages,
        }
    }
}

/// Law: a write refreshes the page of the project it touched and the page of
/// the whole store, wherever such pages are kept and none is named for this
/// one command.
pub proof fn law_write_refreshes_its_pages(
    env: Option<Seq<char>>,
    scoped: Option<i64>,
    touched: i64,
    projects: Seq<ProjectView>,
    setting: Option<Seq<char>>,
    at: int,
)
    requires
        projects.len() <= usize::MAX,
        given(env) is None,
        0 <= at < projects.len(),
        projects[at].id == touched,
    ensures
        projects[at].autoexport.len() > 0 ==> stale_of(false, env, scoped, Some(touched), projects, setting).contains(
            (projects[at].autoexport, Some(touched)),
        ),
        given(setting) is Some ==> stale_of(false, env, scoped, Some(touched), projects, setting).contains(
            (setting->0, None),
        ),
{
    let order = listing_order(projects);
    let pages = stale_pages(projects, order, Some(touched));
    let all = stale_of(false, env, scoped, Some(touched), projects, setting);
    if projects[at].autoexport.len() > 0 {
        lemma_order_exists(listing_keys(projects), Texts::Ascending);
        lemma_covers(order, projects.len() as int);
        assert(order.contains(at as usize));
        let k = choose|k: int| 0 <= k < order.len() && order[k] == at as usize;
        lemma_stale_pages(projects, order, Some(touched), k);
        let j = choose|j: int| 0 <= j < pages.len() && pages[j] == (projects[at].autoexport, Some(touched));
        assert(all[j] == (projects[at].autoexport, Some(touched)));
    }
    if given(setting) is Some {
        assert(all[pages.len() as int] == (setting->0, None::<i64>));
    }
}

proof fn lemma_stale_pages(projects: Seq<ProjectView>, order: Seq<usize>, touched: Option<i64>, k: int)
    requires
        0 <= k < order.len(),
        made_stale(projects[order[k] as int], touched),
    ensures
        stale_pages(projects, order, touched).contains(
            (projects[order[k] as int].autoexport, Some(projects[order[k] as int].id)),
        ),
    decreases order.len(),
{
    let page = (projects[order[k] as int].autoexport, Some(projects[order[k] as int].id));
    let before = stale_pages(projects, order.drop_last(), touched);
    let all = stale_pages(projects, order, touched);
    if k == order.len() - 1 {
        assert(all[before.len() as int] == page);
    } else {
        lemma_stale_pages(projects, order.drop_last(), touched, k);
        let j = choose|j: int| 0 <= j < before.len() && before[j] == page;
        assert(all[j] == page);
    }
}

pub open spec fn page_views(v: Seq<(String, Option<i64>)>) -> Seq<(Seq<char>, Option<i64>)> {
    v.map_values(|p: (String, Option<i64>)| (p.0@, p.1))
}

/// Every page a write makes stale, and the project it shows. `touched` is
/// the project of the card that was written, where it was one card.
pub fn stale_snapshots(
    off: bool,
    env: Option<&str>,
    scoped: Option<i64>,
    touched: Option<i64>,
    projects: &Vec<Project>,
    setting: Option<&str>,
) -> (out: Vec<(String, Option<i64>)>)
    ensures
        page_views(out@) == stale_of(
            off,
            opt_text(env),
            scoped,
            touched,
            project_views(projects@),
            opt_text(setting),
        ),
{
    let mut out: Vec<(String, Option<i64>)> = Vec::new();
    if off {
        assert(page_views(out@) =~= Seq::empty());
        return out;
    }
    match pick_given(env) {
        Some(e) => {
            out.push((e, scoped));
            assert(page_views(out@) =~= seq![(e@, scoped)]);
            return out;
        },
        None => {},
    }
    let ghost pv = project_views(projects@);
    let order = all(projects);
    let mut i: usize = 0;
    assert(page_views(out@) =~= stale_pages(pv, order@.take(0), touched));
    while i < order.len()
        invariant
            i <= order@.len(),
            pv == project_views(projects@),
            forall|k: int| 0 <= k < order@.len() ==> (#[trigger] order@[k]) < projects@.len(),
            page_views(out@) == stale_pages(pv, order@.take(i as int), touched),
        decreases order.len() - i,
    {
        assert(order@.take(i + 1).drop_last() =~= order@.take(i as int));
        assert(order@.take(i + 1).last() == order@[i as int]);
        assert(order@[i as int] < projects@.len());
        let p = &projects[order[i]];
        assert(pv[order@[i as int] as int] == p@);
        let hit = match touched {
            Some(t) => t == p.id,
            None => true,
        };
        if hit && !p.autoexport.as_str().is_empty() {
            let ghost before = page_views(out@);
            out.push((p.autoexport.clone(), Some(p.id)));
            assert(page_views(out@) =~= before.push((p@.autoexport, Some(p@.id))));
        }
        i = i + 1;
    }
    assert(order@.take(i as int) =~= order@);
    match pick_given(setting) {
        Some(s) => {
            let ghost before = page_views(out@);
            out.push((s, None));
            assert(page_views(out@) =~= before.push((s@, None)));
        },
        None => {},
    }
    out
}

} // verus!
