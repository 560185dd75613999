//! File paths as text: their last names, and how two are joined.

use vstd::prelude::*;

use crate::text::{copy, pieces, same, split, starts_with, texts, Sep};

verus! {

/// The pieces that name something: not empty, and not `.`.
pub open spec fn naming(v: Seq<Seq<char>>) -> Seq<Seq<char>>
    decreases v.len(),
{
    if v.len() == 0 {
        v
    } else if v.last().len() == 0 || v.last() == "."@ {
        naming(v.drop_last())
    } else {
        naming(v.drop_last()).push(v.last())
    }
}

/// The names a path leads through.
pub open spec fn steps(path: Seq<char>) -> Seq<Seq<char>> {
    naming(split(path, Sep::Char('/')))
}

/// The name at position `k`, unless it only leads one level up.
pub open spec fn name_at(v: Seq<Seq<char>>, k: int) -> Option<Seq<char>> {
    if 0 <= k < v.len() && v[k] != ".."@ {
        Some(v[k])
    } else {
        None
    }
}

/// The last name of a path.
pub open spec fn base_name(path: Seq<char>) -> Option<Seq<char>> {
    name_at(steps(path), steps(path).len() - 1)
}

/// The last name of the directory a path is in.
pub open spec fn parent_name(path: Seq<char>) -> Option<Seq<char>> {
    name_at(steps(path), steps(path).len() - 2)
}

/// `rest` as seen from `base`.
pub open spec fn path_join(base: Seq<char>, rest: Seq<char>) -> Seq<char> {
    if starts_with(rest, "/"@) || base.len() == 0 {
        rest
    } else if base.last() == '/' {
        base + rest
    } else {
        base + "/"@ + rest
    }
}

/// A short label for a database: its directory's name and its own.
pub open spec fn short_label(path: Seq<char>) -> Seq<char> {
    let file = match base_name(path) {
        Some(name) => name,
        None => path,
    };
    match parent_name(path) {
        Some(dir) => dir + "/"@ + file,
        None => file,
    }
}

/// Optional text as the contracts speak of it.
pub open spec fn opt_string(s: Option<String>) -> Option<Seq<char>> {
    match s {
        Some(t) => Some(t@),
        None => None,
    }
}

fn steps_of(path: &str) -> (out: Vec<String>)
    ensures
        texts(out@) == steps(path@),
{
    let all = pieces(path, Sep::Char('/'));
    let ghost av = texts(all@);
    let mut out: Vec<String> = Vec::new();
    let mut i: usize = 0;
    assert(texts(out@) =~= naming(av.take(0)));
    while i < all.len()
        invariant
            i <= all@.len(),
            av == texts(all@),
            texts(out@) == naming(av.take(i as int)),
        decreases all.len() - i,
    {
        assert(av.take(i + 1).drop_last() =~= av.take(i as int));
        assert(av.take(i + 1).last() == all@[i as int]@);
        if !all[i].as_str().is_empty() && !same(all[i].as_str(), ".") {
            let ghost before = texts(out@);
            out.push(all[i].clone());
            assert(texts(out@) =~= before.push(av[i as int]));
        }
        i = i + 1;
    }
    assert(av.take(i as int) =~= av);
    out
}

fn named_step(v: &Vec<String>, back: usize) -> (r: Option<String>)
    ensures
        opt_string(r) == name_at(texts(v@), v@.len() - back),
{
    if back == 0 || back > v.len() {
        return None;
    }
    let k: usize = v.len() - back;
    assert(texts(v@)[k as int] == v@[k as int]@);
    if same(v[k].as_str(), "..") {
        None
    } else {
        Some(v[k].clone())
    }
}

/// The last name of a path.
pub fn file_name(path: &str) -> (r: Option<String>)
    ensures
        opt_string(r) == base_name(path@),
{
    let v = steps_of(path);
    assert(texts(v@).len() == v@.len());
    named_step(&v, 1)
}

/// The last name of the directory a path is in.
pub fn dir_name(path: &str) -> (r: Option<String>)
    ensures
        opt_string(r) == parent_name(path@),
{
    let v = steps_of(path);
    assert(texts(v@).len() == v@.len());
    named_step(&v, 2)
}

/// `rest` as seen from `base`.
pub fn join_path(base: &str, rest: &str) -> (out: String)
    ensures
        out@ == path_join(base@, rest@),
{
    if crate::text::begins(rest, "/") || base.is_empty() {
        return copy(rest);
    }
    let v = crate::text::chars_of(base);
    assert(v@.len() > 0);
    if v[v.len() - 1] == '/' {
        copy(base).concat(rest)
    } else {
        copy(base).concat("/").concat(rest)
    }
}

/// A short label for a database: its directory's name and its own.
pub fn source_label(path: &str) -> (out: String)
    ensures
        out@ == short_label(path@),
{
    let file = match file_name(path) {
        Some(name) => name,
        None => copy(path),
    };
    match dir_name(path) {
        Some(dir) => copy(dir.as_str()).concat("/").concat(file.as_str()),
        None => file,
    }
}

} // verus!
