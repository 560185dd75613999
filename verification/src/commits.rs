//! The commits linked to a card, and what git says of a revision.

use vstd::prelude::*;

use crate::refusal::{Refusal, RefusalView};
use crate::text::{
    blank, copy, cut_once, cuts, is_blank, is_space, lemma_all_blank, lemma_blank_without_cr, lemma_nonblank_concat,
    lemma_nonblank_holds, lemma_nonblank_members, lemma_split_append, lemma_split_len, lemma_split_whole, lemma_trim_end,
    lines, lines_of, nonblank, occurs_at, pieces, same, split, split_once, strip_cr, texts, trim, trim_end, trimmed,
    trimmed_end, Sep,
};

verus! {

/// The revision asked for; `HEAD` where none is named.
pub open spec fn revision_of(rev: Seq<char>) -> Seq<char> {
    if blank(rev) {
        "HEAD"@
    } else {
        trim(rev)
    }
}

/// The first line of what git complained of.
pub open spec fn complaint(stderr: Seq<char>) -> Seq<char> {
    let ls = lines(trim(stderr));
    if ls.len() > 0 {
        ls[0]
    } else {
        "not a git repository?"@
    }
}

/// The commit and its subject in a line of `sha<TAB>subject`.
pub open spec fn sha_and_subject(line: Seq<char>) -> (Seq<char>, Seq<char>) {
    match split_once(line, '\t') {
        Some(pair) => pair,
        None => (line, Seq::empty()),
    }
}

/// The commit git found, or why there is none.
pub open spec fn found_commit(success: bool, stdout: Seq<char>, stderr: Seq<char>, rev: Seq<char>) -> Result<
    (Seq<char>, Seq<char>),
    RefusalView,
> {
    let (sha, subject) = sha_and_subject(trim(stdout));
    if !success {
        Err(RefusalView::GitUnresolved(rev, complaint(stderr)))
    } else if sha.len() == 0 {
        Err(RefusalView::GitNoCommit(rev))
    } else {
        Ok((sha, subject))
    }
}

/// The commit a line of a card's commits names.
pub open spec fn line_sha(line: Seq<char>) -> Seq<char> {
    split(line, Sep::Char('\t'))[0]
}

/// The commit is linked already.
pub open spec fn is_linked(commits: Seq<char>, sha: Seq<char>) -> bool {
    exists|k: int| 0 <= k < lines(commits).len() && line_sha(#[trigger] lines(commits)[k]) == sha
}

/// The commits linked, in order: what each line that is not blank names.
pub open spec fn shas(commits: Seq<char>) -> Seq<Seq<char>> {
    nonblank(lines(commits)).map_values(|l: Seq<char>| line_sha(l))
}

/// The commits with one more, unless it is linked already.
pub open spec fn with_commit(commits: Seq<char>, sha: Seq<char>, subject: Seq<char>) -> Seq<char> {
    let entry = sha + "\t"@ + subject;
    if is_linked(commits, sha) {
        commits
    } else if blank(commits) {
        entry
    } else {
        trim_end(commits) + "\n"@ + entry
    }
}

/// The revision asked for; `HEAD` where none is named.
pub fn revision(rev: &str) -> (out: String)
    ensures
        out@ == revision_of(rev@),
{
    if is_blank(rev) {
        copy("HEAD")
    } else {
        trimmed(rev)
    }
}

/// The commit and its subject in a line of `sha<TAB>subject`.
pub fn split_commit_line(line: &str) -> (r: (String, String))
    ensures
        (r.0@, r.1@) == sha_and_subject(line@),
{
    match cut_once(line, '\t') {
        Some(pair) => pair,
        None => (copy(line), String::new()),
    }
}

/// The commit git found for a revision, from what git printed.
pub fn resolve_commit(success: bool, stdout: &str, stderr: &str, rev: &str) -> (r: Result<(String, String), Refusal>)
    ensures
        match r {
            Ok((sha, subject)) => found_commit(success, stdout@, stderr@, rev@) == Ok::<
                (Seq<char>, Seq<char>),
                RefusalView,
            >((sha@, subject@)),
            Err(e) => found_commit(success, stdout@, stderr@, rev@) == Err::<(Seq<char>, Seq<char>), RefusalView>(e@),
        },
{
    if !success {
        let said = trimmed(stderr);
        let ls = lines_of(said.as_str());
        assert(texts(ls@).len() == ls@.len());
        let why = if ls.len() > 0 {
            assert(texts(ls@)[0] == ls@[0]@);
            ls[0].clone()
        } else {
            copy("not a git repository?")
        };
        return Err(Refusal::GitUnresolved(copy(rev), why));
    }
    let line = trimmed(stdout);
    let (sha, subject) = split_commit_line(line.as_str());
    if sha.as_str().is_empty() {
        return Err(Refusal::GitNoCommit(copy(rev)));
    }
    Ok((sha, subject))
}

fn holds_commit(commits: &str, sha: &str) -> (r: bool)
    ensures
        r == is_linked(commits@, sha@),
{
    let ls = lines_of(commits);
    let ghost all = lines(commits@);
    let mut i: usize = 0;
    while i < ls.len()
        invariant
            i <= ls@.len(),
            texts(ls@) == all,
            all == lines(commits@),
            forall|k: int| 0 <= k < i ==> line_sha(#[trigger] all[k]) != sha@,
        decreases ls.len() - i,
    {
        assert(all[i as int] == ls@[i as int]@);
        let fields = pieces(ls[i].as_str(), Sep::Char('\t'));
        assert(texts(fields@)[0] == fields@[0]@);
        if same(fields[0].as_str(), sha) {
            return true;
        }
        i = i + 1;
    }
    assert(texts(ls@).len() == ls@.len());
    false
}

/// Appends `sha<TAB>subject` unless that commit is linked already.
pub fn link_commit(existing: &str, sha: &str, subject: &str) -> (out: String)
    ensures
        out@ == with_commit(existing@, sha@, subject@),
{
    if holds_commit(existing, sha) {
        return copy(existing);
    }
    let entry = copy(sha).concat("\t").concat(subject);
    if is_blank(existing) {
        entry
    } else {
        trimmed_end(existing).concat("\n").concat(entry.as_str())
    }
}

/// Law: a commit once linked is linked, and linking it again changes
/// nothing.
pub proof fn law_link_commit_idempotent(commits: Seq<char>, sha: Seq<char>, subject: Seq<char>, other: Seq<char>)
    requires
        !sha.contains('\n'),
        !sha.contains('\t'),
        !subject.contains('\n'),
    ensures
        is_linked(with_commit(commits, sha, subject), sha),
        with_commit(with_commit(commits, sha, subject), sha, other) == with_commit(commits, sha, subject),
{
    let entry = sha + "\t"@ + subject;
    reveal_strlit("\t");
    reveal_strlit("\n");
    assert("\t"@ =~= seq!['\t']);
    assert("\n"@ =~= seq!['\n']);
    let all = with_commit(commits, sha, subject);
    if !is_linked(commits, sha) {
        assert forall|i: int| 0 <= i < entry.len() implies !cuts(Sep::Char('\n'), #[trigger] entry[i]) by {
            if i < sha.len() {
                assert(sha.contains(sha[i]));
            } else if i > sha.len() {
                assert(subject.contains(subject[i - sha.len() - 1]));
                assert(entry[i] == subject[i - sha.len() - 1]);
            }
        }
        if blank(commits) {
            lemma_split_whole(entry, Sep::Char('\n'));
        } else {
            assert(all =~= trim_end(commits) + seq!['\n'] + entry);
            lemma_split_append(trim_end(commits), '\n', entry, Sep::Char('\n'));
        }
        let ps = split(all, Sep::Char('\n'));
        assert(ps.last() == entry);
        assert(entry.len() > 0);
        let ls = lines(all);
        assert(ls.last() == entry);
        lemma_first_field(sha, subject);
        assert(line_sha(ls[ls.len() - 1]) == sha);
    }
}

/// The first field of a line is what stands before its first tab.
proof fn lemma_first_field(sha: Seq<char>, rest: Seq<char>)
    requires
        !sha.contains('\t'),
    ensures
        split(sha + seq!['\t'] + rest, Sep::Char('\t'))[0] == sha,
        split(sha + seq!['\t'] + rest, Sep::Char('\t')).len() >= 2,
    decreases rest.len(),
{
    let s = sha + seq!['\t'] + rest;
    if rest.len() == 0 {
        assert forall|i: int| 0 <= i < sha.len() implies !cuts(Sep::Char('\t'), #[trigger] sha[i]) by {
            assert(sha.contains(sha[i]));
        }
        lemma_split_whole(sha, Sep::Char('\t'));
        assert(s.drop_last() =~= sha);
    } else {
        lemma_first_field(sha, rest.drop_last());
        assert(s.drop_last() =~= sha + seq!['\t'] + rest.drop_last());
    }
}

/// What a text keeps of its pieces when white space at its end goes: those up
/// to the last one that is not blank, which is trimmed.
proof fn lemma_trim_end_pieces(s: Seq<char>) -> (j: int)
    requires
        !blank(s),
    ensures
        ({
            let p = split(s, Sep::Char('\n'));
            &&& 0 <= j < p.len()
            &&& !blank(p[j])
            &&& forall|k: int| j < k < p.len() ==> blank(#[trigger] p[k])
            &&& split(trim_end(s), Sep::Char('\n')) == p.take(j).push(trim_end(p[j]))
        }),
    decreases s.len(),
{
    let nl = Sep::Char('\n');
    let p = split(s, nl);
    let rest = s.drop_last();
    let q = split(rest, nl);
    lemma_split_len(rest, nl);
    if !is_space(s.last()) {
        let j = p.len() - 1;
        assert(p[j] == q.last().push(s.last()));
        assert(p[j][p[j].len() - 1] == s.last());
        assert(p.take(j).push(p[j]) =~= p);
        j
    } else {
        if blank(rest) {
            assert forall|i: int| 0 <= i < s.len() implies is_space(#[trigger] s[i]) by {
                if i < rest.len() {
                    assert(s[i] == rest[i]);
                }
            }
        }
        let j = lemma_trim_end_pieces(rest);
        if s.last() == '\n' {
            assert(p == q.push(Seq::empty()));
            assert(p.take(j) =~= q.take(j));
        } else {
            let last = q.len() - 1;
            assert(p == q.drop_last().push(q.last().push(s.last())));
            assert(p.take(j) =~= q.take(j));
            if j == last {
                assert(p[j].drop_last() =~= q[j]);
                let i = choose|i: int| 0 <= i < q[j].len() && !is_space(#[trigger] q[j][i]);
                assert(p[j][i] == q[j][i]);
            } else {
                assert(blank(q[last]));
                assert forall|i: int| 0 <= i < p[last].len() implies is_space(#[trigger] p[last][i]) by {
                    if i < q[last].len() {
                        assert(p[last][i] == q[last][i]);
                    }
                }
                assert(p[j] == q[j]);
            }
            assert forall|k: int| j < k < p.len() implies blank(#[trigger] p[k]) by {
                if k < last {
                    assert(p[k] == q[k]);
                }
            }
        }
        j
    }
}

/// A line whose first field is not blank is not.
proof fn lemma_blank_sha(line: Seq<char>)
    requires
        blank(line),
    ensures
        blank(line_sha(line)),
    decreases line.len(),
{
    let tab = Sep::Char('\t');
    if line.len() > 0 {
        let rest = line.drop_last();
        assert forall|i: int| 0 <= i < rest.len() implies is_space(#[trigger] rest[i]) by {
            assert(rest[i] == line[i]);
        }
        lemma_blank_sha(rest);
        lemma_split_len(rest, tab);
        let (p, q) = (split(line, tab), split(rest, tab));
        assert(is_space(line[line.len() - 1]));
        if p[0] != q[0] {
            assert(p[0] == q[0].push(line.last()));
            assert forall|i: int| 0 <= i < p[0].len() implies is_space(#[trigger] p[0][i]) by {
                if i < q[0].len() {
                    assert(p[0][i] == q[0][i]);
                }
            }
        }
    }
}

/// The last line keeps the commit it names when white space at its end goes.
pub open spec fn last_line_keeps(commits: Seq<char>) -> bool {
    let ls = nonblank(lines(commits));
    ls.len() > 0 ==> line_sha(trim_end(ls.last())) == line_sha(ls.last())
}

/// The commits that a text and one entry more name.
proof fn lemma_shas_after(commits: Seq<char>, entry: Seq<char>)
    requires
        !blank(commits),
        !blank(entry),
        !entry.contains('\n'),
        last_line_keeps(commits),
    ensures
        shas(trim_end(commits) + "\n"@ + entry) == shas(commits).push(line_sha(entry)),
{
    reveal_strlit("\n");
    assert("\n"@ =~= seq!['\n']);
    let nl = Sep::Char('\n');
    let cr = |q: Seq<char>| strip_cr(q);
    let sha = |l: Seq<char>| line_sha(l);
    let p = split(commits, nl);
    let j = lemma_trim_end_pieces(commits);
    let all = trim_end(commits) + "\n"@ + entry;
    assert forall|i: int| 0 <= i < entry.len() implies !cuts(nl, #[trigger] entry[i]) by {
        assert(entry.contains(entry[i]));
    }
    lemma_split_append(trim_end(commits), '\n', entry, nl);
    let t = trim_end(p[j]);
    lemma_trim_end(p[j]);
    let kept = p.take(j).push(t);
    let ps = split(all, nl);
    assert(ps == kept.push(entry));
    assert(ps.drop_last() =~= kept);
    assert(entry.len() > 0);
    // the lines before the last one, the last one, and the blank ones after it
    let front = p.take(j).map_values(cr);
    assert(strip_cr(t) == t);
    assert(kept.map_values(cr) =~= front.push(t));
    assert(lines(all) =~= front + seq![t, entry]);
    lemma_nonblank_concat(front, seq![t, entry]);
    assert(!blank(t));
    let two = seq![t, entry];
    assert forall|k: int| 0 <= k < two.len() implies !blank(#[trigger] two[k]) by {}
    crate::text::lemma_nonblank_keeps(two);
    let l = if j < p.len() - 1 { strip_cr(p[j]) } else { p[j] };
    lemma_blank_without_cr(p[j]);
    let after = lines(commits).skip(j + 1);
    assert(lines(commits).take(j) =~= front);
    assert(p[j].len() > 0);
    assert(lines(commits)[j] == l);
    assert(lines(commits) =~= front + (seq![l] + after));
    assert forall|k: int| 0 <= k < after.len() implies blank(#[trigger] after[k]) by {
        let at = j + 1 + k;
        assert(blank(p[at]));
        lemma_blank_without_cr(p[at]);
        assert(after[k] == p[at] || after[k] == strip_cr(p[at]));
    }
    lemma_all_blank(after);
    lemma_nonblank_concat(seq![l], after);
    let one = seq![l];
    assert forall|k: int| 0 <= k < one.len() implies !blank(#[trigger] one[k]) by {}
    crate::text::lemma_nonblank_keeps(one);
    lemma_nonblank_concat(front, seq![l] + after);
    let ls = nonblank(lines(commits));
    assert(ls =~= nonblank(front).push(l));
    if l != p[j] {
        assert(p[j].drop_last() =~= l);
    }
    assert(trim_end(l) == t);
    assert(line_sha(t) == line_sha(l));
    assert(nonblank(lines(all)) =~= nonblank(front).push(t).push(entry));
    assert(shas(all) =~= nonblank(front).map_values(sha).push(line_sha(t)).push(line_sha(entry)));
    assert(shas(commits) =~= nonblank(front).map_values(sha).push(line_sha(l)));
}

/// Law: linking a commit puts it after those that were linked and keeps
/// them, unless it was linked already, when nothing changes; so no commit is
/// ever linked twice. A last line that names its commit with white space
/// behind it is the one thing that does not stay.
pub proof fn law_link_commit_appends(commits: Seq<char>, sha: Seq<char>, subject: Seq<char>)
    requires
        sha.len() > 0,
        forall|i: int| 0 <= i < sha.len() ==> !is_space(#[trigger] sha[i]),
        !subject.contains('\n'),
        is_linked(commits, sha) || last_line_keeps(commits),
    ensures
        is_linked(commits, sha) == shas(commits).contains(sha),
        is_linked(commits, sha) ==> with_commit(commits, sha, subject) == commits,
        !is_linked(commits, sha) ==> {
            let r = with_commit(commits, sha, subject);
            let entry = sha + "\t"@ + subject;
            shas(r) == shas(commits).push(sha) && occurs_at(r, entry, r.len() - entry.len())
        },
        shas(commits).no_duplicates() ==> shas(with_commit(commits, sha, subject)).no_duplicates(),
{
    reveal_strlit("\t");
    reveal_strlit("\n");
    assert("\t"@ =~= seq!['\t']);
    let all = lines(commits);
    let named = nonblank(all);
    if is_linked(commits, sha) {
        let k = choose|k: int| 0 <= k < all.len() && line_sha(#[trigger] all[k]) == sha;
        if blank(all[k]) {
            lemma_blank_sha(all[k]);
            assert(is_space(sha[0]));
        }
        lemma_nonblank_holds(all, k);
        let j = choose|j: int| 0 <= j < named.len() && named[j] == all[k];
        assert(shas(commits)[j] == sha);
    }
    if shas(commits).contains(sha) {
        let j = choose|j: int| 0 <= j < shas(commits).len() && shas(commits)[j] == sha;
        lemma_nonblank_members(all);
        assert(all.contains(named[j]));
        let k = choose|k: int| 0 <= k < all.len() && all[k] == named[j];
        assert(line_sha(all[k]) == sha);
    }
    if !is_linked(commits, sha) {
        let entry = sha + "\t"@ + subject;
        let r = with_commit(commits, sha, subject);
        assert(!is_space(sha[0]));
        assert(entry[0] == sha[0]);
        assert(!blank(entry));
        assert forall|i: int| 0 <= i < entry.len() implies #[trigger] entry[i] != '\n' by {
            if i < sha.len() {
                assert(entry[i] == sha[i]);
            } else if i > sha.len() {
                assert(entry[i] == subject[i - sha.len() - 1]);
                assert(!subject.contains('\n'));
            }
        }
        assert(!entry.contains('\n'));
        if sha.contains('\t') {
            let i = choose|i: int| 0 <= i < sha.len() && sha[i] == '\t';
            assert(!is_space(sha[i]));
        }
        lemma_first_field(sha, subject);
        assert(line_sha(entry) == sha);
        assert(r.subrange(r.len() - entry.len(), r.len() as int) =~= entry);
        if blank(commits) {
            lemma_blank_lines(commits);
            assert(shas(commits) =~= Seq::<Seq<char>>::empty());
            lemma_split_whole(entry, Sep::Char('\n'));
            assert(lines(entry) =~= seq![entry]);
            let one = seq![entry];
            assert forall|k: int| 0 <= k < one.len() implies !blank(#[trigger] one[k]) by {}
            crate::text::lemma_nonblank_keeps(one);
            assert(shas(r) =~= seq![sha]);
            assert(shas(r) =~= shas(commits).push(sha));
        } else {
            lemma_shas_after(commits, entry);
        }
    }
}

/// A blank text has only blank lines.
proof fn lemma_blank_lines(s: Seq<char>)
    requires
        blank(s),
    ensures
        nonblank(lines(s)) == Seq::<Seq<char>>::empty(),
{
    let p = split(s, Sep::Char('\n'));
    let ls = lines(s);
    lemma_blank_pieces(s);
    assert forall|k: int| 0 <= k < ls.len() implies blank(#[trigger] ls[k]) by {
        assert(blank(p[k]));
        lemma_blank_without_cr(p[k]);
    }
    lemma_all_blank(ls);
}

proof fn lemma_blank_pieces(s: Seq<char>)
    requires
        blank(s),
    ensures
        forall|k: int| 0 <= k < split(s, Sep::Char('\n')).len() ==> blank(#[trigger] split(s, Sep::Char('\n'))[k]),
    decreases s.len(),
{
    let nl = Sep::Char('\n');
    let p = split(s, nl);
    if s.len() > 0 {
        let rest = s.drop_last();
        assert forall|i: int| 0 <= i < rest.len() implies is_space(#[trigger] rest[i]) by {
            assert(rest[i] == s[i]);
        }
        lemma_blank_pieces(rest);
        lemma_split_len(rest, nl);
        let q = split(rest, nl);
        assert(is_space(s[s.len() - 1]));
        assert forall|k: int| 0 <= k < p.len() implies blank(#[trigger] p[k]) by {
            if k < q.len() {
                assert(blank(q[k]));
                if p[k] != q[k] {
                    assert(p[k] == q[k].push(s.last()));
                    assert forall|i: int| 0 <= i < p[k].len() implies is_space(#[trigger] p[k][i]) by {
                        if i < q[k].len() {
                            assert(p[k][i] == q[k][i]);
                        }
                    }
                }
            }
        }
    }
}

} // verus!
