//! Git integration: reading a repository's branch, cleanliness and distance from its
//! upstream, listing the branches one can switch to, and the decisions of a branch switch.
//!
//! Running `git` happens around the library; these functions take what it printed and
//! whether it succeeded, and decide what the commands report.

use vstd::prelude::*;
use crate::commands::views;
use crate::error::AppError;
use crate::text::{
    chars_of,
    copy_range,
    first_index_of,
    has_suffix,
    lines_of,
    seq_lt,
    split_lines,
    string_from_chars,
    trim,
    trim_chars,
    trim_str,
};

verus! {

/// Git status of one repository. Only reported for repositories that are git working trees.
#[derive(Debug)]
pub struct RepoGitStatus {
    pub repository_id: i64,
    pub branch: String,
    pub dirty: bool,
    pub ahead: i64,
    pub behind: i64,
}

impl RepoGitStatus {
    /// A copy with the same contents.
    pub fn copy(&self) -> (r: RepoGitStatus)
        ensures
            r == *self,
    {
        RepoGitStatus {
            repository_id: self.repository_id,
            branch: self.branch.clone(),
            dirty: self.dirty,
            ahead: self.ahead,
            behind: self.behind,
        }
    }
}

/// A branch one can switch to; `is_current` marks the entry named like the current branch
/// (a detached HEAD reads as `HEAD`, which names no branch).
#[derive(Debug)]
pub struct BranchEntry {
    pub name: String,
    pub is_current: bool,
}

// ── Reading git's output ──────────────────────────────────────────────────────

/// The text `String::from_utf8_lossy` makes of some bytes: valid UTF-8 decoded, each
/// invalid sequence replaced by U+FFFD.
pub uninterp spec fn utf8_lossy(bytes: Seq<u8>) -> Seq<char>;

/// `String::from_utf8_lossy`, owned. Trusted: the text is the decoding of exactly these
/// bytes, named `utf8_lossy`.
#[verifier::external_body]
fn text_of(bytes: &[u8]) -> (r: String)
    ensures
        r@ == utf8_lossy(bytes@),
{
    String::from_utf8_lossy(bytes).into_owned()
}

/// The trimmed text of some output.
pub open spec fn trimmed_output(bytes: Seq<u8>) -> Seq<char> {
    trim(utf8_lossy(bytes))
}

fn trimmed_text_of(bytes: &[u8]) -> (r: String)
    ensures
        r@ == trimmed_output(bytes@),
{
    let t = text_of(bytes);
    trim_str(t.as_str())
}

// ── Branches ──────────────────────────────────────────────────────────────────

/// The branch names of `git for-each-ref` output over `refs/heads`: each line, trimmed,
/// that is not empty.
pub open spec fn local_names(lines: Seq<Seq<char>>) -> Seq<Seq<char>>
    decreases lines.len(),
{
    if lines.len() == 0 {
        Seq::empty()
    } else {
        let t = trim(lines.last());
        if t.len() > 0 {
            local_names(lines.drop_last()).push(t)
        } else {
            local_names(lines.drop_last())
        }
    }
}

/// The plain name a line of `git for-each-ref` output over `refs/remotes` gives: the line
/// is trimmed; empty lines and `<remote>/HEAD` give none; otherwise the text after the
/// first `/` (a line without `/` gives none).
pub open spec fn remote_name(line: Seq<char>) -> Option<Seq<char>> {
    let t = trim(line);
    if t.len() == 0 || has_suffix(t, "/HEAD"@) {
        None
    } else {
        match first_index_of(t, '/') {
            Some(i) => Some(t.subrange(i + 1, t.len() as int)),
            None => None,
        }
    }
}

/// The plain names of the remote branches, in output order.
pub open spec fn remote_names(lines: Seq<Seq<char>>) -> Seq<Seq<char>>
    decreases lines.len(),
{
    if lines.len() == 0 {
        Seq::empty()
    } else {
        match remote_name(lines.last()) {
            Some(n) => remote_names(lines.drop_last()).push(n),
            None => remote_names(lines.drop_last()),
        }
    }
}

/// The local names followed by each remote name not already listed.
pub open spec fn merged_names(local: Seq<Seq<char>>, remote: Seq<Seq<char>>) -> Seq<Seq<char>>
    decreases remote.len(),
{
    if remote.len() == 0 {
        local
    } else {
        let m = merged_names(local, remote.drop_last());
        if m.contains(remote.last()) {
            m
        } else {
            m.push(remote.last())
        }
    }
}

/// The branch names in the text of `git for-each-ref` output over `refs/heads`.
pub fn local_branch_names(text: &str) -> (r: Vec<String>)
    ensures
        views(r@) == local_names(lines_of(text@)),
{
    let lines = split_lines(text);
    let ghost all = lines@.map_values(|l: Vec<char>| l@);
    let mut out: Vec<String> = Vec::new();
    let mut i: usize = 0;
    while i < lines.len()
        invariant
            0 <= i <= lines@.len(),
            all == lines@.map_values(|l: Vec<char>| l@),
            all == lines_of(text@),
            views(out@) == local_names(all.take(i as int)),
        decreases lines.len() - i,
    {
        proof {
            assert(all.take(i as int + 1).drop_last() =~= all.take(i as int));
            assert(all.take(i as int + 1).last() == lines@[i as int]@);
        }
        let t = trim_chars(&lines[i]);
        if t.len() > 0 {
            out.push(string_from_chars(t.as_slice()));
            proof {
                assert(views(out@) =~= local_names(all.take(i as int)).push(t@));
            }
        }
        i += 1;
    }
    proof {
        assert(all.take(all.len() as int) =~= all);
    }
    out
}

/// The plain name of a remote branch line, if it gives one.
fn remote_branch_name(line: &Vec<char>) -> (r: Option<String>)
    ensures
        match r {
            Some(n) => remote_name(line@) == Some(n@),
            None => remote_name(line@) is None,
        },
{
    let t = trim_chars(line);
    if t.len() == 0 {
        return None;
    }
    let head: [char; 5] = ['/', 'H', 'E', 'A', 'D'];
    proof {
        reveal_strlit("/HEAD");
        assert(head@ =~= "/HEAD"@);
    }
    if crate::text::ends_with(t.as_slice(), head.as_slice()) {
        return None;
    }
    match crate::text::find_char(t.as_slice(), '/') {
        Some(i) => {
            let name = copy_range(t.as_slice(), i + 1, t.len());
            Some(string_from_chars(name.as_slice()))
        },
        None => None,
    }
}

/// The plain remote branch names in the text of `git for-each-ref` output over
/// `refs/remotes`.
pub fn remote_branch_names(text: &str) -> (r: Vec<String>)
    ensures
        views(r@) == remote_names(lines_of(text@)),
{
    let lines = split_lines(text);
    let ghost all = lines@.map_values(|l: Vec<char>| l@);
    let mut out: Vec<String> = Vec::new();
    let mut i: usize = 0;
    while i < lines.len()
        invariant
            0 <= i <= lines@.len(),
            all == lines@.map_values(|l: Vec<char>| l@),
            all == lines_of(text@),
            views(out@) == remote_names(all.take(i as int)),
        decreases lines.len() - i,
    {
        proof {
            assert(all.take(i as int + 1).drop_last() =~= all.take(i as int));
            assert(all.take(i as int + 1).last() == lines@[i as int]@);
        }
        match remote_branch_name(&lines[i]) {
            Some(n) => {
                out.push(n);
                proof {
                    assert(views(out@) =~= remote_names(all.take(i as int)).push(out@.last()@));
                }
            },
            None => {},
        }
        i += 1;
    }
    proof {
        assert(all.take(all.len() as int) =~= all);
    }
    out
}

fn list_contains(names: &Vec<String>, s: &str) -> (r: bool)
    ensures
        r == views(names@).contains(s@),
{
    let mut k: usize = 0;
    while k < names.len()
        invariant
            0 <= k <= names@.len(),
            forall|q: int| 0 <= q < k ==> names@[q]@ != s@,
        decreases names.len() - k,
    {
        if crate::text::str_eq(names[k].as_str(), s) {
            proof {
                assert(views(names@)[k as int] == s@);
            }
            return true;
        }
        k += 1;
    }
    proof {
        if views(names@).contains(s@) {
            let q = choose|q: int| 0 <= q < views(names@).len() && views(names@)[q] == s@;
            assert(names@[q]@ == s@);
        }
    }
    false
}

/// The local names followed by the remote names not already present.
fn merge_branch_names(local: Vec<String>, remote: &Vec<String>) -> (r: Vec<String>)
    ensures
        views(r@) == merged_names(views(local@), views(remote@)),
{
    let mut names = local;
    let ghost l = views(names@);
    let ghost rv = views(remote@);
    let mut i: usize = 0;
    while i < remote.len()
        invariant
            0 <= i <= remote@.len(),
            rv == views(remote@),
            views(names@) == merged_names(l, rv.take(i as int)),
        decreases remote.len() - i,
    {
        proof {
            assert(rv.take(i as int + 1).drop_last() =~= rv.take(i as int));
            assert(rv.take(i as int + 1).last() == remote@[i as int]@);
        }
        if !list_contains(&names, remote[i].as_str()) {
            names.push(remote[i].clone());
            proof {
                assert(views(names@) =~= merged_names(l, rv.take(i as int)).push(remote@[i as int]@));
            }
        }
        i += 1;
    }
    proof {
        assert(rv.take(rv.len() as int) =~= rv);
    }
    names
}

/// The sort key of a branch: the current branch first, then `main`, `master`, `develop`
/// in that order, then every other branch alphabetically.
pub open spec fn sort_key(name: Seq<char>, current: Seq<char>) -> (int, int, Seq<char>) {
    if name == current {
        (0, 0, Seq::empty())
    } else if name == "main"@ {
        (1, 0, Seq::empty())
    } else if name == "master"@ {
        (1, 1, Seq::empty())
    } else if name == "develop"@ {
        (1, 2, Seq::empty())
    } else {
        (2, 0, name)
    }
}

/// The order of sort keys: by the first part, then the second, then the name.
pub open spec fn key_lt(a: (int, int, Seq<char>), b: (int, int, Seq<char>)) -> bool {
    a.0 < b.0 || (a.0 == b.0 && (a.1 < b.1 || (a.1 == b.1 && seq_lt(a.2, b.2))))
}

/// Computes a branch's sort key.
pub fn branch_sort_key(name: &str, current: &str) -> (r: (u8, usize, String))
    ensures
        (r.0 as int, r.1 as int, r.2@) == sort_key(name@, current@),
{
    if crate::text::str_eq(name, current) {
        (0, 0, String::new())
    } else if crate::text::str_eq(name, "main") {
        (1, 0, String::new())
    } else if crate::text::str_eq(name, "master") {
        (1, 1, String::new())
    } else if crate::text::str_eq(name, "develop") {
        (1, 2, String::new())
    } else {
        (2, 0, crate::text::owned(name))
    }
}

fn key_less(a: &(u8, usize, String), b: &(u8, usize, String)) -> (r: bool)
    ensures
        r == key_lt((a.0 as int, a.1 as int, a.2@), (b.0 as int, b.1 as int, b.2@)),
{
    if a.0 != b.0 {
        a.0 < b.0
    } else if a.1 != b.1 {
        a.1 < b.1
    } else {
        let ca = chars_of(a.2.as_str());
        let cb = chars_of(b.2.as_str());
        crate::text::chars_lt(ca.as_slice(), cb.as_slice())
    }
}

proof fn lemma_key_lt_trichotomy(a: (int, int, Seq<char>), b: (int, int, Seq<char>))
    ensures
        key_lt(a, b) || key_lt(b, a) || a == b,
        !(key_lt(a, b) && key_lt(b, a)),
{
    crate::text::lemma_seq_lt_trichotomy(a.2, b.2);
}

proof fn lemma_key_lt_transitive(
    a: (int, int, Seq<char>),
    b: (int, int, Seq<char>),
    c: (int, int, Seq<char>),
)
    requires
        key_lt(a, b),
        key_lt(b, c),
    ensures
        key_lt(a, c),
{
    if a.0 == b.0 && b.0 == c.0 && a.1 == b.1 && b.1 == c.1 {
        crate::text::lemma_seq_lt_transitive(a.2, b.2, c.2);
    }
}

/// In branch order for `current`: no later name sorts before an earlier one.
pub open spec fn branch_sorted(names: Seq<Seq<char>>, current: Seq<char>) -> bool {
    forall|i: int, j: int|
        0 <= i < j < names.len() ==> !key_lt(
            sort_key(#[trigger] names[j], current),
            sort_key(#[trigger] names[i], current),
        )
}

/// Sorts branch names by `branch_sort_key`.
fn sort_branches(items: Vec<String>, current: &str) -> (r: Vec<String>)
    ensures
        branch_sorted(views(r@), current@),
        views(r@).to_multiset() == views(items@).to_multiset(),
{
    let mut out: Vec<String> = Vec::new();
    let mut rest = items;
    let ghost all = views(rest@);
    proof {
        assert(views(out@) =~= Seq::<Seq<char>>::empty());
        broadcast use vstd::multiset::group_multiset_axioms;
        broadcast use vstd::seq_lib::group_to_multiset_ensures;
        assert(views(out@).to_multiset().add(views(rest@).to_multiset()) =~= all.to_multiset());
    }
    while rest.len() > 0
        invariant
            branch_sorted(views(out@), current@),
            views(out@).to_multiset().add(views(rest@).to_multiset()) == all.to_multiset(),
        decreases rest.len(),
    {
        let ghost rest_before = views(rest@);
        let ghost out_before = views(out@);
        let x = rest.remove(0);
        proof {
            assert(views(rest@) =~= rest_before.remove(0));
            assert(rest_before[0] == x@);
        }
        let kx = branch_sort_key(x.as_str(), current);
        let mut pos: usize = 0;
        while pos < out.len() && !key_less(&kx, &branch_sort_key(out[pos].as_str(), current))
            invariant
                0 <= pos <= out@.len(),
                views(out@) == out_before,
                (kx.0 as int, kx.1 as int, kx.2@) == sort_key(x@, current@),
                forall|k: int|
                    0 <= k < pos ==> !key_lt(
                        sort_key(x@, current@),
                        sort_key(#[trigger] out_before[k], current@),
                    ),
            decreases out.len() - pos,
        {
            pos += 1;
        }
        let ghost xv = x@;
        out.insert(pos, x);
        proof {
            let ov = views(out@);
            assert(ov =~= out_before.insert(pos as int, xv));
            let cur = current@;
            assert forall|i: int, j: int| 0 <= i < j < ov.len() implies !key_lt(
                sort_key(#[trigger] ov[j], cur),
                sort_key(#[trigger] ov[i], cur),
            ) by {
                if j == pos {
                    assert(ov[i] == out_before[i]);
                } else if i == pos {
                    assert(ov[j] == out_before[j - 1]);
                    let kp = sort_key(out_before[pos as int], cur);
                    let kj = sort_key(out_before[j - 1], cur);
                    let kxx = sort_key(xv, cur);
                    assert(key_lt(kxx, kp));
                    lemma_key_lt_trichotomy(kj, kp);
                    if kj == kp {
                        lemma_key_lt_trichotomy(kxx, kj);
                    } else {
                        if j - 1 > pos {
                            assert(!key_lt(kj, kp));
                        }
                        lemma_key_lt_trichotomy(kp, kj);
                        if key_lt(kp, kj) {
                            lemma_key_lt_transitive(kxx, kp, kj);
                        }
                        lemma_key_lt_trichotomy(kxx, kj);
                    }
                } else if j < pos {
                    assert(ov[i] == out_before[i] && ov[j] == out_before[j]);
                } else if i > pos {
                    assert(ov[i] == out_before[i - 1] && ov[j] == out_before[j - 1]);
                } else {
                    assert(ov[i] == out_before[i] && ov[j] == out_before[j - 1]);
                }
            }
            vstd::seq_lib::to_multiset_insert(out_before, pos as int, xv);
            vstd::seq_lib::to_multiset_remove(rest_before, 0);
            assert(rest_before.contains(xv));
            vstd::seq_lib::to_multiset_contains(rest_before, xv);
            broadcast use vstd::multiset::group_multiset_axioms;
            assert(ov.to_multiset().add(views(rest@).to_multiset()) =~= all.to_multiset());
        }
    }
    proof {
        assert(views(rest@) =~= Seq::<Seq<char>>::empty());
        broadcast use vstd::multiset::group_multiset_axioms;
        broadcast use vstd::seq_lib::group_to_multiset_ensures;
        assert(views(out@).to_multiset() =~= all.to_multiset());
    }
    out
}

/// The current branch: what `git rev-parse --abbrev-ref HEAD` printed, trimmed, when it
/// succeeded; empty otherwise.
pub open spec fn current_branch(head: Option<Seq<u8>>) -> Seq<char> {
    match head {
        Some(out) => trimmed_output(out),
        None => Seq::empty(),
    }
}

/// `r` lists the branches of the given local and remote listings for the current branch:
/// the local branches and the remote-only ones by plain name, each once, in the order of
/// `branch_sort_key`; the entry whose name is the current branch is marked current (with
/// distinct names, at most one is).
pub open spec fn branch_listing(
    r: Seq<BranchEntry>,
    current: Seq<char>,
    local_text: Seq<char>,
    remote_text: Seq<char>,
) -> bool {
    let names = merged_names(local_names(lines_of(local_text)), remote_names(lines_of(remote_text)));
    let listed = r.map_values(|e: BranchEntry| e.name@);
    &&& branch_sorted(listed, current)
    &&& listed.to_multiset() == names.to_multiset()
    &&& forall|k: int| 0 <= k < r.len() ==> (#[trigger] r[k]).is_current == (r[k].name@ == current)
    &&& names.no_duplicates() ==> forall|i: int, j: int|
        0 <= i < r.len() && 0 <= j < r.len() && (#[trigger] r[i]).is_current
            && (#[trigger] r[j]).is_current ==> i == j
}

/// The branches one can switch to, given the current branch and the texts of the local and
/// remote `git for-each-ref` listings.
pub fn list_branches(current: &str, local_text: &str, remote_text: &str) -> (r: Vec<BranchEntry>)
    ensures
        branch_listing(r@, current@, local_text@, remote_text@),
{
    let local = local_branch_names(local_text);
    let remote = remote_branch_names(remote_text);
    let names = merge_branch_names(local, &remote);
    let sorted = sort_branches(names, current);
    let mut out: Vec<BranchEntry> = Vec::new();
    let mut i: usize = 0;
    while i < sorted.len()
        invariant
            0 <= i <= sorted@.len(),
            out@.len() == i,
            forall|k: int|
                0 <= k < i ==> (#[trigger] out@[k]).name == sorted@[k] && out@[k].is_current == (
                sorted@[k]@ == current@),
        decreases sorted.len() - i,
    {
        let name = sorted[i].clone();
        let is_current = crate::text::str_eq(name.as_str(), current);
        out.push(BranchEntry { name, is_current });
        i += 1;
    }
    proof {
        let listed = out@.map_values(|e: BranchEntry| e.name@);
        assert(listed =~= views(sorted@));
        let names = merged_names(
            local_names(lines_of(local_text@)),
            remote_names(lines_of(remote_text@)),
        );
        if names.no_duplicates() {
            names.lemma_multiset_has_no_duplicates();
            listed.lemma_multiset_has_no_duplicates_conv();
            assert forall|i: int, j: int|
                0 <= i < out@.len() && 0 <= j < out@.len() && (#[trigger] out@[i]).is_current
                    && (#[trigger] out@[j]).is_current implies i == j by {
                assert(listed[i] == out@[i].name@);
                assert(listed[j] == out@[j].name@);
            }
        }
    }
    out
}

/// The branches one can switch to, from what git printed: the output of
/// `git rev-parse --abbrev-ref HEAD` (`None` when it failed) and of `git for-each-ref` over
/// `refs/heads` and `refs/remotes`.
pub fn git_list_branches_impl(head_stdout: Option<&[u8]>, local_stdout: &[u8], remote_stdout: &[u8]) -> (r:
    Vec<BranchEntry>)
    ensures
        branch_listing(
            r@,
            current_branch(
                match head_stdout {
                    Some(o) => Some(o@),
                    None => None,
                },
            ),
            utf8_lossy(local_stdout@),
            utf8_lossy(remote_stdout@),
        ),
{
    let current = match head_stdout {
        Some(o) => trimmed_text_of(o),
        None => String::new(),
    };
    let local = text_of(local_stdout);
    let remote = text_of(remote_stdout);
    list_branches(current.as_str(), local.as_str(), remote.as_str())
}

// ── Status ────────────────────────────────────────────────────────────────────

/// The length of the run of non-whitespace characters that starts `s`.
pub open spec fn leading_non_ws(s: Seq<char>) -> nat
    decreases s.len(),
{
    if s.len() > 0 && !crate::text::is_ws(s[0]) {
        1 + leading_non_ws(s.drop_first())
    } else {
        0
    }
}

/// The first whitespace-separated token of `s` and the text after it, as
/// `str::split_whitespace` finds them.
pub open spec fn next_token(s: Seq<char>) -> Option<(Seq<char>, Seq<char>)> {
    let t = crate::text::trim_start(s);
    if t.len() == 0 {
        None
    } else {
        let k = leading_non_ws(t);
        Some((t.subrange(0, k as int), t.subrange(k as int, t.len() as int)))
    }
}

pub open spec fn is_digit(c: char) -> bool {
    '0' <= c && c <= '9'
}

pub open spec fn all_digits(s: Seq<char>) -> bool {
    forall|i: int| 0 <= i < s.len() ==> is_digit(#[trigger] s[i])
}

/// The value of a string of decimal digits.
pub open spec fn digits_value(s: Seq<char>) -> int
    decreases s.len(),
{
    if s.len() == 0 {
        0
    } else {
        digits_value(s.drop_last()) * 10 + (s.last() as int - '0' as int)
    }
}

/// What `str::parse::<i64>` accepts: an optional `+` or `-`, then one or more ASCII digits,
/// whose value fits in an `i64`.
pub open spec fn parsed_i64(s: Seq<char>) -> Option<int> {
    let neg = s.len() > 0 && s[0] == '-';
    let body = if s.len() > 0 && (s[0] == '-' || s[0] == '+') {
        s.drop_first()
    } else {
        s
    };
    if body.len() == 0 || !all_digits(body) {
        None
    } else {
        let v = if neg {
            -digits_value(body)
        } else {
            digits_value(body)
        };
        if i64::MIN <= v <= i64::MAX {
            Some(v)
        } else {
            None
        }
    }
}

proof fn lemma_digits_value_prefix(s: Seq<char>, k: int)
    requires
        0 <= k <= s.len(),
        forall|i: int| 0 <= i < s.len() ==> is_digit(#[trigger] s[i]),
    ensures
        0 <= digits_value(s.subrange(0, k)) <= digits_value(s),
    decreases s.len() - k,
{
    if k < s.len() {
        lemma_digits_value_prefix(s, k + 1);
        let p = s.subrange(0, k + 1);
        assert(p.drop_last() =~= s.subrange(0, k));
        assert(p.last() == s[k]);
        assert(is_digit(s[k]));
    } else {
        assert(s.subrange(0, k) =~= s);
        lemma_digits_value_nonneg(s);
    }
}

proof fn lemma_digits_value_nonneg(s: Seq<char>)
    requires
        forall|i: int| 0 <= i < s.len() ==> is_digit(#[trigger] s[i]),
    ensures
        digits_value(s) >= 0,
    decreases s.len(),
{
    if s.len() > 0 {
        assert forall|i: int| 0 <= i < s.drop_last().len() implies is_digit(
            #[trigger] s.drop_last()[i],
        ) by {
            assert(s.drop_last()[i] == s[i]);
        }
        lemma_digits_value_nonneg(s.drop_last());
        assert(is_digit(s[s.len() - 1]));
    }
}

/// Parses a decimal `i64` as `str::parse::<i64>` does.
pub fn parse_i64(s: &[char]) -> (r: Option<i64>)
    ensures
        match r {
            Some(v) => parsed_i64(s@) == Some(v as int),
            None => parsed_i64(s@) is None,
        },
{
    let n = s.len();
    let neg = n > 0 && s[0] == '-';
    let start: usize = if n > 0 && (s[0] == '-' || s[0] == '+') {
        1
    } else {
        0
    };
    let ghost body = if s@.len() > 0 && (s@[0] == '-' || s@[0] == '+') {
        s@.drop_first()
    } else {
        s@
    };
    proof {
        assert(body =~= s@.subrange(start as int, n as int));
    }
    if start == n {
        return None;
    }
    let limit: u64 = 9223372036854775808;
    let mut acc: u64 = 0;
    let mut i: usize = start;
    while i < n
        invariant
            n == s@.len(),
            start <= i <= n,
            body == s@.subrange(start as int, n as int),
            body == (if s@.len() > 0 && (s@[0] == '-' || s@[0] == '+') {
                s@.drop_first()
            } else {
                s@
            }),
            neg == (s@.len() > 0 && s@[0] == '-'),
            forall|k: int| 0 <= k < i - start ==> is_digit(#[trigger] body[k]),
            acc == digits_value(body.subrange(0, i - start)),
            acc <= limit,
            limit == 9223372036854775808u64,
        decreases n - i,
    {
        let c = s[i];
        if !('0' <= c && c <= '9') {
            proof {
                assert(body[i - start] == c);
                assert(!is_digit(body[i - start]));
                assert(!all_digits(body));
            }
            return None;
        }
        let d = (c as u32 - '0' as u32) as u64;
        proof {
            let p = body.subrange(0, i - start + 1);
            assert(p.drop_last() =~= body.subrange(0, i - start));
            assert(p.last() == c);
            assert(body[i - start] == c);
        }
        if acc > (limit - d) / 10 {
            proof {
                assert(acc * 10 + d > limit) by (nonlinear_arith)
                    requires
                        acc > (limit - d) / 10,
                        d <= 9,
                        limit == 9223372036854775808u64,
                ;
                if all_digits(body) {
                    lemma_digits_value_prefix(body, i - start + 1);
                    assert(digits_value(body) > limit);
                }
            }
            return None;
        }
        acc = acc * 10 + d;
        i += 1;
    }
    proof {
        assert(body.subrange(0, n - start) =~= body);
    }
    if neg {
        if acc == limit {
            Some(i64::MIN)
        } else {
            Some(-(acc as i64))
        }
    } else {
        if acc > 9223372036854775807 {
            None
        } else {
            Some(acc as i64)
        }
    }
}

/// The first whitespace-separated token of `s` and the text after it.
fn take_token(s: &Vec<char>) -> (r: Option<(Vec<char>, Vec<char>)>)
    ensures
        match r {
            Some((tok, rest)) => next_token(s@) == Some((tok@, rest@)),
            None => next_token(s@) is None,
        },
{
    let n = s.len();
    let mut lo: usize = 0;
    proof {
        assert(s@.subrange(0, n as int) =~= s@);
    }
    while lo < n && crate::text::char_is_ws(s[lo])
        invariant
            n == s@.len(),
            0 <= lo <= n,
            crate::text::trim_start(s@) == crate::text::trim_start(s@.subrange(lo as int, n as int)),
        decreases n - lo,
    {
        proof {
            let sub = s@.subrange(lo as int, n as int);
            assert(sub.drop_first() =~= s@.subrange(lo as int + 1, n as int));
        }
        lo += 1;
    }
    let ghost t = s@.subrange(lo as int, n as int);
    proof {
        if t.len() > 0 {
            assert(t[0] == s@[lo as int]);
        }
        assert(crate::text::trim_start(s@) == t);
    }
    if lo == n {
        return None;
    }
    let mut hi: usize = lo;
    proof {
        assert(s@.subrange(hi as int, n as int) =~= t);
    }
    while hi < n && !crate::text::char_is_ws(s[hi])
        invariant
            n == s@.len(),
            0 <= lo <= hi <= n,
            t == s@.subrange(lo as int, n as int),
            leading_non_ws(t) == (hi - lo) + leading_non_ws(s@.subrange(hi as int, n as int)),
        decreases n - hi,
    {
        proof {
            let sub = s@.subrange(hi as int, n as int);
            assert(sub.drop_first() =~= s@.subrange(hi as int + 1, n as int));
            assert(sub[0] == s@[hi as int]);
        }
        hi += 1;
    }
    proof {
        let sub = s@.subrange(hi as int, n as int);
        if sub.len() > 0 {
            assert(sub[0] == s@[hi as int]);
        }
        assert(leading_non_ws(t) == hi - lo);
        assert(t.subrange(0, hi - lo) =~= s@.subrange(lo as int, hi as int));
        assert(t.subrange(hi - lo, t.len() as int) =~= s@.subrange(hi as int, n as int));
    }
    let tok = copy_range(s.as_slice(), lo, hi);
    let rest = copy_range(s.as_slice(), hi, n);
    Some((tok, rest))
}

/// Commits ahead of and behind the upstream, from the text printed by
/// `git rev-list --left-right --count @{upstream}...HEAD` (the behind count, then the ahead
/// count): both are 0 when either count does not parse.
pub open spec fn counts_of(text: Seq<char>) -> (int, int) {
    match next_token(text) {
        None => (0, 0),
        Some((first, after)) => match parsed_i64(first) {
            None => (0, 0),
            Some(behind) => match next_token(after) {
                None => (0, 0),
                Some((second, _)) => match parsed_i64(second) {
                    None => (0, 0),
                    Some(ahead) => (ahead, behind),
                },
            },
        },
    }
}

/// Reads the ahead and behind counts from the text of the count command's output.
pub fn parse_ahead_behind(text: &str) -> (r: (i64, i64))
    ensures
        (r.0 as int, r.1 as int) == counts_of(text@),
{
    let cs = chars_of(text);
    let (first, after) = match take_token(&cs) {
        Some(p) => p,
        None => return (0, 0),
    };
    let behind = match parse_i64(first.as_slice()) {
        Some(v) => v,
        None => return (0, 0),
    };
    let (second, _rest) = match take_token(&after) {
        Some(p) => p,
        None => return (0, 0),
    };
    let ahead = match parse_i64(second.as_slice()) {
        Some(v) => v,
        None => return (0, 0),
    };
    (ahead, behind)
}

/// A working tree has uncommitted changes when `git status --porcelain` printed anything;
/// when it could not run, it counts as clean.
pub fn git_is_dirty(porcelain_stdout: Option<&[u8]>) -> (r: bool)
    ensures
        r == (porcelain_stdout matches Some(o) && o@.len() > 0),
{
    match porcelain_stdout {
        Some(o) => o.len() > 0,
        None => false,
    }
}

/// The commit `refs/stash` resolves to, from `git rev-parse --verify --quiet refs/stash`:
/// its trimmed output when it succeeded (`stdout` is `Some`), none otherwise.
pub fn stash_ref(stdout: Option<&[u8]>) -> (r: Option<String>)
    ensures
        match stdout {
            Some(o) => r matches Some(s) && s@ == trimmed_output(o@),
            None => r is None,
        },
{
    match stdout {
        Some(o) => Some(trimmed_text_of(o)),
        None => None,
    }
}

/// The status of a working tree from the texts git printed: its branch is the trimmed text
/// of `git rev-parse --abbrev-ref HEAD` (`None` when that failed, or when the text is
/// blank: not a working tree), its distance from the upstream is read from the count text
/// (0 and 0 without one).
pub open spec fn status_of_text(
    repository_id: i64,
    head: Option<Seq<char>>,
    dirty: bool,
    counts: Option<Seq<char>>,
) -> Option<(i64, Seq<char>, bool, int, int)> {
    match head {
        None => None,
        Some(text) => {
            let branch = trim(text);
            if branch.len() == 0 {
                None
            } else {
                let c = match counts {
                    Some(t) => counts_of(t),
                    None => (0, 0),
                };
                Some((repository_id, branch, dirty, c.0, c.1))
            }
        },
    }
}

/// The status of a working tree from what git printed (see `git_status_for`).
pub open spec fn status_of(
    repository_id: i64,
    head: Option<Seq<u8>>,
    porcelain: Option<Seq<u8>>,
    counts: Option<Seq<u8>>,
) -> Option<(i64, Seq<char>, bool, int, int)> {
    status_of_text(
        repository_id,
        match head {
            Some(o) => Some(utf8_lossy(o)),
            None => None,
        },
        porcelain matches Some(p) && p.len() > 0,
        match counts {
            Some(o) => Some(utf8_lossy(o)),
            None => None,
        },
    )
}

/// Whether a status matches its description.
pub open spec fn status_is(r: Option<RepoGitStatus>, d: Option<(i64, Seq<char>, bool, int, int)>) -> bool {
    match d {
        None => r is None,
        Some((id, branch, dirty, ahead, behind)) => r matches Some(st) && st.repository_id == id
            && st.branch@ == branch && st.dirty == dirty && st.ahead == ahead && st.behind == behind,
    }
}

/// The git status of a repository from the texts git printed and whether its tree is dirty.
pub fn status_from_text(
    repository_id: i64,
    head_text: Option<&str>,
    dirty: bool,
    counts_text: Option<&str>,
) -> (r: Option<RepoGitStatus>)
    ensures
        status_is(
            r,
            status_of_text(
                repository_id,
                match head_text {
                    Some(t) => Some(t@),
                    None => None,
                },
                dirty,
                match counts_text {
                    Some(t) => Some(t@),
                    None => None,
                },
            ),
        ),
{
    let head = match head_text {
        Some(t) => t,
        None => return None,
    };
    let branch = trim_str(head);
    if branch.unicode_len() == 0 {
        return None;
    }
    let (ahead, behind) = match counts_text {
        Some(t) => parse_ahead_behind(t),
        None => (0, 0),
    };
    Some(RepoGitStatus { repository_id, branch, dirty, ahead, behind })
}

/// The git status of a repository from what git printed: `head_stdout` is the output of
/// `git rev-parse --abbrev-ref HEAD` when it succeeded, `porcelain_stdout` that of
/// `git status --porcelain` when it ran, `counts_stdout` that of the ahead/behind count when
/// it succeeded. `None` when the directory is not a git working tree.
pub fn git_status_for(
    repository_id: i64,
    head_stdout: Option<&[u8]>,
    porcelain_stdout: Option<&[u8]>,
    counts_stdout: Option<&[u8]>,
) -> (r: Option<RepoGitStatus>)
    ensures
        status_is(
            r,
            status_of(
                repository_id,
                match head_stdout {
                    Some(o) => Some(o@),
                    None => None,
                },
                match porcelain_stdout {
                    Some(o) => Some(o@),
                    None => None,
                },
                match counts_stdout {
                    Some(o) => Some(o@),
                    None => None,
                },
            ),
        ),
{
    let head = match head_stdout {
        Some(o) => Some(text_of(o)),
        None => None,
    };
    let dirty = git_is_dirty(porcelain_stdout);
    let counts = match counts_stdout {
        Some(o) => Some(text_of(o)),
        None => None,
    };
    let head_text = match &head {
        Some(t) => Some(t.as_str()),
        None => None,
    };
    let counts_text = match &counts {
        Some(t) => Some(t.as_str()),
        None => None,
    };
    status_from_text(repository_id, head_text, dirty, counts_text)
}

/// What a `git` run reported.
#[derive(Debug)]
pub struct GitOutput {
    pub success: bool,
    pub stdout: Vec<u8>,
    pub stderr: Vec<u8>,
}

/// The result of a `git` command that ran, from the texts of its output: when it
/// succeeded, its standard output followed by its standard error, trimmed; when it failed,
/// an error with its trimmed standard error.
pub fn git_result(success: bool, stdout_text: &str, stderr_text: &str) -> (r: Result<String, AppError>)
    ensures
        success ==> (r matches Ok(s) && s@ == trim(stdout_text@ + stderr_text@)),
        !success ==> (r matches Err(AppError::Launch(m)) && m@ == "git: "@ + trim(stderr_text@)),
{
    if success {
        let both = crate::text::concat2(stdout_text, stderr_text);
        Ok(trim_str(both.as_str()))
    } else {
        let e = trim_str(stderr_text);
        Err(AppError::Launch(crate::text::concat2("git: ", e.as_str())))
    }
}

/// Turns a `git` run into the command's result: when git could not be started (`Err`, with
/// the reason), an error saying so; otherwise as `git_result` says, of the decoded output.
pub fn run_git(outcome: &Result<GitOutput, String>) -> (r: Result<String, AppError>)
    ensures
        match outcome {
            Err(reason) => r matches Err(AppError::Launch(m)) && m@ == "git failed to run: "@
                + reason@,
            Ok(out) => if out.success {
                r matches Ok(s) && s@ == trim(utf8_lossy(out.stdout@) + utf8_lossy(out.stderr@))
            } else {
                r matches Err(AppError::Launch(m)) && m@ == "git: "@ + trimmed_output(
                    out.stderr@,
                )
            },
        },
{
    match outcome {
        Err(reason) => Err(AppError::Launch(crate::text::concat2("git failed to run: ", reason.as_str()))),
        Ok(out) => {
            let o = text_of(out.stdout.as_slice());
            let e = text_of(out.stderr.as_slice());
            git_result(out.success, o.as_str(), e.as_str())
        },
    }
}

// ── Switching branches ────────────────────────────────────────────────────────

/// The arguments of the stash taken before a switch: `stash push`, then `-u` when untracked
/// files are included, then `-m <message>` when a message is given.
pub open spec fn stash_args_spec(untracked: bool, message: Seq<char>) -> Seq<Seq<char>> {
    let base = seq!["stash"@, "push"@];
    let with_u = if untracked {
        base.push("-u"@)
    } else {
        base
    };
    if message.len() > 0 {
        with_u + seq!["-m"@, message]
    } else {
        with_u
    }
}

/// Builds the arguments of the stash taken before a switch.
pub fn stash_args(untracked: bool, message: &str) -> (r: Vec<String>)
    ensures
        views(r@) == stash_args_spec(untracked, message@),
{
    let mut v: Vec<String> = Vec::new();
    v.push(crate::text::owned("stash"));
    v.push(crate::text::owned("push"));
    if untracked {
        v.push(crate::text::owned("-u"));
    }
    if message.unicode_len() > 0 {
        v.push(crate::text::owned("-m"));
        v.push(crate::text::owned(message));
    }
    proof {
        assert(views(v@) =~= stash_args_spec(untracked, message@));
    }
    v
}

/// The arguments of the switch itself; `--` keeps a branch name from being read as an
/// option.
pub open spec fn switch_args_spec(branch: Seq<char>) -> Seq<Seq<char>> {
    seq!["switch"@, "--"@, branch]
}

pub fn switch_args(branch: &str) -> (r: Vec<String>)
    ensures
        views(r@) == switch_args_spec(branch@),
{
    let mut v: Vec<String> = Vec::new();
    v.push(crate::text::owned("switch"));
    v.push(crate::text::owned("--"));
    v.push(crate::text::owned(branch));
    proof {
        assert(views(v@) =~= switch_args_spec(branch@));
    }
    v
}

/// The message for switching a dirty tree without permission to stash.
pub open spec fn uncommitted_message() -> Seq<char> {
    "repository has uncommitted changes - stash or commit them before switching branches"@
}

/// The message for a failed switch after a stash was taken.
pub open spec fn stashed_switch_failure(branch: Seq<char>, e: AppError) -> Seq<char> {
    "changes were stashed successfully, but switching to '"@ + branch + "' failed: "@
        + crate::error::error_message(e) + ". Run `git stash list` to find your stashed changes."@
}

/// The message for a switch whose new status could not be read.
pub open spec fn unread_status_message() -> Seq<char> {
    "branch switched, but failed to read updated status"@
}

/// Where a branch switch stands.
#[derive(Debug, Clone, Copy, PartialEq, Eq, Structural)]
pub enum SwitchStage {
    CheckingDirty,
    ReadingStashBefore,
    Stashing,
    ReadingStashAfter,
    Switching,
    ReadingStatus,
    Finished,
}

/// What the caller does next for a branch switch.
#[derive(Debug)]
pub enum SwitchAction {
    /// Report whether the working tree is dirty.
    CheckDirty,
    /// Report what `refs/stash` resolves to (`stash_ref`).
    ReadStashRef,
    /// Run git with these arguments and report the result (`run_git`).
    RunGit(Vec<String>),
    /// Report the working tree's git status (`git_status_for`).
    ReadStatus,
    /// The switch is over, with this result.
    Finish(Result<RepoGitStatus, AppError>),
}

/// What the caller reports back.
#[derive(Debug)]
pub enum SwitchEvent {
    Dirty(bool),
    StashRef(Option<String>),
    GitDone(Result<String, AppError>),
    Status(Option<RepoGitStatus>),
}

/// A branch switch in progress. When the tree is dirty the switch stashes first, but only
/// with the caller's explicit permission; whether a stash was really taken is told by
/// `refs/stash` changing, and a failed switch after a stash says so.
#[derive(Debug)]
pub struct BranchSwitch {
    pub repository_id: i64,
    pub branch: String,
    pub stash: bool,
    pub stash_message: String,
    pub stash_untracked: bool,
    pub stage: SwitchStage,
    pub stash_before: Option<String>,
    pub stash_created: bool,
}

/// The event a stage waits for.
pub open spec fn awaits(stage: SwitchStage, event: SwitchEvent) -> bool {
    match stage {
        SwitchStage::CheckingDirty => event is Dirty,
        SwitchStage::ReadingStashBefore => event is StashRef,
        SwitchStage::Stashing => event is GitDone,
        SwitchStage::ReadingStashAfter => event is StashRef,
        SwitchStage::Switching => event is GitDone,
        SwitchStage::ReadingStatus => event is Status,
        SwitchStage::Finished => false,
    }
}

pub open spec fn same_ref(a: Option<String>, b: Option<String>) -> bool {
    match (a, b) {
        (Some(x), Some(y)) => x@ == y@,
        (None, None) => true,
        _ => false,
    }
}

fn refs_equal(a: &Option<String>, b: &Option<String>) -> (r: bool)
    ensures
        r == same_ref(*a, *b),
{
    match (a, b) {
        (Some(x), Some(y)) => crate::text::str_eq(x.as_str(), y.as_str()),
        (None, None) => true,
        _ => false,
    }
}

impl BranchSwitch {
    /// Starts switching repository `repository_id` to `branch`; the first step is to check
    /// whether the tree is dirty.
    pub fn new(
        repository_id: i64,
        branch: String,
        stash: bool,
        stash_message: String,
        stash_untracked: bool,
    ) -> (r: (BranchSwitch, SwitchAction))
        ensures
            r.0.repository_id == repository_id,
            r.0.branch == branch,
            r.0.stash == stash,
            r.0.stash_message == stash_message,
            r.0.stash_untracked == stash_untracked,
            r.0.stage == SwitchStage::CheckingDirty,
            r.0.stash_before is None,
            !r.0.stash_created,
            r.1 is CheckDirty,
    {
        (
            BranchSwitch {
                repository_id,
                branch,
                stash,
                stash_message,
                stash_untracked,
                stage: SwitchStage::CheckingDirty,
                stash_before: None,
                stash_created: false,
            },
            SwitchAction::CheckDirty,
        )
    }

    /// Advances the switch by the event its stage waits for, and says what to do next.
    pub fn step(&mut self, event: SwitchEvent) -> (r: SwitchAction)
        requires
            awaits(old(self).stage, event),
        ensures
            final(self).repository_id == old(self).repository_id,
            final(self).branch == old(self).branch,
            final(self).stash == old(self).stash,
            final(self).stash_message == old(self).stash_message,
            final(self).stash_untracked == old(self).stash_untracked,
            old(self).stage != SwitchStage::ReadingStashBefore ==> final(self).stash_before
                == old(self).stash_before,
            old(self).stage != SwitchStage::ReadingStashAfter ==> final(self).stash_created
                == old(self).stash_created,
            match (old(self).stage, event) {
                (SwitchStage::CheckingDirty, SwitchEvent::Dirty(dirty)) => if dirty
                    && !old(self).stash {
                    final(self).stage == SwitchStage::Finished && (r matches SwitchAction::Finish(
                        Err(AppError::Launch(m)),
                    ) && m@ == uncommitted_message())
                } else if dirty {
                    final(self).stage == SwitchStage::ReadingStashBefore && r is ReadStashRef
                } else {
                    final(self).stage == SwitchStage::Switching && (r matches SwitchAction::RunGit(
                        args,
                    ) && views(args@) == switch_args_spec(old(self).branch@))
                },
                (SwitchStage::ReadingStashBefore, SwitchEvent::StashRef(before)) => final(self).stage == SwitchStage::Stashing && final(self).stash_before == before && (
                r matches SwitchAction::RunGit(args) && views(args@) == stash_args_spec(
                    old(self).stash_untracked,
                    old(self).stash_message@,
                )),
                (SwitchStage::Stashing, SwitchEvent::GitDone(res)) => match res {
                    Err(e) => final(self).stage == SwitchStage::Finished && r
                        == SwitchAction::Finish(Err(e)),
                    Ok(_) => final(self).stage == SwitchStage::ReadingStashAfter && r is ReadStashRef,
                },
                (SwitchStage::ReadingStashAfter, SwitchEvent::StashRef(after)) => final(self).stage == SwitchStage::Switching && final(self).stash_created == !same_ref(
                    after,
                    old(self).stash_before,
                ) && (r matches SwitchAction::RunGit(args) && views(args@) == switch_args_spec(
                    old(self).branch@,
                )),
                (SwitchStage::Switching, SwitchEvent::GitDone(res)) => match res {
                    Err(e) => final(self).stage == SwitchStage::Finished && if old(self).stash_created {
                        r matches SwitchAction::Finish(Err(AppError::Launch(m))) && m@
                            == stashed_switch_failure(old(self).branch@, e)
                    } else {
                        r == SwitchAction::Finish(Err(e))
                    },
                    Ok(_) => final(self).stage == SwitchStage::ReadingStatus && r is ReadStatus,
                },
                (SwitchStage::ReadingStatus, SwitchEvent::Status(st)) => final(self).stage
                    == SwitchStage::Finished && match st {
                    None => r matches SwitchAction::Finish(Err(AppError::Launch(m))) && m@
                        == unread_status_message(),
                    Some(s) => r matches SwitchAction::Finish(Ok(t)) && t.repository_id == old(self).repository_id && t.branch == s.branch && t.dirty == s.dirty && t.ahead
                        == s.ahead && t.behind == s.behind,
                },
                _ => false,
            },
    {
        match event {
            SwitchEvent::Dirty(dirty) => {
                if dirty && !self.stash {
                    self.stage = SwitchStage::Finished;
                    SwitchAction::Finish(
                        Err(
                            AppError::Launch(
                                crate::text::owned(
                                    "repository has uncommitted changes - stash or commit them before switching branches",
                                ),
                            ),
                        ),
                    )
                } else if dirty {
                    self.stage = SwitchStage::ReadingStashBefore;
                    SwitchAction::ReadStashRef
                } else {
                    self.stage = SwitchStage::Switching;
                    SwitchAction::RunGit(switch_args(self.branch.as_str()))
                }
            },
            SwitchEvent::StashRef(r) => {
                if self.stage == SwitchStage::ReadingStashBefore {
                    self.stash_before = r;
                    self.stage = SwitchStage::Stashing;
                    SwitchAction::RunGit(
                        stash_args(self.stash_untracked, self.stash_message.as_str()),
                    )
                } else {
                    self.stash_created = !refs_equal(&r, &self.stash_before);
                    self.stage = SwitchStage::Switching;
                    SwitchAction::RunGit(switch_args(self.branch.as_str()))
                }
            },
            SwitchEvent::GitDone(res) => {
                if self.stage == SwitchStage::Stashing {
                    match res {
                        Err(e) => {
                            self.stage = SwitchStage::Finished;
                            SwitchAction::Finish(Err(e))
                        },
                        Ok(_) => {
                            self.stage = SwitchStage::ReadingStashAfter;
                            SwitchAction::ReadStashRef
                        },
                    }
                } else {
                    match res {
                        Err(e) => {
                            self.stage = SwitchStage::Finished;
                            if self.stash_created {
                                let detail = e.message();
                                let head = crate::text::concat3(
                                    "changes were stashed successfully, but switching to '",
                                    self.branch.as_str(),
                                    "' failed: ",
                                );
                                let msg = crate::text::concat3(
                                    head.as_str(),
                                    detail.as_str(),
                                    ". Run `git stash list` to find your stashed changes.",
                                );
                                SwitchAction::Finish(Err(AppError::Launch(msg)))
                            } else {
                                SwitchAction::Finish(Err(e))
                            }
                        },
                        Ok(_) => {
                            self.stage = SwitchStage::ReadingStatus;
                            SwitchAction::ReadStatus
                        },
                    }
                }
            },
            SwitchEvent::Status(st) => {
                self.stage = SwitchStage::Finished;
                match st {
                    None => SwitchAction::Finish(
                        Err(
                            AppError::Launch(
                                crate::text::owned(
                                    "branch switched, but failed to read updated status",
                                ),
                            ),
                        ),
                    ),
                    Some(s) => SwitchAction::Finish(
                        Ok(
                            RepoGitStatus {
                                repository_id: self.repository_id,
                                branch: s.branch,
                                dirty: s.dirty,
                                ahead: s.ahead,
                                behind: s.behind,
                            },
                        ),
                    ),
                }
            },
        }
    }
}

/// With distinct local names, the merged names are distinct: a remote branch already listed
/// is not listed again.
pub proof fn law_merged_names_distinct(local: Seq<Seq<char>>, remote: Seq<Seq<char>>)
    requires
        local.no_duplicates(),
    ensures
        merged_names(local, remote).no_duplicates(),
    decreases remote.len(),
{
    if remote.len() > 0 {
        law_merged_names_distinct(local, remote.drop_last());
        let m = merged_names(local, remote.drop_last());
        if !m.contains(remote.last()) {
            assert forall|i: int, j: int|
                0 <= i < m.len() + 1 && 0 <= j < m.len() + 1 && i != j implies m.push(
                remote.last(),
            )[i] != m.push(remote.last())[j] by {
                if i == m.len() {
                    assert(m.push(remote.last())[j] == m[j]);
                } else if j == m.len() {
                    assert(m.push(remote.last())[i] == m[i]);
                }
            }
        }
    }
}

/// The stash before a switch is always `git stash push`, then `-u` exactly when untracked
/// files are to be stashed too, then `-m` and the message exactly when the message is
/// non-empty: the two options are independent of each other.
pub proof fn law_stash_options_independent(untracked: bool, message: Seq<char>)
    ensures
        ({
            let a = stash_args_spec(untracked, message);
            let m = if message.len() > 0 {
                2int
            } else {
                0
            };
            &&& a.len() == 2 + (if untracked {
                1int
            } else {
                0
            }) + m
            &&& a[0] == "stash"@ && a[1] == "push"@
            &&& a.subrange(2, a.len() - m).contains("-u"@) <==> untracked
            &&& a.subrange(2, a.len() - m).len() <= 1
            &&& message.len() > 0 ==> a[a.len() - 2] == "-m"@ && a[a.len() - 1] == message
            &&& message.len() == 0 ==> !a.contains("-m"@)
        }),
{
    reveal_strlit("stash");
    reveal_strlit("push");
    reveal_strlit("-u");
    reveal_strlit("-m");
    let a = stash_args_spec(untracked, message);
    let m = if message.len() > 0 {
        2int
    } else {
        0
    };
    let opts = a.subrange(2, a.len() - m);
    assert("-u"@ != "-m"@) by {
        assert("-u"@[1] != "-m"@[1]);
    }
    assert("-m"@ != "stash"@ && "-m"@ != "push"@) by {
        assert("-m"@.len() != "stash"@.len());
        assert("-m"@.len() != "push"@.len());
    }
    if untracked {
        assert(opts[0] == "-u"@);
    } else {
        assert(opts.len() == 0);
    }
    if message.len() > 0 {
        assert(a[a.len() - 2] == "-m"@);
    } else if a.contains("-m"@) {
        let k = choose|k: int| 0 <= k < a.len() && a[k] == "-m"@;
        assert(false);
    }
}

} // verus!
