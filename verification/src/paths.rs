//! Paths compared the way std's `Path` compares them on Unix: by their components. A
//! leading `/` is the root; the names between `/` separators follow, where empty names
//! (repeated or trailing separators) and `.` are skipped, except that a relative path
//! starting with `.` keeps that `.` as its first component.

use vstd::prelude::*;
use crate::text::{chars_eq, chars_of, copy_range, string_from_chars};

verus! {

/// The root component, as std spells it.
pub open spec fn root_component() -> Seq<char> {
    seq!['/']
}

/// The current-directory component, as std spells it.
pub open spec fn cur_component() -> Seq<char> {
    seq!['.']
}

/// A name between separators that counts as a component: neither empty nor `.`.
pub open spec fn counts(name: Seq<char>) -> bool {
    name.len() > 0 && name != cur_component()
}

/// `done` with the span `[a, b)` of `p` added when the name there counts.
pub open spec fn add_span(p: Seq<char>, done: Seq<(int, int)>, a: int, b: int) -> Seq<(int, int)> {
    if counts(p.subrange(a, b)) {
        done.push((a, b))
    } else {
        done
    }
}

/// Reading `p` front to back: the spans `[start, end)` of the counted names of the finished
/// pieces, and where the piece after the last separator so far starts.
pub open spec fn scan(p: Seq<char>) -> (Seq<(int, int)>, int)
    decreases p.len(),
{
    if p.len() == 0 {
        (Seq::empty(), 0)
    } else {
        let (done, start) = scan(p.drop_last());
        if p.last() == '/' {
            (add_span(p, done, start, p.len() - 1), p.len() as int)
        } else {
            (done, start)
        }
    }
}

/// The spans `[start, end)` of the names of `p` that are components, in order.
pub open spec fn name_spans(p: Seq<char>) -> Seq<(int, int)> {
    add_span(p, scan(p).0, scan(p).1, p.len() as int)
}

/// The component that `p` starts with before its names: the root for an absolute path,
/// `.` for a relative path that is `.` or starts with `./`, otherwise none.
pub open spec fn leading_component(p: Seq<char>) -> Seq<Seq<char>> {
    if p.len() > 0 && p[0] == '/' {
        seq![root_component()]
    } else if p.len() > 0 && p[0] == '.' && (p.len() == 1 || p[1] == '/') {
        seq![cur_component()]
    } else {
        Seq::empty()
    }
}

/// The texts of `spans` of `p`.
pub open spec fn span_texts(p: Seq<char>, spans: Seq<(int, int)>) -> Seq<Seq<char>> {
    spans.map_values(|s: (int, int)| p.subrange(s.0, s.1))
}

/// The components of path text `p`, each spelled as std spells it (`/` for the root, `.`
/// for the current directory, otherwise the name).
pub open spec fn path_components(p: Seq<char>) -> Seq<Seq<char>> {
    leading_component(p) + span_texts(p, name_spans(p))
}

/// The views of a list of character vectors.
pub open spec fn char_views(v: Seq<Vec<char>>) -> Seq<Seq<char>> {
    v.map_values(|c: Vec<char>| c@)
}

fn name_counts(name: &Vec<char>) -> (r: bool)
    ensures
        r == counts(name@),
{
    let r = name.len() > 0 && !(name.len() == 1 && name[0] == '.');
    proof {
        if name@.len() == 1 && name@[0] == '.' {
            assert(name@ =~= cur_component());
        }
    }
    r
}

proof fn lemma_scan_bounds(p: Seq<char>)
    ensures
        0 <= scan(p).1 <= p.len(),
        forall|k: int|
            0 <= k < scan(p).0.len() ==> 0 <= #[trigger] scan(p).0[k].0 <= scan(p).0[k].1 < scan(
                p,
            ).1,
        forall|a: int, b: int|
            0 <= a < b < scan(p).0.len() ==> #[trigger] scan(p).0[a].1 < #[trigger] scan(p).0[b].0,
    decreases p.len(),
{
    if p.len() > 0 {
        let q = p.drop_last();
        lemma_scan_bounds(q);
        let (done, start) = scan(q);
        if p.last() == '/' && counts(p.subrange(start, p.len() - 1)) {
            let nd = done.push((start, p.len() - 1));
            assert(scan(p).0 == nd);
            assert forall|a: int, b: int| 0 <= a < b < nd.len() implies #[trigger] nd[a].1
                < #[trigger] nd[b].0 by {
                if b < done.len() {
                    assert(nd[a] == done[a] && nd[b] == done[b]);
                } else {
                    assert(nd[a] == done[a]);
                    assert(0 <= scan(q).0[a].0 <= scan(q).0[a].1 < scan(q).1);
                    assert(nd[b] == (start, p.len() - 1));
                }
            }
        }
    }
}

/// The name spans of `p` lie inside `p`, in order, without overlapping.
pub proof fn lemma_name_spans_bounds(p: Seq<char>)
    ensures
        forall|k: int|
            0 <= k < name_spans(p).len() ==> 0 <= #[trigger] name_spans(p)[k].0 < name_spans(
                p,
            )[k].1 <= p.len(),
        forall|a: int, b: int|
            0 <= a < b < name_spans(p).len() ==> #[trigger] name_spans(p)[a].1 < #[trigger] name_spans(
                p,
            )[b].0,
{
    lemma_scan_bounds(p);
    let sp = name_spans(p);
    let (done, start) = scan(p);
    assert forall|a: int, b: int| 0 <= a < b < sp.len() implies #[trigger] sp[a].1
        < #[trigger] sp[b].0 by {
        if b < done.len() {
            assert(sp[a] == done[a] && sp[b] == done[b]);
        } else {
            assert(sp[a] == done[a]);
            assert(0 <= scan(p).0[a].0 <= scan(p).0[a].1 < scan(p).1);
            assert(sp[b] == (start, p.len() as int));
        }
    }
    assert forall|k: int| 0 <= k < sp.len() implies 0 <= #[trigger] sp[k].0 < sp[k].1 <= p.len() by {
        if k < scan(p).0.len() {
            assert(sp[k] == scan(p).0[k]);
        }
        assert(counts(p.subrange(sp[k].0, sp[k].1))) by {
            if k < scan(p).0.len() {
                lemma_scan_counts(p);
            }
        }
    }
}

proof fn lemma_scan_counts(p: Seq<char>)
    ensures
        forall|k: int|
            0 <= k < scan(p).0.len() ==> counts(
                #[trigger] p.subrange(scan(p).0[k].0, scan(p).0[k].1),
            ),
    decreases p.len(),
{
    if p.len() > 0 {
        let q = p.drop_last();
        lemma_scan_counts(q);
        lemma_scan_bounds(q);
        let (done, start) = scan(q);
        assert forall|k: int| 0 <= k < done.len() implies p.subrange(done[k].0, done[k].1)
            =~= q.subrange(done[k].0, done[k].1) by {}
        if p.last() == '/' {
            assert(p.subrange(start, p.len() - 1) =~= q.subrange(start, q.len() as int));
        }
    }
}

/// Spans with `usize` ends, as integers.
pub open spec fn int_spans(v: Seq<(usize, usize)>) -> Seq<(int, int)> {
    v.map_values(|s: (usize, usize)| (s.0 as int, s.1 as int))
}

/// The number of leading components of `cs` (the root or a leading `.`): one or none.
fn leading_len(cs: &[char]) -> (r: usize)
    ensures
        r == leading_component(cs@).len(),
        r <= 1,
{
    let n = cs.len();
    if n > 0 && cs[0] == '/' {
        1
    } else if n > 0 && cs[0] == '.' && (n == 1 || cs[1] == '/') {
        1
    } else {
        0
    }
}

/// The spans of the names of `cs` that are components.
fn name_spans_of(cs: &[char]) -> (r: Vec<(usize, usize)>)
    ensures
        int_spans(r@) == name_spans(cs@),
{
    let n = cs.len();
    let mut out: Vec<(usize, usize)> = Vec::new();
    let mut start: usize = 0;
    let mut i: usize = 0;
    proof {
        assert(cs@.take(0) =~= Seq::<char>::empty());
        assert(int_spans(out@) =~= scan(cs@.take(0)).0);
    }
    while i < n
        invariant
            n == cs@.len(),
            0 <= start <= i <= n,
            start == scan(cs@.take(i as int)).1,
            int_spans(out@) == scan(cs@.take(i as int)).0,
        decreases n - i,
    {
        let c = cs[i];
        let ghost before = int_spans(out@);
        let ghost t = cs@.take(i + 1);
        proof {
            assert(t.drop_last() =~= cs@.take(i as int));
            assert(t.last() == c);
            assert(t.subrange(start as int, i as int) =~= cs@.subrange(start as int, i as int));
            lemma_scan_bounds(cs@.take(i as int));
        }
        if c == '/' {
            let name = copy_range(cs, start, i);
            if name_counts(&name) {
                out.push((start, i));
                proof {
                    assert(int_spans(out@) =~= before.push((start as int, i as int)));
                }
            }
            start = i + 1;
        }
        i += 1;
    }
    proof {
        assert(cs@.take(n as int) =~= cs@);
    }
    let ghost before = int_spans(out@);
    let name = copy_range(cs, start, n);
    if name_counts(&name) {
        out.push((start, n));
        proof {
            assert(int_spans(out@) =~= before.push((start as int, n as int)));
        }
    }
    out
}

/// The components of a path text, each as its characters.
pub fn components_of(p: &str) -> (r: Vec<Vec<char>>)
    ensures
        char_views(r@) == path_components(p@),
{
    let cs = chars_of(p);
    let mut out: Vec<Vec<char>> = Vec::new();
    if leading_len(cs.as_slice()) == 1 {
        let mut first: Vec<char> = Vec::new();
        first.push(cs[0]);
        proof {
            if cs@[0] == '/' {
                assert(first@ =~= root_component());
            } else {
                assert(first@ =~= cur_component());
            }
        }
        out.push(first);
    }
    proof {
        assert(char_views(out@) =~= leading_component(cs@));
    }
    let ghost lead = char_views(out@);
    let spans = name_spans_of(cs.as_slice());
    proof {
        lemma_name_spans_bounds(cs@);
    }
    let mut k: usize = 0;
    proof {
        assert(span_texts(cs@, name_spans(cs@).take(0)) =~= Seq::<Seq<char>>::empty());
    }
    while k < spans.len()
        invariant
            cs@ == p@,
            0 <= k <= spans@.len(),
            int_spans(spans@) == name_spans(cs@),
            forall|q: int|
                0 <= q < name_spans(cs@).len() ==> 0 <= #[trigger] name_spans(cs@)[q].0
                    < name_spans(cs@)[q].1 <= cs@.len(),
            lead == leading_component(cs@),
            char_views(out@) == lead + span_texts(cs@, name_spans(cs@).take(k as int)),
        decreases spans.len() - k,
    {
        let ghost before = char_views(out@);
        let (a, b) = spans[k];
        proof {
            assert(name_spans(cs@)[k as int] == (a as int, b as int));
        }
        let name = copy_range(cs.as_slice(), a, b);
        out.push(name);
        proof {
            assert(span_texts(cs@, name_spans(cs@).take(k + 1)) =~= span_texts(
                cs@,
                name_spans(cs@).take(k as int),
            ).push(cs@.subrange(a as int, b as int)));
            assert(char_views(out@) =~= before.push(name@));
        }
        k += 1;
    }
    proof {
        assert(name_spans(cs@).take(k as int) =~= name_spans(cs@));
        assert(char_views(out@) =~= path_components(p@));
    }
    out
}

/// Component lists with the same components.
pub fn same_components(a: &Vec<Vec<char>>, b: &Vec<Vec<char>>) -> (r: bool)
    ensures
        r == (char_views(a@) == char_views(b@)),
{
    if a.len() != b.len() {
        proof {
            assert(char_views(a@).len() != char_views(b@).len());
        }
        return false;
    }
    let mut i: usize = 0;
    while i < a.len()
        invariant
            a@.len() == b@.len(),
            0 <= i <= a@.len(),
            forall|k: int| 0 <= k < i ==> a@[k]@ == b@[k]@,
        decreases a.len() - i,
    {
        if !chars_eq(a[i].as_slice(), b[i].as_slice()) {
            proof {
                assert(char_views(a@)[i as int] != char_views(b@)[i as int]);
            }
            return false;
        }
        i += 1;
    }
    proof {
        assert(char_views(a@) =~= char_views(b@));
    }
    true
}

/// Two path texts denote the same path: they have the same components (`/x`, `/x/` and
/// `//x/.` are one path).
pub fn same_path(a: &str, b: &str) -> (r: bool)
    ensures
        r == (path_components(a@) == path_components(b@)),
{
    let ca = components_of(a);
    let cb = components_of(b);
    same_components(&ca, &cb)
}

/// `prefix` is where `s` begins.
pub open spec fn begins_with(s: Seq<Seq<char>>, prefix: Seq<Seq<char>>) -> bool {
    prefix.len() <= s.len() && s.subrange(0, prefix.len() as int) == prefix
}

/// What is left of path text `p` once its first `skip` components are taken off, as std's
/// `Path::strip_prefix` gives it: nothing taken off leaves `p` up to its last component;
/// otherwise the text runs from the first remaining name to the last name, and is empty when
/// no name remains.
pub open spec fn rest_text(p: Seq<char>, skip: int) -> Seq<char> {
    let lead = leading_component(p).len() as int;
    let sp = name_spans(p);
    if skip == 0 {
        p.subrange(
            0,
            if sp.len() > 0 {
                sp.last().1
            } else {
                lead
            },
        )
    } else if skip - lead < sp.len() {
        p.subrange(sp[skip - lead].0, sp.last().1)
    } else {
        Seq::empty()
    }
}

/// `base` joined with `rel` as `Path::join` joins them: an absolute `rel` takes the place of
/// `base`; otherwise a `/` goes between them unless `base` is empty or already ends with one.
pub open spec fn joined(base: Seq<char>, rel: Seq<char>) -> Seq<char> {
    if rel.len() > 0 && rel[0] == '/' {
        rel
    } else if base.len() > 0 && base.last() != '/' {
        base + seq!['/'] + rel
    } else {
        base + rel
    }
}

/// Where a repository at `repo` lies once its project moves from `old_root` to `new_root`:
/// the same relative path under the new root, when the repository lies under the old root
/// (its path begins with the old root's components); otherwise nowhere.
pub open spec fn relocated(repo: Seq<char>, old_root: Seq<char>, new_root: Seq<char>) -> Option<
    Seq<char>,
> {
    let c = path_components(old_root);
    if begins_with(path_components(repo), c) {
        Some(joined(new_root, rest_text(repo, c.len() as int)))
    } else {
        None
    }
}

fn begins_with_components(s: &Vec<Vec<char>>, prefix: &Vec<Vec<char>>) -> (r: bool)
    ensures
        r == begins_with(char_views(s@), char_views(prefix@)),
{
    if prefix.len() > s.len() {
        return false;
    }
    let mut i: usize = 0;
    while i < prefix.len()
        invariant
            prefix@.len() <= s@.len(),
            0 <= i <= prefix@.len(),
            forall|k: int| 0 <= k < i ==> s@[k]@ == prefix@[k]@,
        decreases prefix.len() - i,
    {
        if !chars_eq(s[i].as_slice(), prefix[i].as_slice()) {
            proof {
                assert(char_views(s@).subrange(0, prefix@.len() as int)[i as int] != char_views(
                    prefix@,
                )[i as int]);
            }
            return false;
        }
        i += 1;
    }
    proof {
        assert(char_views(s@).subrange(0, prefix@.len() as int) =~= char_views(prefix@));
    }
    true
}

/// The path at which a repository stored at `repo_path` lies after its project moved from
/// `old_root` to `new_root` (`relocated`): `None` when it does not lie under the old root.
pub fn relocated_path(repo_path: &str, old_root: &str, new_root: &str) -> (r: Option<String>)
    ensures
        match r {
            Some(t) => relocated(repo_path@, old_root@, new_root@) == Some(t@),
            None => relocated(repo_path@, old_root@, new_root@) is None,
        },
{
    let repo_components = components_of(repo_path);
    let old_components = components_of(old_root);
    if !begins_with_components(&repo_components, &old_components) {
        return None;
    }
    let cs = chars_of(repo_path);
    let skip = old_components.len();
    let lead = leading_len(cs.as_slice());
    let spans = name_spans_of(cs.as_slice());
    proof {
        lemma_name_spans_bounds(cs@);
        assert(char_views(old_components@).len() == skip);
    }
    let n = spans.len();
    let rel = if skip == 0 {
        let end = if n > 0 {
            proof {
                assert(name_spans(cs@)[n - 1] == (spans@[n - 1].0 as int, spans@[n - 1].1 as int));
            }
            spans[n - 1].1
        } else {
            proof {
                if lead == 1 {
                    assert(cs@.len() >= 1);
                }
            }
            lead
        };
        copy_range(cs.as_slice(), 0, end)
    } else if skip - lead < n {
        let j = skip - lead;
        proof {
            assert(name_spans(cs@)[j as int] == (spans@[j as int].0 as int, spans@[j as int].1 as int));
            assert(name_spans(cs@)[n - 1] == (spans@[n - 1].0 as int, spans@[n - 1].1 as int));
            if j < n - 1 {
                assert(name_spans(cs@)[j as int].1 < name_spans(cs@)[n - 1].0);
            }
        }
        copy_range(cs.as_slice(), spans[j].0, spans[n - 1].1)
    } else {
        Vec::new()
    };
    proof {
        assert(rel@ =~= rest_text(repo_path@, skip as int));
    }
    if rel.len() > 0 && rel[0] == '/' {
        return Some(string_from_chars(rel.as_slice()));
    }
    let mut out = chars_of(new_root);
    let ghost base = out@;
    let n_base = out.len();
    if n_base > 0 && out[n_base - 1] != '/' {
        out.push('/');
    }
    let ghost with_sep = out@;
    let mut k: usize = 0;
    while k < rel.len()
        invariant
            0 <= k <= rel@.len(),
            out@ == with_sep + rel@.take(k as int),
        decreases rel.len() - k,
    {
        out.push(rel[k]);
        k += 1;
        proof {
            assert(out@ =~= with_sep + rel@.take(k as int));
        }
    }
    proof {
        assert(rel@.take(rel@.len() as int) =~= rel@);
        if base.len() > 0 && base.last() != '/' {
            assert(with_sep =~= base + seq!['/']);
        } else {
            assert(with_sep =~= base);
        }
        assert(out@ =~= joined(new_root@, rel@));
    }
    Some(string_from_chars(out.as_slice()))
}

} // verus!
