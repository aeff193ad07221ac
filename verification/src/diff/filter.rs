//! Filtering a diff by a case-insensitive name pattern.
use super::types::{DiffNode, FileDiff};
use crate::text::{chars_of, contains_chars, contains_seq, lowercase_of, occurs_at, to_lowercase};
use vstd::prelude::*;

verus! {

/// The lower-cased `text` contains the (already lower-cased) pattern.
pub open spec fn hits(text: Seq<char>, pat: Seq<char>) -> bool {
    contains_seq(lowercase_of(text), pat)
}

/// The node stays in a filtered diff: its name matches, or one of its
/// descendants' names does.
pub open spec fn survives(n: DiffNode, pat: Seq<char>) -> bool
    decreases n,
{
    hits(n.name@, pat) || exists|k: int|
        0 <= k < n.children@.len() && survives(#[trigger] n.children@[k], pat)
}

/// `r` is `n` as the filter leaves it: all fields but the children kept;
/// the children kept whole when the name matches, filtered otherwise.
pub open spec fn filtered_node(n: DiffNode, pat: Seq<char>, r: DiffNode) -> bool
    decreases n,
{
    &&& r.name == n.name
    &&& r.kind == n.kind
    &&& r.old_name == n.old_name
    &&& r.param_cases == n.param_cases
    &&& r.old_param_cases == n.old_param_cases
    &&& if hits(n.name@, pat) {
        r.children@ == n.children@
    } else {
        filtered_forest(n.children@, pat, r.children@)
    }
}

/// `r` keeps, in order, the surviving nodes of `s`, each filtered.
pub open spec fn filtered_forest(s: Seq<DiffNode>, pat: Seq<char>, r: Seq<DiffNode>) -> bool
    decreases s,
{
    if s.len() == 0 {
        r.len() == 0
    } else if survives(s.last(), pat) {
        &&& r.len() > 0
        &&& filtered_forest(s.drop_last(), pat, r.drop_last())
        &&& filtered_node(s.last(), pat, r.last())
    } else {
        filtered_forest(s.drop_last(), pat, r)
    }
}

/// `r` keeps, in order, the file diffs whose path matches (whole) and the
/// others whose filtered nodes are not empty (with those nodes).
pub open spec fn filtered_files(s: Seq<FileDiff>, pat: Seq<char>, r: Seq<FileDiff>) -> bool
    decreases s.len(),
{
    if s.len() == 0 {
        r.len() == 0
    } else {
        let f = s.last();
        if hits(f.path@, pat) {
            &&& r.len() > 0
            &&& filtered_files(s.drop_last(), pat, r.drop_last())
            &&& r.last() == f
        } else if exists|k: int| 0 <= k < f.nodes@.len() && survives(#[trigger] f.nodes@[k], pat) {
            &&& r.len() > 0
            &&& filtered_files(s.drop_last(), pat, r.drop_last())
            &&& r.last().path == f.path
            &&& filtered_forest(f.nodes@, pat, r.last().nodes@)
        } else {
            filtered_files(s.drop_last(), pat, r)
        }
    }
}

/// A filtered forest is empty exactly when no node of it survives.
proof fn lemma_filtered_empty(s: Seq<DiffNode>, pat: Seq<char>, r: Seq<DiffNode>)
    requires
        filtered_forest(s, pat, r),
    ensures
        (r.len() == 0) == !(exists|k: int| 0 <= k < s.len() && survives(#[trigger] s[k], pat)),
    decreases s.len(),
{
    if s.len() > 0 {
        if survives(s.last(), pat) {
            lemma_filtered_empty(s.drop_last(), pat, r.drop_last());
            assert(survives(s[s.len() - 1], pat));
        } else {
            lemma_filtered_empty(s.drop_last(), pat, r);
            if exists|k: int| 0 <= k < s.len() && survives(#[trigger] s[k], pat) {
                let k = choose|k: int| 0 <= k < s.len() && survives(#[trigger] s[k], pat);
                assert(s.drop_last()[k] == s[k]);
            }
            if exists|k: int|
                0 <= k < s.drop_last().len() && survives(#[trigger] s.drop_last()[k], pat) {
                let k = choose|k: int|
                    0 <= k < s.drop_last().len() && survives(#[trigger] s.drop_last()[k], pat);
                assert(s[k] == s.drop_last()[k]);
            }
        }
    }
}

/// A node the filter keeps survives the filter again: its name matches,
/// or one of its kept descendants' names does.
pub proof fn lemma_filtered_node_survives(n: DiffNode, pat: Seq<char>, r: DiffNode)
    requires
        survives(n, pat),
        filtered_node(n, pat, r),
    ensures
        survives(r, pat),
    decreases n,
{
    if !hits(n.name@, pat) {
        assert(r.name == n.name);
        lemma_filtered_forest_survives(n.children@, pat, r.children@);
        lemma_filtered_empty(n.children@, pat, r.children@);
        let k = choose|k: int| 0 <= k < n.children@.len() && survives(#[trigger] n.children@[k], pat);
        assert(r.children@.len() > 0);
        assert(survives(r.children@[0], pat));
    }
}

/// Filtering keeps only nodes that match the pattern, by their own name or
/// a kept descendant's: every node of a filtered forest survives the
/// filter.
pub proof fn lemma_filtered_forest_survives(s: Seq<DiffNode>, pat: Seq<char>, r: Seq<DiffNode>)
    requires
        filtered_forest(s, pat, r),
    ensures
        forall|k: int| 0 <= k < r.len() ==> survives(#[trigger] r[k], pat),
    decreases s,
{
    if s.len() > 0 {
        if survives(s.last(), pat) {
            lemma_filtered_forest_survives(s.drop_last(), pat, r.drop_last());
            lemma_filtered_node_survives(s.last(), pat, r.last());
            assert forall|k: int| 0 <= k < r.len() implies survives(#[trigger] r[k], pat) by {
                if k < r.len() - 1 {
                    assert(r[k] == r.drop_last()[k]);
                }
            }
        } else {
            lemma_filtered_forest_survives(s.drop_last(), pat, r);
        }
    }
}

/// Whether the lower-cased `text` contains `pat`.
fn text_hits(text: &String, pat: &Vec<char>) -> (r: bool)
    ensures
        r == hits(text@, pat@),
{
    let lower = to_lowercase(text.as_str());
    let lc = chars_of(lower.as_str());
    contains_chars(&lc, pat)
}

/// Keeps the nodes whose name, or a descendant's name, contains the
/// lower-cased pattern; a node whose own name does not match keeps only its
/// matching descendants.
fn filter_nodes(nodes: Vec<DiffNode>, pat: &Vec<char>) -> (r: Vec<DiffNode>)
    ensures
        filtered_forest(nodes@, pat@, r@),
    decreases nodes,
{
    let ghost orig = nodes;
    let mut rest = nodes;
    let mut out: Vec<DiffNode> = Vec::new();
    let mut done: usize = 0;
    assert(orig@.len() == rest.len());
    while rest.len() > 0
        invariant
            orig == nodes,
            done + rest@.len() == orig@.len(),
            orig@.len() <= usize::MAX,
            rest@ == orig@.subrange(done as int, orig@.len() as int),
            filtered_forest(orig@.subrange(0, done as int), pat@, out@),
        decreases rest@.len(),
    {
        let node = rest.remove(0);
        let ghost next = orig@.subrange(0, done + 1);
        assert(next.drop_last() =~= orig@.subrange(0, done as int));
        assert(node == orig@[done as int]);
        assert(next.last() == node);
        let ghost out0 = out@;
        if text_hits(&node.name, pat) {
            out.push(node);
            assert(out@.drop_last() =~= out0);
            assert(survives(node, pat@));
            assert(filtered_node(node, pat@, out@.last()));
            assert(filtered_forest(next, pat@, out@));
        } else {
            let DiffNode { name, kind, old_name, param_cases, old_param_cases, children } = node;
            proof {
                assert(decreases_to!(orig => orig@));
                assert(decreases_to!(orig@ => orig@[done as int]));
                assert(decreases_to!(orig@[done as int] => orig@[done as int].children));
            }
            let ghost kids0 = children@;
            let kids = filter_nodes(children, pat);
            proof {
                lemma_filtered_empty(kids0, pat@, kids@);
            }
            if kids.len() > 0 {
                let ghost survivor = choose|k: int| 0 <= k < kids0.len() && survives(#[trigger] kids0[k], pat@);
                assert(survives(node, pat@)) by {
                    assert(node.children@ == kids0);
                    assert(survives(node.children@[survivor], pat@));
                }
                out.push(DiffNode { name, kind, old_name, param_cases, old_param_cases, children: kids });
                assert(out@.drop_last() =~= out0);
                assert(filtered_node(node, pat@, out@.last()));
                assert(filtered_forest(next, pat@, out@));
            } else {
                assert(!survives(node, pat@)) by {
                    assert(node.children@ == kids0);
                    if exists|k: int| 0 <= k < node.children@.len() && survives(#[trigger] node.children@[k], pat@) {
                        let k = choose|k: int| 0 <= k < node.children@.len() && survives(#[trigger] node.children@[k], pat@);
                        assert(survives(kids0[k], pat@));
                    }
                }
                assert(filtered_forest(next, pat@, out@));
            }
        }
        assert(done < orig@.len());
        done += 1;
        assert(rest@ =~= orig@.subrange(done as int, orig@.len() as int));
    }
    assert(orig@.subrange(0, done as int) =~= orig@);
    out
}

/// Keeps the file diffs whose path, or whose nodes' names, contain
/// `pattern`, compared case-insensitively; a file kept for its nodes keeps
/// only the matching ones.
/// A node whose own name matches the pattern is kept whole: the filtered
/// forest holds it with its name, kind, names and case counts, and all of
/// its children, matching or not.
pub proof fn lemma_matching_node_kept_whole(s: Seq<DiffNode>, pat: Seq<char>, r: Seq<DiffNode>, i: int)
    requires
        filtered_forest(s, pat, r),
        0 <= i < s.len(),
        hits(s[i].name@, pat),
    ensures
        exists|k: int|
            0 <= k < r.len() && (#[trigger] r[k]).name == s[i].name && r[k].kind == s[i].kind && r[k].old_name == s[i].old_name
                && r[k].param_cases == s[i].param_cases && r[k].old_param_cases == s[i].old_param_cases && r[k].children@
                == s[i].children@,
    decreases s.len(),
{
    let n = s.len() - 1;
    if i == n {
        assert(s[i] == s.last());
        assert(survives(s.last(), pat));
        assert(filtered_node(s.last(), pat, r.last()));
        assert(r.last().children@ == s.last().children@);
        let k = r.len() - 1;
        assert(r[k] == r.last());
    } else {
        assert(s.drop_last()[i] == s[i]);
        if survives(s.last(), pat) {
            lemma_matching_node_kept_whole(s.drop_last(), pat, r.drop_last(), i);
            let k = choose|k: int|
                0 <= k < r.drop_last().len() && (#[trigger] r.drop_last()[k]).name == s[i].name && r.drop_last()[k].kind == s[i].kind
                    && r.drop_last()[k].old_name == s[i].old_name && r.drop_last()[k].param_cases == s[i].param_cases
                    && r.drop_last()[k].old_param_cases == s[i].old_param_cases && r.drop_last()[k].children@ == s[i].children@;
            assert(r[k] == r.drop_last()[k]);
        } else {
            lemma_matching_node_kept_whole(s.drop_last(), pat, r, i);
        }
    }
}

/// An empty pattern keeps every file diff whole: filtering by it gives
/// the diffs back unchanged.
pub proof fn lemma_empty_pattern_keeps_all(s: Seq<FileDiff>, r: Seq<FileDiff>)
    requires
        filtered_files(s, seq![], r),
    ensures
        r == s,
    decreases s.len(),
{
    if s.len() > 0 {
        let hay = lowercase_of(s.last().path@);
        assert(hay.subrange(0, 0) =~= Seq::<char>::empty());
        assert(occurs_at(hay, seq![], 0));
        assert(hits(s.last().path@, seq![]));
        lemma_empty_pattern_keeps_all(s.drop_last(), r.drop_last());
        assert(r =~= r.drop_last().push(r.last()));
        assert(s =~= s.drop_last().push(s.last()));
    } else {
        assert(r =~= s);
    }
}

pub fn filter_file_diffs(file_diffs: Vec<FileDiff>, pattern: &str) -> (r: Vec<FileDiff>)
    ensures
        filtered_files(file_diffs@, lowercase_of(pattern@), r@),
{
    let lower = to_lowercase(pattern);
    let pat = chars_of(lower.as_str());
    let ghost orig = file_diffs;
    let mut rest = file_diffs;
    let mut out: Vec<FileDiff> = Vec::new();
    let mut done: usize = 0;
    assert(orig@.len() == rest.len());
    while rest.len() > 0
        invariant
            pat@ == lowercase_of(pattern@),
            done + rest@.len() == orig@.len(),
            orig@.len() <= usize::MAX,
            rest@ == orig@.subrange(done as int, orig@.len() as int),
            filtered_files(orig@.subrange(0, done as int), pat@, out@),
        decreases rest@.len(),
    {
        let fd = rest.remove(0);
        let ghost next = orig@.subrange(0, done + 1);
        assert(next.drop_last() =~= orig@.subrange(0, done as int));
        assert(fd == orig@[done as int]);
        let ghost out0 = out@;
        if text_hits(&fd.path, &pat) {
            out.push(fd);
            assert(out@.drop_last() =~= out0);
        } else {
            let FileDiff { path, nodes } = fd;
            let ghost nodes0 = nodes@;
            let kept = filter_nodes(nodes, &pat);
            proof {
                lemma_filtered_empty(nodes0, pat@, kept@);
            }
            if kept.len() > 0 {
                out.push(FileDiff { path, nodes: kept });
                assert(out@.drop_last() =~= out0);
            }
        }
        assert(done < orig@.len());
        done += 1;
        assert(rest@ =~= orig@.subrange(done as int, orig@.len() as int));
    }
    assert(orig@.subrange(0, done as int) =~= orig@);
    out
}

} // verus!
