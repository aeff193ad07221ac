//! Structural diff of two spec forests with rename detection.
//!
//! Nodes of the same kind and name are paired first (exact matches, first
//! free head node wins). The remaining nodes of equal kind are paired as
//! renames when their similarity score clears a threshold; the best-scoring
//! pairs are taken first. Scores are exact fractions.
pub mod filter;
pub mod types;

pub use filter::filter_file_diffs;

use crate::parse::{case_count_of, SpecKind, SpecNode};
use crate::text::{char_rows, chars_eq, chars_of, split_words, words};
use types::{DiffKind, DiffNode, FileDiff};
use vstd::prelude::*;
use vstd::multiset::Multiset;

verus! {

broadcast use vstd::seq_lib::group_seq_properties;

/// Upper bound (exclusive) on the length of names and of child lists, so
/// that scores are compared exactly in 128-bit arithmetic.
pub const SIZE_BOUND: usize = 0x2000_0000;

/// Every name and child list of the tree is shorter than `SIZE_BOUND`.
pub open spec fn small_node(n: SpecNode) -> bool
    decreases n,
{
    &&& n.name@.len() < SIZE_BOUND
    &&& n.children@.len() < SIZE_BOUND
    &&& forall|k: int| 0 <= k < n.children@.len() ==> small_node(#[trigger] n.children@[k])
}

/// A forest of small nodes.
pub open spec fn small_forest(s: Seq<SpecNode>) -> bool {
    s.len() < SIZE_BOUND && forall|k: int| 0 <= k < s.len() ==> small_node(#[trigger] s[k])
}

// ---------------------------------------------------------------------------
// Copies of whole subtrees as Added / Removed
// ---------------------------------------------------------------------------
/// `d` is `s` with its whole subtree marked `Added`.
pub open spec fn added_copy(d: DiffNode, s: SpecNode) -> bool
    decreases s,
{
    &&& d.name@ == s.name@
    &&& d.kind == DiffKind::Added
    &&& d.old_name is None
    &&& d.param_cases == case_count_of(s)
    &&& d.old_param_cases is None
    &&& d.children@.len() == s.children@.len()
    &&& forall|k: int|
        0 <= k < s.children@.len() ==> added_copy(d.children@[k], #[trigger] s.children@[k])
}

/// `d` is `s` with its whole subtree marked `Removed`.
pub open spec fn removed_copy(d: DiffNode, s: SpecNode) -> bool
    decreases s,
{
    &&& d.name@ == s.name@
    &&& d.kind == DiffKind::Removed
    &&& d.old_name is None
    &&& d.param_cases == case_count_of(s)
    &&& d.old_param_cases is None
    &&& d.children@.len() == s.children@.len()
    &&& forall|k: int|
        0 <= k < s.children@.len() ==> removed_copy(d.children@[k], #[trigger] s.children@[k])
}

/// The diff entry of a head node without a partner: a group keeps its
/// subtree (all `Added`), any other node is a childless `Added` leaf.
pub open spec fn added_entry(d: DiffNode, s: SpecNode) -> bool {
    if s.kind == SpecKind::Group {
        added_copy(d, s)
    } else {
        &&& d.name@ == s.name@
        &&& d.kind == DiffKind::Added
        &&& d.old_name is None
        &&& d.param_cases == case_count_of(s)
        &&& d.old_param_cases is None
        &&& d.children@.len() == 0
    }
}

/// The diff entry of a base node without a partner, symmetric to
/// `added_entry`.
pub open spec fn removed_entry(d: DiffNode, s: SpecNode) -> bool {
    if s.kind == SpecKind::Group {
        removed_copy(d, s)
    } else {
        &&& d.name@ == s.name@
        &&& d.kind == DiffKind::Removed
        &&& d.old_name is None
        &&& d.param_cases == case_count_of(s)
        &&& d.old_param_cases is None
        &&& d.children@.len() == 0
    }
}

// ---------------------------------------------------------------------------
// Similarity scores, as exact fractions (numerator, denominator)
// ---------------------------------------------------------------------------
/// Number of words of `aw` (with repetition) that occur in `bw`.
pub open spec fn common_words(aw: Seq<Seq<char>>, bw: Seq<Seq<char>>) -> nat
    decreases aw.len(),
{
    if aw.len() == 0 {
        0
    } else {
        common_words(aw.drop_last(), bw) + if bw.contains(aw.last()) {
            1nat
        } else {
            0nat
        }
    }
}

/// Word-overlap similarity of two names: 1 for equal names, 0 when one is
/// empty, else the number of words of `a` found in `b` over the larger
/// word count.
pub open spec fn name_sim(a: Seq<char>, b: Seq<char>) -> (int, int) {
    if a == b {
        (1, 1)
    } else if a.len() == 0 || b.len() == 0 {
        (0, 1)
    } else {
        let aw = words(a);
        let bw = words(b);
        let total = if aw.len() >= bw.len() {
            aw.len()
        } else {
            bw.len()
        };
        if total == 0 {
            (0, 1)
        } else {
            (common_words(aw, bw) as int, total as int)
        }
    }
}

/// The names of a forest's roots.
pub open spec fn names_of(s: Seq<SpecNode>) -> Seq<Seq<char>> {
    Seq::new(s.len(), |i: int| s[i].name@)
}

/// Size of the multiset intersection of `bm` and the elements of `hs`,
/// taking the elements of `hs` in order.
pub open spec fn paired(bm: Multiset<Seq<char>>, hs: Seq<Seq<char>>) -> nat
    decreases hs.len(),
{
    if hs.len() == 0 {
        0
    } else if bm.count(hs[0]) > 0 {
        1 + paired(bm.remove(hs[0]), hs.drop_first())
    } else {
        paired(bm, hs.drop_first())
    }
}

/// Dice coefficient of the children's names (as multisets): twice the
/// shared names over the total number of children; 0 when both are empty.
pub open spec fn raw_dice(bc: Seq<SpecNode>, hc: Seq<SpecNode>) -> (int, int) {
    let total = bc.len() + hc.len();
    if total == 0 {
        (0, 1)
    } else {
        (2 * paired(names_of(bc).to_multiset(), names_of(hc)) as int, total as int)
    }
}

/// The diff nodes that pair a base child with a head child.
pub open spec fn is_pairing(d: DiffNode) -> bool {
    d.kind == DiffKind::Unchanged || d.kind == DiffKind::Modified || d.kind == DiffKind::Renamed
}

/// Number of pairing nodes in a diff forest (top level only).
pub open spec fn pairing_count(s: Seq<DiffNode>) -> nat
    decreases s.len(),
{
    if s.len() == 0 {
        0
    } else {
        pairing_count(s.drop_last()) + if is_pairing(s.last()) {
            1nat
        } else {
            0nat
        }
    }
}

/// Child overlap after diffing the children: twice the paired children over
/// the total number of children; 0 when both are empty.
pub open spec fn overlap(bc: Seq<SpecNode>, hc: Seq<SpecNode>, inner: Seq<DiffNode>) -> (
    int,
    int,
) {
    let total = bc.len() + hc.len();
    if total == 0 {
        (0, 1)
    } else {
        (2 * pairing_count(inner) as int, total as int)
    }
}

/// `0.3 * name + 0.7 * child >= 0.5` for the fractions `nn/nd`, `cn/cd`.
pub open spec fn weighted_clears(nn: int, nd: int, cn: int, cd: int) -> bool {
    3 * nn * cd + 7 * cn * nd >= 5 * nd * cd
}

/// Whether `h` may be taken as a rename of `b` (same kind assumed), given
/// the diff `inner` of their children: leaves need name similarity of at
/// least 1/2; two childless groups need at least 7/10; other groups need a
/// weighted score `0.3 * name + 0.7 * child` of at least 1/2, where the
/// child part is the raw name Dice of the children or their overlap in
/// `inner`.
pub open spec fn rename_ok(b: SpecNode, h: SpecNode, inner: Seq<DiffNode>) -> bool {
    let (nn, nd) = name_sim(b.name@, h.name@);
    if b.kind != SpecKind::Group {
        2 * nn >= nd
    } else if b.children@.len() == 0 && h.children@.len() == 0 {
        10 * nn >= 7 * nd
    } else {
        let (rn, rd) = raw_dice(b.children@, h.children@);
        let (on, od) = overlap(b.children@, h.children@, inner);
        weighted_clears(nn, nd, rn, rd) || weighted_clears(nn, nd, on, od)
    }
}

/// `h` is close enough to `b` to be taken as its rename without diffing
/// their children: same kind, and a leaf name similarity of at least 1/2,
/// a childless-groups name similarity of at least 7/10, or a weighted
/// score with the raw child Dice of at least 1/2.
pub open spec fn plain_rename(b: SpecNode, h: SpecNode) -> bool {
    let (nn, nd) = name_sim(b.name@, h.name@);
    &&& b.kind == h.kind
    &&& if b.kind != SpecKind::Group {
        2 * nn >= nd
    } else if b.children@.len() == 0 && h.children@.len() == 0 {
        10 * nn >= 7 * nd
    } else {
        let (rn, rd) = raw_dice(b.children@, h.children@);
        weighted_clears(nn, nd, rn, rd)
    }
}

/// A pair of groups, not both empty, too far apart by name and raw child
/// names to be a plain rename: whether it is a rename can only be judged
/// from the diff of their children (bottom-up).
pub open spec fn needs_inner(b: SpecNode, h: SpecNode) -> bool {
    &&& b.kind == SpecKind::Group
    &&& h.kind == SpecKind::Group
    &&& !(b.children@.len() == 0 && h.children@.len() == 0)
    &&& !plain_rename(b, h)
}

/// Some diff of the two groups' children leaves them short of a rename.
pub open spec fn inner_rejects(b: SpecNode, h: SpecNode) -> bool {
    exists|inner: Seq<DiffNode>| #[trigger] valid_diff(b.children@, h.children@, inner) && !rename_ok(b, h, inner)
}

// ---------------------------------------------------------------------------
// The diff relation
// ---------------------------------------------------------------------------
/// Nodes that may be matched exactly: same name and same kind.
pub open spec fn same_key(b: SpecNode, h: SpecNode) -> bool {
    b.name@ == h.name@ && b.kind == h.kind
}

/// Head index `j` was taken by one of the first `i` entries of `e`.
pub open spec fn used_before(e: Seq<int>, i: int, j: int) -> bool {
    exists|i2: int| 0 <= i2 < i && #[trigger] e[i2] == j
}

/// `e` pairs base node `i` with the first head node of the same key that
/// no earlier base node took, or with nothing (-1) when there is none.
pub open spec fn is_exact_assign(base: Seq<SpecNode>, head: Seq<SpecNode>, e: Seq<int>) -> bool {
    &&& e.len() == base.len()
    &&& forall|i: int| 0 <= i < e.len() ==> -1 <= #[trigger] e[i] < head.len()
    &&& forall|i: int|
        #![trigger e[i]]
        0 <= i < e.len() && e[i] >= 0 ==> {
            &&& same_key(base[i], head[e[i]])
            &&& !used_before(e, i, e[i])
            &&& forall|j: int|
                0 <= j < e[i] && same_key(base[i], #[trigger] head[j]) ==> used_before(e, i, j)
        }
    &&& forall|i: int|
        #![trigger e[i]]
        0 <= i < e.len() && e[i] < 0 ==> forall|j: int|
            0 <= j < head.len() && same_key(base[i], #[trigger] head[j]) ==> used_before(e, i, j)
}

/// Some node of the forest is not `Unchanged`.
pub open spec fn any_changed(s: Seq<DiffNode>) -> bool {
    exists|k: int| 0 <= k < s.len() && (#[trigger] s[k]).kind != DiffKind::Unchanged
}

/// The prior case count when it differs from the new one.
pub open spec fn prior_cases(b: SpecNode, h: SpecNode) -> Option<usize> {
    if case_count_of(b) != case_count_of(h) {
        case_count_of(b)
    } else {
        None
    }
}

/// Head index `j` is paired by `a` or listed as added in `u`.
pub open spec fn covered(a: Seq<int>, u: Seq<int>, j: int) -> bool {
    (exists|i: int| 0 <= i < a.len() && #[trigger] a[i] == j) || (exists|k: int|
        0 <= k < u.len() && #[trigger] u[k] == j)
}

/// Witness of a diff: the partner of each base node (-1 for none), the
/// exact matches among them, and the unpaired head nodes in order.
pub struct DiffWitness {
    pub assign: Seq<int>,
    pub exact: Seq<int>,
    pub added: Seq<int>,
}

/// The diff entry of base node `b` paired with head node `h`.
pub open spec fn paired_entry(d: DiffNode, b: SpecNode, h: SpecNode, exact: bool) -> bool
    decreases b, 2int,
{
    &&& d.name@ == h.name@
    &&& d.param_cases == case_count_of(h)
    &&& d.old_param_cases == prior_cases(b, h)
    &&& if b.kind == SpecKind::Group {
        valid_diff(b.children@, h.children@, d.children@)
    } else {
        d.children@.len() == 0
    }
    &&& if exact {
        &&& d.old_name is None
        &&& d.kind == if case_count_of(b) != case_count_of(h) || any_changed(d.children@) {
            DiffKind::Modified
        } else {
            DiffKind::Unchanged
        }
    } else {
        &&& d.kind == DiffKind::Renamed
        &&& d.old_name is Some
        &&& d.old_name->0@ == b.name@
        &&& b.kind == h.kind
        &&& rename_ok(b, h, d.children@)
    }
}

/// The diff entry of base node `b` with partner index `a` (exact when `e`
/// is non-negative).
pub open spec fn base_entry(d: DiffNode, b: SpecNode, head: Seq<SpecNode>, a: int, e: int) -> bool
    decreases b, 3int,
{
    if a < 0 {
        removed_entry(d, b)
    } else {
        paired_entry(d, b, head[a], e >= 0)
    }
}

/// `res` is a diff of `base` against `head` under witness `w`: base nodes
/// come first, in order, each removed or paired (exactly where
/// `is_exact_assign` pairs it, else as a rename of an unmatched head node
/// of the same kind), then every unpaired head node as an addition, in head
/// order. No head node is paired twice, and no removed base node is a
/// plain rename of an added head node.
pub open spec fn diff_with(
    base: Seq<SpecNode>,
    head: Seq<SpecNode>,
    res: Seq<DiffNode>,
    w: DiffWitness,
) -> bool
    decreases base, 0int,
{
    let a = w.assign;
    let e = w.exact;
    let u = w.added;
    &&& is_exact_assign(base, head, e)
    &&& a.len() == base.len()
    &&& forall|i: int| 0 <= i < base.len() ==> -1 <= #[trigger] a[i] < head.len()
    &&& forall|i: int| 0 <= i < base.len() && #[trigger] e[i] >= 0 ==> a[i] == e[i]
    &&& forall|i: int, i2: int|
        0 <= i < base.len() && 0 <= i2 < base.len() && e[i] < 0 && #[trigger] a[i] >= 0
            ==> #[trigger] e[i2] != a[i]
    &&& forall|i: int, i2: int|
        0 <= i < i2 < base.len() && #[trigger] a[i] >= 0 ==> #[trigger] a[i2] != a[i]
    &&& res.len() == base.len() + u.len()
    &&& forall|k: int| 0 <= k < u.len() ==> 0 <= #[trigger] u[k] < head.len()
    &&& forall|k: int, k2: int| 0 <= k < k2 < u.len() ==> #[trigger] u[k] < #[trigger] u[k2]
    &&& forall|k: int, i: int| 0 <= k < u.len() && 0 <= i < base.len() ==> #[trigger] a[i] != #[trigger] u[k]
    &&& forall|j: int| 0 <= j < head.len() ==> #[trigger] covered(a, u, j)
    &&& forall|i: int| 0 <= i < base.len() ==> base_entry(#[trigger] res[i], base[i], head, a[i], e[i])
    &&& forall|k: int|
        0 <= k < u.len() ==> added_entry(#[trigger] res[base.len() + k], head[u[k]])
    &&& forall|i: int, k: int|
        0 <= i < base.len() && #[trigger] a[i] < 0 && 0 <= k < u.len() ==> !plain_rename(base[i], head[#[trigger] u[k]])
    &&& forall|i: int, j: int|
        0 <= i < base.len() && 0 <= j < head.len() && e[i] < 0 && !used_before(e, base.len() as int, j) && #[trigger] plain_rename(
            base[i],
            head[j],
        ) && a[i] != j ==> exists|i2: int|
            0 <= i2 < base.len() && e[i2] < 0 && #[trigger] a[i2] >= 0 && (i2 == i || a[i2] == j) && !key_before(
                rename_key(base[i], head[j], i, j, seq![]),
                rename_key(base[i2], head[a[i2]], i2, a[i2], res[i2].children@),
            )
}

/// `res` is a diff of `base` against `head`.
pub open spec fn valid_diff(base: Seq<SpecNode>, head: Seq<SpecNode>, res: Seq<DiffNode>) -> bool
    decreases base, 1int,
{
    exists|w: DiffWitness| #[trigger] witness_seq(w) == w.assign && diff_with(base, head, res, w)
}

/// The assignment of a witness; names witnesses in quantifiers.
pub open spec fn witness_seq(w: DiffWitness) -> Seq<int> {
    w.assign
}


// ---------------------------------------------------------------------------
// Building entries
// ---------------------------------------------------------------------------
fn param_case_count(node: &SpecNode) -> (r: Option<usize>)
    ensures
        r == case_count_of(*node),
{
    match &node.parameterized {
        Some(p) => Some(p.case_count),
        None => None,
    }
}

/// The subtree of `node`, all marked `Added`.
fn make_added(node: &SpecNode) -> (r: DiffNode)
    ensures
        added_copy(r, *node),
    decreases *node,
{
    let mut children: Vec<DiffNode> = Vec::new();
    let mut i: usize = 0;
    while i < node.children.len()
        invariant
            i <= node.children.len(),
            children@.len() == i,
            forall|k: int| 0 <= k < i ==> added_copy(children@[k], #[trigger] node.children@[k]),
        decreases node.children.len() - i,
    {
        let c = make_added(&node.children[i]);
        children.push(c);
        i += 1;
    }
    DiffNode {
        name: node.name.clone(),
        kind: DiffKind::Added,
        old_name: None,
        param_cases: param_case_count(node),
        old_param_cases: None,
        children,
    }
}

/// The subtree of `node`, all marked `Removed`.
fn make_removed(node: &SpecNode) -> (r: DiffNode)
    ensures
        removed_copy(r, *node),
    decreases *node,
{
    let mut children: Vec<DiffNode> = Vec::new();
    let mut i: usize = 0;
    while i < node.children.len()
        invariant
            i <= node.children.len(),
            children@.len() == i,
            forall|k: int|
                0 <= k < i ==> removed_copy(children@[k], #[trigger] node.children@[k]),
        decreases node.children.len() - i,
    {
        let c = make_removed(&node.children[i]);
        children.push(c);
        i += 1;
    }
    DiffNode {
        name: node.name.clone(),
        kind: DiffKind::Removed,
        old_name: None,
        param_cases: param_case_count(node),
        old_param_cases: None,
        children,
    }
}

fn build_added_node(head: &SpecNode) -> (r: DiffNode)
    ensures
        added_entry(r, *head),
{
    if head.kind == SpecKind::Group {
        make_added(head)
    } else {
        DiffNode {
            name: head.name.clone(),
            kind: DiffKind::Added,
            old_name: None,
            param_cases: param_case_count(head),
            old_param_cases: None,
            children: Vec::new(),
        }
    }
}

fn build_removed_node(base: &SpecNode) -> (r: DiffNode)
    ensures
        removed_entry(r, *base),
{
    if base.kind == SpecKind::Group {
        make_removed(base)
    } else {
        DiffNode {
            name: base.name.clone(),
            kind: DiffKind::Removed,
            old_name: None,
            param_cases: param_case_count(base),
            old_param_cases: None,
            children: Vec::new(),
        }
    }
}

// ---------------------------------------------------------------------------
// Scores
// ---------------------------------------------------------------------------
proof fn lemma_words_len(s: Seq<char>)
    ensures
        words(s).len() <= s.len(),
        s.len() > 0 && !crate::text::is_ws(s.last()) ==> words(s).len() > 0,
    decreases s.len(),
{
    if s.len() > 0 {
        lemma_words_len(s.drop_last());
    }
}

proof fn lemma_common_le(aw: Seq<Seq<char>>, bw: Seq<Seq<char>>)
    ensures
        common_words(aw, bw) <= aw.len(),
    decreases aw.len(),
{
    if aw.len() > 0 {
        lemma_common_le(aw.drop_last(), bw);
    }
}

/// Whether `w` is one of the words of `ws`.
fn contains_word(ws: &Vec<Vec<char>>, w: &Vec<char>) -> (r: bool)
    ensures
        r == char_rows(ws@).contains(w@),
{
    let mut i: usize = 0;
    while i < ws.len()
        invariant
            i <= ws.len(),
            forall|k: int| 0 <= k < i ==> ws@[k]@ != w@,
        decreases ws.len() - i,
    {
        if chars_eq(&ws[i], w) {
            assert(char_rows(ws@)[i as int] == w@);
            return true;
        }
        i += 1;
    }
    assert(!char_rows(ws@).contains(w@)) by {
        if char_rows(ws@).contains(w@) {
            let k = choose|k: int| 0 <= k < char_rows(ws@).len() && char_rows(ws@)[k] == w@;
            assert(ws@[k]@ == w@);
        }
    }
    false
}

/// Word-overlap similarity of two names, as `(numerator, denominator)`.
pub fn name_similarity(a: &String, b: &String) -> (r: (u64, u64))
    requires
        a@.len() < SIZE_BOUND,
        b@.len() < SIZE_BOUND,
    ensures
        r.0 as int == name_sim(a@, b@).0,
        r.1 as int == name_sim(a@, b@).1,
        r.0 <= r.1,
        1 <= r.1 < SIZE_BOUND,
{
    if *a == *b {
        return (1, 1);
    }
    if a.as_str().is_empty() || b.as_str().is_empty() {
        return (0, 1);
    }
    let ac = chars_of(a.as_str());
    let bc = chars_of(b.as_str());
    let aw = split_words(&ac);
    let bw = split_words(&bc);
    proof {
        lemma_words_len(a@);
        lemma_words_len(b@);
        lemma_common_le(words(a@), words(b@));
    }
    let total = if aw.len() >= bw.len() {
        aw.len()
    } else {
        bw.len()
    };
    if total == 0 {
        return (0, 1);
    }
    let mut common: u64 = 0;
    let mut i: usize = 0;
    while i < aw.len()
        invariant
            i <= aw.len(),
            aw.len() < SIZE_BOUND,
            char_rows(aw@) == words(a@),
            char_rows(bw@) == words(b@),
            common as int == common_words(char_rows(aw@).subrange(0, i as int), char_rows(bw@)),
            common <= i,
        decreases aw.len() - i,
    {
        let ghost pre = char_rows(aw@).subrange(0, i as int);
        let ghost next = char_rows(aw@).subrange(0, i + 1);
        assert(next.drop_last() =~= pre);
        assert(next.last() == aw@[i as int]@);
        if contains_word(&bw, &aw[i]) {
            common = common + 1;
        }
        i += 1;
    }
    assert(char_rows(aw@).subrange(0, aw.len() as int) =~= char_rows(aw@));
    (common, total as u64)
}

/// Names of the roots of a forest, as character vectors.
fn child_names(nodes: &Vec<SpecNode>) -> (r: Vec<Vec<char>>)
    ensures
        char_rows(r@) == names_of(nodes@),
{
    let mut r: Vec<Vec<char>> = Vec::new();
    let mut i: usize = 0;
    while i < nodes.len()
        invariant
            i <= nodes.len(),
            r@.len() == i,
            char_rows(r@) == names_of(nodes@.subrange(0, i as int)),
        decreases nodes.len() - i,
    {
        let ghost old_r = r@;
        let v = chars_of(nodes[i].name.as_str());
        let ghost vv = v@;
        assert(vv == nodes@[i as int].name@);
        r.push(v);
        proof {
            assert(r@[i as int]@ == vv);
            let sub = nodes@.subrange(0, i + 1);
            assert forall|k: int| 0 <= k < i + 1 implies #[trigger] char_rows(r@)[k] == names_of(
                sub,
            )[k] by {
                if k < i {
                    assert(char_rows(old_r)[k] == names_of(nodes@.subrange(0, i as int))[k]);
                    assert(r@[k] == old_r[k]);
                } else {
                    assert(sub[k] == nodes@[i as int]);
                }
            }
            assert(char_rows(r@).len() == names_of(sub).len());
        }
        i += 1;
        assert(char_rows(r@) =~= names_of(nodes@.subrange(0, i as int)));
    }
    assert(nodes@.subrange(0, nodes.len() as int) =~= nodes@);
    r
}

/// Raw Dice coefficient of the children's names, as a fraction.
fn raw_child_dice(base: &Vec<SpecNode>, head: &Vec<SpecNode>) -> (r: (u64, u64))
    requires
        base@.len() < SIZE_BOUND,
        head@.len() < SIZE_BOUND,
    ensures
        r.0 as int == raw_dice(base@, head@).0,
        r.1 as int == raw_dice(base@, head@).1,
        r.0 <= 2 * r.1,
        1 <= r.1 <= 2 * SIZE_BOUND,
{
    let total = base.len() + head.len();
    if total == 0 {
        return (0, 1);
    }
    let mut remaining = child_names(base);
    let hn = child_names(head);
    let ghost bm0 = names_of(base@).to_multiset();
    let ghost hs = names_of(head@);
    let mut count: u64 = 0;
    let mut i: usize = 0;
    assert(char_rows(hn@).len() == hn@.len());
    assert(hs.subrange(0, hs.len() as int) =~= hs);
    while i < hn.len()
        invariant
            i <= hn.len(),
            hn.len() == head.len(),
            head.len() < SIZE_BOUND,
            char_rows(hn@) == hs,
            count <= i,
            count + paired(char_rows(remaining@).to_multiset(), hs.subrange(i as int, hs.len() as int))
                == paired(bm0, hs),
        decreases hn.len() - i,
    {
        let ghost rem = char_rows(remaining@);
        let ghost rest = hs.subrange(i as int, hs.len() as int);
        assert(rest[0] == hn@[i as int]@);
        assert(rest.drop_first() =~= hs.subrange(i + 1, hs.len() as int));
        let mut j: usize = 0;
        let mut found = false;
        while j < remaining.len() && !found
            invariant
                i < hn.len(),
                j <= remaining.len(),
                found ==> j < remaining.len() && remaining@[j as int]@ == hn@[i as int]@,
                forall|k: int| 0 <= k < j ==> remaining@[k]@ != hn@[i as int]@,
            decreases remaining.len() - j + (if found { 0int } else { 1int }),
        {
            if chars_eq(&remaining[j], &hn[i]) {
                found = true;
            } else {
                j += 1;
            }
        }
        assert(rem.len() == remaining@.len());
        if found {
            proof {
                vstd::seq_lib::to_multiset_remove(rem, j as int);
                assert(char_rows(remaining@.remove(j as int)) =~= rem.remove(j as int));
            }
            remaining.remove(j);
            count = count + 1;
            proof {
                vstd::seq_lib::to_multiset_contains(rem, hn@[i as int]@);
                assert(rem.contains(hn@[i as int]@)) by {
                    assert(rem[j as int] == hn@[i as int]@);
                }
            }
        } else {
            proof {
                vstd::seq_lib::to_multiset_contains(rem, hn@[i as int]@);
                assert(!rem.contains(hn@[i as int]@)) by {
                    if rem.contains(hn@[i as int]@) {
                        let k = choose|k: int| 0 <= k < rem.len() && rem[k] == hn@[i as int]@;
                        assert(remaining@[k]@ == hn@[i as int]@);
                    }
                }
            }
        }
        i += 1;
    }
    assert(hs.subrange(hs.len() as int, hs.len() as int) =~= Seq::<Seq<char>>::empty());
    (2 * count, total as u64)
}

/// Child overlap of an inner diff, as a fraction.
fn child_overlap(base: &Vec<SpecNode>, head: &Vec<SpecNode>, inner: &Vec<DiffNode>) -> (r: (
    u64,
    u64,
))
    requires
        base@.len() < SIZE_BOUND,
        head@.len() < SIZE_BOUND,
        inner@.len() <= base@.len() + head@.len(),
    ensures
        r.0 as int == overlap(base@, head@, inner@).0,
        r.1 as int == overlap(base@, head@, inner@).1,
        r.0 <= 2 * r.1,
        1 <= r.1 <= 2 * SIZE_BOUND,
{
    let total = base.len() + head.len();
    if total == 0 {
        return (0, 1);
    }
    let mut matched: u64 = 0;
    let mut i: usize = 0;
    while i < inner.len()
        invariant
            i <= inner.len(),
            inner@.len() <= total,
            total < 2 * SIZE_BOUND,
            matched <= i,
            matched as int == pairing_count(inner@.subrange(0, i as int)),
        decreases inner.len() - i,
    {
        assert(inner@.subrange(0, i + 1).drop_last() =~= inner@.subrange(0, i as int));
        let k = inner[i].kind;
        if k == DiffKind::Unchanged || k == DiffKind::Modified || k == DiffKind::Renamed {
            matched = matched + 1;
        }
        i += 1;
    }
    assert(inner@.subrange(0, inner.len() as int) =~= inner@);
    (2 * matched, total as u64)
}


// ---------------------------------------------------------------------------
// Exact matches
// ---------------------------------------------------------------------------
/// Partner indices as integers, -1 for none.
pub open spec fn opt_ints(s: Seq<Option<usize>>) -> Seq<int> {
    Seq::new(
        s.len(),
        |i: int|
            match s[i] {
                Some(j) => j as int,
                None => -1,
            },
    )
}

/// Pairs each base node with the first free head node of the same name and
/// kind; also returns which head nodes were taken.
fn claim_exact_matches(base: &Vec<SpecNode>, head: &Vec<SpecNode>) -> (r: (
    Vec<Option<usize>>,
    Vec<bool>,
))
    ensures
        r.0@.len() == base@.len(),
        r.1@.len() == head@.len(),
        is_exact_assign(base@, head@, opt_ints(r.0@)),
        forall|j: int|
            0 <= j < head@.len() ==> (r.1@[j] <==> used_before(
                opt_ints(r.0@),
                base@.len() as int,
                j,
            )),
{
    let mut exact: Vec<Option<usize>> = Vec::new();
    let mut matched: Vec<bool> = Vec::new();
    let mut k: usize = 0;
    while k < head.len()
        invariant
            k <= head.len(),
            matched@.len() == k,
            forall|j: int| 0 <= j < k ==> !matched@[j],
        decreases head.len() - k,
    {
        matched.push(false);
        k += 1;
    }
    let mut bi: usize = 0;
    while bi < base.len()
        invariant
            bi <= base.len(),
            exact@.len() == bi,
            matched@.len() == head@.len(),
            is_exact_assign(base@.subrange(0, bi as int), head@, opt_ints(exact@)),
            forall|j: int|
                0 <= j < head@.len() ==> (matched@[j] <==> used_before(
                    opt_ints(exact@),
                    bi as int,
                    j,
                )),
        decreases base.len() - bi,
    {
        let mut found: Option<usize> = None;
        let mut hi: usize = 0;
        while hi < head.len() && found.is_none()
            invariant
                bi < base.len(),
                hi <= head.len(),
                matched@.len() == head@.len(),
                found is None ==> forall|j: int|
                    0 <= j < hi && same_key(base@[bi as int], #[trigger] head@[j]) ==> matched@[j],
                found is Some ==> {
                    let j = found->0 as int;
                    &&& j < head@.len()
                    &&& same_key(base@[bi as int], head@[j])
                    &&& !matched@[j]
                    &&& forall|j2: int|
                        0 <= j2 < j && same_key(base@[bi as int], #[trigger] head@[j2])
                            ==> matched@[j2]
                },
            decreases head.len() - hi + (if found is None {
                1int
            } else {
                0int
            }),
        {
            if !matched[hi] && base[bi].name == head[hi].name && base[bi].kind == head[hi].kind {
                found = Some(hi);
            } else {
                hi += 1;
            }
        }
        let ghost e0 = opt_ints(exact@);
        exact.push(found);
        let ghost e1 = opt_ints(exact@);
        proof {
            assert(e1.subrange(0, bi as int) =~= e0);
            assert forall|i: int, j: int| 0 <= i <= bi implies (used_before(e1, i, j)
                <==> used_before(e0, i, j)) by {
                if used_before(e1, i, j) {
                    let i2 = choose|i2: int| 0 <= i2 < i && #[trigger] e1[i2] == j;
                    assert(e0[i2] == j);
                }
                if used_before(e0, i, j) {
                    let i2 = choose|i2: int| 0 <= i2 < i && #[trigger] e0[i2] == j;
                    assert(e1[i2] == j);
                }
            }
        }
        match found {
            Some(j) => {
                matched.set(j, true);
            },
            None => {},
        }
        proof {
            let sub1 = base@.subrange(0, bi + 1);
            assert forall|j: int| 0 <= j < head@.len() implies (matched@[j] <==> used_before(
                e1,
                bi + 1,
                j,
            )) by {
                if e1[bi as int] == j {
                    assert(used_before(e1, bi + 1, j));
                }
                if used_before(e1, bi + 1, j) {
                    let i2 = choose|i2: int| 0 <= i2 < bi + 1 && #[trigger] e1[i2] == j;
                    if i2 < bi {
                        assert(used_before(e0, bi as int, j));
                    }
                } else {
                    assert(!used_before(e0, bi as int, j)) by {
                        if used_before(e0, bi as int, j) {
                            let i2 = choose|i2: int| 0 <= i2 < bi && #[trigger] e0[i2] == j;
                            assert(e1[i2] == j);
                        }
                    }
                }
            }
            assert forall|i: int| 0 <= i < e1.len() implies -1 <= #[trigger] e1[i]
                < head@.len() by {
                if i < bi {
                    assert(e1[i] == e0[i]);
                }
            }
            assert forall|i: int| 0 <= i < e1.len() && e1[i] >= 0 implies {
                &&& same_key(sub1[i], head@[e1[i]])
                &&& !used_before(e1, i, e1[i])
                &&& forall|j: int|
                    0 <= j < e1[i] && same_key(sub1[i], #[trigger] head@[j]) ==> used_before(
                        e1,
                        i,
                        j,
                    )
            } by {
                if i < bi {
                    assert(e1[i] == e0[i]);
                    assert(sub1[i] == base@.subrange(0, bi as int)[i]);
                }
            }
            assert forall|i: int| 0 <= i < e1.len() && e1[i] < 0 implies forall|j: int|
                0 <= j < head@.len() && same_key(sub1[i], #[trigger] head@[j]) ==> used_before(
                    e1,
                    i,
                    j,
                ) by {
                if i < bi {
                    assert(e1[i] == e0[i]);
                    assert(sub1[i] == base@.subrange(0, bi as int)[i]);
                }
            }
        }
        bi += 1;
    }
    assert(base@.subrange(0, base@.len() as int) =~= base@);
    (exact, matched)
}


// ---------------------------------------------------------------------------
// Rename candidates
// ---------------------------------------------------------------------------
/// A possible rename of `base[bi]` into `head[hi]`, with its sort key
/// (score, then name similarity, then index distance) and, when it was
/// already computed, the diff of the children.
struct RenameCandidate {
    bi: usize,
    hi: usize,
    score_num: u128,
    score_den: u128,
    sim_num: u64,
    sim_den: u64,
    index_delta: usize,
    inner_diff: Option<Vec<DiffNode>>,
}

/// The score of `h` as a rename of `b`, as an exact fraction: the name
/// similarity for leaves and childless groups; for other groups
/// `0.3 * name + 0.7 * child`, with the raw child Dice when that clears the
/// threshold, else with the child overlap in `inner`.
pub open spec fn rename_score(b: SpecNode, h: SpecNode, inner: Seq<DiffNode>) -> (int, int) {
    let (nn, nd) = name_sim(b.name@, h.name@);
    if b.kind != SpecKind::Group || (b.children@.len() == 0 && h.children@.len() == 0) {
        (nn, nd)
    } else {
        let (rn, rd) = raw_dice(b.children@, h.children@);
        if weighted_clears(nn, nd, rn, rd) {
            (3 * nn * rd + 7 * rn * nd, 10 * nd * rd)
        } else {
            let (on, od) = overlap(b.children@, h.children@, inner);
            (3 * nn * od + 7 * on * nd, 10 * nd * od)
        }
    }
}

pub open spec fn frac_bound() -> int {
    0x1_0000_0000_0000_0000
}

/// What a stored rename of `b` into `h` guarantees about its inner diff.
spec fn inner_ok(b: SpecNode, h: SpecNode, inner: Option<Vec<DiffNode>>) -> bool {
    match inner {
        Some(v) => b.kind == SpecKind::Group && valid_diff(b.children@, h.children@, v@)
            && rename_ok(b, h, v@),
        None => (forall|x: Seq<DiffNode>| #[trigger] rename_ok(b, h, x)) && (forall|x: Seq<DiffNode>|
            #[trigger] rename_score(b, h, x) == rename_score(b, h, seq![])),
    }
}

/// The rank key of a pair: score, name similarity (both fractions) and
/// index distance.
pub type RankKey = (int, int, int, int, int);

/// The inner diff a stored candidate carries, as a sequence.
pub open spec fn inner_seq(inner: Option<Vec<DiffNode>>) -> Seq<DiffNode> {
    match inner {
        Some(v) => v@,
        None => seq![],
    }
}

/// The rank key of `h` (at `j`) as a rename of `b` (at `i`), with the
/// inner diff `inner` of their children.
pub open spec fn rename_key(b: SpecNode, h: SpecNode, i: int, j: int, inner: Seq<DiffNode>) -> RankKey {
    let (sn, sd) = rename_score(b, h, inner);
    let (nn, nd) = name_sim(b.name@, h.name@);
    (sn, sd, nn, nd, if i >= j { i - j } else { j - i })
}

/// `a` ranks strictly before `b`: a higher score, then a higher name
/// similarity, then a smaller index distance (fractions compared exactly).
pub open spec fn key_before(a: RankKey, b: RankKey) -> bool {
    let lhs = a.0 * b.1;
    let rhs = b.0 * a.1;
    let sl = a.2 * b.3;
    let sr = b.2 * a.3;
    if lhs != rhs {
        lhs > rhs
    } else if sl != sr {
        sl > sr
    } else {
        a.4 < b.4
    }
}

/// The rank key a candidate carries.
spec fn key_of_cand(c: RenameCandidate) -> RankKey {
    (c.score_num as int, c.score_den as int, c.sim_num as int, c.sim_den as int, c.index_delta as int)
}

/// Ranking strictly before is transitive (for positive denominators).
proof fn lemma_key_before_transitive(a: RankKey, b: RankKey, c: RankKey)
    requires
        a.1 > 0 && b.1 > 0 && c.1 > 0,
        a.3 > 0 && b.3 > 0 && c.3 > 0,
        key_before(a, b),
        key_before(b, c),
    ensures
        key_before(a, c),
{
    lemma_frac_order(a.0, a.1, b.0, b.1, c.0, c.1);
    lemma_frac_order(a.2, a.3, b.2, b.3, c.2, c.3);
}

/// Comparing fractions by cross products is a consistent order.
proof fn lemma_frac_order(x: int, xd: int, y: int, yd: int, z: int, zd: int)
    requires
        xd > 0,
        yd > 0,
        zd > 0,
    ensures
        x * yd > y * xd && y * zd > z * yd ==> x * zd > z * xd,
        x * yd > y * xd && y * zd == z * yd ==> x * zd > z * xd,
        x * yd == y * xd && y * zd > z * yd ==> x * zd > z * xd,
        x * yd == y * xd && y * zd == z * yd ==> x * zd == z * xd,
{
    assert(x * yd > y * xd && y * zd > z * yd ==> x * zd > z * xd) by (nonlinear_arith)
        requires xd > 0, yd > 0, zd > 0;
    assert(x * yd > y * xd && y * zd == z * yd ==> x * zd > z * xd) by (nonlinear_arith)
        requires xd > 0, yd > 0, zd > 0;
    assert(x * yd == y * xd && y * zd > z * yd ==> x * zd > z * xd) by (nonlinear_arith)
        requires xd > 0, yd > 0, zd > 0;
    assert(x * yd == y * xd && y * zd == z * yd ==> x * zd == z * xd) by (nonlinear_arith)
        requires xd > 0, yd > 0, zd > 0;
}

spec fn cand_ok(c: RenameCandidate, base: Seq<SpecNode>, head: Seq<SpecNode>, e: Seq<int>) -> bool {
    &&& c.bi < base.len()
    &&& c.hi < head.len()
    &&& e[c.bi as int] < 0
    &&& forall|i: int| 0 <= i < e.len() ==> #[trigger] e[i] != c.hi
    &&& base[c.bi as int].kind == head[c.hi as int].kind
    &&& 1 <= c.score_den < frac_bound()
    &&& c.score_num < frac_bound()
    &&& 1 <= c.sim_den
    &&& inner_ok(base[c.bi as int], head[c.hi as int], c.inner_diff)
    &&& key_of_cand(c) == rename_key(base[c.bi as int], head[c.hi as int], c.bi as int, c.hi as int, inner_seq(c.inner_diff))
}

/// Outcome of the cheap part of scoring a pair.
enum Phase1 {
    Rejected,
    Accepted(RenameCandidate),
    /// A group pair whose score needs the diff of the children; carries the
    /// name similarity.
    NeedsInner(u64, u64),
}

fn abs_diff(a: usize, b: usize) -> (r: usize)
    ensures
        r == if a >= b { a - b } else { b - a },
{
    if a >= b {
        a - b
    } else {
        b - a
    }
}

/// Scores `base[bi]` against `head[hi]` without diffing their children.
fn score_phase1(bi: usize, hi: usize, base: &Vec<SpecNode>, head: &Vec<SpecNode>) -> (r: Phase1)
    requires
        bi < base@.len(),
        hi < head@.len(),
        small_forest(base@),
        small_forest(head@),
        base@[bi as int].kind == head@[hi as int].kind,
    ensures
        match r {
            Phase1::Accepted(c) => c.bi == bi && c.hi == hi && 1 <= c.score_den < frac_bound()
                && c.score_num < frac_bound() && 1 <= c.sim_den && inner_ok(
                base@[bi as int],
                head@[hi as int],
                c.inner_diff,
            ) && plain_rename(base@[bi as int], head@[hi as int])
                && (c.score_num as int, c.score_den as int) == rename_score(base@[bi as int], head@[hi as int], seq![])
                && (c.sim_num as int, c.sim_den as int) == name_sim(base@[bi as int].name@, head@[hi as int].name@)
                && c.index_delta == (if bi >= hi { bi - hi } else { hi - bi })
                && (if base@[bi as int].kind == SpecKind::Group && base@[bi as int].children@.len() == 0
                    && head@[hi as int].children@.len() == 0 { c.inner_diff matches Some(v) && v@.len() == 0 } else { c.inner_diff is None }),
            Phase1::NeedsInner(nn, nd) => {
                &&& base@[bi as int].kind == SpecKind::Group
                &&& !(base@[bi as int].children@.len() == 0 && head@[hi as int].children@.len()
                    == 0)
                &&& nn as int == name_sim(base@[bi as int].name@, head@[hi as int].name@).0
                &&& nd as int == name_sim(base@[bi as int].name@, head@[hi as int].name@).1
                &&& nn <= nd
                &&& 1 <= nd < SIZE_BOUND
            },
            Phase1::Rejected => true,
        },
        plain_rename(base@[bi as int], head@[hi as int]) ==> r matches Phase1::Accepted(c),
        needs_inner(base@[bi as int], head@[hi as int]) ==> r matches Phase1::NeedsInner(_, _),
{
    let b = &base[bi];
    let h = &head[hi];
    assert(small_node(base@[bi as int]) && small_node(head@[hi as int]));
    let (nn, nd) = name_similarity(&b.name, &h.name);
    let index_delta = abs_diff(bi, hi);
    match b.kind {
        SpecKind::Group => {
            if b.children.len() == 0 && h.children.len() == 0 {
                if 10 * (nn as u128) >= 7 * (nd as u128) {
                    let inner: Vec<DiffNode> = Vec::new();
                    proof {
                        let w = DiffWitness {
                            assign: Seq::empty(),
                            exact: Seq::empty(),
                            added: Seq::empty(),
                        };
                        assert(b.children@ =~= Seq::<SpecNode>::empty());
                        assert(h.children@ =~= Seq::<SpecNode>::empty());
                        assert(diff_with(b.children@, h.children@, inner@, w));
                        assert(witness_seq(w) == w.assign);
                        assert(valid_diff(b.children@, h.children@, inner@));
                        assert(rename_ok(base@[bi as int], head@[hi as int], inner@));
                    }
                    return Phase1::Accepted(
                        RenameCandidate {
                            bi,
                            hi,
                            score_num: nn as u128,
                            score_den: nd as u128,
                            sim_num: nn,
                            sim_den: nd,
                            index_delta,
                            inner_diff: Some(inner),
                        },
                    );
                } else {
                    return Phase1::Rejected;
                }
            }
            let (cn, cd) = raw_child_dice(&b.children, &h.children);
            proof {
                assert(3 * nn * cd <= 3 * SIZE_BOUND * (2 * SIZE_BOUND)) by (nonlinear_arith)
                    requires
                        nn < SIZE_BOUND,
                        cd <= 2 * SIZE_BOUND,
                ;
                assert(7 * cn * nd <= 7 * (4 * SIZE_BOUND) * SIZE_BOUND) by (nonlinear_arith)
                    requires
                        cn <= 4 * SIZE_BOUND,
                        nd < SIZE_BOUND,
                ;
                assert(10 * nd * cd <= 10 * SIZE_BOUND * (2 * SIZE_BOUND)) by (nonlinear_arith)
                    requires
                        nd < SIZE_BOUND,
                        cd <= 2 * SIZE_BOUND,
                ;
                assert(1 <= 10 * nd * cd) by (nonlinear_arith)
                    requires
                        1 <= nd,
                        1 <= cd,
                ;
            }
            let num = 3 * (nn as u128) * (cd as u128) + 7 * (cn as u128) * (nd as u128);
            let den = 10 * (nd as u128) * (cd as u128);
            if 2 * num >= den {
                proof {
                    let (nni, ndi, cni, cdi) = (nn as int, nd as int, cn as int, cd as int);
                    assert(weighted_clears(nni, ndi, cni, cdi)) by (nonlinear_arith)
                        requires
                            num == 3 * nni * cdi + 7 * cni * ndi,
                            den == 10 * ndi * cdi,
                            2 * num >= den,
                    ;
                    assert forall|x: Seq<DiffNode>| #[trigger] rename_ok(base@[bi as int], head@[hi as int], x) by {}
                }
                Phase1::Accepted(
                    RenameCandidate {
                        bi,
                        hi,
                        score_num: num,
                        score_den: den,
                        sim_num: nn,
                        sim_den: nd,
                        index_delta,
                        inner_diff: None,
                    },
                )
            } else {
                proof {
                    let (nni, ndi, cni, cdi) = (nn as int, nd as int, cn as int, cd as int);
                    assert(!weighted_clears(nni, ndi, cni, cdi)) by (nonlinear_arith)
                        requires
                            num == 3 * nni * cdi + 7 * cni * ndi,
                            den == 10 * ndi * cdi,
                            2 * num < den,
                    ;
                }
                Phase1::NeedsInner(nn, nd)
            }
        },
        _ => {
            if 2 * (nn as u128) >= nd as u128 {
                proof {
                    assert forall|x: Seq<DiffNode>| #[trigger] rename_ok(base@[bi as int], head@[hi as int], x) by {}
                }
                Phase1::Accepted(
                    RenameCandidate {
                        bi,
                        hi,
                        score_num: nn as u128,
                        score_den: nd as u128,
                        sim_num: nn,
                        sim_den: nd,
                        index_delta,
                        inner_diff: None,
                    },
                )
            } else {
                Phase1::Rejected
            }
        },
    }
}

/// `a` comes strictly before `b` in the candidate order: higher score, then
/// higher name similarity, then smaller index distance (fractions compared
/// exactly).
spec fn candidate_before(a: RenameCandidate, b: RenameCandidate) -> bool {
    key_before(key_of_cand(a), key_of_cand(b))
}

/// `a` comes strictly before `b` in the candidate order: higher score, then
/// higher name similarity, then smaller index distance.
fn ranks_before(a: &RenameCandidate, b: &RenameCandidate) -> (r: bool)
    requires
        1 <= a.score_den < frac_bound(),
        a.score_num < frac_bound(),
        1 <= b.score_den < frac_bound(),
        b.score_num < frac_bound(),
    ensures
        r == candidate_before(*a, *b),
{
    proof {
        assert(a.score_num * b.score_den < frac_bound() * frac_bound()) by (nonlinear_arith)
            requires
                a.score_num < frac_bound(),
                b.score_den < frac_bound(),
        ;
        assert(b.score_num * a.score_den < frac_bound() * frac_bound()) by (nonlinear_arith)
            requires
                b.score_num < frac_bound(),
                a.score_den < frac_bound(),
        ;
    }
    let lhs = a.score_num * b.score_den;
    let rhs = b.score_num * a.score_den;
    if lhs != rhs {
        return lhs > rhs;
    }
    proof {
        let (x, y, z, w) = (a.sim_num as int, b.sim_den as int, b.sim_num as int, a.sim_den as int);
        assert(x * y <= 0xffff_ffff_ffff_ffff * 0xffff_ffff_ffff_ffff) by (nonlinear_arith)
            requires
                0 <= x <= 0xffff_ffff_ffff_ffff,
                0 <= y <= 0xffff_ffff_ffff_ffff,
        ;
        assert(z * w <= 0xffff_ffff_ffff_ffff * 0xffff_ffff_ffff_ffff) by (nonlinear_arith)
            requires
                0 <= z <= 0xffff_ffff_ffff_ffff,
                0 <= w <= 0xffff_ffff_ffff_ffff,
        ;
    }
    let sl = (a.sim_num as u128) * (b.sim_den as u128);
    let sr = (b.sim_num as u128) * (a.sim_den as u128);
    if sl != sr {
        return sl > sr;
    }
    a.index_delta < b.index_delta
}


// ---------------------------------------------------------------------------
// Choosing renames
// ---------------------------------------------------------------------------
type Slot = Option<(usize, Option<Vec<DiffNode>>)>;

spec fn slot_target(s: Slot) -> int {
    match s {
        Some((hi, _)) => hi as int,
        None => -1,
    }
}

spec fn slot_inner(s: Slot) -> Option<Vec<DiffNode>> {
    match s {
        Some((_, inner)) => inner,
        None => None,
    }
}

/// Chosen renames: base node `i` is renamed into head node `slots[i].0`.
spec fn slots_ok(slots: Seq<Slot>, base: Seq<SpecNode>, head: Seq<SpecNode>, e: Seq<int>) -> bool {
    &&& slots.len() == base.len()
    &&& forall|i: int|
        #![trigger slots[i]]
        0 <= i < slots.len() && slots[i] is Some ==> {
            let hi = slot_target(slots[i]);
            &&& e[i] < 0
            &&& hi < head.len()
            &&& forall|i2: int| 0 <= i2 < e.len() ==> #[trigger] e[i2] != hi
            &&& base[i].kind == head[hi as int].kind
            &&& inner_ok(base[i], head[hi as int], slot_inner(slots[i]))
        }
    &&& forall|i: int, i2: int|
        0 <= i < i2 < slots.len() && (#[trigger] slots[i]) is Some && (#[trigger] slots[i2]) is Some
            ==> slot_target(slots[i]) != slot_target(slots[i2])
}

/// Head node `j` is the target of one of the chosen renames.
spec fn rename_target(slots: Seq<Slot>, j: int) -> bool {
    exists|i: int| 0 <= i < slots.len() && (#[trigger] slots[i]) is Some && slot_target(slots[i]) == j
}

/// Candidate `c` is settled: its base node is renamed or its head node taken.
spec fn settled(c: RenameCandidate, slots: Seq<Slot>, taken: Seq<bool>) -> bool {
    slots[c.bi as int] is Some || taken[c.hi as int]
}

/// Some candidate of `cs` pairs base node `i` with head node `j`.
spec fn listed_pair(cs: Seq<RenameCandidate>, base: Seq<SpecNode>, head: Seq<SpecNode>, i: int, j: int) -> bool {
    exists|m: int|
        0 <= m < cs.len() && (#[trigger] cs[m]).bi == i && cs[m].hi == j && key_of_cand(cs[m]) == rename_key(base[i], head[j], i, j, seq![])
}

/// A candidate of `cs` pairs base group `i` with head group `j`, carrying
/// a diff of their children by which it is ranked.
spec fn listed_group(cs: Seq<RenameCandidate>, base: Seq<SpecNode>, head: Seq<SpecNode>, i: int, j: int) -> bool {
    exists|m: int|
        0 <= m < cs.len() && (#[trigger] cs[m]).bi == i && cs[m].hi == j && cs[m].inner_diff is Some && valid_diff(
            base[i].children@,
            head[j].children@,
            inner_seq(cs[m].inner_diff),
        ) && key_of_cand(cs[m]) == rename_key(base[i], head[j], i, j, inner_seq(cs[m].inner_diff))
}

/// Every pair of free groups whose rename hangs on their children's diff
/// (a base group not matched exactly, a head group not matched exactly)
/// was judged on that diff: either some diff of the children leaves them
/// short of a rename, or they are paired, or a chosen rename that takes
/// one of them ranks no lower than they do with some diff of the children.
pub open spec fn group_renames_settled(base: Seq<SpecNode>, head: Seq<SpecNode>, res: Seq<DiffNode>, w: DiffWitness) -> bool {
    let a = w.assign;
    let e = w.exact;
    forall|i: int, j: int|
        0 <= i < base.len() && 0 <= j < head.len() && e[i] < 0 && !used_before(e, base.len() as int, j) && #[trigger] needs_inner(
            base[i],
            head[j],
        ) && a[i] != j ==> inner_rejects(base[i], head[j]) || exists|inner: Seq<DiffNode>, i2: int|
            valid_diff(base[i].children@, head[j].children@, inner) && 0 <= i2 < base.len() && e[i2] < 0 && a[i2] >= 0 && (i2 == i
                || a[i2] == j) && !#[trigger] key_before(
                rename_key(base[i], head[j], i, j, inner),
                rename_key(base[i2], head[a[i2]], i2, a[i2], res[i2].children@),
            )
}

/// `res` is a diff of `base` against `head` in which the group renames that
/// hang on their children's diffs are settled as well.
pub open spec fn bottom_up_settled(base: Seq<SpecNode>, head: Seq<SpecNode>, res: Seq<DiffNode>) -> bool {
    exists|w: DiffWitness| #[trigger] witness_seq(w) == w.assign && diff_with(base, head, res, w) && group_renames_settled(base, head, res, w)
}

/// Some candidate of `cands` pairs the same two nodes as `c`.
spec fn pending(c: RenameCandidate, cands: Seq<RenameCandidate>) -> bool {
    exists|m: int| 0 <= m < cands.len() && (#[trigger] cands[m]).bi == c.bi && cands[m].hi == c.hi
}

/// The rank key of the rename chosen for base node `i`.
spec fn slot_key(slots: Seq<Slot>, base: Seq<SpecNode>, head: Seq<SpecNode>, i: int) -> RankKey {
    let j = slot_target(slots[i]);
    rename_key(base[i], head[j], i, j, inner_seq(slot_inner(slots[i])))
}

/// Candidate `c` lost to a chosen rename sharing one of its nodes that
/// ranks no lower.
spec fn beaten(c: RenameCandidate, slots: Seq<Slot>, base: Seq<SpecNode>, head: Seq<SpecNode>) -> bool {
    exists|i: int|
        0 <= i < slots.len() && (#[trigger] slots[i]) is Some && (i == c.bi || slot_target(slots[i]) == c.hi) && !key_before(
            key_of_cand(c),
            slot_key(slots, base, head, i),
        )
}

/// Candidate `c` was chosen.
spec fn chosen_pair(c: RenameCandidate, slots: Seq<Slot>) -> bool {
    slots[c.bi as int] is Some && slot_target(slots[c.bi as int]) == c.hi
}

/// Both of the candidate's nodes are still free.
spec fn free_cand(c: RenameCandidate, slots: Seq<Slot>, taken: Seq<bool>) -> bool {
    slots[c.bi as int] is None && !taken[c.hi as int]
}

/// Takes candidates best first (see `ranks_before`; earlier candidates win
/// ties), skipping those whose base or head node is already taken.
fn select_renames(
    candidates: Vec<RenameCandidate>,
    base: &Vec<SpecNode>,
    head: &Vec<SpecNode>,
    head_matched: &Vec<bool>,
    Ghost(e): Ghost<Seq<int>>,
) -> (r: (Vec<Slot>, Vec<bool>))
    requires
        e.len() == base@.len(),
        head_matched@.len() == head@.len(),
        forall|k: int| 0 <= k < candidates@.len() ==> cand_ok(#[trigger] candidates@[k], base@, head@, e),
        forall|j: int| 0 <= j < head@.len() ==> (head_matched@[j] <==> used_before(e, e.len() as int, j)),
    ensures
        slots_ok(r.0@, base@, head@, e),
        r.1@.len() == head@.len(),
        forall|j: int|
            0 <= j < head@.len() ==> (r.1@[j] <==> (used_before(e, e.len() as int, j)
                || rename_target(r.0@, j))),
        forall|k: int| 0 <= k < candidates@.len() ==> settled(#[trigger] candidates@[k], r.0@, r.1@),
        forall|k: int| 0 <= k < candidates@.len() ==> chosen_pair(#[trigger] candidates@[k], r.0@) || beaten(candidates@[k], r.0@, base@, head@),
{
    let ghost orig = candidates@;
    let mut cands = candidates;
    let mut slots: Vec<Slot> = Vec::new();
    let mut k: usize = 0;
    while k < base.len()
        invariant
            k <= base.len(),
            slots@.len() == k,
            forall|i: int| 0 <= i < k ==> (#[trigger] slots@[i]) is None,
        decreases base.len() - k,
    {
        slots.push(None);
        k += 1;
    }
    let mut taken: Vec<bool> = Vec::new();
    let mut k: usize = 0;
    while k < head.len()
        invariant
            k <= head.len(),
            head_matched@.len() == head@.len(),
            taken@.len() == k,
            forall|j: int| 0 <= j < k ==> taken@[j] == head_matched@[j],
        decreases head.len() - k,
    {
        taken.push(head_matched[k]);
        k += 1;
    }
    loop
        invariant
            e.len() == base@.len(),
            taken@.len() == head@.len(),
            forall|k: int| 0 <= k < cands@.len() ==> cand_ok(#[trigger] cands@[k], base@, head@, e),
            slots_ok(slots@, base@, head@, e),
            forall|j: int|
                0 <= j < head@.len() ==> (taken@[j] <==> (used_before(e, e.len() as int, j)
                    || rename_target(slots@, j))),
            orig == candidates@,
            forall|k: int| 0 <= k < orig.len() ==> cand_ok(#[trigger] orig[k], base@, head@, e),
            forall|k: int| 0 <= k < orig.len() ==> pending(#[trigger] orig[k], cands@) || settled(orig[k], slots@, taken@),
            slots@.len() == base@.len(),
            forall|k: int|
                0 <= k < orig.len() ==> (exists|m: int| 0 <= m < cands@.len() && cands@[m] == #[trigger] orig[k]) || chosen_pair(orig[k], slots@)
                    || beaten(orig[k], slots@, base@, head@),
            forall|m: int|
                0 <= m < cands@.len() ==> free_cand(#[trigger] cands@[m], slots@, taken@) || chosen_pair(cands@[m], slots@) || beaten(
                    cands@[m],
                    slots@,
                    base@,
                    head@,
                ),
        ensures
            forall|k: int| 0 <= k < orig.len() ==> settled(#[trigger] orig[k], slots@, taken@),
            forall|k: int| 0 <= k < orig.len() ==> chosen_pair(#[trigger] orig[k], slots@) || beaten(orig[k], slots@, base@, head@),
        decreases cands@.len(),
    {
        let mut best: Option<usize> = None;
        let mut k: usize = 0;
        while k < cands.len()
            invariant
                k <= cands.len(),
                taken@.len() == head@.len(),
                slots@.len() == base@.len(),
                forall|k2: int| 0 <= k2 < cands@.len() ==> cand_ok(#[trigger] cands@[k2], base@, head@, e),
                best is Some ==> {
                    let bk = best->0 as int;
                    &&& bk < k
                    &&& slots@[cands@[bk].bi as int] is None
                    &&& !taken@[cands@[bk].hi as int]
                },
                best is None ==> forall|m: int| 0 <= m < k ==> settled(#[trigger] cands@[m], slots@, taken@),
                best is Some ==> forall|m: int|
                    0 <= m < k && free_cand(#[trigger] cands@[m], slots@, taken@) ==> !candidate_before(cands@[m], cands@[best->0 as int]),
            decreases cands.len() - k,
        {
            let c = &cands[k];
            assert(cand_ok(cands@[k as int], base@, head@, e));
            if slots[c.bi].is_none() && !taken[c.hi] {
                match best {
                    None => {
                        best = Some(k);
                    },
                    Some(bk) => {
                        assert(cand_ok(cands@[bk as int], base@, head@, e));
                        if ranks_before(c, &cands[bk]) {
                            proof {
                                assert forall|m: int|
                                    0 <= m < k && free_cand(#[trigger] cands@[m], slots@, taken@) implies !candidate_before(cands@[m], cands@[k as int]) by {
                                    assert(cand_ok(cands@[m], base@, head@, e));
                                    if candidate_before(cands@[m], cands@[k as int]) {
                                        lemma_key_before_transitive(key_of_cand(cands@[m]), key_of_cand(cands@[k as int]), key_of_cand(cands@[bk as int]));
                                    }
                                }
                            }
                            best = Some(k);
                        }
                    },
                }
            }
            k += 1;
        }
        match best {
            None => {
                proof {
                    assert forall|k2: int| 0 <= k2 < orig.len() implies chosen_pair(#[trigger] orig[k2], slots@) || beaten(orig[k2], slots@, base@, head@) by {
                        if exists|m: int| 0 <= m < cands@.len() && cands@[m] == orig[k2] {
                            let m = choose|m: int| 0 <= m < cands@.len() && cands@[m] == orig[k2];
                            assert(settled(cands@[m], slots@, taken@));
                            assert(!free_cand(cands@[m], slots@, taken@));
                        }
                    }
                    assert forall|k2: int| 0 <= k2 < orig.len() implies settled(#[trigger] orig[k2], slots@, taken@) by {
                        if pending(orig[k2], cands@) {
                            let m = choose|m: int| 0 <= m < cands@.len() && (#[trigger] cands@[m]).bi == orig[k2].bi && cands@[m].hi == orig[k2].hi;
                            assert(settled(cands@[m], slots@, taken@));
                        }
                    }
                }
                break ;
            },
            Some(bk) => {
                let ghost old_cands = cands@;
                let ghost old_slots = slots@;
                assert(cand_ok(cands@[bk as int], base@, head@, e));
                let c = cands.remove(bk);
                assert forall|k2: int| 0 <= k2 < cands@.len() implies cand_ok(
                    #[trigger] cands@[k2],
                    base@,
                    head@,
                    e,
                ) by {
                    if k2 < bk {
                        assert(cands@[k2] == old_cands[k2]);
                    } else {
                        assert(cands@[k2] == old_cands[k2 + 1]);
                    }
                }
                let cbi = c.bi;
                let chi = c.hi;
                let ghost old_taken = taken@;
                taken.set(chi, true);
                slots.set(cbi, Some((chi, c.inner_diff)));
                proof {
                    let f = old_cands[bk as int];
                    assert(slots@[cbi as int] == Some((f.hi, f.inner_diff)));
                    assert(slot_key(slots@, base@, head@, cbi as int) == key_of_cand(f));
                    assert(old_slots[cbi as int] is None);
                    assert forall|x: RenameCandidate| #[trigger] beaten(x, old_slots, base@, head@) implies beaten(x, slots@, base@, head@) by {
                        let i = choose|i: int|
                            0 <= i < old_slots.len() && (#[trigger] old_slots[i]) is Some && (i == x.bi || slot_target(old_slots[i]) == x.hi)
                                && !key_before(key_of_cand(x), slot_key(old_slots, base@, head@, i));
                        assert(i != cbi);
                        assert(slots@[i] == old_slots[i]);
                        assert(slot_key(slots@, base@, head@, i) == slot_key(old_slots, base@, head@, i));
                    }
                    assert forall|x: RenameCandidate| 0 <= x.bi < old_slots.len() && #[trigger] chosen_pair(x, old_slots) implies chosen_pair(x, slots@) by {
                        assert(x.bi != cbi);
                        assert(slots@[x.bi as int] == old_slots[x.bi as int]);
                    }
                    assert forall|k2: int| 0 <= k2 < orig.len() implies (exists|m: int| 0 <= m < cands@.len() && cands@[m] == #[trigger] orig[k2])
                        || chosen_pair(orig[k2], slots@) || beaten(orig[k2], slots@, base@, head@) by {
                        let o = orig[k2];
                        assert(cand_ok(o, base@, head@, e));
                        if exists|m: int| 0 <= m < old_cands.len() && old_cands[m] == o {
                            let m = choose|m: int| 0 <= m < old_cands.len() && old_cands[m] == o;
                            if m == bk {
                                assert(chosen_pair(o, slots@));
                            } else if m < bk {
                                assert(cands@[m] == o);
                            } else {
                                assert(cands@[m - 1] == o);
                            }
                        } else if chosen_pair(o, old_slots) {
                            assert(chosen_pair(o, slots@));
                        } else {
                            assert(beaten(o, slots@, base@, head@));
                        }
                    }
                    assert forall|m: int|
                        0 <= m < cands@.len() implies free_cand(#[trigger] cands@[m], slots@, taken@) || chosen_pair(cands@[m], slots@) || beaten(
                            cands@[m],
                            slots@,
                            base@,
                            head@,
                        ) by {
                        let om = if m < bk { m } else { m + 1 };
                        let x = old_cands[om];
                        assert(cands@[m] == x);
                        assert(cand_ok(x, base@, head@, e));
                        if free_cand(x, old_slots, old_taken) {
                            if x.bi == cbi || x.hi == chi {
                                assert(!candidate_before(x, f));
                                assert(beaten(x, slots@, base@, head@));
                            } else {
                                assert(slots@[x.bi as int] == old_slots[x.bi as int]);
                                assert(taken@[x.hi as int] == old_taken[x.hi as int]);
                            }
                        } else if chosen_pair(x, old_slots) {
                            assert(chosen_pair(x, slots@));
                        } else {
                            assert(beaten(x, slots@, base@, head@));
                        }
                    }
                    assert forall|k2: int| 0 <= k2 < orig.len() implies pending(#[trigger] orig[k2], cands@) || settled(orig[k2], slots@, taken@) by {
                        let o = orig[k2];
                        assert(cand_ok(o, base@, head@, e));
                        if pending(o, old_cands) {
                            let m = choose|m: int| 0 <= m < old_cands.len() && (#[trigger] old_cands[m]).bi == o.bi && old_cands[m].hi == o.hi;
                            if m == bk {
                                assert(slots@[cbi as int] is Some);
                            } else if m < bk {
                                assert(cands@[m] == old_cands[m]);
                            } else {
                                assert(cands@[m - 1] == old_cands[m]);
                            }
                        } else {
                            if old_slots[o.bi as int] is Some {
                                if o.bi != cbi {
                                    assert(slots@[o.bi as int] == old_slots[o.bi as int]);
                                }
                            } else {
                                assert(old_taken[o.hi as int]);
                                assert(taken@[o.hi as int]);
                            }
                        }
                    }
                    assert(!rename_target(old_slots, chi as int));
                    assert forall|i: int, i2: int|
                        0 <= i < i2 < slots@.len() && (#[trigger] slots@[i]) is Some && (
                        #[trigger] slots@[i2]) is Some implies slot_target(slots@[i]) != slot_target(slots@[i2]) by {
                        if i != cbi && i2 != cbi {
                            assert(old_slots[i] == slots@[i] && old_slots[i2] == slots@[i2]);
                        } else if i == cbi {
                            assert(old_slots[i2] == slots@[i2]);
                            if slot_target(slots@[i2]) == chi {
                                assert(rename_target(old_slots, chi as int));
                            }
                        } else {
                            assert(old_slots[i] == slots@[i]);
                            if slot_target(slots@[i]) == chi {
                                assert(rename_target(old_slots, chi as int));
                            }
                        }
                    }
                    assert forall|i: int|
                        #![trigger slots@[i]]
                        0 <= i < slots@.len() && slots@[i] is Some implies {
                        let hi = slot_target(slots@[i]);
                        &&& e[i] < 0
                        &&& hi < head@.len()
                        &&& forall|i2: int| 0 <= i2 < e.len() ==> #[trigger] e[i2] != hi
                        &&& base@[i].kind == head@[hi as int].kind
                        &&& inner_ok(base@[i], head@[hi as int], slot_inner(slots@[i]))
                    } by {
                        if i != cbi {
                            assert(old_slots[i] == slots@[i]);
                        }
                    }
                    assert forall|j: int| 0 <= j < head@.len() implies (taken@[j] <==> (
                    used_before(e, e.len() as int, j) || rename_target(slots@, j))) by {
                        if j == chi {
                            assert(slots@[cbi as int] is Some);
                            assert(rename_target(slots@, j));
                        } else {
                            if rename_target(old_slots, j) {
                                let i = choose|i: int|
                                    0 <= i < old_slots.len() && (#[trigger] old_slots[i]) is Some
                                        && slot_target(old_slots[i]) == j;
                                assert(i != cbi);
                                assert(slots@[i] == old_slots[i]);
                            }
                            if rename_target(slots@, j) {
                                let i = choose|i: int|
                                    0 <= i < slots@.len() && (#[trigger] slots@[i]) is Some
                                        && slot_target(slots@[i]) == j;
                                assert(i != cbi);
                                assert(slots@[i] == old_slots[i]);
                            }
                        }
                    }
                }
            },
        }
    }
    (slots, taken)
}


// ---------------------------------------------------------------------------
// The diff
// ---------------------------------------------------------------------------
/// Cap on how many times scoring may diff the children of a group pair,
/// across one call of `diff_spec_nodes`.
/// How many children's diffs a diff may make to judge group renames
/// bottom-up; past it, such pairs are left unjudged.
pub const RECURSIVE_PAIR_BUDGET: usize = 10_000;

/// The most that diffing `base` against `head` spends of the budget for
/// children's diffs, counted over the pairs from `(i, j)` on in row order:
/// one for each pair whose children may be diffed to judge a rename, plus
/// twice what diffing their children may spend (once for that judgement,
/// once when the pair is matched).
pub open spec fn pairs_cost(base: Seq<SpecNode>, head: Seq<SpecNode>, i: int, j: int) -> nat
    decreases base, base.len() - i, head.len() - j,
{
    if i < 0 || i >= base.len() {
        0
    } else if j < 0 || j >= head.len() {
        pairs_cost(base, head, i + 1, 0)
    } else {
        1 + 2 * pairs_cost(base[i].children@, head[j].children@, 0, 0) + pairs_cost(base, head, i, j + 1)
    }
}

/// What diffing the children of the pairs from `(i, j)` on may spend.
pub open spec fn children_cost(base: Seq<SpecNode>, head: Seq<SpecNode>, i: int, j: int) -> nat
    decreases base.len() - i, head.len() - j,
{
    if i < 0 || i >= base.len() {
        0
    } else if j < 0 || j >= head.len() {
        children_cost(base, head, i + 1, 0)
    } else {
        pairs_cost(base[i].children@, head[j].children@, 0, 0) + children_cost(base, head, i, j + 1)
    }
}

/// Skipping the rest of a row spends no more than the row allows beyond
/// what its children's diffs may spend.
proof fn lemma_row_skip(base: Seq<SpecNode>, head: Seq<SpecNode>, i: int, j: int)
    requires
        0 <= i < base.len(),
        0 <= j,
    ensures
        pairs_cost(base, head, i, j) - children_cost(base, head, i, j) >= pairs_cost(base, head, i + 1, 0) - children_cost(
            base,
            head,
            i + 1,
            0,
        ),
    decreases head.len() - j,
{
    if j < head.len() {
        lemma_row_skip(base, head, i, j + 1);
    }
}

/// The children's diffs of one pair of a row spend no more than those of
/// the whole row.
proof fn lemma_row_member(base: Seq<SpecNode>, head: Seq<SpecNode>, i: int, j: int, k: int)
    requires
        0 <= i < base.len(),
        0 <= j <= k < head.len(),
    ensures
        children_cost(base, head, i, j) >= pairs_cost(base[i].children@, head[k].children@, 0, 0) + children_cost(base, head, i + 1, 0),
    decreases k - j,
{
    if j < k {
        lemma_row_member(base, head, i, j + 1, k);
    } else {
        lemma_row_rest(base, head, i, j + 1);
    }
}

/// A row's children's diffs spend at least nothing beyond the next rows.
proof fn lemma_row_rest(base: Seq<SpecNode>, head: Seq<SpecNode>, i: int, j: int)
    requires
        0 <= i < base.len(),
        0 <= j,
    ensures
        children_cost(base, head, i, j) >= children_cost(base, head, i + 1, 0),
    decreases head.len() - j,
{
    if j < head.len() {
        lemma_row_rest(base, head, i, j + 1);
    }
}

fn opt_eq(a: Option<usize>, b: Option<usize>) -> (r: bool)
    ensures
        r == (a == b),
{
    match (a, b) {
        (Some(x), Some(y)) => x == y,
        (None, None) => true,
        _ => false,
    }
}

/// Whether some node of the forest is not `Unchanged`.
fn any_kind_changed(v: &Vec<DiffNode>) -> (r: bool)
    ensures
        r == any_changed(v@),
{
    let mut i: usize = 0;
    while i < v.len()
        invariant
            i <= v.len(),
            forall|k: int| 0 <= k < i ==> (#[trigger] v@[k]).kind == DiffKind::Unchanged,
        decreases v.len() - i,
    {
        if v[i].kind != DiffKind::Unchanged {
            assert(v@[i as int].kind != DiffKind::Unchanged);
            return true;
        }
        i += 1;
    }
    false
}

/// Diffs two forests whose roots are siblings.
fn diff_level(base: &Vec<SpecNode>, head: &Vec<SpecNode>, budget: &mut usize) -> (r: Vec<
    DiffNode,
>)
    requires
        small_forest(base@),
        small_forest(head@),
    ensures
        valid_diff(base@, head@, r@),
        r@.len() <= base@.len() + head@.len(),
        *final(budget) <= *old(budget),
        *old(budget) - *final(budget) <= pairs_cost(base@, head@, 0, 0),
        *final(budget) > 0 ==> bottom_up_settled(base@, head@, r@),
    decreases base@,
{
    let (exact, head_matched) = claim_exact_matches(base, head);
    let ghost e = opt_ints(exact@);
    let mut candidates: Vec<RenameCandidate> = Vec::new();
    let mut bi: usize = 0;
    while bi < base.len()
        invariant
            bi <= base.len(),
            small_forest(base@),
            small_forest(head@),
            exact@.len() == base@.len(),
            e == opt_ints(exact@),
            head_matched@.len() == head@.len(),
            forall|j: int|
                0 <= j < head@.len() ==> (head_matched@[j] <==> used_before(
                    e,
                    base@.len() as int,
                    j,
                )),
            forall|k: int| 0 <= k < candidates@.len() ==> cand_ok(#[trigger] candidates@[k], base@, head@, e),
            forall|i: int, j: int|
                0 <= i < bi && e[i] < 0 && 0 <= j < head@.len() && !head_matched@[j] && #[trigger] plain_rename(base@[i], head@[j])
                    ==> listed_pair(candidates@, base@, head@, i, j),
            *budget <= *old(budget),
            *old(budget) - *budget <= (pairs_cost(base@, head@, 0, 0) - pairs_cost(base@, head@, bi as int, 0)) - (children_cost(
                base@,
                head@,
                0,
                0,
            ) - children_cost(base@, head@, bi as int, 0)),
            *budget > 0 ==> forall|i: int, j: int|
                0 <= i < bi && e[i] < 0 && 0 <= j < head@.len() && !head_matched@[j] && #[trigger] needs_inner(base@[i], head@[j])
                    ==> listed_group(candidates@, base@, head@, i, j) || inner_rejects(base@[i], head@[j]),
        decreases base.len() - bi,
    {
        if exact[bi].is_none() {
            let mut hi: usize = 0;
            while hi < head.len()
                invariant
                    bi < base.len(),
                    hi <= head.len(),
                    small_forest(base@),
                    small_forest(head@),
                    exact@.len() == base@.len(),
                    exact@[bi as int] is None,
                    e == opt_ints(exact@),
                    head_matched@.len() == head@.len(),
                    forall|j: int|
                        0 <= j < head@.len() ==> (head_matched@[j] <==> used_before(
                            e,
                            base@.len() as int,
                            j,
                        )),
                    forall|k: int|
                        0 <= k < candidates@.len() ==> cand_ok(#[trigger] candidates@[k], base@, head@, e),
                    forall|i: int, j: int|
                        0 <= i < bi && e[i] < 0 && 0 <= j < head@.len() && !head_matched@[j] && #[trigger] plain_rename(base@[i], head@[j])
                            ==> listed_pair(candidates@, base@, head@, i, j),
                    forall|j: int|
                        0 <= j < hi && !head_matched@[j] && #[trigger] plain_rename(base@[bi as int], head@[j])
                            ==> listed_pair(candidates@, base@, head@, bi as int, j),
                    *budget <= *old(budget),
                    *old(budget) - *budget <= (pairs_cost(base@, head@, 0, 0) - pairs_cost(base@, head@, bi as int, hi as int)) - (
                    children_cost(base@, head@, 0, 0) - children_cost(base@, head@, bi as int, hi as int)),
                    *budget > 0 ==> forall|i: int, j: int|
                        0 <= i < bi && e[i] < 0 && 0 <= j < head@.len() && !head_matched@[j] && #[trigger] needs_inner(base@[i], head@[j])
                            ==> listed_group(candidates@, base@, head@, i, j) || inner_rejects(base@[i], head@[j]),
                    *budget > 0 ==> forall|j: int|
                        0 <= j < hi && !head_matched@[j] && #[trigger] needs_inner(base@[bi as int], head@[j])
                            ==> listed_group(candidates@, base@, head@, bi as int, j) || inner_rejects(base@[bi as int], head@[j]),
                decreases head.len() - hi,
            {
                let ghost c0 = candidates@;
                let ghost b0 = *budget;
                let ghost mut judged: bool = false;
                if !head_matched[hi] && base[bi].kind == head[hi].kind {
                    proof {
                        assert forall|i: int| 0 <= i < e.len() implies #[trigger] e[i] != hi by {
                            if e[i] == hi {
                                assert(used_before(e, base@.len() as int, hi as int));
                            }
                        }
                        assert(e[bi as int] < 0);
                    }
                    match score_phase1(bi, hi, base, head) {
                        Phase1::Accepted(c) => {
                            candidates.push(c);
                        },
                        Phase1::Rejected => {},
                        Phase1::NeedsInner(nn, nd) => {
                            if *budget > 0 {
                                *budget = *budget - 1;
                                assert(small_node(base@[bi as int]));
                                assert(small_node(head@[hi as int]));
                                let inner = diff_level(
                                    &base[bi].children,
                                    &head[hi].children,
                                    budget,
                                );
                                let (on, od) = child_overlap(
                                    &base[bi].children,
                                    &head[hi].children,
                                    &inner,
                                );
                                proof {
                                    assert(3 * nn * od <= 3 * SIZE_BOUND * (2 * SIZE_BOUND))
                                        by (nonlinear_arith)
                                        requires
                                            nn < SIZE_BOUND,
                                            od <= 2 * SIZE_BOUND,
                                    ;
                                    assert(7 * on * nd <= 7 * (4 * SIZE_BOUND) * SIZE_BOUND)
                                        by (nonlinear_arith)
                                        requires
                                            on <= 4 * SIZE_BOUND,
                                            nd < SIZE_BOUND,
                                    ;
                                    assert(10 * nd * od <= 10 * SIZE_BOUND * (2 * SIZE_BOUND))
                                        by (nonlinear_arith)
                                        requires
                                            nd < SIZE_BOUND,
                                            od <= 2 * SIZE_BOUND,
                                    ;
                                    assert(1 <= 10 * nd * od) by (nonlinear_arith)
                                        requires
                                            1 <= nd,
                                            1 <= od,
                                    ;
                                }
                                let num = 3 * (nn as u128) * (od as u128) + 7 * (on as u128) * (
                                nd as u128);
                                let den = 10 * (nd as u128) * (od as u128);
                                if 2 * num >= den {
                                    proof {
                                        let (nni, ndi, oni, odi) = (
                                            nn as int,
                                            nd as int,
                                            on as int,
                                            od as int,
                                        );
                                        assert(weighted_clears(nni, ndi, oni, odi))
                                            by (nonlinear_arith)
                                            requires
                                                num == 3 * nni * odi + 7 * oni * ndi,
                                                den == 10 * ndi * odi,
                                                2 * num >= den,
                                        ;
                                        assert(rename_ok(
                                            base@[bi as int],
                                            head@[hi as int],
                                            inner@,
                                        ));
                                    }
                                    candidates.push(
                                        RenameCandidate {
                                            bi,
                                            hi,
                                            score_num: num,
                                            score_den: den,
                                            sim_num: nn,
                                            sim_den: nd,
                                            index_delta: abs_diff(bi, hi),
                                            inner_diff: Some(inner),
                                        },
                                    );
                                    proof {
                                        let m = candidates@.len() - 1;
                                        assert(candidates@[m].bi == bi && candidates@[m].hi == hi);
                                        assert(listed_group(candidates@, base@, head@, bi as int, hi as int));
                                        judged = true;
                                    }
                                } else {
                                    proof {
                                        let (nni, ndi, oni, odi) = (
                                            nn as int,
                                            nd as int,
                                            on as int,
                                            od as int,
                                        );
                                        assert(!weighted_clears(nni, ndi, oni, odi))
                                            by (nonlinear_arith)
                                            requires
                                                num == 3 * nni * odi + 7 * oni * ndi,
                                                den == 10 * ndi * odi,
                                                2 * num < den,
                                        ;
                                        assert(!plain_rename(base@[bi as int], head@[hi as int]));
                                        assert(!rename_ok(base@[bi as int], head@[hi as int], inner@));
                                        assert(inner_rejects(base@[bi as int], head@[hi as int]));
                                        judged = true;
                                    }
                                }
                            }
                        },
                    }
                }
                proof {
                    assert forall|i: int, j: int|
                        0 <= i < bi && e[i] < 0 && 0 <= j < head@.len() && !head_matched@[j] && #[trigger] plain_rename(base@[i], head@[j])
                            implies listed_pair(candidates@, base@, head@, i, j) by {
                        let m = choose|m: int|
                            0 <= m < c0.len() && (#[trigger] c0[m]).bi == i && c0[m].hi == j && key_of_cand(c0[m]) == rename_key(
                                base@[i],
                                head@[j],
                                i,
                                j,
                                seq![],
                            );
                        assert(candidates@[m] == c0[m]);
                    }
                    assert forall|j: int|
                        0 <= j < hi + 1 && !head_matched@[j] && #[trigger] plain_rename(base@[bi as int], head@[j])
                            implies listed_pair(candidates@, base@, head@, bi as int, j) by {
                        if j < hi {
                            let m = choose|m: int|
                                0 <= m < c0.len() && (#[trigger] c0[m]).bi == bi && c0[m].hi == j && key_of_cand(c0[m])
                                    == rename_key(base@[bi as int], head@[j], bi as int, j, seq![]);
                            assert(candidates@[m] == c0[m]);
                        } else {
                            let m = candidates@.len() - 1;
                            assert(candidates@[m].bi == bi && candidates@[m].hi == j);
                        }
                    }
                    assert(pairs_cost(base@, head@, bi as int, hi as int) == 1 + 2 * pairs_cost(base@[bi as int].children@, head@[hi as int].children@, 0, 0)
                        + pairs_cost(base@, head@, bi as int, hi + 1));
                    assert(children_cost(base@, head@, bi as int, hi as int) == pairs_cost(base@[bi as int].children@, head@[hi as int].children@, 0, 0)
                        + children_cost(base@, head@, bi as int, hi + 1));
                    if *budget > 0 {
                        assert(b0 > 0);
                        assert forall|i: int, j: int|
                            0 <= i < bi && e[i] < 0 && 0 <= j < head@.len() && !head_matched@[j] && #[trigger] needs_inner(base@[i], head@[j])
                                implies listed_group(candidates@, base@, head@, i, j) || inner_rejects(base@[i], head@[j]) by {
                            if listed_group(c0, base@, head@, i, j) {
                                let m = choose|m: int|
                                    0 <= m < c0.len() && (#[trigger] c0[m]).bi == i && c0[m].hi == j && c0[m].inner_diff is Some
                                        && valid_diff(base@[i].children@, head@[j].children@, inner_seq(c0[m].inner_diff))
                                        && key_of_cand(c0[m]) == rename_key(base@[i], head@[j], i, j, inner_seq(c0[m].inner_diff));
                                assert(candidates@[m] == c0[m]);
                            }
                        }
                        assert forall|j: int|
                            0 <= j < hi + 1 && !head_matched@[j] && #[trigger] needs_inner(base@[bi as int], head@[j])
                                implies listed_group(candidates@, base@, head@, bi as int, j) || inner_rejects(base@[bi as int], head@[j]) by {
                            if j < hi {
                                if listed_group(c0, base@, head@, bi as int, j) {
                                    let m = choose|m: int|
                                        0 <= m < c0.len() && (#[trigger] c0[m]).bi == bi && c0[m].hi == j && c0[m].inner_diff is Some
                                            && valid_diff(base@[bi as int].children@, head@[j].children@, inner_seq(c0[m].inner_diff))
                                            && key_of_cand(c0[m]) == rename_key(base@[bi as int], head@[j], bi as int, j, inner_seq(c0[m].inner_diff));
                                    assert(candidates@[m] == c0[m]);
                                }
                            } else {
                                assert(judged);
                            }
                        }
                    }
                }
                hi += 1;
            }
            assert(pairs_cost(base@, head@, bi as int, head@.len() as int) == pairs_cost(base@, head@, bi + 1, 0));
            assert(children_cost(base@, head@, bi as int, head@.len() as int) == children_cost(base@, head@, bi + 1, 0));
        } else {
            proof {
                lemma_row_skip(base@, head@, bi as int, 0);
            }
        }
        proof {
            assert forall|i: int, j: int|
                0 <= i < bi + 1 && e[i] < 0 && 0 <= j < head@.len() && !head_matched@[j] && #[trigger] plain_rename(base@[i], head@[j])
                    implies listed_pair(candidates@, base@, head@, i, j) by {
                if i == bi {
                    assert(exact@[bi as int] is None);
                }
            }
            if *budget > 0 {
                assert forall|i: int, j: int|
                    0 <= i < bi + 1 && e[i] < 0 && 0 <= j < head@.len() && !head_matched@[j] && #[trigger] needs_inner(base@[i], head@[j])
                        implies listed_group(candidates@, base@, head@, i, j) || inner_rejects(base@[i], head@[j]) by {
                    if i == bi {
                        assert(exact@[bi as int] is None);
                    }
                }
            }
        }
        bi += 1;
    }
    let ghost cands0 = candidates@;
    let ghost b1 = *budget;
    assert(pairs_cost(base@, head@, base@.len() as int, 0) == 0);
    assert(children_cost(base@, head@, base@.len() as int, 0) == 0);
    assert(b1 > 0 ==> forall|i: int, j: int|
        0 <= i < base@.len() && e[i] < 0 && 0 <= j < head@.len() && !used_before(e, base@.len() as int, j) && #[trigger] needs_inner(base@[i], head@[j])
            ==> listed_group(cands0, base@, head@, i, j) || inner_rejects(base@[i], head@[j]));
    let (slots, taken) = select_renames(candidates, base, head, &head_matched, Ghost(e));
    let ghost slots0 = slots@;
    let ghost a = Seq::new(
        base@.len(),
        |i: int|
            if e[i] >= 0 {
                e[i]
            } else {
                slot_target(slots0[i])
            },
    );
    let mut slots = slots;
    let mut results: Vec<DiffNode> = Vec::new();
    let mut bi: usize = 0;
    while bi < base.len()
        invariant
            bi <= base.len(),
            small_forest(base@),
            small_forest(head@),
            exact@.len() == base@.len(),
            e == opt_ints(exact@),
            is_exact_assign(base@, head@, e),
            slots_ok(slots0, base@, head@, e),
            slots@ == slots0.subrange(bi as int, slots0.len() as int),
            a.len() == base@.len(),
            forall|i: int|
                0 <= i < base@.len() ==> #[trigger] a[i] == if e[i] >= 0 {
                    e[i]
                } else {
                    slot_target(slots0[i])
                },
            results@.len() == bi,
            forall|i: int|
                0 <= i < bi ==> base_entry(#[trigger] results@[i], base@[i], head@, a[i], e[i]),
            forall|i: int|
                0 <= i < bi && e[i] < 0 && slots0[i] is Some && slot_inner(slots0[i]) is Some ==> (#[trigger] results@[i]).children@
                    == inner_seq(slot_inner(slots0[i])),
            *budget <= b1,
            *old(budget) - *budget <= pairs_cost(base@, head@, 0, 0) - children_cost(base@, head@, bi as int, 0),
            b1 <= *old(budget),
            b1 > 0 ==> forall|i: int, j: int|
                0 <= i < base@.len() && e[i] < 0 && 0 <= j < head@.len() && !used_before(e, base@.len() as int, j) && #[trigger] needs_inner(base@[i], head@[j])
                    ==> listed_group(cands0, base@, head@, i, j) || inner_rejects(base@[i], head@[j]),
        decreases base.len() - bi,
    {
        let ghost old_slots = slots@;
        proof {
            lemma_row_rest(base@, head@, bi as int, 0);
        }
        let slot = slots.remove(0);
        assert(slot == slots0[bi as int]);
        assert(slots@ =~= slots0.subrange(bi + 1, slots0.len() as int));
        let b = &base[bi];
        assert(small_node(base@[bi as int]));
        let node = match exact[bi] {
            Some(hi) => {
                assert(e[bi as int] == hi);
                let h = &head[hi];
                assert(small_node(head@[hi as int]));
                let inner = if b.kind == SpecKind::Group {
                    proof {
                        lemma_row_member(base@, head@, bi as int, 0, hi as int);
                    }
                    diff_level(&b.children, &h.children, budget)
                } else {
                    Vec::new()
                };
                let base_cases = param_case_count(b);
                let head_cases = param_case_count(h);
                let cases_changed = !opt_eq(base_cases, head_cases);
                let changed = cases_changed || any_kind_changed(&inner);
                DiffNode {
                    name: h.name.clone(),
                    kind: if changed {
                        DiffKind::Modified
                    } else {
                        DiffKind::Unchanged
                    },
                    old_name: None,
                    param_cases: head_cases,
                    old_param_cases: if cases_changed {
                        base_cases
                    } else {
                        None
                    },
                    children: inner,
                }
            },
            None => {
                assert(e[bi as int] < 0);
                match slot {
                    Some((hi, maybe_inner)) => {
                        let h = &head[hi];
                        assert(small_node(head@[hi as int]));
                        assert(inner_ok(base@[bi as int], head@[hi as int], maybe_inner));
                        let inner = match maybe_inner {
                            Some(v) => v,
                            None => {
                                if b.kind == SpecKind::Group {
                                    proof {
                                        lemma_row_member(base@, head@, bi as int, 0, hi as int);
                                    }
                                    diff_level(&b.children, &h.children, budget)
                                } else {
                                    Vec::new()
                                }
                            },
                        };
                        let base_cases = param_case_count(b);
                        let head_cases = param_case_count(h);
                        DiffNode {
                            name: h.name.clone(),
                            kind: DiffKind::Renamed,
                            old_name: Some(b.name.clone()),
                            param_cases: head_cases,
                            old_param_cases: if !opt_eq(base_cases, head_cases) {
                                base_cases
                            } else {
                                None
                            },
                            children: inner,
                        }
                    },
                    None => build_removed_node(b),
                }
            },
        };
        assert(base_entry(node, base@[bi as int], head@, a[bi as int], e[bi as int]));
        let ghost prev_results = results@;
        let ghost node_v = node;
        assert(e[bi as int] < 0 && slot is Some && slot_inner(slot) is Some ==> node_v.children@ == inner_seq(slot_inner(slot)));
        results.push(node);
        assert forall|i: int| 0 <= i < bi + 1 implies base_entry(
            #[trigger] results@[i],
            base@[i],
            head@,
            a[i],
            e[i],
        ) by {
            if i < bi {
                assert(results@[i] == prev_results[i]);
            }
        }
        assert forall|i: int|
            0 <= i < bi + 1 && e[i] < 0 && slots0[i] is Some && slot_inner(slots0[i]) is Some implies (#[trigger] results@[i]).children@
                == inner_seq(slot_inner(slots0[i])) by {
            if i < bi {
                assert(results@[i] == prev_results[i]);
            }
        }
        bi += 1;
    }
    assert(children_cost(base@, head@, base@.len() as int, 0) == 0);
    let ghost mut u: Seq<int> = Seq::empty();
    let mut hi: usize = 0;
    while hi < head.len()
        invariant
            hi <= head.len(),
            taken@.len() == head@.len(),
            a.len() == base@.len(),
            e.len() == base@.len(),
            results@.len() == base@.len() + u.len(),
            u.len() <= hi,
            forall|k: int| 0 <= k < u.len() ==> 0 <= #[trigger] u[k] < hi,
            forall|k: int, k2: int| 0 <= k < k2 < u.len() ==> #[trigger] u[k] < #[trigger] u[k2],
            forall|k: int| 0 <= k < u.len() ==> !taken@[#[trigger] u[k]],
            forall|j: int|
                0 <= j < hi && !taken@[j] ==> exists|k: int| 0 <= k < u.len() && #[trigger] u[k] == j,
            forall|i: int|
                0 <= i < base@.len() ==> base_entry(#[trigger] results@[i], base@[i], head@, a[i], e[i]),
            forall|k: int|
                0 <= k < u.len() ==> added_entry(
                    #[trigger] results@[base@.len() + k],
                    head@[u[k]],
                ),
            forall|i: int|
                0 <= i < base@.len() && e[i] < 0 && slots0[i] is Some && slot_inner(slots0[i]) is Some ==> (#[trigger] results@[i]).children@
                    == inner_seq(slot_inner(slots0[i])),
            *budget <= b1,
            *old(budget) - *budget <= pairs_cost(base@, head@, 0, 0),
            b1 <= *old(budget),
            b1 > 0 ==> forall|i: int, j: int|
                0 <= i < base@.len() && e[i] < 0 && 0 <= j < head@.len() && !used_before(e, base@.len() as int, j) && #[trigger] needs_inner(base@[i], head@[j])
                    ==> listed_group(cands0, base@, head@, i, j) || inner_rejects(base@[i], head@[j]),
        decreases head.len() - hi,
    {
        if !taken[hi] {
            let node = build_added_node(&head[hi]);
            let ghost old_results = results@;
            results.push(node);
            let ghost old_u = u;
            proof {
                u = u.push(hi as int);
                assert forall|i: int| 0 <= i < base@.len() implies base_entry(
                    #[trigger] results@[i],
                    base@[i],
                    head@,
                    a[i],
                    e[i],
                ) by {
                    assert(results@[i] == old_results[i]);
                }
                assert forall|i: int|
                    0 <= i < base@.len() && e[i] < 0 && slots0[i] is Some && slot_inner(slots0[i]) is Some implies (#[trigger] results@[i]).children@
                        == inner_seq(slot_inner(slots0[i])) by {
                    assert(results@[i] == old_results[i]);
                }
                assert forall|k: int| 0 <= k < u.len() implies added_entry(
                    #[trigger] results@[base@.len() + k],
                    head@[u[k]],
                ) by {
                    if k < u.len() - 1 {
                        assert(results@[base@.len() + k] == old_results[base@.len() + k]);
                    }
                }
                assert forall|j: int| 0 <= j < hi + 1 && !taken@[j] implies exists|k: int|
                    0 <= k < u.len() && #[trigger] u[k] == j by {
                    if j == hi {
                        assert(u[u.len() - 1] == j);
                    } else {
                        let k = choose|k: int| 0 <= k < old_u.len() && #[trigger] old_u[k] == j;
                        assert(u[k] == j);
                    }
                }
            }
        }
        hi += 1;
    }
    proof {
        let w = DiffWitness { assign: a, exact: e, added: u };
        assert forall|i: int| 0 <= i < base@.len() implies -1 <= #[trigger] a[i] < head@.len() by {
            if e[i] < 0 && slots0[i] is Some {
            }
        }
        assert forall|i: int, i2: int|
            0 <= i < base@.len() && 0 <= i2 < base@.len() && e[i] < 0 && #[trigger] a[i] >= 0
                implies #[trigger] e[i2] != a[i] by {
            assert(slots0[i] is Some);
        }
        assert forall|i: int, i2: int|
            0 <= i < i2 < base@.len() && #[trigger] a[i] >= 0 implies #[trigger] a[i2] != a[i] by {
            if e[i] >= 0 && e[i2] >= 0 {
                if e[i2] == e[i] {
                    assert(used_before(e, i2, e[i2]));
                }
            } else if e[i] < 0 && e[i2] < 0 {
                if a[i2] >= 0 {
                    assert(slots0[i] is Some && slots0[i2] is Some);
                }
            } else if e[i] < 0 {
                assert(slots0[i] is Some);
            } else {
                if a[i2] >= 0 {
                    assert(slots0[i2] is Some);
                }
            }
        }
        assert forall|k: int, i: int| 0 <= k < u.len() && 0 <= i < base@.len() implies #[trigger] a[i]
            != #[trigger] u[k] by {
            if a[i] == u[k] {
                let j = u[k];
                if e[i] >= 0 {
                    assert(used_before(e, e.len() as int, j));
                } else {
                    assert(slots0[i] is Some);
                    assert(rename_target(slots0, j));
                }
            }
        }
        assert forall|j: int| 0 <= j < head@.len() implies #[trigger] covered(a, u, j) by {
            if taken@[j] {
                if used_before(e, e.len() as int, j) {
                    let i2 = choose|i2: int| 0 <= i2 < e.len() && #[trigger] e[i2] == j;
                    assert(a[i2] == j);
                } else {
                    let i = choose|i: int|
                        0 <= i < slots0.len() && (#[trigger] slots0[i]) is Some && slot_target(
                            slots0[i],
                        ) == j;
                    assert(a[i] == j);
                }
            }
        }
        assert forall|i: int, j: int|
            0 <= i < base@.len() && 0 <= j < head@.len() && e[i] < 0 && !used_before(e, base@.len() as int, j) && #[trigger] plain_rename(
                base@[i],
                head@[j],
            ) && a[i] != j implies exists|i2: int|
            0 <= i2 < base@.len() && e[i2] < 0 && #[trigger] a[i2] >= 0 && (i2 == i || a[i2] == j) && !key_before(
                rename_key(base@[i], head@[j], i, j, seq![]),
                rename_key(base@[i2], head@[a[i2]], i2, a[i2], results@[i2].children@),
            ) by {
            assert(!head_matched@[j]);
            assert(listed_pair(cands0, base@, head@, i, j));
            let m = choose|m: int|
                0 <= m < cands0.len() && (#[trigger] cands0[m]).bi == i && cands0[m].hi == j && key_of_cand(cands0[m])
                    == rename_key(base@[i], head@[j], i, j, seq![]);
            let cc = cands0[m];
            assert(chosen_pair(cc, slots0) || beaten(cc, slots0, base@, head@));
            if chosen_pair(cc, slots0) {
                assert(a[i] == j);
            }
            let i2 = choose|i2: int|
                0 <= i2 < slots0.len() && (#[trigger] slots0[i2]) is Some && (i2 == cc.bi || slot_target(slots0[i2]) == cc.hi) && !key_before(
                    key_of_cand(cc),
                    slot_key(slots0, base@, head@, i2),
                );
            assert(e[i2] < 0);
            assert(a[i2] == slot_target(slots0[i2]));
            let t2 = slot_target(slots0[i2]);
            if slot_inner(slots0[i2]) is Some {
                assert(results@[i2].children@ == inner_seq(slot_inner(slots0[i2])));
            } else {
                assert(inner_ok(base@[i2], head@[t2 as int], slot_inner(slots0[i2])));
                assert(rename_score(base@[i2], head@[t2 as int], results@[i2].children@) == rename_score(base@[i2], head@[t2 as int], seq![]));
            }
            assert(slot_key(slots0, base@, head@, i2) == rename_key(base@[i2], head@[a[i2]], i2, a[i2], results@[i2].children@));
        }
        assert(diff_with(base@, head@, results@, w));
        assert(witness_seq(w) == w.assign);
        if *budget > 0 {
            assert forall|i: int, j: int|
                0 <= i < base@.len() && 0 <= j < head@.len() && e[i] < 0 && !used_before(e, base@.len() as int, j) && #[trigger] needs_inner(
                    base@[i],
                    head@[j],
                ) && a[i] != j implies inner_rejects(base@[i], head@[j]) || exists|inner: Seq<DiffNode>, i2: int|
                valid_diff(base@[i].children@, head@[j].children@, inner) && 0 <= i2 < base@.len() && e[i2] < 0 && a[i2] >= 0 && (i2 == i
                    || a[i2] == j) && !#[trigger] key_before(
                    rename_key(base@[i], head@[j], i, j, inner),
                    rename_key(base@[i2], head@[a[i2]], i2, a[i2], results@[i2].children@),
                ) by {
                if !inner_rejects(base@[i], head@[j]) {
                    assert(listed_group(cands0, base@, head@, i, j));
                    let m = choose|m: int|
                        0 <= m < cands0.len() && (#[trigger] cands0[m]).bi == i && cands0[m].hi == j && cands0[m].inner_diff is Some
                            && valid_diff(base@[i].children@, head@[j].children@, inner_seq(cands0[m].inner_diff))
                            && key_of_cand(cands0[m]) == rename_key(base@[i], head@[j], i, j, inner_seq(cands0[m].inner_diff));
                    let cc = cands0[m];
                    let inner = inner_seq(cc.inner_diff);
                    assert(chosen_pair(cc, slots0) || beaten(cc, slots0, base@, head@));
                    if chosen_pair(cc, slots0) {
                        assert(a[i] == j);
                    }
                    let i2 = choose|i2: int|
                        0 <= i2 < slots0.len() && (#[trigger] slots0[i2]) is Some && (i2 == cc.bi || slot_target(slots0[i2]) == cc.hi) && !key_before(
                            key_of_cand(cc),
                            slot_key(slots0, base@, head@, i2),
                        );
                    assert(e[i2] < 0);
                    assert(a[i2] == slot_target(slots0[i2]));
                    let t2 = slot_target(slots0[i2]);
                    if slot_inner(slots0[i2]) is Some {
                        assert(results@[i2].children@ == inner_seq(slot_inner(slots0[i2])));
                    } else {
                        assert(inner_ok(base@[i2], head@[t2 as int], slot_inner(slots0[i2])));
                        assert(rename_score(base@[i2], head@[t2 as int], results@[i2].children@) == rename_score(base@[i2], head@[t2 as int], seq![]));
                    }
                    assert(slot_key(slots0, base@, head@, i2) == rename_key(base@[i2], head@[a[i2]], i2, a[i2], results@[i2].children@));
                    assert(!key_before(
                        rename_key(base@[i], head@[j], i, j, inner),
                        rename_key(base@[i2], head@[a[i2]], i2, a[i2], results@[i2].children@),
                    ));
                }
            }
            assert(group_renames_settled(base@, head@, results@, w));
        }
    }
    results
}

/// Diffs two spec forests: the base roots first, in order (each unchanged,
/// modified, renamed or removed), then the added head roots, in order.
pub fn diff_spec_nodes(base: &Vec<SpecNode>, head: &Vec<SpecNode>) -> (r: Vec<DiffNode>)
    requires
        small_forest(base@),
        small_forest(head@),
    ensures
        valid_diff(base@, head@, r@),
        pairs_cost(base@, head@, 0, 0) < RECURSIVE_PAIR_BUDGET ==> bottom_up_settled(base@, head@, r@),
{
    let mut budget = RECURSIVE_PAIR_BUDGET;
    diff_level(base, head, &mut budget)
}


// ---------------------------------------------------------------------------
// Laws
// ---------------------------------------------------------------------------
proof fn lemma_exact_assign_identity(x: Seq<SpecNode>, e: Seq<int>)
    requires
        is_exact_assign(x, x, e),
    ensures
        forall|i: int| 0 <= i < x.len() ==> #[trigger] e[i] == i,
{
    assert forall|i: int| 0 <= i < x.len() implies #[trigger] e[i] == i by {
        lemma_exact_assign_identity_upto(x, e, i);
    }
}

proof fn lemma_exact_assign_identity_upto(x: Seq<SpecNode>, e: Seq<int>, n: int)
    requires
        is_exact_assign(x, x, e),
        0 <= n < x.len(),
    ensures
        forall|i: int| 0 <= i <= n ==> #[trigger] e[i] == i,
    decreases n,
{
    if n > 0 {
        lemma_exact_assign_identity_upto(x, e, n - 1);
    }
    assert(forall|i: int| 0 <= i < n ==> #[trigger] e[i] == i);
    assert forall|j: int| #[trigger] used_before(e, n, j) implies 0 <= j < n by {
        let i2 = choose|i2: int| 0 <= i2 < n && #[trigger] e[i2] == j;
        assert(e[i2] == i2);
    }
    assert(same_key(x[n], x[n]));
    if e[n] < 0 {
        assert(used_before(e, n, n));
    } else if e[n] < n {
        assert(e[e[n]] == e[n]);
        assert(used_before(e, n, e[n]));
    } else if e[n] > n {
        assert(used_before(e, n, n));
    }
}

/// Diffing a forest against itself reports every root `Unchanged`, under
/// its own name, in order, and nothing else.
pub proof fn lemma_diff_identical(x: Seq<SpecNode>, r: Seq<DiffNode>)
    requires
        valid_diff(x, x, r),
    ensures
        r.len() == x.len(),
        forall|k: int|
            0 <= k < x.len() ==> (#[trigger] r[k]).kind == DiffKind::Unchanged && r[k].name@
                == x[k].name@,
    decreases x,
{
    let w = choose|w: DiffWitness| #[trigger] witness_seq(w) == w.assign && diff_with(x, x, r, w);
    let a = w.assign;
    let e = w.exact;
    let u = w.added;
    lemma_exact_assign_identity(x, e);
    assert forall|i: int| 0 <= i < x.len() implies #[trigger] a[i] == i by {
        assert(e[i] == i);
    }
    if u.len() > 0 {
        let j = u[0];
        assert(a[j] == j);
        assert(a[j] != u[0]);
    }
    assert forall|k: int|
        0 <= k < x.len() implies (#[trigger] r[k]).kind == DiffKind::Unchanged && r[k].name@
        == x[k].name@ by {
        assert(a[k] == k && e[k] == k);
        assert(base_entry(r[k], x[k], x, a[k], e[k]));
        assert(paired_entry(r[k], x[k], x[k], true));
        if x[k].kind == SpecKind::Group {
            lemma_diff_identical(x[k].children@, r[k].children@);
            assert(!any_changed(r[k].children@));
        } else {
            assert(!any_changed(r[k].children@));
        }
    }
}

spec fn listed(u: Seq<int>, j: int) -> bool {
    exists|k: int| 0 <= k < u.len() && #[trigger] u[k] == j
}

proof fn lemma_increasing_cover(u: Seq<int>, n: int)
    requires
        0 <= n,
        forall|k: int| 0 <= k < u.len() ==> 0 <= #[trigger] u[k] < n,
        forall|k: int, k2: int| 0 <= k < k2 < u.len() ==> #[trigger] u[k] < #[trigger] u[k2],
        forall|j: int| 0 <= j < n ==> #[trigger] listed(u, j),
    ensures
        u.len() == n,
        forall|k: int| 0 <= k < u.len() ==> #[trigger] u[k] == k,
{
    assert forall|k: int| 0 <= k < u.len() implies #[trigger] u[k] == k by {
        lemma_increasing_cover_at(u, n, k);
    }
    if u.len() < n {
        assert(listed(u, n - 1));
        let k = choose|k: int| 0 <= k < u.len() && #[trigger] u[k] == n - 1;
        assert(u[k] == k);
    }
    if u.len() > n {
        assert(u[n] == n);
    }
}

proof fn lemma_increasing_cover_at(u: Seq<int>, n: int, m: int)
    requires
        0 <= n,
        0 <= m < u.len(),
        forall|k: int| 0 <= k < u.len() ==> 0 <= #[trigger] u[k] < n,
        forall|k: int, k2: int| 0 <= k < k2 < u.len() ==> #[trigger] u[k] < #[trigger] u[k2],
        forall|j: int| 0 <= j < n ==> #[trigger] listed(u, j),
    ensures
        u[m] == m,
    decreases m,
{
    if m > 0 {
        lemma_increasing_cover_at(u, n, m - 1);
        assert(u[m - 1] < u[m]);
    }
    if u[m] > m {
        assert(listed(u, m));
        let k = choose|k: int| 0 <= k < u.len() && #[trigger] u[k] == m;
        if k < m {
            lemma_increasing_cover_at(u, n, k);
        } else if k > m {
            assert(u[m] < u[k]);
        }
    }
}

/// Against an empty base, every head root is reported `Added`, in order.
pub proof fn lemma_diff_from_empty(head: Seq<SpecNode>, r: Seq<DiffNode>)
    requires
        valid_diff(Seq::empty(), head, r),
    ensures
        r.len() == head.len(),
        forall|k: int| 0 <= k < head.len() ==> added_entry(#[trigger] r[k], head[k]),
{
    let base = Seq::<SpecNode>::empty();
    let w = choose|w: DiffWitness|
        #[trigger] witness_seq(w) == w.assign && diff_with(base, head, r, w);
    let u = w.added;
    assert forall|j: int| 0 <= j < head.len() implies #[trigger] listed(u, j) by {
        assert(covered(w.assign, u, j));
    }
    lemma_increasing_cover(u, head.len() as int);
    assert forall|k: int| 0 <= k < head.len() implies added_entry(#[trigger] r[k], head[k]) by {
        assert(u[k] == k);
        assert(added_entry(r[base.len() + k], head[u[k]]));
    }
}

/// Against an empty head, every base root is reported `Removed`, in order.
pub proof fn lemma_diff_to_empty(base: Seq<SpecNode>, r: Seq<DiffNode>)
    requires
        valid_diff(base, Seq::empty(), r),
    ensures
        r.len() == base.len(),
        forall|k: int| 0 <= k < base.len() ==> removed_entry(#[trigger] r[k], base[k]),
{
    let head = Seq::<SpecNode>::empty();
    let w = choose|w: DiffWitness|
        #[trigger] witness_seq(w) == w.assign && diff_with(base, head, r, w);
    assert(head.len() == 0);
    if w.added.len() > 0 {
        assert(0 <= w.added[0] < head.len());
    }
    assert forall|k: int| 0 <= k < base.len() implies removed_entry(#[trigger] r[k], base[k]) by {
        assert(-1 <= w.assign[k] < 0);
        assert(base_entry(r[k], base[k], head, w.assign[k], w.exact[k]));
    }
}

/// The number of leaves (childless nodes) of a forest, at any depth.
pub open spec fn tree_leaves(s: Seq<SpecNode>) -> nat
    decreases s,
{
    if s.len() == 0 {
        0
    } else {
        tree_leaves(s.drop_last()) + if s.last().children@.len() == 0 {
            1nat
        } else {
            tree_leaves(s.last().children@)
        }
    }
}

/// The leaves a diff entry of each root stands for: a group's leaves, or
/// the root itself.
pub open spec fn entry_leaves(s: Seq<SpecNode>) -> nat
    decreases s.len(),
{
    if s.len() == 0 {
        0
    } else {
        entry_leaves(s.drop_last()) + if s.last().kind == SpecKind::Group && s.last().children@.len() > 0 {
            tree_leaves(s.last().children@)
        } else {
            1nat
        }
    }
}

/// A forest of removed copies counts one removal per leaf.
proof fn lemma_removed_copies_count(r: Seq<DiffNode>, s: Seq<SpecNode>)
    requires
        r.len() == s.len(),
        forall|k: int| 0 <= k < s.len() ==> removed_copy(#[trigger] r[k], s[k]),
    ensures
        types::forest_removed(r) == tree_leaves(s),
    decreases s,
{
    if s.len() > 0 {
        let n = r.len() - 1;
        assert forall|k: int| 0 <= k < s.drop_last().len() implies removed_copy(#[trigger] r.drop_last()[k], s.drop_last()[k]) by {
            assert(removed_copy(r[k], s[k]));
        }
        lemma_removed_copies_count(r.drop_last(), s.drop_last());
        assert(removed_copy(r[n], s[n]));
        let d = r.last();
        let t = s.last();
        assert forall|k: int| 0 <= k < t.children@.len() implies removed_copy(#[trigger] d.children@[k], t.children@[k]) by {
            assert(removed_copy(d.children@[k], t.children@[k]));
        }
        lemma_removed_copies_count(d.children@, t.children@);
        if t.children@.len() == 0 {
            assert(types::forest_removed(d.children@) == 0);
        }
    }
}

/// A forest of added copies counts one addition per leaf: the groups of
/// an added subtree are not counted, only its specs.
pub proof fn lemma_added_copies_count(r: Seq<DiffNode>, s: Seq<SpecNode>)
    requires
        r.len() == s.len(),
        forall|k: int| 0 <= k < s.len() ==> added_copy(#[trigger] r[k], s[k]),
    ensures
        types::forest_added(r) == tree_leaves(s),
    decreases s,
{
    if s.len() > 0 {
        let n = r.len() - 1;
        assert forall|k: int| 0 <= k < s.drop_last().len() implies added_copy(#[trigger] r.drop_last()[k], s.drop_last()[k]) by {
            assert(added_copy(r[k], s[k]));
        }
        lemma_added_copies_count(r.drop_last(), s.drop_last());
        assert(added_copy(r[n], s[n]));
        let d = r.last();
        let t = s.last();
        assert forall|k: int| 0 <= k < t.children@.len() implies added_copy(#[trigger] d.children@[k], t.children@[k]) by {
            assert(added_copy(d.children@[k], t.children@[k]));
        }
        lemma_added_copies_count(d.children@, t.children@);
        if t.children@.len() == 0 {
            assert(types::forest_added(d.children@) == 0);
        }
    }
}

/// Every leaf of a created forest counts as one addition: against an
/// empty base, the additions of the diff are the leaves its root entries
/// stand for (an added group counts its specs, not itself).
pub proof fn lemma_created_forest_additions(head: Seq<SpecNode>, r: Seq<DiffNode>)
    requires
        valid_diff(Seq::empty(), head, r),
    ensures
        types::forest_added(r) == entry_leaves(head),
{
    lemma_diff_from_empty(head, r);
    lemma_added_entries_count(r, head);
}

/// Added entries count one addition per leaf they stand for.
proof fn lemma_added_entries_count(r: Seq<DiffNode>, s: Seq<SpecNode>)
    requires
        r.len() == s.len(),
        forall|k: int| 0 <= k < s.len() ==> added_entry(#[trigger] r[k], s[k]),
    ensures
        types::forest_added(r) == entry_leaves(s),
    decreases s.len(),
{
    if s.len() > 0 {
        let n = r.len() - 1;
        assert forall|k: int| 0 <= k < s.drop_last().len() implies added_entry(#[trigger] r.drop_last()[k], s.drop_last()[k]) by {
            assert(added_entry(r[k], s[k]));
        }
        lemma_added_entries_count(r.drop_last(), s.drop_last());
        assert(added_entry(r[n], s[n]));
        let d = r.last();
        let t = s.last();
        if t.kind == SpecKind::Group {
            assert forall|k: int| 0 <= k < t.children@.len() implies added_copy(#[trigger] d.children@[k], t.children@[k]) by {
                assert(added_copy(d.children@[k], t.children@[k]));
            }
            lemma_added_copies_count(d.children@, t.children@);
            if t.children@.len() == 0 {
                assert(types::forest_added(d.children@) == 0);
            }
        } else {
            assert(d.children@.len() == 0);
            assert(types::forest_added(d.children@) == 0);
        }
    }
}

/// Word similarity is measured against the longer name: for two different
/// non-empty names with words, the denominator is the larger of the two
/// word counts (whichever way round they are given), and at most the words
/// of the first name count as shared. So a name cannot reach half the
/// similarity of a name with more than twice its words, and two such
/// leaves are never a plain rename.
pub proof fn lemma_name_sim_over_longer(a: Seq<char>, b: Seq<char>)
    requires
        a != b,
        a.len() > 0,
        b.len() > 0,
        words(a).len() > 0 || words(b).len() > 0,
    ensures
        name_sim(a, b).1 == if words(a).len() >= words(b).len() {
            words(a).len()
        } else {
            words(b).len()
        },
        name_sim(a, b).1 == name_sim(b, a).1,
        0 <= name_sim(a, b).0 <= words(a).len(),
        2 * words(a).len() < words(b).len() ==> 2 * name_sim(a, b).0 < name_sim(a, b).1,
{
    lemma_common_le(words(a), words(b));
}

/// Counting the words of `aw` found in `bw`: all of them when each occurs
/// there, none when none does.
proof fn lemma_common_words_extremes(aw: Seq<Seq<char>>, bw: Seq<Seq<char>>)
    ensures
        (forall|i: int| 0 <= i < aw.len() ==> bw.contains(#[trigger] aw[i])) ==> common_words(aw, bw) == aw.len(),
        (forall|i: int| 0 <= i < aw.len() ==> !bw.contains(#[trigger] aw[i])) ==> common_words(aw, bw) == 0,
    decreases aw.len(),
{
    if aw.len() > 0 {
        lemma_common_words_extremes(aw.drop_last(), bw);
        assert(aw.last() == aw[aw.len() - 1]);
        assert((forall|i: int| 0 <= i < aw.len() ==> bw.contains(#[trigger] aw[i])) ==> (forall|i: int|
            0 <= i < aw.drop_last().len() ==> bw.contains(#[trigger] aw.drop_last()[i]))) by {
            assert forall|i: int| 0 <= i < aw.drop_last().len() implies aw.drop_last()[i] == aw[i] by {}
        }
        assert((forall|i: int| 0 <= i < aw.len() ==> !bw.contains(#[trigger] aw[i])) ==> (forall|i: int|
            0 <= i < aw.drop_last().len() ==> !bw.contains(#[trigger] aw.drop_last()[i]))) by {
            assert forall|i: int| 0 <= i < aw.drop_last().len() implies aw.drop_last()[i] == aw[i] by {}
        }
    }
}

/// The shared part of the similarity counts the first name's words that
/// the second name has: all of them when the second has every one, none
/// when it has none.
pub proof fn lemma_name_sim_shared_words(a: Seq<char>, b: Seq<char>)
    requires
        a != b,
        a.len() > 0,
        b.len() > 0,
        words(a).len() > 0 || words(b).len() > 0,
    ensures
        (forall|i: int| 0 <= i < words(a).len() ==> words(b).contains(#[trigger] words(a)[i])) ==> name_sim(a, b).0
            == words(a).len(),
        (forall|i: int| 0 <= i < words(a).len() ==> !words(b).contains(#[trigger] words(a)[i])) ==> name_sim(a, b).0 == 0,
{
    lemma_common_words_extremes(words(a), words(b));
}

/// A name is fully similar to itself, and not at all to an empty name
/// (unless it is empty too).
pub proof fn lemma_name_sim_extremes(a: Seq<char>, b: Seq<char>)
    ensures
        name_sim(a, a) == (1int, 1int),
        a != b && (a.len() == 0 || b.len() == 0) ==> name_sim(a, b) == (0int, 1int),
        0 <= name_sim(a, b).0 <= name_sim(a, b).1,
        name_sim(a, b).1 >= 1,
{
    if a != b && a.len() > 0 && b.len() > 0 {
        lemma_common_le(words(a), words(b));
    }
}

/// Two leaves of the same kind whose first name has fewer than half the
/// words of the second are not a plain rename.
pub proof fn lemma_short_name_no_rename(b: SpecNode, h: SpecNode)
    requires
        b.kind != SpecKind::Group,
        b.name@ != h.name@,
        b.name@.len() > 0,
        h.name@.len() > 0,
        2 * words(b.name@).len() < words(h.name@).len(),
    ensures
        !plain_rename(b, h),
{
    lemma_name_sim_over_longer(b.name@, h.name@);
}

/// Every leaf of a deleted forest counts as one removal: against an empty
/// head, the removals of the diff are the leaves its root entries stand
/// for.
pub proof fn lemma_deleted_forest_removals(base: Seq<SpecNode>, r: Seq<DiffNode>)
    requires
        valid_diff(base, Seq::empty(), r),
    ensures
        types::forest_removed(r) == entry_leaves(base),
    decreases base.len(),
{
    lemma_diff_to_empty(base, r);
    lemma_removed_entries_count(r, base);
}

/// Removed entries count one removal per leaf they stand for.
proof fn lemma_removed_entries_count(r: Seq<DiffNode>, s: Seq<SpecNode>)
    requires
        r.len() == s.len(),
        forall|k: int| 0 <= k < s.len() ==> removed_entry(#[trigger] r[k], s[k]),
    ensures
        types::forest_removed(r) == entry_leaves(s),
    decreases s.len(),
{
    if s.len() > 0 {
        let n = r.len() - 1;
        assert forall|k: int| 0 <= k < s.drop_last().len() implies removed_entry(#[trigger] r.drop_last()[k], s.drop_last()[k]) by {
            assert(removed_entry(r[k], s[k]));
        }
        lemma_removed_entries_count(r.drop_last(), s.drop_last());
        assert(removed_entry(r[n], s[n]));
        let d = r.last();
        let t = s.last();
        if t.kind == SpecKind::Group {
            assert forall|k: int| 0 <= k < t.children@.len() implies removed_copy(#[trigger] d.children@[k], t.children@[k]) by {
                assert(removed_copy(d.children@[k], t.children@[k]));
            }
            lemma_removed_copies_count(d.children@, t.children@);
            if t.children@.len() == 0 {
                assert(types::forest_removed(d.children@) == 0);
            }
        } else {
            assert(d.children@.len() == 0);
            assert(types::forest_removed(d.children@) == 0);
        }
    }
}

/// A diff holds at most one entry per base root and per head root.
pub proof fn lemma_diff_len(base: Seq<SpecNode>, head: Seq<SpecNode>, r: Seq<DiffNode>)
    requires
        valid_diff(base, head, r),
    ensures
        base.len() <= r.len() <= base.len() + head.len(),
{
    let w = choose|w: DiffWitness|
        #[trigger] witness_seq(w) == w.assign && diff_with(base, head, r, w);
    lemma_increasing_bounded(w.added, head.len() as int);
}

/// No rename is missed: for every base root reported removed and every
/// head root reported added, the added root is not close enough to the
/// removed one to be a plain rename of it.
pub proof fn lemma_no_missed_rename(base: Seq<SpecNode>, head: Seq<SpecNode>, r: Seq<DiffNode>, i: int, k: int)
    requires
        valid_diff(base, head, r),
        0 <= i < base.len(),
        r[i].kind == DiffKind::Removed,
        base.len() <= k < r.len(),
    ensures
        exists|j: int| 0 <= j < head.len() && added_entry(r[k], #[trigger] head[j]) && !plain_rename(base[i], head[j]),
{
    let w = choose|w: DiffWitness| #[trigger] witness_seq(w) == w.assign && diff_with(base, head, r, w);
    let a = w.assign;
    let u = w.added;
    assert(base_entry(r[i], base[i], head, a[i], w.exact[i]));
    let m = k - base.len();
    assert(r[base.len() + m] == r[k]);
    assert(added_entry(r[base.len() + m], head[u[m]]));
    assert(!plain_rename(base[i], head[u[m]]));
}

proof fn lemma_increasing_bounded(u: Seq<int>, n: int)
    requires
        0 <= n,
        forall|k: int| 0 <= k < u.len() ==> 0 <= #[trigger] u[k] < n,
        forall|k: int, k2: int| 0 <= k < k2 < u.len() ==> #[trigger] u[k] < #[trigger] u[k2],
    ensures
        u.len() <= n,
    decreases u.len(),
{
    if u.len() > 0 {
        let v = u.drop_last();
        assert forall|k: int| 0 <= k < v.len() implies 0 <= #[trigger] v[k] < u.last() by {
            assert(u[k] < u[u.len() - 1]);
        }
        lemma_increasing_bounded(v, u.last());
        assert(u[u.len() - 1] < n);
        assert(v.len() == u.len() - 1);
    }
}

} // verus!
