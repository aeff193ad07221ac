//! The language-agnostic spec tree that every framework is normalised into.
pub mod engine;
pub mod frameworks;
pub mod registry;
pub mod shared;
pub mod syntax;

use vstd::prelude::*;

verus! {

/// What a node of the outline is.
#[derive(Clone, Copy, Debug, PartialEq, Eq, Structural)]
pub enum SpecKind {
    Group,
    Spec,
    SharedInclusion,
}

/// How many cases a parameterized spec runs.
#[derive(Debug, Clone, PartialEq, Eq)]
pub struct ParamInfo {
    pub case_count: usize,
    pub labels: Vec<String>,
}

/// One group or spec of a test outline, with its nested children.
#[derive(Debug, PartialEq, Eq)]
pub struct SpecNode {
    pub name: String,
    pub kind: SpecKind,
    pub children: Vec<SpecNode>,
    pub line: usize,
    pub parameterized: Option<ParamInfo>,
    /// The name came from a string with interpolation, so loop expansion
    /// may substitute into it.
    pub name_is_dynamic: bool,
}

/// The outline of one test file.
#[derive(Debug, PartialEq, Eq)]
pub struct SpecTree {
    pub file_path: String,
    pub framework: String,
    pub root: Vec<SpecNode>,
}

/// The number of parameterized cases of a node, if it has any.
pub open spec fn case_count_of(n: SpecNode) -> Option<usize> {
    match n.parameterized {
        Some(p) => Some(p.case_count),
        None => None,
    }
}

impl SpecNode {
    /// A group node with the given children.
    pub fn group(name: &str, line: usize, children: Vec<SpecNode>) -> (r: SpecNode)
        ensures
            r.name@ == name@,
            r.kind == SpecKind::Group,
            r.children@ == children@,
            r.line == line,
            r.parameterized is None,
            !r.name_is_dynamic,
    {
        SpecNode {
            name: crate::text::owned(name),
            kind: SpecKind::Group,
            children,
            line,
            parameterized: None,
            name_is_dynamic: false,
        }
    }

    /// A leaf spec node.
    pub fn spec(name: &str, line: usize) -> (r: SpecNode)
        ensures
            r.name@ == name@,
            r.kind == SpecKind::Spec,
            r.children@.len() == 0,
            r.line == line,
            r.parameterized is None,
            !r.name_is_dynamic,
    {
        SpecNode {
            name: crate::text::owned(name),
            kind: SpecKind::Spec,
            children: Vec::new(),
            line,
            parameterized: None,
            name_is_dynamic: false,
        }
    }
}

/// The label texts of a parameterization.
pub open spec fn labels_view(v: Seq<String>) -> Seq<Seq<char>> {
    Seq::new(v.len(), |i: int| v[i]@)
}

/// Two parameterizations hold the same data.
pub open spec fn same_params(a: Option<ParamInfo>, b: Option<ParamInfo>) -> bool {
    match (a, b) {
        (Some(x), Some(y)) => x.case_count == y.case_count && labels_view(x.labels@) == labels_view(y.labels@),
        (None, None) => true,
        _ => false,
    }
}

/// Two spec trees hold the same data, node for node.
pub open spec fn same_node(a: SpecNode, b: SpecNode) -> bool
    decreases a,
{
    &&& a.name@ == b.name@
    &&& a.kind == b.kind
    &&& a.line == b.line
    &&& a.name_is_dynamic == b.name_is_dynamic
    &&& same_params(a.parameterized, b.parameterized)
    &&& a.children@.len() == b.children@.len()
    &&& forall|k: int| 0 <= k < a.children@.len() ==> same_node(#[trigger] a.children@[k], b.children@[k])
}

/// Every tree holds the same data as itself.
pub proof fn lemma_same_node_refl(a: SpecNode)
    ensures
        same_node(a, a),
    decreases a,
{
    assert forall|k: int| 0 <= k < a.children@.len() implies same_node(#[trigger] a.children@[k], a.children@[k]) by {
        lemma_same_node_refl(a.children@[k]);
    }
    match a.parameterized {
        Some(x) => {
            assert(labels_view(x.labels@) == labels_view(x.labels@));
        },
        None => {},
    }
}

/// Two forests hold the same data, tree for tree.
pub open spec fn same_forest(a: Seq<SpecNode>, b: Seq<SpecNode>) -> bool {
    a.len() == b.len() && forall|k: int| 0 <= k < a.len() ==> same_node(#[trigger] a[k], b[k])
}

/// Holding the same data is transitive.
pub proof fn lemma_same_node_trans(a: SpecNode, b: SpecNode, c: SpecNode)
    requires
        same_node(a, b),
        same_node(b, c),
    ensures
        same_node(a, c),
    decreases a,
{
    assert forall|k: int| 0 <= k < a.children@.len() implies same_node(#[trigger] a.children@[k], c.children@[k]) by {
        lemma_same_node_trans(a.children@[k], b.children@[k], c.children@[k]);
    }
}

/// Every forest holds the same data as itself.
pub proof fn lemma_same_forest_refl(a: Seq<SpecNode>)
    ensures
        same_forest(a, a),
{
    assert forall|k: int| 0 <= k < a.len() implies same_node(#[trigger] a[k], a[k]) by {
        lemma_same_node_refl(a[k]);
    }
}

/// Holding the same data is transitive, for forests.
pub proof fn lemma_same_forest_trans(a: Seq<SpecNode>, b: Seq<SpecNode>, c: Seq<SpecNode>)
    requires
        same_forest(a, b),
        same_forest(b, c),
    ensures
        same_forest(a, c),
{
    assert forall|k: int| 0 <= k < a.len() implies same_node(#[trigger] a[k], c[k]) by {
        lemma_same_node_trans(a[k], b[k], c[k]);
    }
}

/// Forests that hold the same data, joined, hold the same data.
pub proof fn lemma_same_forest_concat(a: Seq<SpecNode>, b: Seq<SpecNode>, c: Seq<SpecNode>, d: Seq<SpecNode>)
    requires
        same_forest(a, b),
        same_forest(c, d),
    ensures
        same_forest(a + c, b + d),
{
    assert forall|k: int| 0 <= k < (a + c).len() implies same_node(#[trigger] (a + c)[k], (b + d)[k]) by {
        if k >= a.len() {
            assert((a + c)[k] == c[k - a.len()]);
            assert((b + d)[k] == d[k - a.len()]);
        } else {
            assert((a + c)[k] == a[k]);
            assert((b + d)[k] == b[k]);
        }
    }
}

/// A node as the engine builds it: its line is one-based, only a group
/// holds children, a parameterization runs at least one case, and so for
/// every node below it.
pub open spec fn well_formed_node(n: SpecNode) -> bool
    decreases n,
{
    &&& n.line >= 1
    &&& (n.kind != SpecKind::Group ==> n.children@.len() == 0)
    &&& (n.parameterized matches Some(p) ==> p.case_count > 0)
    &&& forall|k: int| 0 <= k < n.children@.len() ==> well_formed_node(#[trigger] n.children@[k])
}

/// Every tree of the forest is well formed.
pub open spec fn well_formed_forest(s: Seq<SpecNode>) -> bool {
    forall|k: int| 0 <= k < s.len() ==> well_formed_node(#[trigger] s[k])
}

/// A tree that holds the same data as a well-formed one is well formed.
pub proof fn lemma_same_node_well_formed(a: SpecNode, b: SpecNode)
    requires
        same_node(a, b),
        well_formed_node(b),
    ensures
        well_formed_node(a),
    decreases a,
{
    assert forall|k: int| 0 <= k < a.children@.len() implies well_formed_node(#[trigger] a.children@[k]) by {
        lemma_same_node_well_formed(a.children@[k], b.children@[k]);
    }
}

/// A forest that holds the same data as a well-formed one is well formed.
pub proof fn lemma_same_forest_well_formed(a: Seq<SpecNode>, b: Seq<SpecNode>)
    requires
        same_forest(a, b),
        well_formed_forest(b),
    ensures
        well_formed_forest(a),
{
    assert forall|k: int| 0 <= k < a.len() implies well_formed_node(#[trigger] a[k]) by {
        lemma_same_node_well_formed(a[k], b[k]);
    }
}

/// Two well-formed forests, one after the other, form a well-formed forest.
pub proof fn lemma_concat_well_formed(a: Seq<SpecNode>, b: Seq<SpecNode>)
    requires
        well_formed_forest(a),
        well_formed_forest(b),
    ensures
        well_formed_forest(a + b),
{
    assert forall|k: int| 0 <= k < (a + b).len() implies well_formed_node(#[trigger] (a + b)[k]) by {
        if k >= a.len() {
            assert((a + b)[k] == b[k - a.len()]);
        }
    }
}

/// A copy of a parameterization.
pub fn copy_params(p: &Option<ParamInfo>) -> (r: Option<ParamInfo>)
    ensures
        same_params(r, *p),
{
    match p {
        Some(x) => {
            let mut labels: Vec<String> = Vec::new();
            let mut i: usize = 0;
            while i < x.labels.len()
                invariant
                    i <= x.labels@.len(),
                    labels@.len() == i,
                    forall|k: int| 0 <= k < i ==> (#[trigger] labels@[k])@ == x.labels@[k]@,
                decreases x.labels@.len() - i,
            {
                labels.push(crate::text::owned(x.labels[i].as_str()));
                i += 1;
            }
            assert(labels_view(labels@) =~= labels_view(x.labels@));
            Some(ParamInfo { case_count: x.case_count, labels })
        },
        None => None,
    }
}

/// A deep copy of a spec tree.
pub fn copy_node(n: &SpecNode) -> (r: SpecNode)
    ensures
        same_node(r, *n),
    decreases n,
{
    let children = copy_forest(&n.children);
    SpecNode {
        name: crate::text::owned(n.name.as_str()),
        kind: n.kind,
        children,
        line: n.line,
        parameterized: copy_params(&n.parameterized),
        name_is_dynamic: n.name_is_dynamic,
    }
}

/// Deep copies of the trees of a forest, in order.
pub fn copy_forest(v: &[SpecNode]) -> (r: Vec<SpecNode>)
    ensures
        same_forest(r@, v@),
    decreases v@,
{
    let mut out: Vec<SpecNode> = Vec::new();
    let mut i: usize = 0;
    while i < v.len()
        invariant
            i <= v@.len(),
            out@.len() == i,
            forall|k: int| 0 <= k < i ==> same_node(#[trigger] out@[k], v@[k]),
        decreases v@.len() - i,
    {
        proof {
            assert(decreases_to!(v@ => v@[i as int]));
        }
        out.push(copy_node(&v[i]));
        i += 1;
    }
    out
}

} // verus!
