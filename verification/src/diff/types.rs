//! The diff tree: one node per spec or group, marked with how it changed.
use vstd::prelude::*;

verus! {

/// The diff of the outline of one file.
#[derive(Debug, PartialEq, Eq)]
pub struct FileDiff {
    pub path: String,
    pub nodes: Vec<DiffNode>,
}

/// How a node changed between base and head.
#[derive(Debug, Clone, Copy, PartialEq, Eq, Structural)]
pub enum DiffKind {
    Added,
    Removed,
    Renamed,
    Modified,
    Unchanged,
}

/// One node of the diff tree.
#[derive(Debug, PartialEq, Eq)]
pub struct DiffNode {
    pub name: String,
    pub kind: DiffKind,
    pub old_name: Option<String>,
    pub param_cases: Option<usize>,
    pub old_param_cases: Option<usize>,
    pub children: Vec<DiffNode>,
}

/// Leaf additions, leaf removals, renames and modifications of a diff.
#[derive(Debug, Clone, Copy)]
pub struct Stats {
    pub added: usize,
    pub removed: usize,
    pub renamed: usize,
    pub modified: usize,
}

/// The node or one of its descendants is not `Unchanged`.
pub open spec fn node_has_changes(n: DiffNode) -> bool
    decreases n,
{
    n.kind != DiffKind::Unchanged || exists|k: int|
        0 <= k < n.children@.len() && node_has_changes(#[trigger] n.children@[k])
}

/// Some node of the sequence has changes.
pub open spec fn any_has_changes(s: Seq<DiffNode>) -> bool {
    exists|k: int| 0 <= k < s.len() && #[trigger] node_has_changes(s[k])
}

impl DiffNode {
    /// Whether this node or any descendant changed.
    pub fn has_changes(&self) -> (r: bool)
        ensures
            r == node_has_changes(*self),
        decreases *self,
    {
        if self.kind != DiffKind::Unchanged {
            return true;
        }
        let mut i: usize = 0;
        while i < self.children.len()
            invariant
                i <= self.children.len(),
                forall|k: int| 0 <= k < i ==> !node_has_changes(#[trigger] self.children@[k]),
            decreases self.children.len() - i,
        {
            if self.children[i].has_changes() {
                assert(node_has_changes(self.children@[i as int]));
                return true;
            }
            i += 1;
        }
        false
    }
}

/// Whether any node of the slice has changes.
pub fn any_changes(nodes: &Vec<DiffNode>) -> (r: bool)
    ensures
        r == any_has_changes(nodes@),
{
    let mut i: usize = 0;
    while i < nodes.len()
        invariant
            i <= nodes.len(),
            forall|k: int| 0 <= k < i ==> !node_has_changes(#[trigger] nodes@[k]),
        decreases nodes.len() - i,
    {
        if nodes[i].has_changes() {
            return true;
        }
        i += 1;
    }
    false
}

/// Number of nodes of a diff forest, counted recursively.
pub open spec fn forest_size(s: Seq<DiffNode>) -> nat
    decreases s,
{
    if s.len() == 0 {
        0
    } else {
        forest_size(s.drop_last()) + 1 + forest_size(s.last().children@)
    }
}

/// Number of nodes of all file diffs.
pub open spec fn files_size(fds: Seq<FileDiff>) -> nat
    decreases fds.len(),
{
    if fds.len() == 0 {
        0
    } else {
        files_size(fds.drop_last()) + forest_size(fds.last().nodes@)
    }
}

/// Childless `Added` nodes of a forest.
pub open spec fn forest_added(s: Seq<DiffNode>) -> nat
    decreases s,
{
    if s.len() == 0 {
        0
    } else {
        let n = s.last();
        forest_added(s.drop_last()) + (if n.kind == DiffKind::Added && n.children@.len() == 0 {
            1nat
        } else {
            0nat
        }) + forest_added(n.children@)
    }
}

/// Childless `Removed` nodes of a forest.
pub open spec fn forest_removed(s: Seq<DiffNode>) -> nat
    decreases s,
{
    if s.len() == 0 {
        0
    } else {
        let n = s.last();
        forest_removed(s.drop_last()) + (if n.kind == DiffKind::Removed && n.children@.len()
            == 0 {
            1nat
        } else {
            0nat
        }) + forest_removed(n.children@)
    }
}

/// `Renamed` nodes of a forest, at any depth.
pub open spec fn forest_renamed(s: Seq<DiffNode>) -> nat
    decreases s,
{
    if s.len() == 0 {
        0
    } else {
        let n = s.last();
        forest_renamed(s.drop_last()) + (if n.kind == DiffKind::Renamed {
            1nat
        } else {
            0nat
        }) + forest_renamed(n.children@)
    }
}

pub open spec fn files_added(fds: Seq<FileDiff>) -> nat
    decreases fds.len(),
{
    if fds.len() == 0 {
        0
    } else {
        files_added(fds.drop_last()) + forest_added(fds.last().nodes@)
    }
}

pub open spec fn files_removed(fds: Seq<FileDiff>) -> nat
    decreases fds.len(),
{
    if fds.len() == 0 {
        0
    } else {
        files_removed(fds.drop_last()) + forest_removed(fds.last().nodes@)
    }
}

pub open spec fn files_renamed(fds: Seq<FileDiff>) -> nat
    decreases fds.len(),
{
    if fds.len() == 0 {
        0
    } else {
        files_renamed(fds.drop_last()) + forest_renamed(fds.last().nodes@)
    }
}

impl Stats {
    /// All counters zero.
    pub fn zero() -> (r: Stats)
        ensures
            r.added == 0 && r.removed == 0 && r.renamed == 0 && r.modified == 0,
    {
        Stats { added: 0, removed: 0, renamed: 0, modified: 0 }
    }

    /// Counts the leaf additions and removals and the renames of all file
    /// diffs. Modifications are not counted.
    pub fn from_file_diffs(file_diffs: &[FileDiff]) -> (r: Stats)
        requires
            files_size(file_diffs@) <= usize::MAX,
        ensures
            r.added == files_added(file_diffs@),
            r.removed == files_removed(file_diffs@),
            r.renamed == files_renamed(file_diffs@),
            r.modified == 0,
    {
        let mut stats = Stats::zero();
        let mut i: usize = 0;
        while i < file_diffs.len()
            invariant
                i <= file_diffs.len(),
                files_size(file_diffs@) <= usize::MAX,
                files_size(file_diffs@.subrange(0, i as int)) <= files_size(file_diffs@),
                stats.added == files_added(file_diffs@.subrange(0, i as int)),
                stats.removed == files_removed(file_diffs@.subrange(0, i as int)),
                stats.renamed == files_renamed(file_diffs@.subrange(0, i as int)),
                stats.added <= files_size(file_diffs@.subrange(0, i as int)),
                stats.removed <= files_size(file_diffs@.subrange(0, i as int)),
                stats.renamed <= files_size(file_diffs@.subrange(0, i as int)),
                stats.modified == 0,
            decreases file_diffs.len() - i,
        {
            let ghost pre = file_diffs@.subrange(0, i as int);
            let ghost next = file_diffs@.subrange(0, i + 1);
            assert(next.drop_last() =~= pre);
            proof {
                lemma_files_size_prefix(file_diffs@, i + 1);
            }
            stats.count_nodes(&file_diffs[i].nodes);
            i += 1;
        }
        assert(file_diffs@.subrange(0, file_diffs@.len() as int) =~= file_diffs@);
        stats
    }

    fn count_nodes(&mut self, nodes: &Vec<DiffNode>)
        requires
            old(self).added + forest_size(nodes@) <= usize::MAX,
            old(self).removed + forest_size(nodes@) <= usize::MAX,
            old(self).renamed + forest_size(nodes@) <= usize::MAX,
        ensures
            final(self).added == old(self).added + forest_added(nodes@),
            final(self).removed == old(self).removed + forest_removed(nodes@),
            final(self).renamed == old(self).renamed + forest_renamed(nodes@),
            final(self).modified == old(self).modified,
            forest_added(nodes@) <= forest_size(nodes@),
            forest_removed(nodes@) <= forest_size(nodes@),
            forest_renamed(nodes@) <= forest_size(nodes@),
        decreases nodes@,
    {
        let ghost a0 = self.added;
        let ghost r0 = self.removed;
        let ghost n0 = self.renamed;
        let mut i: usize = 0;
        while i < nodes.len()
            invariant
                i <= nodes.len(),
                a0 + forest_size(nodes@) <= usize::MAX,
                r0 + forest_size(nodes@) <= usize::MAX,
                n0 + forest_size(nodes@) <= usize::MAX,
                forest_size(nodes@.subrange(0, i as int)) <= forest_size(nodes@),
                self.added == a0 + forest_added(nodes@.subrange(0, i as int)),
                self.removed == r0 + forest_removed(nodes@.subrange(0, i as int)),
                self.renamed == n0 + forest_renamed(nodes@.subrange(0, i as int)),
                forest_added(nodes@.subrange(0, i as int)) <= forest_size(
                    nodes@.subrange(0, i as int),
                ),
                forest_removed(nodes@.subrange(0, i as int)) <= forest_size(
                    nodes@.subrange(0, i as int),
                ),
                forest_renamed(nodes@.subrange(0, i as int)) <= forest_size(
                    nodes@.subrange(0, i as int),
                ),
                self.modified == old(self).modified,
            decreases nodes.len() - i,
        {
            let ghost pre = nodes@.subrange(0, i as int);
            let ghost next = nodes@.subrange(0, i + 1);
            assert(next.drop_last() =~= pre);
            assert(next.last() == nodes@[i as int]);
            proof {
                lemma_forest_size_prefix(nodes@, i + 1);
            }
            let node = &nodes[i];
            let is_leaf = node.children.len() == 0;
            match node.kind {
                DiffKind::Added => {
                    if is_leaf {
                        self.added = self.added + 1;
                    }
                },
                DiffKind::Removed => {
                    if is_leaf {
                        self.removed = self.removed + 1;
                    }
                },
                DiffKind::Renamed => {
                    self.renamed = self.renamed + 1;
                },
                _ => {},
            }
            self.count_nodes(&node.children);
            i += 1;
        }
        assert(nodes@.subrange(0, nodes@.len() as int) =~= nodes@);
    }

    /// No addition, removal, rename or modification was counted.
    pub fn is_empty(&self) -> (r: bool)
        ensures
            r == (self.added == 0 && self.removed == 0 && self.renamed == 0 && self.modified
                == 0),
    {
        self.added == 0 && self.removed == 0 && self.renamed == 0 && self.modified == 0
    }
}

impl Default for Stats {
    fn default() -> (r: Stats)
        ensures
            r.added == 0 && r.removed == 0 && r.renamed == 0 && r.modified == 0,
    {
        Stats::zero()
    }
}

/// The size of a prefix of a forest is at most the size of the forest.
pub proof fn lemma_forest_size_prefix(s: Seq<DiffNode>, n: int)
    requires
        0 <= n <= s.len(),
    ensures
        forest_size(s.subrange(0, n)) <= forest_size(s),
    decreases s.len() - n,
{
    if n < s.len() {
        lemma_forest_size_prefix(s, n + 1);
        assert(s.subrange(0, n + 1).drop_last() =~= s.subrange(0, n));
    } else {
        assert(s.subrange(0, n) =~= s);
    }
}

/// The size of a prefix of the file diffs is at most the size of all.
pub proof fn lemma_files_size_prefix(s: Seq<FileDiff>, n: int)
    requires
        0 <= n <= s.len(),
    ensures
        files_size(s.subrange(0, n)) <= files_size(s),
    decreases s.len() - n,
{
    if n < s.len() {
        lemma_files_size_prefix(s, n + 1);
        assert(s.subrange(0, n + 1).drop_last() =~= s.subrange(0, n));
    } else {
        assert(s.subrange(0, n) =~= s);
    }
}

} // verus!
