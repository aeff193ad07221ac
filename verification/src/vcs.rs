//! Version control as the differ sees it: changed files, file contents at
//! a revision, and merge bases.
use crate::text::{owned, push_str, str_eq, string_of};
use vstd::prelude::*;

verus! {

/// A version-control backend. Errors are messages.
pub trait Vcs {
    /// The paths changed between two revisions.
    fn changed_files(&self, base: &str, head: &str) -> Result<Vec<String>, String>;

    /// The content of a file at a revision.
    fn file_at_revision(&self, path: &str, rev: &str) -> Result<String, String>;

    /// The merge base of two revisions.
    fn merge_base(&self, a: &str, b: &str) -> Result<String, String>;

    /// The name of the current branch.
    fn current_branch(&self) -> Result<String, String>;

    /// The tracked paths matching a glob pattern.
    fn files_matching(&self, pattern: &str) -> Result<Vec<String>, String>;

    /// The revision diffed against when none is given.
    fn default_head_rev(&self) -> &str;
}

/// An in-memory backend: file contents by path and revision, a fixed list
/// of changed paths and a branch name.
pub struct StubVcs {
    /// `(path, revision, content)` entries; the first entry for a path and
    /// revision is the one read.
    pub files: Vec<(String, String, String)>,
    pub changed: Vec<String>,
    pub branch: String,
}

/// The content stored for `path` at `rev`: the first matching entry.
pub open spec fn stored_content(files: Seq<(String, String, String)>, path: Seq<char>, rev: Seq<char>) -> Option<Seq<char>>
    decreases files.len(),
{
    if files.len() == 0 {
        None
    } else if files[0].0@ == path && files[0].1@ == rev {
        Some(files[0].2@)
    } else {
        stored_content(files.subrange(1, files.len() as int), path, rev)
    }
}

/// The views of a list of strings.
pub open spec fn string_views(v: Seq<String>) -> Seq<Seq<char>> {
    Seq::new(v.len(), |i: int| v[i]@)
}

impl StubVcs {
    /// An empty backend on branch `feature`.
    pub fn new() -> (r: StubVcs)
        ensures
            r.files@.len() == 0,
            r.changed@.len() == 0,
            r.branch@ == "feature"@,
    {
        StubVcs { files: Vec::new(), changed: Vec::new(), branch: owned("feature") }
    }

    /// Copies of the changed paths.
    fn changed_copy(&self) -> (r: Vec<String>)
        ensures
            string_views(r@) == string_views(self.changed@),
    {
        let mut r: Vec<String> = Vec::new();
        let mut i: usize = 0;
        while i < self.changed.len()
            invariant
                i <= self.changed@.len(),
                r@.len() == i,
                forall|k: int| 0 <= k < i ==> (#[trigger] r@[k])@ == self.changed@[k]@,
            decreases self.changed@.len() - i,
        {
            r.push(owned(self.changed[i].as_str()));
            i += 1;
        }
        assert(string_views(r@) =~= string_views(self.changed@));
        r
    }
}

impl Vcs for StubVcs {
    fn changed_files(&self, base: &str, head: &str) -> (r: Result<Vec<String>, String>)
        ensures
            r matches Ok(v) && string_views(v@) == string_views(self.changed@),
    {
        Ok(self.changed_copy())
    }

    fn file_at_revision(&self, path: &str, rev: &str) -> (r: Result<String, String>)
        ensures
            match stored_content(self.files@, path@, rev@) {
                Some(c) => r matches Ok(s) && s@ == c,
                None => r is Err,
            },
    {
        let ghost all = self.files@;
        let mut i: usize = 0;
        assert(all.subrange(0, all.len() as int) =~= all);
        while i < self.files.len()
            invariant
                all == self.files@,
                i <= all.len(),
                stored_content(all, path@, rev@) == stored_content(all.subrange(i as int, all.len() as int), path@, rev@),
            decreases all.len() - i,
        {
            let ghost rest = all.subrange(i as int, all.len() as int);
            assert(rest[0] == all[i as int]);
            assert(rest.subrange(1, rest.len() as int) =~= all.subrange(i + 1, all.len() as int));
            if str_eq(self.files[i].0.as_str(), path) && str_eq(self.files[i].1.as_str(), rev) {
                return Ok(owned(self.files[i].2.as_str()));
            }
            i += 1;
        }
        let mut msg: Vec<char> = Vec::new();
        push_str(&mut msg, "file not found: ");
        push_str(&mut msg, path);
        push_str(&mut msg, "@");
        push_str(&mut msg, rev);
        Err(string_of(&msg))
    }

    fn merge_base(&self, a: &str, b: &str) -> (r: Result<String, String>)
        ensures
            r matches Ok(s) && s@ == "base"@,
    {
        Ok(owned("base"))
    }

    fn current_branch(&self) -> (r: Result<String, String>)
        ensures
            r matches Ok(s) && s@ == self.branch@,
    {
        Ok(owned(self.branch.as_str()))
    }

    fn files_matching(&self, pattern: &str) -> (r: Result<Vec<String>, String>)
        ensures
            r matches Ok(v) && v@.len() == 0,
    {
        Ok(Vec::new())
    }

    fn default_head_rev(&self) -> (r: &str)
        ensures
            r@ == "HEAD"@,
    {
        "HEAD"
    }
}

} // verus!
