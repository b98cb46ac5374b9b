//! The on-disk location of the repository, and the tree paths inside it:
//! a path under the repository root, stripped of the root, addresses an
//! entry of the revision tree.

use vstd::prelude::*;

verus! {

/// Where the repository lives.
pub struct RepoPath(pub String);

/// A path inside the revision tree: a repository-root-relative path.
#[derive(Clone, Copy)]
pub struct TreePath<'a>(pub &'a str);

/// The root is a prefix of the path, with a separator right after it.
pub open spec fn under_root(root: Seq<char>, path: Seq<char>) -> bool {
    path.len() > root.len() + 1 && path.take(root.len() as int) == root && path[root.len() as int]
        == '/'
}

impl RepoPath {
    /// Wrap the repository's location.
    pub fn new(path: String) -> (r: RepoPath)
        ensures
            r.0@ == path@,
    {
        RepoPath(path)
    }

    /// The tree path of a file under the repository root: the path with
    /// the root and its separator stripped.
    pub fn tree_path<'a>(&self, path: &'a str) -> (r: TreePath<'a>)
        requires
            under_root(self.0@, path@),
        ensures
            r.0@ == path@.skip(self.0@.len() as int + 1),
    {
        let start = self.0.as_str().unicode_len();
        let end = path.unicode_len();
        let stripped = path.substring_char(start + 1, end);
        proof {
            assert(path@.subrange(self.0@.len() as int + 1, path@.len() as int) =~= path@.skip(
                self.0@.len() as int + 1,
            ));
        }
        TreePath(stripped)
    }
}

} // verus!
