use vstd::prelude::*;

verus! {

/// Declared content of one path of a tree.
pub enum TreeNode {
    Utf8File(String),
}

/// One step of a repository description, applied in list order.
pub enum Command {
    /// Creates a commit and binds `id` to it.
    Commit {
        id: String,
        message: Option<String>,
        parents: Vec<String>,
        tree: Option<Vec<(String, TreeNode)>>,
        branches: Option<Vec<String>>,
        tags: Option<Vec<String>>,
    },
    /// Joins commits: a fast-forward when they lie on one line, else a merge commit.
    Merge {
        id: String,
        commits: Vec<String>,
        message: Option<String>,
        tree: Option<Vec<(String, TreeNode)>>,
        branches: Option<Vec<String>>,
        tags: Option<Vec<String>>,
        no_ff: bool,
    },
    /// Points branch `name` at the commit bound to `on`.
    Branch { name: String, on: String },
    /// Tags the commit bound to `on`.
    Tag { name: String, on: String, lightweight: bool },
    /// Changes the identities and the tree that later commands inherit.
    Config {
        all_name: Option<String>,
        all_email: Option<String>,
        author_name: Option<String>,
        author_email: Option<String>,
        committer_name: Option<String>,
        committer_email: Option<String>,
        tagger_name: Option<String>,
        tagger_email: Option<String>,
        tree: Option<Vec<(String, TreeNode)>>,
    },
}

} // verus!
