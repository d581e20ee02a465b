use vstd::prelude::*;
use vstd::string::StringExecFns;

use crate::can_fastforward::can_fastforward;
use crate::can_fastforward::computes;
use crate::can_fastforward::descends_from_all;
use crate::can_fastforward::diverges;
use crate::can_fastforward::is_ancestry_on;
use crate::command::Command;
use crate::command::TreeNode;
use crate::config::patched;
use crate::config::Config;
use crate::config::Identity;
use crate::materialize::create_files_to_write;
use crate::materialize::materialized;
use crate::materialize::paths_disjoint;
use crate::materialize::PathConflict;
use crate::materialize::StagedEntry;
use crate::registry::ObjectRef;
use crate::registry::Registry;

verus! {

pub const TAG_MESSAGE: &'static str = "Tag message";

/// The tree a commit gets: one already in the store, or one to build from staged entries.
pub enum TreePlan {
    Existing(ObjectRef),
    Build(Vec<StagedEntry>),
}

/// Everything the store needs to write one commit.
pub struct CommitPlan {
    pub author: Identity,
    pub committer: Identity,
    pub message: String,
    pub tree: TreePlan,
    pub parents: Vec<ObjectRef>,
    pub branches: Vec<String>,
    pub tags: Vec<String>,
}

/// What the store must do for one command.
pub enum Plan {
    /// Write the commit, then report it with `record_commit(id, ..)`, then point the
    /// branches and lightweight tags at it.
    Commit { id: String, commit: CommitPlan },
    /// The command's id is already bound to `target`; point the branches and lightweight
    /// tags at it.
    FastForward { target: ObjectRef, branches: Vec<String>, tags: Vec<String> },
    /// Force branch `name` onto `target`.
    Branch { name: String, target: ObjectRef },
    /// Force a lightweight tag `name` onto `target`.
    LightweightTag { name: String, target: ObjectRef },
    /// Force an annotated tag `name` onto `target`.
    AnnotatedTag { name: String, target: ObjectRef, tagger: Identity, message: String },
    /// Build the tree, then report it with `set_default_tree`.
    SetDefaultTree(Vec<StagedEntry>),
    /// Nothing to write.
    Nothing,
}

/// The plan for one command and the ids it named that were never bound (to warn about).
pub struct Step {
    pub plan: Plan,
    pub unresolved: Vec<String>,
}

/// The references that the bound ids among `ids` resolve to, in order; unbound ids are left out.
pub open spec fn resolved(m: Map<Seq<char>, ObjectRef>, ids: Seq<String>) -> Seq<ObjectRef>
    decreases ids.len(),
{
    if ids.len() == 0 {
        Seq::empty()
    } else {
        let r = resolved(m, ids.drop_last());
        if m.contains_key(ids.last()@) {
            r.push(m[ids.last()@])
        } else {
            r
        }
    }
}

/// The ids among `ids` that are not bound, in order.
pub open spec fn unresolved(m: Map<Seq<char>, ObjectRef>, ids: Seq<String>) -> Seq<Seq<char>>
    decreases ids.len(),
{
    if ids.len() == 0 {
        Seq::empty()
    } else {
        let r = unresolved(m, ids.drop_last());
        if m.contains_key(ids.last()@) {
            r
        } else {
            r.push(ids.last()@)
        }
    }
}

pub open spec fn string_views(v: Seq<String>) -> Seq<Seq<char>> {
    v.map_values(|s: String| s@)
}

pub open spec fn list_or_empty(v: Option<Vec<String>>) -> Seq<String> {
    match v {
        Some(l) => l@,
        None => Seq::empty(),
    }
}

pub open spec fn same_identity(a: Identity, b: Identity) -> bool {
    a.name@ == b.name@ && a.email@ == b.email@
}

/// Whether entry `a` of the ancestry table says commit `a` is an ancestor of commit `b`.
pub open spec fn ancestry_says(ancestry: Seq<Vec<bool>>, a: usize, b: usize) -> bool {
    a < ancestry.len() && b < ancestry[a as int]@.len() && ancestry[a as int]@[b as int]
}

pub open spec fn ancestry_rel(ancestry: Seq<Vec<bool>>) -> spec_fn(usize, usize) -> bool {
    |a: usize, b: usize| ancestry_says(ancestry, a, b)
}

/// `0, 1, .., n - 1`: the positions of the commits being merged.
pub open spec fn positions(n: nat) -> Seq<usize> {
    Seq::new(n, |i: int| i as usize)
}

/// A square table of `n` rows of `n` answers.
pub open spec fn is_square(ancestry: Seq<Vec<bool>>, n: nat) -> bool {
    ancestry.len() == n && forall|i: int| 0 <= i < n ==> (#[trigger] ancestry[i])@.len() == n
}

/// Whether two of the `n` commits are unrelated in both directions.
pub open spec fn table_diverges(ancestry: Seq<Vec<bool>>, n: nat) -> bool {
    diverges(positions(n), ancestry_rel(ancestry))
}

/// Whether a merge of `n` resolved commits is a fast-forward.
pub open spec fn fast_forwards(ancestry: Seq<Vec<bool>>, n: nat, no_ff: bool) -> bool {
    !no_ff && (n == 1 || (n >= 2 && !table_diverges(ancestry, n)))
}

/// The commit plan of a commit or merge command, over the interpreter's state before it.
pub open spec fn commit_plan_matches(
    c: CommitPlan,
    config: Config,
    id: String,
    message: Option<String>,
    tree: Option<Vec<(String, TreeNode)>>,
    parents: Seq<ObjectRef>,
    branches: Option<Vec<String>>,
    tags: Option<Vec<String>>,
) -> bool {
    &&& same_identity(c.author, config.author)
    &&& same_identity(c.committer, config.committer)
    &&& c.message@ == match message {
        Some(m) => m@,
        None => id@,
    }
    &&& match tree {
        Some(t) => c.tree matches TreePlan::Build(es) && materialized(t@, es@),
        None => c.tree == TreePlan::Existing(config.default_tree),
    }
    &&& c.parents@ == parents
    &&& c.branches@ == list_or_empty(branches)
    &&& c.tags@ == list_or_empty(tags)
}

/// The declared tree, if there is one, can be staged: its paths do not collide.
pub open spec fn tree_ok(tree: Option<Vec<(String, TreeNode)>>) -> bool {
    match tree {
        Some(t) => paths_disjoint(t@),
        None => true,
    }
}

fn or_empty(v: Option<Vec<String>>) -> (r: Vec<String>)
    ensures
        r@ == list_or_empty(v),
{
    match v {
        Some(l) => l,
        None => Vec::new(),
    }
}

/// Runs commands against a session state: the registry of ids and the configuration.
/// Each command yields a plan for the store; what the store reports back is bound here.
pub struct Interpreter {
    pub registry: Registry,
    pub config: Config,
}

impl Interpreter {
    pub open spec fn wf(&self) -> bool {
        self.registry.wf()
    }

    /// A fresh session: no ids bound, the built-in identities, `empty_tree` as default tree.
    pub fn new(empty_tree: ObjectRef) -> (r: Interpreter)
        ensures
            r.wf(),
            r.registry@ == Map::<Seq<char>, ObjectRef>::empty(),
            r.config.author.name@ == crate::config::DEFAULT_NAME@,
            r.config.author.email@ == crate::config::DEFAULT_EMAIL@,
            r.config.committer.name@ == crate::config::DEFAULT_NAME@,
            r.config.committer.email@ == crate::config::DEFAULT_EMAIL@,
            r.config.tagger.name@ == crate::config::DEFAULT_NAME@,
            r.config.tagger.email@ == crate::config::DEFAULT_EMAIL@,
            r.config.default_tree == empty_tree,
    {
        Interpreter { registry: Registry::new(), config: Config::new(empty_tree) }
    }

    /// Resolves `ids` in order: the references of the bound ones, and the ids that are not bound.
    pub fn resolve_all(&self, ids: &Vec<String>) -> (r: (Vec<ObjectRef>, Vec<String>))
        requires
            self.wf(),
        ensures
            r.0@ == resolved(self.registry@, ids@),
            string_views(r.1@) == unresolved(self.registry@, ids@),
    {
        let mut refs: Vec<ObjectRef> = Vec::new();
        let mut missing: Vec<String> = Vec::new();
        let mut i: usize = 0;
        assert(ids@.take(0) =~= Seq::<String>::empty());
        assert(string_views(missing@) =~= Seq::<Seq<char>>::empty());
        while i < ids.len()
            invariant
                self.wf(),
                i <= ids@.len(),
                refs@ == resolved(self.registry@, ids@.take(i as int)),
                string_views(missing@) == unresolved(self.registry@, ids@.take(i as int)),
            decreases ids@.len() - i,
        {
            assert(ids@.take(i + 1).drop_last() =~= ids@.take(i as int));
            let ghost before = missing@;
            match self.registry.resolve(ids[i].as_str()) {
                Some(o) => {
                    refs.push(o);
                },
                None => {
                    missing.push(ids[i].clone());
                    assert(string_views(missing@) =~= string_views(before).push(ids@[i as int]@));
                },
            }
            i = i + 1;
        }
        assert(ids@.take(i as int) =~= ids@);
        (refs, missing)
    }

    /// The tree for a commit: the declared one, staged, or the default tree.
    fn tree_plan(&self, tree: Option<Vec<(String, TreeNode)>>) -> (r: Result<TreePlan, PathConflict>)
        ensures
            r is Ok <==> tree_ok(tree),
            r is Ok ==> match tree {
                Some(t) => r->Ok_0 matches TreePlan::Build(es) && materialized(t@, es@),
                None => r->Ok_0 == TreePlan::Existing(self.config.default_tree),
            },
    {
        match tree {
            Some(t) => match create_files_to_write(&t) {
                Ok(es) => Ok(TreePlan::Build(es)),
                Err(e) => Err(e),
            },
            None => Ok(TreePlan::Existing(self.config.default_tree)),
        }
    }

    fn commit_plan(
        &self,
        id: &String,
        message: Option<String>,
        tree: Option<Vec<(String, TreeNode)>>,
        parents: Vec<ObjectRef>,
        branches: Option<Vec<String>>,
        tags: Option<Vec<String>>,
    ) -> (r: Result<CommitPlan, PathConflict>)
        ensures
            r is Ok <==> tree_ok(tree),
            r is Ok ==> commit_plan_matches(
                r->Ok_0,
                self.config,
                *id,
                message,
                tree,
                parents@,
                branches,
                tags,
            ),
    {
        let t = match self.tree_plan(tree) {
            Ok(t) => t,
            Err(e) => {
                return Err(e);
            },
        };
        let message = match message {
            Some(m) => m,
            None => id.clone(),
        };
        Ok(CommitPlan {
            author: Identity { name: self.config.author.name.clone(), email: self.config.author.email.clone() },
            committer: Identity {
                name: self.config.committer.name.clone(),
                email: self.config.committer.email.clone(),
            },
            message,
            tree: t,
            parents,
            branches: or_empty(branches),
            tags: or_empty(tags),
        })
    }

    /// Decides whether the commits at positions `0..n` fast-forward, by `ancestry`, and to which.
    fn fastforward_target(ancestry: &Vec<Vec<bool>>, n: usize) -> (r: Option<usize>)
        ensures
            n == 0 ==> r is None,
            n == 1 ==> r == Some(0usize),
            n >= 2 ==> (r is None <==> table_diverges(ancestry@, n as nat)),
            r is Some ==> r->0 < n,
            r is Some && is_ancestry_on(positions(n as nat), ancestry_rel(ancestry@)) ==> descends_from_all(
                positions(n as nat),
                ancestry_rel(ancestry@),
                r->0,
                n as int,
            ),
    {
        let mut nodes: Vec<usize> = Vec::new();
        let mut i: usize = 0;
        while i < n
            invariant
                i <= n,
                nodes@ == positions(i as nat),
            decreases n - i,
        {
            nodes.push(i);
            assert(nodes@ =~= positions((i + 1) as nat));
            i = i + 1;
        }
        let ghost rel = ancestry_rel(ancestry@);
        let is_parent = |a: usize, b: usize| -> (r: bool)
            ensures
                r == ancestry_says(ancestry@, a, b),
            {
                if a < ancestry.len() && b < ancestry[a].len() {
                    ancestry[a][b]
                } else {
                    false
                }
            };
        proof {
            assert(computes(is_parent, rel));
        }
        let r = can_fastforward(nodes.as_slice(), is_parent);
        proof {
            if r is Some {
                let k = choose|k: int| 0 <= k < nodes@.len() && nodes@[k] == r->0;
                assert(r->0 < n);
            }
            if n == 1 {
                assert(nodes@[0] == 0usize);
            }
        }
        r
    }

    /// Applies one command. The state changes that need no store happen here (identities,
    /// fast-forward bindings); the plan says what the store must write.
    pub fn interpret_command(&mut self, command: Command, ancestry: &Vec<Vec<bool>>) -> (r: Result<
        Step,
        PathConflict,
    >)
        requires
            old(self).wf(),
            command matches Command::Merge { commits, .. } ==> is_square(
                ancestry@,
                resolved(old(self).registry@, commits@).len(),
            ),
        ensures
            final(self).wf(),
            match command {
                Command::Commit { id, message, parents, tree, branches, tags } => {
                    &&& final(self).registry@ == old(self).registry@
                    &&& final(self).config == old(self).config
                    &&& (r is Ok <==> tree_ok(tree))
                    &&& r is Ok ==> {
                        &&& string_views(r->Ok_0.unresolved@) == unresolved(old(self).registry@, parents@)
                        &&& r->Ok_0.plan matches Plan::Commit { id: pid, commit } && pid@ == id@
                            && commit_plan_matches(
                            commit,
                            old(self).config,
                            id,
                            message,
                            tree,
                            resolved(old(self).registry@, parents@),
                            branches,
                            tags,
                        )
                    }
                },
                Command::Merge { id, commits, message, tree, branches, tags, no_ff } => {
                    let refs = resolved(old(self).registry@, commits@);
                    let n = refs.len();
                    &&& final(self).config == old(self).config
                    &&& r is Ok ==> string_views(r->Ok_0.unresolved@) == unresolved(
                        old(self).registry@,
                        commits@,
                    )
                    &&& if fast_forwards(ancestry@, n, no_ff) {
                        &&& r is Ok
                        &&& r->Ok_0.plan matches Plan::FastForward { target, branches: b, tags: t }
                            && b@ == list_or_empty(branches) && t@ == list_or_empty(tags)
                            && final(self).registry@ == old(self).registry@.insert(id@, target)
                            && exists|k: int|
                            0 <= k < n && refs[k] == target && (is_ancestry_on(
                                positions(n),
                                ancestry_rel(ancestry@),
                            ) ==> descends_from_all(
                                positions(n),
                                ancestry_rel(ancestry@),
                                k as usize,
                                n as int,
                            ))
                    } else {
                        &&& final(self).registry@ == old(self).registry@
                        &&& (r is Ok <==> tree_ok(tree))
                        &&& r is Ok ==> (r->Ok_0.plan matches Plan::Commit { id: pid, commit }
                            && pid@ == id@ && commit_plan_matches(
                            commit,
                            old(self).config,
                            id,
                            message,
                            tree,
                            refs,
                            branches,
                            tags,
                        ))
                    }
                },
                Command::Branch { name, on } => {
                    &&& final(self).registry@ == old(self).registry@
                    &&& final(self).config == old(self).config
                    &&& r is Ok
                    &&& if old(self).registry@.contains_key(on@) {
                        &&& r->Ok_0.plan matches Plan::Branch { name: b, target } && b@ == name@
                            && target == old(self).registry@[on@]
                        &&& r->Ok_0.unresolved@.len() == 0
                    } else {
                        &&& r->Ok_0.plan is Nothing
                        &&& string_views(r->Ok_0.unresolved@) == seq![on@]
                    }
                },
                Command::Tag { name, on, lightweight } => {
                    &&& final(self).registry@ == old(self).registry@
                    &&& final(self).config == old(self).config
                    &&& r is Ok
                    &&& if old(self).registry@.contains_key(on@) {
                        &&& r->Ok_0.unresolved@.len() == 0
                        &&& if lightweight {
                            r->Ok_0.plan matches Plan::LightweightTag { name: t, target } && t@
                                == name@ && target == old(self).registry@[on@]
                        } else {
                            r->Ok_0.plan matches Plan::AnnotatedTag { name: t, target, tagger, message }
                                && t@ == name@ && target == old(self).registry@[on@]
                                && same_identity(tagger, old(self).config.tagger) && message@
                                == TAG_MESSAGE@
                        }
                    } else {
                        &&& r->Ok_0.plan is Nothing
                        &&& string_views(r->Ok_0.unresolved@) == seq![on@]
                    }
                },
                Command::Config {
                    all_name,
                    all_email,
                    author_name,
                    author_email,
                    committer_name,
                    committer_email,
                    tagger_name,
                    tagger_email,
                    tree,
                } => {
                    &&& final(self).registry@ == old(self).registry@
                    &&& final(self).config.author.name@ == patched(
                        old(self).config.author.name@,
                        all_name,
                        author_name,
                    )
                    &&& final(self).config.author.email@ == patched(
                        old(self).config.author.email@,
                        all_email,
                        author_email,
                    )
                    &&& final(self).config.committer.name@ == patched(
                        old(self).config.committer.name@,
                        all_name,
                        committer_name,
                    )
                    &&& final(self).config.committer.email@ == patched(
                        old(self).config.committer.email@,
                        all_email,
                        committer_email,
                    )
                    &&& final(self).config.tagger.name@ == patched(
                        old(self).config.tagger.name@,
                        all_name,
                        tagger_name,
                    )
                    &&& final(self).config.tagger.email@ == patched(
                        old(self).config.tagger.email@,
                        all_email,
                        tagger_email,
                    )
                    &&& final(self).config.default_tree == old(self).config.default_tree
                    &&& (r is Ok <==> tree_ok(tree))
                    &&& r is Ok ==> (r->Ok_0.unresolved@.len() == 0 && match tree {
                        Some(t) => r->Ok_0.plan matches Plan::SetDefaultTree(es) && materialized(
                            t@,
                            es@,
                        ),
                        None => r->Ok_0.plan is Nothing,
                    })
                },
            },
    {
        match command {
            Command::Commit { id, message, parents, tree, branches, tags } => {
                let (refs, missing) = self.resolve_all(&parents);
                let commit = match self.commit_plan(&id, message, tree, refs, branches, tags) {
                    Ok(c) => c,
                    Err(e) => {
                        return Err(e);
                    },
                };
                Ok(Step { plan: Plan::Commit { id, commit }, unresolved: missing })
            },
            Command::Merge { id, commits, message, tree, branches, tags, no_ff } => {
                let (refs, missing) = self.resolve_all(&commits);
                let n = refs.len();
                let target = if no_ff {
                    None
                } else {
                    Self::fastforward_target(ancestry, n)
                };
                match target {
                    Some(k) => {
                        let t = refs[k];
                        self.registry.bind(id, t);
                        Ok(
                            Step {
                                plan: Plan::FastForward {
                                    target: t,
                                    branches: or_empty(branches),
                                    tags: or_empty(tags),
                                },
                                unresolved: missing,
                            },
                        )
                    },
                    None => {
                        let commit = match self.commit_plan(&id, message, tree, refs, branches, tags) {
                            Ok(c) => c,
                            Err(e) => {
                                return Err(e);
                            },
                        };
                        Ok(Step { plan: Plan::Commit { id, commit }, unresolved: missing })
                    },
                }
            },
            Command::Branch { name, on } => match self.registry.resolve(on.as_str()) {
                Some(target) => Ok(Step { plan: Plan::Branch { name, target }, unresolved: Vec::new() }),
                None => Ok(Step { plan: Plan::Nothing, unresolved: vec![on] }),
            },
            Command::Tag { name, on, lightweight } => match self.registry.resolve(on.as_str()) {
                Some(target) => {
                    if lightweight {
                        Ok(Step { plan: Plan::LightweightTag { name, target }, unresolved: Vec::new() })
                    } else {
                        let tagger = Identity {
                            name: self.config.tagger.name.clone(),
                            email: self.config.tagger.email.clone(),
                        };
                        Ok(
                            Step {
                                plan: Plan::AnnotatedTag {
                                    name,
                                    target,
                                    tagger,
                                    message: String::from_str(TAG_MESSAGE),
                                },
                                unresolved: Vec::new(),
                            },
                        )
                    }
                },
                None => Ok(Step { plan: Plan::Nothing, unresolved: vec![on] }),
            },
            Command::Config {
                all_name,
                all_email,
                author_name,
                author_email,
                committer_name,
                committer_email,
                tagger_name,
                tagger_email,
                tree,
            } => {
                self.config.apply_identities(
                    &all_name,
                    &all_email,
                    &author_name,
                    &author_email,
                    &committer_name,
                    &committer_email,
                    &tagger_name,
                    &tagger_email,
                );
                match tree {
                    Some(t) => match create_files_to_write(&t) {
                        Ok(es) => Ok(Step { plan: Plan::SetDefaultTree(es), unresolved: Vec::new() }),
                        Err(e) => Err(e),
                    },
                    None => Ok(Step { plan: Plan::Nothing, unresolved: Vec::new() }),
                }
            },
        }
    }

    /// Binds `id` to the commit that the store wrote for it.
    pub fn record_commit(&mut self, id: String, commit: ObjectRef)
        requires
            old(self).wf(),
        ensures
            final(self).wf(),
            final(self).registry@ == old(self).registry@.insert(id@, commit),
            final(self).config == old(self).config,
    {
        self.registry.bind(id, commit);
    }

    /// Makes `tree` the tree of later commits that declare none.
    pub fn set_default_tree(&mut self, tree: ObjectRef)
        ensures
            final(self).registry == old(self).registry,
            final(self).config.default_tree == tree,
            final(self).config.author == old(self).config.author,
            final(self).config.committer == old(self).config.committer,
            final(self).config.tagger == old(self).config.tagger,
    {
        self.config.default_tree = tree;
    }
}

/// A commit's parent list leaves out an id that is not bound, and keeps the others in order:
/// resolving the list is resolving it without that id.
pub proof fn lemma_unbound_parent_left_out(m: Map<Seq<char>, ObjectRef>, ids: Seq<String>, k: int)
    requires
        0 <= k < ids.len(),
        !m.contains_key(ids[k]@),
    ensures
        resolved(m, ids) == resolved(m, ids.remove(k)),
    decreases ids.len(),
{
    if k < ids.len() - 1 {
        let rest = ids.drop_last();
        lemma_unbound_parent_left_out(m, rest, k);
        assert(ids.remove(k).drop_last() =~= rest.remove(k));
        assert(ids.remove(k).last() == ids.last());
    } else {
        assert(ids.remove(k) =~= ids.drop_last());
    }
}

} // verus!
