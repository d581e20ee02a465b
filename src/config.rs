use vstd::prelude::*;
use vstd::string::StringExecFns;

use crate::registry::ObjectRef;

verus! {

pub const DEFAULT_NAME: &'static str = "generate-git-repo";

pub const DEFAULT_EMAIL: &'static str = "generate-git-repo@example.org";

/// A name and an e-mail address, as commits and tags record them.
pub struct Identity {
    pub name: String,
    pub email: String,
}

/// What commands inherit: who authors, commits and tags, and the tree of a commit
/// that declares none.
pub struct Config {
    pub author: Identity,
    pub committer: Identity,
    pub tagger: Identity,
    pub default_tree: ObjectRef,
}

/// A field after a patch: its own value when given, else the shared value when given,
/// else unchanged.
pub open spec fn patched(current: Seq<char>, all: Option<String>, own: Option<String>) -> Seq<char> {
    match own {
        Some(s) => s@,
        None => match all {
            Some(a) => a@,
            None => current,
        },
    }
}

fn pick(current: &String, all: &Option<String>, own: &Option<String>) -> (r: String)
    ensures
        r@ == patched(current@, *all, *own),
{
    match own {
        Some(s) => s.clone(),
        None => match all {
            Some(a) => a.clone(),
            None => current.clone(),
        },
    }
}

impl Config {
    /// The built-in identities for every role, and `empty_tree` as the default tree.
    pub fn new(empty_tree: ObjectRef) -> (r: Config)
        ensures
            r.author.name@ == DEFAULT_NAME@,
            r.author.email@ == DEFAULT_EMAIL@,
            r.committer.name@ == DEFAULT_NAME@,
            r.committer.email@ == DEFAULT_EMAIL@,
            r.tagger.name@ == DEFAULT_NAME@,
            r.tagger.email@ == DEFAULT_EMAIL@,
            r.default_tree == empty_tree,
    {
        Config {
            author: Identity { name: String::from_str(DEFAULT_NAME), email: String::from_str(DEFAULT_EMAIL) },
            committer: Identity {
                name: String::from_str(DEFAULT_NAME),
                email: String::from_str(DEFAULT_EMAIL),
            },
            tagger: Identity { name: String::from_str(DEFAULT_NAME), email: String::from_str(DEFAULT_EMAIL) },
            default_tree: empty_tree,
        }
    }

    /// Applies a patch of identities: the shared name and e-mail go to all three roles
    /// first, then each role's own fields override them.
    pub fn apply_identities(
        &mut self,
        all_name: &Option<String>,
        all_email: &Option<String>,
        author_name: &Option<String>,
        author_email: &Option<String>,
        committer_name: &Option<String>,
        committer_email: &Option<String>,
        tagger_name: &Option<String>,
        tagger_email: &Option<String>,
    )
        ensures
            final(self).author.name@ == patched(old(self).author.name@, *all_name, *author_name),
            final(self).author.email@ == patched(old(self).author.email@, *all_email, *author_email),
            final(self).committer.name@ == patched(
                old(self).committer.name@,
                *all_name,
                *committer_name,
            ),
            final(self).committer.email@ == patched(
                old(self).committer.email@,
                *all_email,
                *committer_email,
            ),
            final(self).tagger.name@ == patched(old(self).tagger.name@, *all_name, *tagger_name),
            final(self).tagger.email@ == patched(old(self).tagger.email@, *all_email, *tagger_email),
            final(self).default_tree == old(self).default_tree,
    {
        self.author.name = pick(&self.author.name, all_name, author_name);
        self.author.email = pick(&self.author.email, all_email, author_email);
        self.committer.name = pick(&self.committer.name, all_name, committer_name);
        self.committer.email = pick(&self.committer.email, all_email, committer_email);
        self.tagger.name = pick(&self.tagger.name, all_name, tagger_name);
        self.tagger.email = pick(&self.tagger.email, all_email, tagger_email);
    }
}

/// In one patch a role's own field wins over the shared one, and the roles without
/// their own field take the shared one.
pub proof fn lemma_own_field_overrides_shared(current: Seq<char>, all: String, own: String)
    ensures
        patched(current, Some(all), Some(own)) == own@,
        patched(current, Some(all), None) == all@,
{
}

} // verus!
