//! Builds a commit graph from an ordered list of declarative commands: paths are staged
//! into nested trees, symbolic ids are bound to the objects made for them, identities and
//! the default tree are inherited from configuration commands, and merges fast-forward
//! when their commits lie on one line of ancestry.
use vstd::prelude::*;

pub mod can_fastforward;
pub mod command;
pub mod config;
pub mod interpreter;
pub mod materialize;
pub mod registry;

verus! {

} // verus!
