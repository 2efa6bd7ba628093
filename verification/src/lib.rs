//! A hierarchical, typed configuration-file library.
//!
//! A [`Config`] owns a tree of settings.  Each node of the tree is a
//! group (named children), an array (positionally indexed children of one
//! uniform scalar kind), a list (positionally indexed children of mixed
//! kinds) or a scalar.  Nodes are addressed by dotted paths, read through
//! typed accessors, and mutated through node-owning methods.  A document
//! is parsed from and serialized to the configuration text grammar.

pub mod types;
pub mod text;
pub mod num;
pub mod path;
pub mod parse;
pub mod ser;
pub mod roundtrip;
pub mod tree;

pub use types::Format;
pub use types::LibType;
pub use types::LibconfigError;
pub use types::Value;
pub use tree::Config;
pub use tree::Setting;

use vstd::prelude::*;

verus! {

/// Base directory against which a document resolves relative include
/// paths when no include directory has been configured.
pub fn libconfig_path() -> (p: &'static str)
    ensures
        p@ =~= seq!['.'],
{
    proof {
        reveal_strlit(".");
    }
    "."
}

} // verus!
