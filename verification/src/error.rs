//! Why a layout, or a single registration, is refused.

use vstd::prelude::*;

verus! {

/// A fault in the configuration, found while the namespace is assembled.
/// It is final: nothing is published once one has been found.
#[derive(Clone, Copy, Debug, PartialEq, Eq, Structural)]
pub enum ConfigurationError {
    /// The layout declares nothing, so there is no root module to build.
    EmptyLayout,
    /// A path has an empty piece, or a name is empty or holds a dot.
    InvalidName,
    /// A path starts with another name than that of the root module.
    ForeignRoot,
    /// The name is already taken, in the same module, by something else.
    Collision,
}

} // verus!
