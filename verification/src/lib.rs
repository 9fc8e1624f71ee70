//! A native extension as a namespace tree.
//!
//! The extension offers natively implemented functions to a host interpreter
//! under dotted names such as `core.hello_from_bin`. This crate is the part
//! of it that can be reasoned about: which functions there are, how a list
//! of bindings becomes a tree of modules, and what a dotted name leads to.
//!
//! * [`function`] holds the registry: the routines, their signatures, and the
//!   exported functions declared over them. A call is a function of its
//!   arguments and of nothing else.
//! * [`layout`] says what a list of bindings means: which lists are valid,
//!   why the others are refused, and which namespace a valid list stands for.
//! * [`builder`] turns a layout into a [`RootModule`], or refuses it. Nothing
//!   is ever built from a layout that is refused.
//! * [`tree`] holds the module nodes that a root module is made of.
//! * [`path`] cuts dotted names into their segments.
//! * [`laws`] states what holds of every layout and of every namespace.
//! * [`extension`] is the layout that this extension ships, with the proof
//!   that it is valid, and the entry point that builds it.
//!
//! Every function is verified against its contract. The contracts speak of
//! views: a text is a sequence of characters, a namespace is a map from
//! paths to what they lead to.

pub mod builder;
pub mod error;
pub mod extension;
pub mod function;
pub mod laws;
pub mod layout;
pub mod path;
pub mod tree;
pub mod value;

pub use builder::{build, RootModule};
pub use error::ConfigurationError;
pub use extension::load;
pub use function::{hello_from_bin, ExportedFunction, InvocationError, Routine, Signature};
pub use layout::LayoutEntry;
pub use tree::{FunctionId, Item, Member, ModuleNode};
pub use value::{Kind, Value};
