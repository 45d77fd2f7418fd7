//! A parser for a small directive-based markup language: a document is a tree
//! of named directives (with key-value arguments and nested children), free
//! text lines, and raw comment blocks. The crate also provides a lazy
//! depth-first traversal over the parsed tree, and the plain configuration
//! values of the repository generator built around the parser.

pub mod chars;
pub mod grammar;
pub mod laws;
pub mod node;
pub mod parser;
pub mod project;
pub mod traverse;

use vstd::prelude::*;

verus! {

pub use crate::grammar::ParseError;
pub use crate::node::Args;
pub use crate::node::Node;
pub use crate::node::NodeView;
pub use crate::parser::parse;
pub use crate::project::Opts;
pub use crate::project::Project;
pub use crate::traverse::DepthFirstIterator;

} // verus!
