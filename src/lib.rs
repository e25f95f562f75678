//! Multi-way trees and forests whose child lists are circular sibling rings
//! addressed through their last element.
use vstd::prelude::*;

pub mod laws;
pub mod node;
pub mod ring;
pub mod tree;

pub use node::Node;
pub use ring::Subtrees;
pub use tree::{Forest, Tree};

verus! {

} // verus!
