//! An ordered map kept as a splay tree: nodes live in one arena and point at each
//! other by index, and every lookup or update splays the node it reaches to the root.
use vstd::prelude::*;

mod iter;
pub mod laws;
mod node;
pub mod order;
mod shape;
mod splay;

pub use crate::iter::SplayIter;
pub use crate::splay::Splay;

verus! {

} // verus!
