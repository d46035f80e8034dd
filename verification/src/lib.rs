//! A rope: a balanced binary tree of text leaves, addressed by grapheme
//! cluster, for editing very large Unicode documents.

pub mod balance;
pub mod builder;
pub mod checked;
pub mod edit;
pub mod graphviz;
pub mod iter;
pub mod laws;
mod leaf;
pub mod model;
pub mod query;
pub mod rope;
pub mod slice;
pub mod string_utils;

pub use checked::RopeError;
pub use iter::{RopeChunkIter, RopeGraphemeIter, RopeLineIter};
pub use rope::{Rope, MAX_NODE_SIZE, MIN_NODE_SIZE};
pub use slice::RopeSlice;
