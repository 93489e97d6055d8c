pub mod algo;
pub mod drawing;
pub mod edges;
pub mod error;
pub mod graphs;
pub mod util;

pub use crate::algo::dist::Dist;
pub use crate::algo::hk::{animated_huntkill, huntkill, Step};
pub use crate::algo::path::Path;
pub use crate::drawing::Pt;
pub use crate::error::Error;
pub use crate::graphs::orth::{Iter, Orth};
pub use crate::graphs::rect::RectCell;
pub use crate::graphs::weight::Uniform;
pub use crate::graphs::{Block, Neighbors, NeighborIds, Node};
