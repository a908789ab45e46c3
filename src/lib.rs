//! Landscape-evolution core: stream-tree construction with lake carving,
//! drainage-basin orderings and the decisions of the generator's loop.
//!
//! Elevations, distances and slopes are real numbers in the model; the library
//! receives them as order keys (`u64` values whose order is the order of the
//! reals they stand for) and decides everything that depends only on that order.

pub mod forest;
pub mod ridge_queue;
pub mod stream_tree;
pub mod lake;
pub mod drainage_basin;
pub mod generator;

pub use ridge_queue::{RidgeElement, RidgeQueue};
pub use stream_tree::{SiteGraph, StreamTree, TreeError};
pub use drainage_basin::DrainageBasin;
pub use generator::{GenerateError, check_configuration, next_step};
