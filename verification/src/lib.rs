//! In-memory numeric core: a dense array container with shape/stride
//! bookkeeping, a deterministic pseudo-random generator, and exact spatial
//! indexes (KD, Ball, vantage-point and aggregation trees) over integer
//! coordinate vectors, with k-nearest, radius and aggregate range queries.

pub mod agg_tree;
pub mod ball_tree;
pub mod bounds;
pub mod generator;
pub mod heap;
pub mod kd_tree;
pub mod kernel;
pub mod linalg;
pub mod metric;
pub mod ndarray;
pub mod shape;
pub mod spatial_query;
pub mod storage;
pub mod vp_tree;

pub use agg_tree::{AggTree, RegionAggregate};
pub use ball_tree::BallTree;
pub use generator::Generator;
pub use heap::HeapItem;
pub use kd_tree::KDTree;
pub use kernel::{KernelType, KernelWeight};
pub use kernel::kernel;
pub use metric::distance;
pub use metric::{DistanceMetric, SpatialError};
pub use ndarray::NdArray;
pub use shape::Shape;
pub use spatial_query::SpatialQuery;
pub use storage::Storage;
pub use vp_tree::{VPTree, VantagePointSelection};
