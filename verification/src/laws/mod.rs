//! What holds of the library as a whole.

pub mod classes;
pub mod clusters;
pub mod consolidation;
pub mod declarations;
pub mod embeddings;
pub mod ladders;
pub mod readings;
pub mod recording;
pub mod rings;
pub mod rounded_clusters;
pub mod rounded_scalars;
pub mod rounded_vectors;
pub mod rounding;
pub mod scalars;
pub mod signals;
pub mod steps;
pub mod stores;
pub mod vectors;
pub mod windows;
