//! Core of a QR Code encoder: symbol versions, error-correction levels,
//! encoding modes, the capacity tables, and the optimal text segmentation
//! that chooses, for each run of characters, the mode that yields the
//! shortest bit stream.

pub mod encoding;
pub mod errors;
pub mod lookups;
pub mod optimal_segmentation;
pub mod segmentation_laws;
pub mod segmentation_model;
pub mod standard;

pub use encoding::{ECCLevel, Mode, Version};
pub use errors::QrError;
pub use optimal_segmentation::{char_cost, min_mode, min_seal, Cell, OptimalSegment, Segment};
