//! What runs on a graphics device, and how.

pub mod data;
pub mod plan;
pub mod reading;
pub mod select;
pub mod shader;
