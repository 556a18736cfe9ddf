//! What the operations are for, most of it over the real numbers.

pub mod attention;
pub mod attention_gradients;
pub mod blocks;
pub mod broadcast;
pub mod convolution;
pub mod elementwise;
pub mod gradient_check;
pub mod grouped;
pub mod heads;
pub mod layers;
pub mod norm_gradients;
pub mod plans;
pub mod pooling;
pub mod products;
pub mod rows;
pub mod slices;
pub mod steps;
pub mod sums;
