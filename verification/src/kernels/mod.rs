//! The operations on the host, element by element.

pub mod attention;
pub mod cast;
pub mod conv;
pub mod elementwise;
pub mod flash;
pub mod heads;
pub mod movement;
pub mod pool;
pub mod reduce;
pub mod rows;
pub mod window;
