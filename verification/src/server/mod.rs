//! The rules of the HTTP server.

pub mod auth;
pub mod generate;
pub mod limit;
pub mod prompt;
pub mod request;
pub mod stream;
