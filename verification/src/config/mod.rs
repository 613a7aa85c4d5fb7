//! Configuration: model, `key=value` parser, semantic validation.
pub mod model;
pub mod parser;

pub use model::DhcpConfig;
pub mod validate;
