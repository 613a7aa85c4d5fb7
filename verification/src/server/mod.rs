//! The server's decision logic: answering packets and the periodic purge.
pub mod daemon;
