//! Shared helpers: text handling, MAC addresses, IPv4/CIDR math, time and
//! log levels.
pub mod ip;
pub mod log;
pub mod mac;
pub mod text;
pub mod time;
