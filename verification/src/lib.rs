//! nanodhcp: the protocol, policy and parsing logic of a minimal DHCPv4 server
//! for a single LAN.
pub mod cli;
pub mod config;
pub mod dhcp;
pub mod lease;
pub mod server;
pub mod util;
