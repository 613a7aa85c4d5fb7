//! DHCPv4 wire protocol: message types, options, packet parsing, reply
//! building. This layer is pure (no sockets).
pub mod message;
pub mod options;
pub mod packet;
pub mod builder;
