//! Division of an IPv4 CIDR block into equal sub-blocks, and the grouping of
//! online hosts by the sub-block that holds their address.

pub mod api;
pub mod cli;
pub mod config;
pub mod grouping;
pub mod ipv4;
pub mod logger;
pub mod network;
pub mod text;
