//! Domain models: IPv4 blocks, subnets and virtual networks.
pub mod ipv4;
pub mod subnet;
pub mod vnet;
