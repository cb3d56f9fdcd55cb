//! Subnet processing: gap finding, de-duplication, overlap resolution.
pub mod dedup;
pub mod gap_finder;
pub mod overlap;
pub mod vnet;
