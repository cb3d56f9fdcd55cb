//! Azure data: query results, cache file handling, command splitting and
//! pagination decisions.
pub mod azure_cache;
pub mod cli;
pub mod fetch;
pub mod graph;
pub mod local_gateway;
pub mod local_gateway_cache;
pub mod paginate;
pub mod peering_graph;
pub mod vwan_graph;
