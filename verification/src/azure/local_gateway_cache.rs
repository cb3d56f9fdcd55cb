//! Local gateway data read from its cache file or fetched from Azure.
use crate::azure::local_gateway::LocalGatewayData;
use vstd::prelude::*;

verus! {

/// Local gateway data with where it came from.
#[derive(Debug)]
pub struct LocalGatewayCacheResult {
    pub data: LocalGatewayData,
    /// The data came from the cache file.
    pub from_cache: bool,
    /// The cache file read or written.
    pub cache_file: String,
}

} // verus!
