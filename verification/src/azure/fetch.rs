//! The four Azure data sources that a run needs, and where to find them.
use crate::azure::azure_cache::CacheResult;
use crate::azure::graph::Data;
use crate::azure::local_gateway::LocalGatewayData;
use crate::azure::peering_graph::PeeringData;
use crate::azure::vwan_graph::VWanData;
use vstd::prelude::*;

verus! {

/// Cache files to read, one per data source; `None` means the default file
/// of the day.
#[derive(Debug)]
pub struct FetchConfig {
    pub subnet_cache: Option<String>,
    pub peering_cache: Option<String>,
    pub local_gateway_cache: Option<String>,
    pub vwan_cache: Option<String>,
}

impl Default for FetchConfig {
    fn default() -> (r: FetchConfig)
        ensures
            r.subnet_cache is None,
            r.peering_cache is None,
            r.local_gateway_cache is None,
            r.vwan_cache is None,
    {
        FetchConfig {
            subnet_cache: None,
            peering_cache: None,
            local_gateway_cache: None,
            vwan_cache: None,
        }
    }
}

/// The data of the four sources.
pub struct AzureData {
    pub subnets: CacheResult<Data>,
    pub peering_edges: PeeringData,
    pub local_gateways: LocalGatewayData,
    pub vwan: VWanData,
}

} // verus!
