//! Local Network Gateway rows: the on-premises side of gateway VNets.
use vstd::prelude::*;

verus! {

/// One row of the local gateway query: the on-premises connection of a
/// gateway VNet.
#[derive(Debug, Clone)]
pub struct LocalGatewayRow {
    /// The Azure VNet that hosts the VPN gateway.
    pub vnet_name: String,
    /// The Azure VPN gateway resource.
    pub vng_name: String,
    /// BGP ASN of the Azure VPN gateway (empty when BGP is off).
    pub vng_bgp_asn: String,
    /// The Local Network Gateway (the on-premises site).
    pub local_gw_name: String,
    /// On-premises address prefixes.
    pub address_prefixes: Vec<String>,
    /// Public IP of the on-premises VPN device.
    pub gateway_ip: String,
    /// Public IPs for active-active or BGP set-ups.
    pub gateway_ips: Vec<String>,
    /// On-premises BGP ASN (empty when BGP is off).
    pub bgp_asn: String,
    /// On-premises BGP peering IP (empty when BGP is off).
    pub bgp_peer_ip: String,
}

/// Response data of the local gateway query.
#[derive(Debug)]
pub struct LocalGatewayData {
    pub data: Vec<LocalGatewayRow>,
    pub skip_token: Option<String>,
    pub total_records: Option<u32>,
    pub count: i32,
}

impl Default for LocalGatewayData {
    fn default() -> (r: LocalGatewayData)
        ensures
            r.data@.len() == 0,
            r.skip_token is None,
            r.total_records is None,
            r.count == 0,
    {
        LocalGatewayData { data: Vec::new(), skip_token: None, total_records: None, count: 0 }
    }
}

} // verus!
