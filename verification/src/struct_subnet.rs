//! Subnet record of the multi-CIDR cache format, where a subnet lists all the
//! address spaces of its VNet.
use crate::models::ipv4::Ipv4;
use vstd::prelude::*;

verus! {

/// A subnet record of the multi-CIDR cache format.
#[derive(Debug, Clone)]
pub struct Subnet {
    pub vnet_name: String,
    /// All address spaces of the VNet.
    pub vnet_cidr: Vec<Ipv4>,
    pub subnet_name: String,
    pub subnet_cidr: Option<Ipv4>,
    pub nsg: Option<String>,
    pub location: String,
    pub dns_servers: Option<Vec<String>>,
    pub subscription_id: String,
    pub subscription_name: String,
    pub ip_configurations_count: Option<u32>,
    pub gap: Option<String>,
    /// Record index in the source query.
    pub src_index: usize,
    /// Block number of the paginated query the record came in.
    pub block_id: usize,
}

impl Default for Subnet {
    fn default() -> (r: Subnet)
        ensures
            r.vnet_name@ == "blank"@,
            r.vnet_cidr@.len() == 0,
            r.subnet_name@ == Seq::<char>::empty(),
            r.subnet_cidr is None,
            r.nsg is None,
            r.location@ == "blank"@,
            r.dns_servers is None,
            r.subscription_id@ == "blank"@,
            r.subscription_name@ == "blank"@,
            r.ip_configurations_count is None,
            r.gap matches Some(g) && g@ == "blank"@,
            r.src_index == 0,
            r.block_id == 0,
    {
        Subnet {
            vnet_name: "blank".to_owned(),
            vnet_cidr: Vec::new(),
            subnet_name: String::new(),
            subnet_cidr: None,
            nsg: None,
            location: "blank".to_owned(),
            dns_servers: None,
            subscription_id: "blank".to_owned(),
            subscription_name: "blank".to_owned(),
            ip_configurations_count: None,
            gap: Some("blank".to_owned()),
            src_index: 0,
            block_id: 0,
        }
    }
}

} // verus!
