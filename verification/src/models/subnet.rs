//! Azure subnet data model.
use crate::models::ipv4::Ipv4;
use vstd::prelude::*;

verus! {

/// An Azure subnet with its configuration and metadata.
#[derive(Debug, Clone)]
pub struct Subnet {
    /// Name of the virtual network containing this subnet.
    pub vnet_name: String,
    /// The VNet_CIDR (address space) this subnet belongs to.
    pub vnet_cidr: Ipv4,
    /// Name of the subnet.
    pub subnet_name: String,
    /// Address block of the subnet (`None` if not configured).
    pub subnet_cidr: Option<Ipv4>,
    /// Network Security Group resource ID, if one is attached.
    pub nsg: Option<String>,
    /// Azure region.
    pub location: String,
    /// Custom DNS servers configured on the VNet.
    pub dns_servers: Option<Vec<String>>,
    /// Azure subscription ID.
    pub subscription_id: String,
    /// Azure subscription display name.
    pub subscription_name: String,
    /// Number of IP configurations (NICs) using this subnet.
    pub ip_configurations_count: Option<u32>,
    /// Gap indicator for display purposes.
    pub gap: Option<String>,
    /// Record index in the source query.
    pub src_index: usize,
    /// Block number of the paginated query the record came in.
    pub block_id: usize,
    /// Name of the VNet that won overlap resolution when this subnet was
    /// excluded; `None` for an active subnet.
    pub excluded_by: Option<String>,
}

impl Default for Subnet {
    fn default() -> (r: Subnet)
        ensures
            r.vnet_name@ == "blank"@,
            r.vnet_cidr == (Ipv4 { addr: 0, mask: 0 }),
            r.subnet_name@ == Seq::<char>::empty(),
            r.subnet_cidr is None,
            r.nsg is None,
            r.location@ == "blank"@,
            r.dns_servers is None,
            r.subscription_id@ == "blank"@,
            r.subscription_name@ == "blank"@,
            r.ip_configurations_count is None,
            r.gap matches Some(g) && g@ == "blank"@,
            r.src_index == 0,
            r.block_id == 0,
            r.excluded_by is None,
    {
        Subnet {
            vnet_name: "blank".to_owned(),
            vnet_cidr: Ipv4 { addr: 0, mask: 0 },
            subnet_name: String::new(),
            subnet_cidr: None,
            nsg: None,
            location: "blank".to_owned(),
            dns_servers: None,
            subscription_id: "blank".to_owned(),
            subscription_name: "blank".to_owned(),
            ip_configurations_count: None,
            gap: Some("blank".to_owned()),
            src_index: 0,
            block_id: 0,
            excluded_by: None,
        }
    }
}

} // verus!
