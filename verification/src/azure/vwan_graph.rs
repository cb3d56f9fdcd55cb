//! Virtual WAN hub rows.
use vstd::prelude::*;

verus! {

/// One row of the vWAN query: a Virtual Hub.
#[derive(Debug, Clone)]
pub struct VWanRow {
    pub subscription_id: String,
    pub subscription_name: String,
    /// Name of the Virtual Hub.
    pub hub_name: String,
    /// Address prefix of the hub.
    pub hub_address_prefix: String,
    /// Name of the parent Virtual WAN.
    pub virtual_wan_name: String,
    /// Azure region of the hub.
    pub location: String,
}

/// Response data of the vWAN query.
#[derive(Debug)]
pub struct VWanData {
    pub data: Vec<VWanRow>,
    pub skip_token: Option<String>,
    pub total_records: Option<u32>,
    pub count: i32,
}

impl Default for VWanData {
    fn default() -> (r: VWanData)
        ensures
            r.data@.len() == 0,
            r.skip_token is None,
            r.total_records is None,
            r.count == 0,
    {
        VWanData { data: Vec::new(), skip_token: None, total_records: None, count: 0 }
    }
}

} // verus!
