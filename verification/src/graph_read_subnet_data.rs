//! Query response of the multi-CIDR cache format.
use crate::struct_subnet::Subnet;
use vstd::prelude::*;

verus! {

/// Response data of the multi-CIDR cache format.
#[derive(Debug, Clone)]
pub struct Data {
    pub data: Vec<Subnet>,
    pub skip_token: Option<String>,
    pub total_records: Option<u32>,
    pub count: i32,
}

impl Default for Data {
    fn default() -> (r: Data)
        ensures
            r.data@.len() == 0,
            r.skip_token is None,
            r.total_records is None,
            r.count == 0,
    {
        Data { data: Vec::new(), skip_token: None, total_records: None, count: 0 }
    }
}

} // verus!
