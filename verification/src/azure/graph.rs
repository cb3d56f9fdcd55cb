//! Subnet records as the Azure Resource Graph query returns them.
use crate::models::subnet::Subnet;
use vstd::prelude::*;

verus! {

/// Response data from the Azure Graph subnet query.
#[derive(Debug, Clone)]
pub struct Data {
    /// The subnets returned.
    pub data: Vec<Subnet>,
    /// Token for the next page, if more results are available.
    pub skip_token: Option<String>,
    /// Total number of records matching the query.
    pub total_records: Option<u32>,
    /// Count of records in this response.
    pub count: i32,
}

impl Default for Data {
    fn default() -> (r: Data)
        ensures
            r.data@.len() == 0,
            r.skip_token is None,
            r.total_records is None,
            r.count == 0,
    {
        Data { data: Vec::new(), skip_token: None, total_records: None, count: 0 }
    }
}

} // verus!
