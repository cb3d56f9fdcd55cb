//! Azure subnet summary: subnet records, IPv4 block arithmetic, gap finding
//! between subnets, de-duplication, overlap resolution, output rows, and the
//! VNet peering topology with its Mermaid and Graphviz DOT diagrams.
//!
//! The modules `graph_read_subnet_data`, `struct_subnet`, `struct_vnet`,
//! `subnet_add_row` and `subnet_print` hold the multi-CIDR cache format (a
//! subnet record lists every address space of its VNet) and its subnet
//! listing.
use crate::subnet_order::{find_repeat, first_repeat, same_key, sort_records, stable_sorted};
use vstd::prelude::*;

pub mod azure;
pub mod components;
pub mod de_duplicate_subnets;
pub mod graph_read_subnet_data;
pub mod models;
pub mod output;
pub mod pipeline;
pub mod processing;
pub mod struct_subnet;
pub mod struct_vnet;
pub mod subnet_add_row;
pub mod subnet_order;
pub mod subnet_print;
pub mod text;

verus! {

/// The subnet data with its subnets sorted by block (stable; subnets
/// without a block first).
pub fn get_sorted_subnets(data: azure::graph::Data) -> (r: azure::graph::Data)
    ensures
        r.data@ == stable_sorted(data.data@, false),
        r.skip_token == data.skip_token,
        r.total_records == data.total_records,
        r.count == data.count,
{
    let azure::graph::Data { data: subnets, skip_token, total_records, count } = data;
    azure::graph::Data { data: sort_records(subnets, false), skip_token, total_records, count }
}

/// The subnet data of the multi-CIDR format with its subnets sorted by block.
pub fn get_sorted_subnets_legacy(data: graph_read_subnet_data::Data) -> (r:
    graph_read_subnet_data::Data)
    ensures
        r.data@ == stable_sorted(data.data@, false),
        r.skip_token == data.skip_token,
        r.total_records == data.total_records,
        r.count == data.count,
{
    let graph_read_subnet_data::Data { data: subnets, skip_token, total_records, count } = data;
    graph_read_subnet_data::Data {
        data: sort_records(subnets, false),
        skip_token,
        total_records,
        count,
    }
}

/// A subnet whose block and subscription ID repeat those of an earlier one.
#[derive(Debug, Clone, Copy, PartialEq, Eq)]
pub struct DuplicateSubnet {
    /// Position of the repeating subnet in the data.
    pub index: usize,
}

/// Checks that no two subnets share a block and subscription ID.
///
/// Fails with the position of the first subnet that repeats an earlier one.
pub fn check_for_duplicate_subnets(data: &azure::graph::Data) -> (r: Result<(), DuplicateSubnet>)
    ensures
        r is Ok <==> forall|i: int, j: int|
            0 <= i < j < data.data@.len() ==> !same_key(#[trigger] data.data@[i], #[trigger] data.data@[j]),
        r matches Err(e) ==> first_repeat(data.data@, e.index as int),
{
    match find_repeat(&data.data) {
        Some(j) => Err(DuplicateSubnet { index: j }),
        None => Ok(()),
    }
}

} // verus!
