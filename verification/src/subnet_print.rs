//! The multi-CIDR subnet listing: its rows, gap blocks before each subnet
//! included, and the text of each listed row.
pub use crate::processing::gap_finder::SubnetPrintRow;
use crate::graph_read_subnet_data::Data;
use crate::models::ipv4::{after_block, next_subnet_ipv4, Ipv4};
use crate::output::csv::{row_line, row_line_text};
use crate::output::terminal::{field_text, format_field};
use crate::processing::gap_finder::{row_views, RowView};
use crate::struct_subnet::Subnet;
use crate::subnet_add_row::{
    listing_blocks, listing_gap_rows, listing_none_row, listing_row_check, listing_row_ok,
    listing_subnet_row, process_subnet_row,
};
use vstd::prelude::*;

verus! {

/// The address the listing starts looking for gaps from, 10.0.0.0.
pub const LISTING_START: u32 = 0x0A00_0000;

/// The address 10.17.255.255, below which the listing was once meant to skip
/// subnets; it is handed along and not applied.
pub const SKIP_SUBNET_SMALLER_THAN: u32 = 0x0A11_FFFF;

/// The header line of the listing.
pub const LISTING_HEADER: &'static str = " \"cnt\",   \"gap\",     \"subnet_cidr\", \"broadcast\",      \"subnet_name\",     \"subscription_name\",           \"vnet_cidr\",           \"vnet_name\",               \"location\",    \"nsg\",       \"dns\",       \"subscription_id\"";

/// Formats a value as a quoted, right-aligned field, as
/// [`format_field`] does.
pub fn f(value: &str, width: usize) -> (r: String)
    ensures
        r@ == field_text(value@, width as nat),
{
    format_field(value, width)
}

/// The next free address and the previous VNet address space before
/// subnet `k` of the listing.
pub open spec fn listing_state(subs: Seq<Subnet>, k: int) -> (u32, Ipv4)
    decreases k,
{
    if k <= 0 {
        (LISTING_START, Ipv4 { addr: 0, mask: 24 })
    } else {
        let st = listing_state(subs, k - 1);
        let s = subs[k - 1];
        match s.subnet_cidr {
            None => st,
            Some(c) => (after_block(c.addr as nat, c.mask as nat) as u32, s.vnet_cidr@[0]),
        }
    }
}

/// The rows that subnet `k` adds to the listing.
pub open spec fn listing_pushed(subs: Seq<Subnet>, k: int, m: u8) -> Seq<RowView> {
    let st = listing_state(subs, k);
    let s = subs[k];
    match s.subnet_cidr {
        None => seq![listing_none_row(s, k)],
        Some(c) => listing_gap_rows(listing_blocks(st.0 as nat, c.lo_spec(), m as nat), s).push(
            listing_subnet_row(s, k, c),
        ),
    }
}

/// The rows of the first `n` subnets of the listing.
pub open spec fn listing_rows(subs: Seq<Subnet>, n: int, m: u8) -> Seq<RowView>
    decreases n,
{
    if n <= 0 {
        Seq::empty()
    } else {
        listing_rows(subs, n - 1, m) + listing_pushed(subs, n - 1, m)
    }
}

/// What the listing needs of the subnets: each step can build its rows.
pub open spec fn listing_ok(subs: Seq<Subnet>, m: u8) -> bool {
    forall|k: int|
        0 <= k < subs.len() ==> listing_row_ok(#[trigger] subs[k], k as usize, listing_state(subs, k).0, m)
}

/// The rows of the listing: for each subnet in turn, the gap blocks of at
/// least `/gap_cidr_mask` before it and its own row.
pub fn subnet_print_rows(data: &Data, gap_cidr_mask: u8) -> (r: Vec<SubnetPrintRow>)
    requires
        listing_ok(data.data@, gap_cidr_mask),
    ensures
        row_views(r@) == listing_rows(data.data@, data.data@.len() as int, gap_cidr_mask),
{
    let mut next_ip: u32 = LISTING_START;
    let mut vnet_previous_cidr = Ipv4 { addr: 0, mask: 24 };
    let mut output_rows: Vec<SubnetPrintRow> = Vec::new();
    let mut i: usize = 0;
    while i < data.data.len()
        invariant
            i <= data.data@.len(),
            listing_ok(data.data@, gap_cidr_mask),
            (next_ip, vnet_previous_cidr) == listing_state(data.data@, i as int),
            row_views(output_rows@) == listing_rows(data.data@, i as int, gap_cidr_mask),
        decreases data.data@.len() - i,
    {
        let s = &data.data[i];
        assert(listing_row_ok(data.data@[i as int], i, next_ip, gap_cidr_mask));
        let (new_next_ip, new_vnet_previous_cidr, mut rows) = process_subnet_row(
            s,
            i,
            next_ip,
            vnet_previous_cidr,
            gap_cidr_mask,
            SKIP_SUBNET_SMALLER_THAN,
        );
        next_ip = new_next_ip;
        vnet_previous_cidr = new_vnet_previous_cidr;
        let ghost before = row_views(output_rows@);
        let ghost added = row_views(rows@);
        output_rows.append(&mut rows);
        assert(row_views(output_rows@) =~= before + added);
        i += 1;
    }
    output_rows
}

/// The text of a listed row.
pub open spec fn listing_line_text(r: RowView) -> Seq<char> {
    row_line_text(r, 12)
}

/// The listed line of a row (without the line end).
pub fn listing_line(row: &SubnetPrintRow) -> (r: String)
    ensures
        r@ == listing_line_text(row@),
{
    row_line(row, 12)
}

/// Whether [`subnet_print_rows`] can build the listing of these subnets
/// (what it needs of them).
pub fn listing_check(data: &Data, gap_cidr_mask: u8) -> (r: bool)
    ensures
        r == listing_ok(data.data@, gap_cidr_mask),
{
    let mut next_ip: u32 = LISTING_START;
    let mut vnet_previous_cidr = Ipv4 { addr: 0, mask: 24 };
    let mut i: usize = 0;
    while i < data.data.len()
        invariant
            i <= data.data@.len(),
            (next_ip, vnet_previous_cidr) == listing_state(data.data@, i as int),
            forall|k: int|
                0 <= k < i ==> listing_row_ok(
                    #[trigger] data.data@[k],
                    k as usize,
                    listing_state(data.data@, k).0,
                    gap_cidr_mask,
                ),
        decreases data.data@.len() - i,
    {
        let s = &data.data[i];
        if !listing_row_check(s, i, next_ip, gap_cidr_mask) {
            return false;
        }
        match s.subnet_cidr {
            Some(c) => {
                let n = next_subnet_ipv4(c, None).unwrap();
                next_ip = n.addr;
                vnet_previous_cidr = s.vnet_cidr[0];
            },
            None => {},
        }
        i += 1;
    }
    true
}

} // verus!
