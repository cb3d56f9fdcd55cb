//! Rows of the multi-CIDR subnet listing: before each subnet, the unused blocks
//! between the previous subnet and this one, then the subnet's own row.
//!
//! Here a gap block starts exactly where the previous one ended (it need not
//! be aligned to its size) and is the largest block, not larger than the
//! minimum prefix length allows, whose broadcast address lies before the
//! next subnet.
use crate::models::ipv4::{
    addr_space, addr_string, after_block, bcast_of, block_size, cidr_text, lemma_block,
    lemma_block_size_facts, net_of, next_subnet_ipv4, num_az_hosts, Ipv4,
};
use crate::processing::gap_finder::{gap_print_row, gap_row, row_views, RowView, SubnetPrintRow};
use crate::struct_subnet::Subnet;
use crate::text::{
    append_chars, chars_of, dec, decimal_chars, join_strings, join_text, last_piece, split_on,
    string_from_chars, string_views,
};
use vstd::arithmetic::div_mod::lemma_mod_add_multiples_vanish;
use vstd::prelude::*;

verus! {

/// The first prefix length from `len` on whose block at `ip` has its
/// broadcast address before `end` (or 32, the single address).
pub open spec fn listing_fit_len(ip: nat, len: nat, end: nat) -> nat
    decreases 32 - len,
{
    if len >= 32 || bcast_of(ip, len) < end {
        len
    } else {
        listing_fit_len(ip, len + 1, end)
    }
}

/// The prefix length that `listing_fit_len` picks lies between `len` and
/// 32, its block ends before `end`, and no larger block from `len` on does.
pub proof fn lemma_listing_fit_len(ip: nat, len: nat, end: nat)
    requires
        ip < end <= addr_space(),
        len <= 32,
    ensures
        len <= listing_fit_len(ip, len, end) <= 32,
        bcast_of(ip, listing_fit_len(ip, len, end)) < end,
        forall|l: nat| len <= l < listing_fit_len(ip, len, end) ==> bcast_of(ip, l) >= end,
    decreases 32 - len,
{
    if len >= 32 {
        lemma_block_size_facts(32);
        assert(ip % 1 == 0);
    } else if bcast_of(ip, len) >= end {
        lemma_listing_fit_len(ip, len + 1, end);
    }
}

/// The unused blocks that cover `[ip, end)`, from the lowest address up.
pub open spec fn listing_blocks(ip: nat, end: nat, min_len: nat) -> Seq<Ipv4>
    decreases end - ip,
{
    if ip >= end || min_len > 32 || end > addr_space() {
        seq![]
    } else {
        let len = listing_fit_len(ip, min_len, end);
        proof {
            lemma_listing_fit_len(ip, min_len, end);
            lemma_block(ip, len);
            lemma_block_size_facts(len);
        }
        seq![Ipv4 { addr: ip as u32, mask: len as u8 }] + listing_blocks(after_block(ip, len), end, min_len)
    }
}

/// Every unused block has a usable host count and a nonzero prefix length.
pub open spec fn listing_blocks_hostable(blocks: Seq<Ipv4>) -> bool {
    forall|k: int| 0 <= k < blocks.len() ==> 0 < #[trigger] blocks[k].mask < 30
}

/// Prefix length of the largest block at `start_ip`, not larger than
/// `start_mask` allows, whose broadcast address lies before the start of
/// `below_subnet_cidr`.
pub fn find_bigest_subnet(start_ip: u32, start_mask: u8, below_subnet_cidr: Ipv4) -> (r: u8)
    requires
        start_mask <= 32,
        below_subnet_cidr.wf(),
        start_ip < below_subnet_cidr.lo_spec(),
    ensures
        r as nat == listing_fit_len(start_ip as nat, start_mask as nat, below_subnet_cidr.lo_spec()),
        start_mask <= r <= 32,
{
    let mut next_mask = start_mask;
    let below_lo = below_subnet_cidr.lo();
    let ghost end = below_subnet_cidr.lo_spec();
    proof {
        lemma_block(below_subnet_cidr.addr as nat, below_subnet_cidr.mask as nat);
        lemma_listing_fit_len(start_ip as nat, start_mask as nat, end);
    }
    loop
        invariant
            start_mask <= next_mask <= 32,
            below_lo as nat == end,
            start_ip < end <= addr_space(),
            listing_fit_len(start_ip as nat, start_mask as nat, end) == listing_fit_len(
                start_ip as nat,
                next_mask as nat,
                end,
            ),
        ensures
            start_mask <= next_mask <= 32,
            listing_fit_len(start_ip as nat, start_mask as nat, end) == next_mask as nat,
        decreases 32 - next_mask,
    {
        let next_subnet = Ipv4 { addr: start_ip, mask: next_mask };
        proof {
            lemma_listing_fit_len(start_ip as nat, next_mask as nat, end);
        }
        if next_subnet.hi() >= below_lo {
            next_mask += 1;
        } else {
            break ;
        }
    }
    next_mask
}

/// The address spaces of a VNet, as `address/length` texts joined by `,`.
pub open spec fn cidrs_text(v: Seq<Ipv4>) -> Seq<char> {
    join_text(v.map_values(|c: Ipv4| cidr_text(c)), ","@)
}

/// The address spaces as text, joined by `,`.
fn cidrs_string(v: &Vec<Ipv4>) -> (r: String)
    ensures
        r@ == cidrs_text(v@),
{
    let mut texts: Vec<String> = Vec::new();
    let mut k: usize = 0;
    while k < v.len()
        invariant
            k <= v@.len(),
            texts@.len() == k,
            forall|q: int| 0 <= q < k ==> (#[trigger] texts@[q])@ == cidr_text(v@[q]),
        decreases v@.len() - k,
    {
        texts.push(v[k].to_string());
        k += 1;
    }
    assert(string_views(texts@) =~= v@.map_values(|c: Ipv4| cidr_text(c)));
    join_strings(texts.as_slice(), ",")
}

/// The NSG column: the last `/`-separated piece of the NSG resource ID, or
/// `absent` when the subnet has none.
pub open spec fn listing_nsg_text(nsg: Option<String>, absent: Seq<char>) -> Seq<char> {
    match nsg {
        Some(n) => split_on(n@, '/').last(),
        None => split_on(absent, '/').last(),
    }
}

/// The DNS column: the servers joined with `,`, or `absent`.
pub open spec fn listing_dns_text(dns: Option<Vec<String>>, absent: Seq<char>) -> Seq<char> {
    match dns {
        Some(v) => join_text(string_views(v@), ","@),
        None => absent,
    }
}

/// The row of subnet `s` (number `i`) with the given first columns and the
/// texts that stand for a missing NSG and missing DNS servers.
pub open spec fn listing_base_row(
    s: Subnet,
    i: int,
    gap: Seq<char>,
    cidr: Seq<char>,
    broadcast: Seq<char>,
    az_hosts: usize,
    no_nsg: Seq<char>,
    no_dns: Seq<char>,
) -> RowView {
    RowView {
        j: (i + 1) as usize,
        gap,
        subnet_cidr: cidr,
        broadcast,
        az_hosts,
        subnet_name: s.subnet_name@,
        subscription_name: s.subscription_name@,
        vnet_cidr: cidrs_text(s.vnet_cidr@),
        vnet_name: s.vnet_name@,
        location: s.location@,
        nsg: listing_nsg_text(s.nsg, no_nsg),
        dns: listing_dns_text(s.dns_servers, no_dns),
        subscription_id: s.subscription_id@,
        ip_configurations_count: s.ip_configurations_count.unwrap_or(0),
    }
}

/// The row of a subnet without a block.
pub open spec fn listing_none_row(s: Subnet, i: int) -> RowView {
    listing_base_row(s, i, "None"@, "none"@, "none"@, 0, "No_NSG_name"@, "No_Subnet_IPs"@)
}

/// The label of subnet `s`: its gap text, else `Sub` and its source index.
pub open spec fn listing_label(s: Subnet) -> Seq<char> {
    match s.gap {
        Some(g) => g@,
        None => "Sub"@ + dec(s.src_index as nat),
    }
}

/// The row of subnet `s` (number `i`) with block `c`.
pub open spec fn listing_subnet_row(s: Subnet, i: int, c: Ipv4) -> RowView {
    listing_base_row(
        s,
        i,
        listing_label(s),
        cidr_text(c),
        crate::models::ipv4::addr_text(c.hi_spec()),
        (block_size(c.mask as nat) - 5) as usize,
        "None"@,
        "None"@,
    )
}

/// The rows of the unused blocks before subnet `s`.
pub open spec fn listing_gap_rows(blocks: Seq<Ipv4>, s: Subnet) -> Seq<RowView> {
    blocks.map_values(
        |b: Ipv4|
            gap_row(
                b,
                "-gap-"@,
                cidrs_text(s.vnet_cidr@),
                s.vnet_name@,
                s.subscription_name@,
                s.subscription_id@,
            ),
    )
}

/// What `process_subnet_row` needs of its inputs; outside of it the row
/// builder would fail on the way.
pub open spec fn listing_row_ok(s: Subnet, i: usize, next_ip: u32, default_cidr_mask: u8) -> bool {
    &&& i < usize::MAX
    &&& s.subnet_cidr matches Some(c) ==> {
        &&& c.wf()
        &&& 0 < c.mask < 30
        &&& next_ip <= c.addr
        &&& after_block(c.addr as nat, c.mask as nat) < addr_space()
        &&& s.vnet_cidr@.len() > 0
        &&& next_ip < c.lo_spec() ==> {
            &&& default_cidr_mask <= 32
            &&& listing_blocks_hostable(
                listing_blocks(next_ip as nat, c.lo_spec(), default_cidr_mask as nat),
            )
        }
    }
}

/// The row of subnet `s` (number `i`) with the given first columns.
fn listing_row(
    s: &Subnet,
    i: usize,
    gap: &str,
    cidr: &str,
    broadcast: &str,
    az_hosts: usize,
    no_nsg: &str,
    no_dns: &str,
) -> (r: SubnetPrintRow)
    requires
        i < usize::MAX,
    ensures
        r@ == listing_base_row(*s, i as int, gap@, cidr@, broadcast@, az_hosts, no_nsg@, no_dns@),
{
    let nsg = match &s.nsg {
        Some(n) => last_piece(n.as_str(), '/'),
        None => last_piece(no_nsg, '/'),
    };
    let dns = match &s.dns_servers {
        Some(v) => join_strings(v.as_slice(), ","),
        None => no_dns.to_owned(),
    };
    let count = match s.ip_configurations_count {
        Some(c) => c,
        None => 0,
    };
    SubnetPrintRow {
        j: i + 1,
        gap: gap.to_owned(),
        subnet_cidr: cidr.to_owned(),
        broadcast: broadcast.to_owned(),
        az_hosts,
        subnet_name: s.subnet_name.clone(),
        subscription_name: s.subscription_name.clone(),
        vnet_cidr: cidrs_string(&s.vnet_cidr),
        vnet_name: s.vnet_name.clone(),
        location: s.location.clone(),
        nsg,
        dns,
        subscription_id: s.subscription_id.clone(),
        ip_configurations_count: count,
    }
}

/// The label of subnet `s`.
fn listing_label_text(s: &Subnet) -> (r: String)
    ensures
        r@ == listing_label(*s),
{
    match &s.gap {
        Some(g) => g.clone(),
        None => {
            let mut v = chars_of("Sub");
            let d = decimal_chars(s.src_index as u64);
            append_chars(&mut v, &d);
            string_from_chars(v.as_slice())
        },
    }
}

/// Processes one subnet: the rows of the unused blocks between `next_ip`
/// and the subnet, then the subnet's own row.
///
/// Returns the address after the subnet, the first address space of its
/// VNet, and the rows.  A subnet without a block gives one row and hands
/// `next_ip` and `vnet_previous_cidr` back unchanged.
pub fn process_subnet_row(
    s: &Subnet,
    i: usize,
    next_ip: u32,
    vnet_previous_cidr: Ipv4,
    default_cidr_mask: u8,
    _skip_subnet_smaller_than: u32,
) -> (r: (u32, Ipv4, Vec<SubnetPrintRow>))
    requires
        listing_row_ok(*s, i, next_ip, default_cidr_mask),
    ensures
        match s.subnet_cidr {
            None => {
                &&& r.0 == next_ip
                &&& r.1 == vnet_previous_cidr
                &&& row_views(r.2@) == seq![listing_none_row(*s, i as int)]
            },
            Some(c) => {
                &&& r.0 as nat == after_block(c.addr as nat, c.mask as nat)
                &&& r.1 == s.vnet_cidr@[0]
                &&& row_views(r.2@) == listing_gap_rows(
                    listing_blocks(next_ip as nat, c.lo_spec(), default_cidr_mask as nat),
                    *s,
                ).push(listing_subnet_row(*s, i as int, c))
            },
        },
{
    let mut rows: Vec<SubnetPrintRow> = Vec::new();
    let subnet_cidr = match s.subnet_cidr {
        Some(c) => c,
        None => {
            rows.push(listing_row(s, i, "None", "none", "none", 0, "No_NSG_name", "No_Subnet_IPs"));
            assert(row_views(rows@) =~= seq![listing_none_row(*s, i as int)]);
            return (next_ip, vnet_previous_cidr, rows);
        },
    };
    let ghost start = next_ip;
    let ghost m = default_cidr_mask as nat;
    let mut next_ip = next_ip;
    let lo = subnet_cidr.lo();
    let ghost end = lo as nat;
    proof {
        lemma_block(subnet_cidr.addr as nat, subnet_cidr.mask as nat);
    }
    let vnet_text = cidrs_string(&s.vnet_cidr);
    assert(row_views(rows@) + listing_gap_rows(listing_blocks(start as nat, end, m), *s)
        =~= listing_gap_rows(listing_blocks(start as nat, end, m), *s));
    while next_ip < lo
        invariant
            lo as nat == end == subnet_cidr.lo_spec(),
            end < addr_space(),
            subnet_cidr.wf(),
            start <= next_ip,
            start < end ==> default_cidr_mask <= 32,
            vnet_text@ == cidrs_text(s.vnet_cidr@),
            next_ip < end ==> listing_blocks_hostable(listing_blocks(next_ip as nat, end, m)),
            m == default_cidr_mask,
            row_views(rows@) + listing_gap_rows(listing_blocks(next_ip as nat, end, m), *s)
                == listing_gap_rows(listing_blocks(start as nat, end, m), *s),
        decreases end - next_ip,
    {
        let next_mask = find_bigest_subnet(next_ip, default_cidr_mask, subnet_cidr);
        let next_subnet = Ipv4 { addr: next_ip, mask: next_mask };
        let ghost blocks = listing_blocks(next_ip as nat, end, m);
        proof {
            lemma_listing_fit_len(next_ip as nat, m, end);
            lemma_block(next_ip as nat, next_mask as nat);
            lemma_block_size_facts(next_mask as nat);
        }
        let ghost after = after_block(next_ip as nat, next_mask as nat);
        let ghost rest = listing_blocks(after, end, m);
        assert(blocks =~= seq![next_subnet] + rest);
        assert(blocks[0] == next_subnet);
        assert(0 < blocks[0].mask < 30);
        let row = gap_print_row(
            next_subnet,
            "-gap-",
            vnet_text.clone(),
            s.vnet_name.clone(),
            s.subscription_name.clone(),
            s.subscription_id.clone(),
        );
        let ghost old_views = row_views(rows@);
        rows.push(row);
        proof {
            assert(listing_gap_rows(blocks, *s) =~= seq![row@] + listing_gap_rows(rest, *s));
            assert(row_views(rows@) =~= old_views.push(row@));
            assert forall|k: int| 0 <= k < rest.len() implies 0 < #[trigger] rest[k].mask < 30 by {
                assert(rest[k] == blocks[k + 1]);
            }
        }
        let after_ip = next_subnet_ipv4(next_subnet, None).unwrap();
        proof {
            let net = net_of(next_ip as nat, next_mask as nat);
            lemma_mod_add_multiples_vanish(net as int, block_size(next_mask as nat) as int);
            lemma_block(after, next_mask as nat);
        }
        next_ip = after_ip.lo();
    }
    proof {
        if start < end {
            assert(listing_blocks(next_ip as nat, end, m) =~= Seq::<Ipv4>::empty());
        } else {
            assert(listing_blocks(start as nat, end, m) =~= Seq::<Ipv4>::empty());
        }
        assert(listing_gap_rows(Seq::<Ipv4>::empty(), *s) =~= Seq::<RowView>::empty());
    }
    let vnet_previous_cidr = s.vnet_cidr[0];
    let label = listing_label_text(s);
    let cidr = subnet_cidr.to_string();
    let bcast = subnet_cidr.broadcast().unwrap();
    let bcast_text = addr_string(bcast.addr);
    let hosts = num_az_hosts(subnet_cidr.mask).unwrap();
    let ghost before = row_views(rows@);
    rows.push(
        listing_row(
            s,
            i,
            label.as_str(),
            cidr.as_str(),
            bcast_text.as_str(),
            hosts as usize,
            "None",
            "None",
        ),
    );
    assert(row_views(rows@) =~= before.push(listing_subnet_row(*s, i as int, subnet_cidr)));
    proof {
        lemma_block_size_facts(subnet_cidr.mask as nat);
        let after = after_block(subnet_cidr.addr as nat, subnet_cidr.mask as nat);
        let net = net_of(subnet_cidr.addr as nat, subnet_cidr.mask as nat);
        lemma_mod_add_multiples_vanish(net as int, block_size(subnet_cidr.mask as nat) as int);
        lemma_block(after, subnet_cidr.mask as nat);
    }
    let next = next_subnet_ipv4(subnet_cidr, None).unwrap().lo();
    (next, vnet_previous_cidr, rows)
}

proof fn lemma_listing_hostable_step(b: Ipv4, rest: Seq<Ipv4>)
    ensures
        listing_blocks_hostable(seq![b] + rest) == (0 < b.mask < 30 && listing_blocks_hostable(rest)),
{
    let all = seq![b] + rest;
    assert(all[0] == b);
    if 0 < b.mask < 30 && listing_blocks_hostable(rest) {
        assert forall|k: int| 0 <= k < all.len() implies 0 < #[trigger] all[k].mask < 30 by {
            if k > 0 {
                assert(all[k] == rest[k - 1]);
            }
        }
    }
    if listing_blocks_hostable(all) {
        assert forall|k: int| 0 <= k < rest.len() implies 0 < #[trigger] rest[k].mask < 30 by {
            assert(all[k + 1] == rest[k]);
        }
    }
}

/// Whether every unused block from `ip` up to the start of `below` can be
/// reported with a usable host count.
fn listing_blocks_hostable_before(ip: u32, m: u8, below: Ipv4) -> (r: bool)
    requires
        m <= 32,
        below.wf(),
    ensures
        r == listing_blocks_hostable(listing_blocks(ip as nat, below.lo_spec(), m as nat)),
{
    let lo = below.lo();
    let ghost end = lo as nat;
    proof {
        lemma_block(below.addr as nat, below.mask as nat);
    }
    let mut cur: u32 = ip;
    while cur < lo
        invariant
            lo as nat == end == below.lo_spec(),
            end < addr_space(),
            below.wf(),
            m <= 32,
            listing_blocks_hostable(listing_blocks(ip as nat, end, m as nat)) == listing_blocks_hostable(
                listing_blocks(cur as nat, end, m as nat),
            ),
        decreases end - cur,
    {
        let mask = find_bigest_subnet(cur, m, below);
        let ghost after = after_block(cur as nat, mask as nat);
        proof {
            lemma_listing_fit_len(cur as nat, m as nat, end);
            lemma_block(cur as nat, mask as nat);
            lemma_block_size_facts(mask as nat);
            let blocks = listing_blocks(cur as nat, end, m as nat);
            let rest = listing_blocks(after, end, m as nat);
            assert(blocks =~= seq![Ipv4 { addr: cur, mask }] + rest);
            lemma_listing_hostable_step(Ipv4 { addr: cur, mask }, rest);
        }
        if mask == 0 || mask >= 30 {
            return false;
        }
        let b = Ipv4 { addr: cur, mask };
        let hi = b.hi();
        cur = hi + 1;
    }
    assert(listing_blocks(cur as nat, end, m as nat) =~= Seq::<Ipv4>::empty());
    true
}

/// Whether [`process_subnet_row`] can build the rows of subnet `s` (number
/// `i`) from `next_ip` (what it needs of its inputs).
pub fn listing_row_check(s: &Subnet, i: usize, next_ip: u32, default_cidr_mask: u8) -> (r: bool)
    ensures
        r == listing_row_ok(*s, i, next_ip, default_cidr_mask),
{
    if i == usize::MAX {
        return false;
    }
    match s.subnet_cidr {
        None => true,
        Some(c) => {
            if c.mask > 32 || c.mask == 0 || c.mask >= 30 || next_ip > c.addr || s.vnet_cidr.len() == 0 {
                return false;
            }
            if next_subnet_ipv4(c, None).is_err() {
                return false;
            }
            let lo = c.lo();
            if next_ip < lo {
                if default_cidr_mask > 32 {
                    return false;
                }
                listing_blocks_hostable_before(next_ip, default_cidr_mask, c)
            } else {
                true
            }
        },
    }
}

} // verus!
