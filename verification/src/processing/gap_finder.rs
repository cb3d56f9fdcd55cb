//! Gap finding between subnets.
//!
//! Unused address space is cut into gap blocks: each block starts where the
//! previous one ended, is aligned to its own size, is as large as the
//! minimum gap prefix length allows, and ends before the bound it must not
//! cross (the next subnet, or the end of the VNet_CIDR).
use crate::models::ipv4::{
    lemma_divmod, addr_space, addr_string, addr_text, after_block, aligned, bcast_of, block_size, cidr_text,
    lemma_aligned_longer, lemma_block, lemma_block_size_facts, lemma_min_aligned_len, lo_mask,
    min_aligned_len, net_of, next_subnet_ipv4, num_az_hosts, Ipv4, MAX_LENGTH,
};
use crate::models::subnet::Subnet;
use crate::text::{
    append_chars, chars_of, dec, decimal_chars, join_strings, join_text, last_piece, split_on,
    str_eq, string_from_chars, string_views,
};
use vstd::arithmetic::div_mod::lemma_mod_add_multiples_vanish;
use vstd::arithmetic::power2::pow2;
use vstd::prelude::*;

verus! {

/// The larger of two prefix lengths.
pub open spec fn max_len(a: nat, b: nat) -> nat {
    if a >= b {
        a
    } else {
        b
    }
}

/// The first prefix length from `len` on whose block at `ip` ends before
/// `end` (or 32, the single address).
pub open spec fn fit_len_from(ip: nat, len: nat, end: nat) -> nat
    decreases 32 - len,
{
    if len >= 32 || ip + block_size(len) <= end {
        len
    } else {
        fit_len_from(ip, len + 1, end)
    }
}

/// Prefix length of the gap block that starts at `ip` and must end before
/// `end`: the largest block that is aligned at `ip`, not larger than
/// `min_len` allows, and fits.
pub open spec fn gap_len(ip: nat, min_len: nat, end: nat) -> nat {
    fit_len_from(ip, max_len(min_len, min_aligned_len(ip)), end)
}

/// A gap block of prefix length `len` at `ip` is allowed before `end`.
pub open spec fn block_allowed(ip: nat, len: nat, min_len: nat, end: nat) -> bool {
    &&& min_len <= len <= 32
    &&& aligned(ip, len)
    &&& ip + block_size(len) <= end
}

/// The gap blocks that cover `[ip, end)`, from the lowest address up.
pub open spec fn gap_blocks(ip: nat, end: nat, min_len: nat) -> Seq<Ipv4>
    decreases end - ip,
{
    if ip >= end || min_len > 32 || ip >= addr_space() {
        seq![]
    } else {
        let len = gap_len(ip, min_len, end);
        proof {
            vstd::arithmetic::power2::lemma_pow2_pos((32 - len) as nat);
            lemma_min_aligned_len(ip, 32);
            lemma_fit_len_from(ip, max_len(min_len, min_aligned_len(ip)), end);
        }
        seq![Ipv4 { addr: ip as u32, mask: len as u8 }] + gap_blocks(
            ip + block_size(len),
            end,
            min_len,
        )
    }
}

/// `fit_len_from` stays between its start and 32.
pub proof fn lemma_fit_len_from_bounds(ip: nat, len: nat, end: nat)
    ensures
        len <= 32 ==> len <= fit_len_from(ip, len, end) <= 32,
        len > 32 ==> fit_len_from(ip, len, end) == len,
        block_size(fit_len_from(ip, len, end)) >= 1,
    decreases 32 - len,
{
    vstd::arithmetic::power2::lemma_pow2_pos((32 - fit_len_from(ip, len, end)) as nat);
    if !(len >= 32 || ip + block_size(len) <= end) {
        lemma_fit_len_from_bounds(ip, len + 1, end);
    }
}

/// The block that `fit_len_from` picks fits, and no earlier length does.
pub proof fn lemma_fit_len_from(ip: nat, len: nat, end: nat)
    requires
        len <= 32,
        ip < end,
    ensures
        ip + block_size(fit_len_from(ip, len, end)) <= end,
        forall|l: nat|
            len <= l < fit_len_from(ip, len, end) ==> ip + #[trigger] block_size(l) > end,
    decreases 32 - len,
{
    lemma_block_size_facts(len);
    if len >= 32 || ip + block_size(len) <= end {
        if len == 32 {
            assert(block_size(32) == 1);
        }
    } else {
        lemma_fit_len_from(ip, len + 1, end);
    }
}

/// Law: the gap block chosen at `ip` is allowed, and it is the largest
/// allowed block there — every shorter prefix length (larger block) that is
/// still at least `min_len` either is misaligned or does not fit.
pub proof fn lemma_gap_len_is_largest(ip: nat, min_len: nat, end: nat)
    requires
        ip < end,
        ip < addr_space(),
        min_len <= 32,
    ensures
        block_allowed(ip, gap_len(ip, min_len, end), min_len, end),
        forall|l: nat|
            min_len <= l < gap_len(ip, min_len, end) ==> !block_allowed(ip, l, min_len, end),
{
    let start = max_len(min_len, min_aligned_len(ip));
    lemma_min_aligned_len(ip, 32);
    lemma_fit_len_from_bounds(ip, start, end);
    lemma_fit_len_from(ip, start, end);
    let g = gap_len(ip, min_len, end);
    lemma_min_aligned_len(ip, g);
    assert forall|l: nat| min_len <= l < g implies !block_allowed(ip, l, min_len, end) by {
        if l < start {
            lemma_min_aligned_len(ip, l);
        }
    }
}

/// Prefix length of the largest block at `start_ip` that ends before
/// `below_subnet_cidr` starts, that is aligned at `start_ip`, and that is
/// not larger than `start_mask` allows.
pub fn find_biggest_subnet(start_ip: u32, start_mask: u8, below_subnet_cidr: Ipv4) -> (r: u8)
    requires
        start_mask <= 32,
        below_subnet_cidr.wf(),
        start_ip < below_subnet_cidr.lo_spec(),
    ensures
        r as nat == gap_len(start_ip as nat, start_mask as nat, below_subnet_cidr.lo_spec()),
        r <= 32,
{
    let min_mask_for_alignment = lo_mask(start_ip);
    let mut next_mask = if start_mask >= min_mask_for_alignment {
        start_mask
    } else {
        min_mask_for_alignment
    };
    let below_lo = below_subnet_cidr.lo();
    let ghost end = below_subnet_cidr.lo_spec();
    proof {
        lemma_min_aligned_len(start_ip as nat, next_mask as nat);
    }
    loop
        invariant
            next_mask <= 32,
            below_lo as nat == end,
            start_ip < end,
            aligned(start_ip as nat, next_mask as nat),
            gap_len(start_ip as nat, start_mask as nat, end) == fit_len_from(
                start_ip as nat,
                next_mask as nat,
                end,
            ),
        ensures
            next_mask <= 32,
            gap_len(start_ip as nat, start_mask as nat, end) == next_mask as nat,
        decreases 32 - next_mask,
    {
        let next_subnet = Ipv4 { addr: start_ip, mask: next_mask };
        proof {
            lemma_block(start_ip as nat, next_mask as nat);
            lemma_block_size_facts(next_mask as nat);
        }
        if next_subnet.hi() >= below_lo {
            proof {
                lemma_aligned_longer(start_ip as nat, next_mask as nat, (next_mask + 1) as nat);
            }
            next_mask += 1;
        } else {
            break ;
        }
    }
    next_mask
}

/// Prefix length of the largest block at `start_ip` that stays within
/// `vnet_cidr`, that is aligned at `start_ip`, and that is not larger than
/// `start_mask` allows.
pub fn find_biggest_subnet_within(start_ip: u32, start_mask: u8, vnet_cidr: Ipv4) -> (r: u8)
    requires
        start_mask <= 32,
        vnet_cidr.wf(),
        start_ip <= vnet_cidr.hi_spec(),
    ensures
        r as nat == gap_len(start_ip as nat, start_mask as nat, vnet_cidr.hi_spec() + 1),
        r <= 32,
{
    let min_mask_for_alignment = lo_mask(start_ip);
    let mut next_mask = if start_mask >= min_mask_for_alignment {
        start_mask
    } else {
        min_mask_for_alignment
    };
    let vnet_hi = vnet_cidr.hi();
    let ghost end = vnet_cidr.hi_spec() + 1;
    proof {
        lemma_min_aligned_len(start_ip as nat, next_mask as nat);
    }
    loop
        invariant
            next_mask <= 32,
            vnet_hi as nat + 1 == end,
            start_ip < end,
            aligned(start_ip as nat, next_mask as nat),
            gap_len(start_ip as nat, start_mask as nat, end) == fit_len_from(
                start_ip as nat,
                next_mask as nat,
                end,
            ),
        ensures
            next_mask <= 32,
            gap_len(start_ip as nat, start_mask as nat, end) == next_mask as nat,
        decreases 32 - next_mask,
    {
        let next_subnet = Ipv4 { addr: start_ip, mask: next_mask };
        proof {
            lemma_block(start_ip as nat, next_mask as nat);
            lemma_block_size_facts(next_mask as nat);
        }
        if next_subnet.hi() > vnet_hi {
            proof {
                lemma_aligned_longer(start_ip as nat, next_mask as nat, (next_mask + 1) as nat);
            }
            next_mask += 1;
        } else {
            break ;
        }
    }
    next_mask
}


/// One gap-finder step: the first gap block at `ip`, and what is left.
pub proof fn lemma_gap_step(ip: nat, end: nat, min_len: nat)
    requires
        ip < end <= addr_space(),
        min_len <= 32,
    ensures
        ({
            let len = gap_len(ip, min_len, end);
            &&& min_len <= len <= 32
            &&& aligned(ip, len)
            &&& net_of(ip, len) == ip
            &&& ip + block_size(len) <= end
            &&& after_block(ip, len) == ip + block_size(len)
            &&& (ip + block_size(len) < addr_space() ==> net_of(ip + block_size(len), len) == ip
                + block_size(len))
            &&& (end - ip < addr_space() ==> len >= 1)
            &&& gap_blocks(ip, end, min_len) == seq![Ipv4 { addr: ip as u32, mask: len as u8 }]
                + gap_blocks(ip + block_size(len), end, min_len)
        }),
{
    let len = gap_len(ip, min_len, end);
    lemma_gap_len_is_largest(ip, min_len, end);
    lemma_block_size_facts(len);
    lemma_block(ip, len);
    let next = ip + block_size(len);
    lemma_mod_add_multiples_vanish(ip as int, block_size(len) as int);
    if next < addr_space() {
        lemma_block(next, len);
    }
    if len == 0 {
        assert(block_size(0) == addr_space()) by {
            vstd::arithmetic::power2::lemma2_to64();
        }
    }
}

/// Every block can be reported with a usable Azure host count (prefix
/// length below 30).
pub open spec fn blocks_hostable(blocks: Seq<Ipv4>) -> bool {
    forall|k: int| 0 <= k < blocks.len() ==> #[trigger] blocks[k].mask < 30
}

/// Context from the previous subnet's VNet, carried forward to identify gaps
/// within VNets.
#[derive(Debug, Clone)]
pub struct PrevVnetContext {
    pub vnet_cidr: Option<Ipv4>,
    pub vnet_name: String,
    pub subscription_name: String,
    pub subscription_id: String,
}

impl Default for PrevVnetContext {
    fn default() -> (r: PrevVnetContext)
        ensures
            r.vnet_cidr is None,
            r.vnet_name@ == Seq::<char>::empty(),
            r.subscription_name@ == Seq::<char>::empty(),
            r.subscription_id@ == Seq::<char>::empty(),
    {
        PrevVnetContext {
            vnet_cidr: None,
            vnet_name: String::new(),
            subscription_name: String::new(),
            subscription_id: String::new(),
        }
    }
}

/// A row of subnet data for output.
#[derive(Debug)]
pub struct SubnetPrintRow {
    /// Row index (0 for gap rows).
    pub j: usize,
    /// Gap indicator or subnet source index.
    pub gap: String,
    /// Subnet CIDR notation.
    pub subnet_cidr: String,
    /// Broadcast address.
    pub broadcast: String,
    /// Number of usable Azure hosts.
    pub az_hosts: usize,
    /// Subnet name.
    pub subnet_name: String,
    /// Subscription display name.
    pub subscription_name: String,
    /// VNet CIDR notation.
    pub vnet_cidr: String,
    /// VNet name.
    pub vnet_name: String,
    /// Azure region.
    pub location: String,
    /// NSG name (extracted from the full ID).
    pub nsg: String,
    /// DNS servers.
    pub dns: String,
    /// Subscription ID.
    pub subscription_id: String,
    /// Number of IP configurations using this subnet.
    pub ip_configurations_count: u32,
}

/// The contents of a [`SubnetPrintRow`], its strings as character sequences.
pub struct RowView {
    pub j: usize,
    pub gap: Seq<char>,
    pub subnet_cidr: Seq<char>,
    pub broadcast: Seq<char>,
    pub az_hosts: usize,
    pub subnet_name: Seq<char>,
    pub subscription_name: Seq<char>,
    pub vnet_cidr: Seq<char>,
    pub vnet_name: Seq<char>,
    pub location: Seq<char>,
    pub nsg: Seq<char>,
    pub dns: Seq<char>,
    pub subscription_id: Seq<char>,
    pub ip_configurations_count: u32,
}

impl View for SubnetPrintRow {
    type V = RowView;

    open spec fn view(&self) -> RowView {
        RowView {
            j: self.j,
            gap: self.gap@,
            subnet_cidr: self.subnet_cidr@,
            broadcast: self.broadcast@,
            az_hosts: self.az_hosts,
            subnet_name: self.subnet_name@,
            subscription_name: self.subscription_name@,
            vnet_cidr: self.vnet_cidr@,
            vnet_name: self.vnet_name@,
            location: self.location@,
            nsg: self.nsg@,
            dns: self.dns@,
            subscription_id: self.subscription_id@,
            ip_configurations_count: self.ip_configurations_count,
        }
    }
}

/// The views of a sequence of rows.
pub open spec fn row_views(rows: Seq<SubnetPrintRow>) -> Seq<RowView> {
    rows.map_values(|r: SubnetPrintRow| r@)
}

/// The NSG column: the last `/`-separated piece of the NSG resource ID.
pub open spec fn nsg_text(nsg: Option<String>) -> Seq<char> {
    match nsg {
        Some(n) => split_on(n@, '/').last(),
        None => "None"@,
    }
}

/// The DNS column: the servers joined with `,`.
pub open spec fn dns_text(dns: Option<Vec<String>>) -> Seq<char> {
    match dns {
        Some(v) => join_text(string_views(v@), ","@),
        None => "None"@,
    }
}

/// The row of an unused block.
pub open spec fn gap_row(
    block: Ipv4,
    label: Seq<char>,
    vnet_cidr: Seq<char>,
    vnet_name: Seq<char>,
    subscription_name: Seq<char>,
    subscription_id: Seq<char>,
) -> RowView {
    RowView {
        j: 0,
        gap: label,
        subnet_cidr: cidr_text(block),
        broadcast: addr_text(block.hi_spec()),
        az_hosts: (block_size(block.mask as nat) - 5) as usize,
        subnet_name: "None"@,
        subscription_name,
        vnet_cidr,
        vnet_name,
        location: "None"@,
        nsg: "Unused_nsg"@,
        dns: "Unused_dns"@,
        subscription_id,
        ip_configurations_count: 0,
    }
}

/// The row of subnet `s` (number `i`) with the given first columns.
pub open spec fn base_row(
    s: Subnet,
    i: int,
    gap: Seq<char>,
    cidr: Seq<char>,
    broadcast: Seq<char>,
    az_hosts: usize,
) -> RowView {
    RowView {
        j: (i + 1) as usize,
        gap,
        subnet_cidr: cidr,
        broadcast,
        az_hosts,
        subnet_name: s.subnet_name@,
        subscription_name: s.subscription_name@,
        vnet_cidr: cidr_text(s.vnet_cidr),
        vnet_name: s.vnet_name@,
        location: s.location@,
        nsg: nsg_text(s.nsg),
        dns: dns_text(s.dns_servers),
        subscription_id: s.subscription_id@,
        ip_configurations_count: s.ip_configurations_count.unwrap_or(0),
    }
}

/// The label of subnet `s` (number `i`): `GATEWAY` for the gateway subnet,
/// else `Sub` and the number.
pub open spec fn subnet_label(s: Subnet, i: int) -> Seq<char> {
    if s.subnet_name@ == "GatewaySubnet"@ {
        "GATEWAY"@
    } else {
        "Sub"@ + dec(i as nat)
    }
}

/// The row of subnet `s` (number `i`) with block `c`.
pub open spec fn subnet_row(s: Subnet, i: int, c: Ipv4) -> RowView {
    base_row(
        s,
        i,
        subnet_label(s, i),
        cidr_text(c),
        addr_text(c.hi_spec()),
        (block_size(c.mask as nat) - 5) as usize,
    )
}

/// The row of a gap block found before subnet `s`: a `-vgap-` of the
/// subnet's VNet when the block starts inside it, else of the previous
/// subnet's VNet when it starts inside that, else a `-gap-`.
pub open spec fn labelled_gap_row(b: Ipv4, s: Subnet, prev: PrevVnetContext) -> RowView {
    if s.vnet_cidr.lo_spec() <= b.addr && b.addr <= s.vnet_cidr.hi_spec() {
        gap_row(
            b,
            "-vgap-"@,
            cidr_text(s.vnet_cidr),
            s.vnet_name@,
            s.subscription_name@,
            s.subscription_id@,
        )
    } else if prev.vnet_cidr is Some && prev.vnet_cidr->0.lo_spec() <= b.addr && b.addr
        <= prev.vnet_cidr->0.hi_spec() {
        gap_row(
            b,
            "-vgap-"@,
            cidr_text(prev.vnet_cidr->0),
            prev.vnet_name@,
            prev.subscription_name@,
            prev.subscription_id@,
        )
    } else {
        gap_row(b, "-gap-"@, "None"@, "None"@, "None"@, "None"@)
    }
}

/// The rows of the gap blocks found before subnet `s`.
pub open spec fn gap_rows(blocks: Seq<Ipv4>, s: Subnet, prev: PrevVnetContext) -> Seq<RowView> {
    blocks.map_values(|b: Ipv4| labelled_gap_row(b, s, prev))
}

/// The rows of trailing blocks inside `vnet_cidr`.
pub open spec fn vgap_rows(blocks: Seq<Ipv4>, vnet_cidr: Ipv4, prev: PrevVnetContext) -> Seq<
    RowView,
> {
    blocks.map_values(
        |b: Ipv4|
            gap_row(
                b,
                "-vgap-"@,
                cidr_text(vnet_cidr),
                prev.vnet_name@,
                prev.subscription_name@,
                prev.subscription_id@,
            ),
    )
}

/// Block `b` starts inside address space `v`.
pub open spec fn starts_inside(b: Ipv4, v: Ipv4) -> bool {
    v.lo_spec() <= b.addr && b.addr <= v.hi_spec()
}

/// Law (gap labels): a gap row before subnet `s` is a `-gap-` row, with no
/// VNet, exactly when its block starts outside both the subnet's VNet_CIDR
/// and the previous subnet's; otherwise it is a `-vgap-` row carrying the
/// VNet_CIDR it starts in: the subnet's own if it starts there, else the
/// previous subnet's, with that VNet's name and subscription.
pub proof fn lemma_gap_row_labels(blocks: Seq<Ipv4>, s: Subnet, prev: PrevVnetContext, k: int)
    requires
        0 <= k < blocks.len(),
    ensures
        ({
            let r = gap_rows(blocks, s, prev)[k];
            let b = blocks[k];
            let in_own = starts_inside(b, s.vnet_cidr);
            let in_prev = prev.vnet_cidr matches Some(v) && starts_inside(b, v);
            &&& r.subnet_cidr == cidr_text(b)
            &&& (r.gap == "-gap-"@ <==> !in_own && !in_prev)
            &&& (r.gap == "-gap-"@ || r.gap == "-vgap-"@)
            &&& (r.gap == "-gap-"@ ==> r.vnet_cidr == "None"@ && r.vnet_name == "None"@)
            &&& (in_own ==> r.vnet_cidr == cidr_text(s.vnet_cidr) && r.vnet_name == s.vnet_name@
                && r.subscription_name == s.subscription_name@)
            &&& (!in_own && in_prev ==> r.vnet_cidr == cidr_text(prev.vnet_cidr->0) && r.vnet_name
                == prev.vnet_name@ && r.subscription_name == prev.subscription_name@)
        }),
{
    reveal_strlit("-gap-");
    reveal_strlit("-vgap-");
    assert("-gap-"@ != "-vgap-"@) by {
        assert("-gap-"@.len() != "-vgap-"@.len());
    }
}

/// The context that subnet `s` leaves for the next one.
pub open spec fn context_of(s: Subnet) -> PrevVnetContext {
    PrevVnetContext {
        vnet_cidr: Some(s.vnet_cidr),
        vnet_name: s.vnet_name,
        subscription_name: s.subscription_name,
        subscription_id: s.subscription_id,
    }
}

/// Extracts the NSG name from its full resource ID (the last `/` piece).
pub fn extract_nsg_name(nsg: Option<&str>) -> (r: String)
    ensures
        r@ == match nsg {
            Some(n) => split_on(n@, '/').last(),
            None => "None"@,
        },
{
    match nsg {
        Some(n) => last_piece(n, '/'),
        None => "None".to_owned(),
    }
}

/// Formats DNS servers as a comma-separated string.
pub fn format_dns_servers(dns: Option<&[String]>) -> (r: String)
    ensures
        r@ == match dns {
            Some(v) => join_text(string_views(v@), ","@),
            None => "None"@,
        },
{
    match dns {
        Some(v) => join_strings(v, ","),
        None => "None".to_owned(),
    }
}

/// The row of an unused block.
pub(crate) fn gap_print_row(
    block: Ipv4,
    label: &str,
    vnet_cidr: String,
    vnet_name: String,
    subscription_name: String,
    subscription_id: String,
) -> (r: SubnetPrintRow)
    requires
        block.wf(),
        block.mask < 30,
    ensures
        r@ == gap_row(
            block,
            label@,
            vnet_cidr@,
            vnet_name@,
            subscription_name@,
            subscription_id@,
        ),
{
    let b = block.broadcast().unwrap();
    let hosts = num_az_hosts(block.mask).unwrap();
    SubnetPrintRow {
        j: 0,
        gap: label.to_owned(),
        subnet_cidr: block.to_string(),
        broadcast: addr_string(b.addr),
        az_hosts: hosts as usize,
        subnet_name: "None".to_owned(),
        subscription_name,
        vnet_cidr,
        vnet_name,
        location: "None".to_owned(),
        nsg: "Unused_nsg".to_owned(),
        dns: "Unused_dns".to_owned(),
        subscription_id,
        ip_configurations_count: 0,
    }
}

/// The row of subnet `s` (number `i`) with the given first columns.
pub fn create_row_from_subnet(
    s: &Subnet,
    i: usize,
    gap: &str,
    cidr: &str,
    broadcast: &str,
    az_hosts: usize,
) -> (r: SubnetPrintRow)
    requires
        i < usize::MAX,
    ensures
        r@ == base_row(*s, i as int, gap@, cidr@, broadcast@, az_hosts),
{
    let nsg = match &s.nsg {
        Some(n) => extract_nsg_name(Some(n.as_str())),
        None => extract_nsg_name(None),
    };
    let dns = match &s.dns_servers {
        Some(v) => format_dns_servers(Some(v.as_slice())),
        None => format_dns_servers(None),
    };
    let count = match s.ip_configurations_count {
        Some(c) => c,
        None => 0,
    };
    SubnetPrintRow {
        j: i + 1,
        gap: gap.to_owned(),
        subnet_cidr: cidr.to_owned(),
        broadcast: broadcast.to_owned(),
        az_hosts,
        subnet_name: s.subnet_name.clone(),
        subscription_name: s.subscription_name.clone(),
        vnet_cidr: s.vnet_cidr.to_string(),
        vnet_name: s.vnet_name.clone(),
        location: s.location.clone(),
        nsg,
        dns,
        subscription_id: s.subscription_id.clone(),
        ip_configurations_count: count,
    }
}

/// The label of subnet `s` (number `i`).
fn subnet_label_text(s: &Subnet, i: usize) -> (r: String)
    ensures
        r@ == subnet_label(*s, i as int),
{
    if str_eq(s.subnet_name.as_str(), "GatewaySubnet") {
        "GATEWAY".to_owned()
    } else {
        let mut v = chars_of("Sub");
        let d = decimal_chars(i as u64);
        append_chars(&mut v, &d);
        string_from_chars(v.as_slice())
    }
}


/// What `process_subnet_row` needs of its inputs; outside of it the row
/// builder would fail on the way.
pub open spec fn subnet_row_ok(
    s: Subnet,
    i: usize,
    next_ip: u32,
    prev: PrevVnetContext,
    default_cidr_mask: u8,
) -> bool {
    &&& i < usize::MAX
    &&& s.subnet_cidr matches Some(c) ==> {
        &&& c.wf()
        &&& 0 < c.mask < 30
        &&& next_ip <= c.addr
        &&& after_block(c.addr as nat, c.mask as nat) < addr_space()
        &&& next_ip < c.lo_spec() ==> {
            &&& default_cidr_mask <= 32
            &&& s.vnet_cidr.wf()
            &&& (prev.vnet_cidr matches Some(v) ==> v.wf())
            &&& blocks_hostable(gap_blocks(next_ip as nat, c.lo_spec(), default_cidr_mask as nat))
        }
    }
}

/// Processes one subnet: the rows of the gap blocks between `next_ip` and
/// the subnet, then the subnet's own row.
///
/// Returns the address after the subnet, the context the subnet leaves, and
/// the rows.  A subnet without a block gives one row and changes nothing.
pub fn process_subnet_row(
    s: &Subnet,
    i: usize,
    next_ip: u32,
    prev_vnet_ctx: PrevVnetContext,
    default_cidr_mask: u8,
    _skip_subnet_smaller_than: u32,
) -> (r: (u32, PrevVnetContext, Vec<SubnetPrintRow>))
    requires
        subnet_row_ok(*s, i, next_ip, prev_vnet_ctx, default_cidr_mask),
    ensures
        match s.subnet_cidr {
            None => {
                &&& r.0 == next_ip
                &&& r.1 == prev_vnet_ctx
                &&& row_views(r.2@) == seq![
                    base_row(*s, i as int, "None"@, "none"@, "none"@, 0),
                ]
            },
            Some(c) => {
                &&& r.0 as nat == after_block(c.addr as nat, c.mask as nat)
                &&& r.1 == context_of(*s)
                &&& row_views(r.2@) == gap_rows(
                    gap_blocks(next_ip as nat, c.lo_spec(), default_cidr_mask as nat),
                    *s,
                    prev_vnet_ctx,
                ).push(subnet_row(*s, i as int, c))
            },
        },
{
    let mut rows: Vec<SubnetPrintRow> = Vec::new();
    let subnet_cidr = match s.subnet_cidr {
        Some(c) => c,
        None => {
            rows.push(create_row_from_subnet(s, i, "None", "none", "none", 0));
            assert(row_views(rows@) =~= seq![
                base_row(*s, i as int, "None"@, "none"@, "none"@, 0),
            ]);
            return (next_ip, prev_vnet_ctx, rows);
        },
    };
    let ghost start = next_ip;
    let ghost m = default_cidr_mask as nat;
    let mut next_ip = next_ip;
    let lo = subnet_cidr.lo();
    let ghost end = lo as nat;
    assert(row_views(rows@) + gap_rows(gap_blocks(start as nat, end, m), *s, prev_vnet_ctx)
        =~= gap_rows(gap_blocks(start as nat, end, m), *s, prev_vnet_ctx));
    while next_ip < lo
        invariant
            lo as nat == end == subnet_cidr.lo_spec(),
            subnet_cidr.wf(),
            start <= next_ip,
            start < end ==> {
                &&& default_cidr_mask <= 32
                &&& s.vnet_cidr.wf()
                &&& (prev_vnet_ctx.vnet_cidr matches Some(v) ==> v.wf())
            },
            next_ip < end ==> blocks_hostable(gap_blocks(next_ip as nat, end, m)),
            m == default_cidr_mask,
            row_views(rows@) + gap_rows(gap_blocks(next_ip as nat, end, m), *s, prev_vnet_ctx)
                == gap_rows(gap_blocks(start as nat, end, m), *s, prev_vnet_ctx),
        decreases end - next_ip,
    {
        let next_mask = find_biggest_subnet(next_ip, default_cidr_mask, subnet_cidr);
        let next_subnet = Ipv4 { addr: next_ip, mask: next_mask };
        proof {
            lemma_gap_step(next_ip as nat, end, m);
        }
        let ghost rest = gap_blocks((next_ip + block_size(next_mask as nat)) as nat, end, m);
        assert(gap_blocks(next_ip as nat, end, m)[0] == next_subnet);
        let gap_in_current_vnet = s.vnet_cidr.contains(next_ip);
        let gap_in_prev_vnet = match prev_vnet_ctx.vnet_cidr {
            Some(v) => v.contains(next_ip),
            None => false,
        };
        let row = if gap_in_current_vnet {
            gap_print_row(
                next_subnet,
                "-vgap-",
                s.vnet_cidr.to_string(),
                s.vnet_name.clone(),
                s.subscription_name.clone(),
                s.subscription_id.clone(),
            )
        } else if gap_in_prev_vnet {
            let v = prev_vnet_ctx.vnet_cidr.unwrap();
            gap_print_row(
                next_subnet,
                "-vgap-",
                v.to_string(),
                prev_vnet_ctx.vnet_name.clone(),
                prev_vnet_ctx.subscription_name.clone(),
                prev_vnet_ctx.subscription_id.clone(),
            )
        } else {
            gap_print_row(
                next_subnet,
                "-gap-",
                "None".to_owned(),
                "None".to_owned(),
                "None".to_owned(),
                "None".to_owned(),
            )
        };
        let ghost old_views = row_views(rows@);
        rows.push(row);
        proof {
            let blocks = gap_blocks(next_ip as nat, end, m);
            assert(blocks =~= seq![next_subnet] + rest);
            assert(gap_rows(blocks, *s, prev_vnet_ctx) =~= seq![
                labelled_gap_row(next_subnet, *s, prev_vnet_ctx),
            ] + gap_rows(rest, *s, prev_vnet_ctx));
            assert(row_views(rows@) =~= old_views.push(
                labelled_gap_row(next_subnet, *s, prev_vnet_ctx),
            ));
            assert(forall|k: int|
                0 <= k < rest.len() ==> #[trigger] rest[k] == blocks[k + 1]);
        }
        next_ip = next_subnet_ipv4(next_subnet, None).unwrap().lo();
    }
    proof {
        if start < end {
            assert(gap_blocks(next_ip as nat, end, m) =~= Seq::<Ipv4>::empty());
        } else {
            assert(gap_blocks(start as nat, end, m) =~= Seq::<Ipv4>::empty());
        }
        assert(gap_rows(Seq::<Ipv4>::empty(), *s, prev_vnet_ctx) =~= Seq::<RowView>::empty());
    }
    let new_prev_vnet_ctx = PrevVnetContext {
        vnet_cidr: Some(s.vnet_cidr),
        vnet_name: s.vnet_name.clone(),
        subscription_name: s.subscription_name.clone(),
        subscription_id: s.subscription_id.clone(),
    };
    let label = subnet_label_text(s, i);
    let cidr = subnet_cidr.to_string();
    let bcast = subnet_cidr.broadcast().unwrap();
    let bcast_text = addr_string(bcast.addr);
    let hosts = num_az_hosts(subnet_cidr.mask).unwrap();
    let ghost before = row_views(rows@);
    rows.push(
        create_row_from_subnet(
            s,
            i,
            label.as_str(),
            cidr.as_str(),
            bcast_text.as_str(),
            hosts as usize,
        ),
    );
    assert(row_views(rows@) =~= before.push(subnet_row(*s, i as int, subnet_cidr)));
    proof {
        lemma_block(subnet_cidr.addr as nat, subnet_cidr.mask as nat);
        lemma_block_size_facts(subnet_cidr.mask as nat);
        let after = after_block(subnet_cidr.addr as nat, subnet_cidr.mask as nat);
        let net = net_of(subnet_cidr.addr as nat, subnet_cidr.mask as nat);
        lemma_mod_add_multiples_vanish(net as int, block_size(subnet_cidr.mask as nat) as int);
        lemma_block(after, subnet_cidr.mask as nat);
    }
    let next = next_subnet_ipv4(subnet_cidr, None).unwrap().lo();
    (next, new_prev_vnet_ctx, rows)
}

/// What `fill_trailing_vgap` needs of its inputs.
pub open spec fn trailing_vgap_ok(next_ip: u32, vnet_cidr: Ipv4, default_cidr_mask: u8) -> bool {
    &&& vnet_cidr.wf()
    &&& next_ip <= vnet_cidr.hi_spec() ==> {
        &&& default_cidr_mask <= 32
        &&& vnet_cidr.hi_spec() + 1 < addr_space()
        &&& blocks_hostable(
            gap_blocks(next_ip as nat, vnet_cidr.hi_spec() + 1, default_cidr_mask as nat),
        )
    }
}

/// Fills the unused space from `next_ip` to the end of `vnet_cidr` with
/// `-vgap-` rows of the VNet in `prev_vnet_ctx`.
///
/// Returns the address after the VNet_CIDR (or `next_ip` when it is already
/// past it) and the rows.
pub fn fill_trailing_vgap(
    next_ip: u32,
    vnet_cidr: Ipv4,
    prev_vnet_ctx: &PrevVnetContext,
    default_cidr_mask: u8,
) -> (r: (u32, Vec<SubnetPrintRow>))
    requires
        trailing_vgap_ok(next_ip, vnet_cidr, default_cidr_mask),
    ensures
        r.0 as nat == if next_ip <= vnet_cidr.hi_spec() {
            vnet_cidr.hi_spec() + 1
        } else {
            next_ip as nat
        },
        row_views(r.1@) == vgap_rows(
            gap_blocks(next_ip as nat, vnet_cidr.hi_spec() + 1, default_cidr_mask as nat),
            vnet_cidr,
            *prev_vnet_ctx,
        ),
{
    let mut rows: Vec<SubnetPrintRow> = Vec::new();
    let vnet_hi = vnet_cidr.hi();
    let ghost start = next_ip;
    let ghost m = default_cidr_mask as nat;
    let ghost end: nat = (vnet_hi + 1) as nat;
    let mut next_ip = next_ip;
    assert(row_views(rows@) + vgap_rows(gap_blocks(start as nat, end, m), vnet_cidr, *prev_vnet_ctx)
        =~= vgap_rows(gap_blocks(start as nat, end, m), vnet_cidr, *prev_vnet_ctx));
    while next_ip <= vnet_hi
        invariant
            vnet_hi as nat == vnet_cidr.hi_spec(),
            end == vnet_hi + 1,
            vnet_cidr.wf(),
            start <= next_ip,
            start > vnet_hi ==> next_ip == start,
            start <= vnet_hi ==> {
                &&& default_cidr_mask <= 32
                &&& end < addr_space()
                &&& next_ip <= end
            },
            next_ip <= vnet_hi ==> blocks_hostable(gap_blocks(next_ip as nat, end, m)),
            m == default_cidr_mask,
            row_views(rows@) + vgap_rows(gap_blocks(next_ip as nat, end, m), vnet_cidr, *prev_vnet_ctx)
                == vgap_rows(gap_blocks(start as nat, end, m), vnet_cidr, *prev_vnet_ctx),
        decreases end - next_ip,
    {
        let next_mask = find_biggest_subnet_within(next_ip, default_cidr_mask, vnet_cidr);
        let next_subnet = Ipv4 { addr: next_ip, mask: next_mask };
        proof {
            lemma_gap_step(next_ip as nat, end, m);
        }
        let ghost rest = gap_blocks((next_ip + block_size(next_mask as nat)) as nat, end, m);
        assert(gap_blocks(next_ip as nat, end, m)[0] == next_subnet);
        let row = gap_print_row(
            next_subnet,
            "-vgap-",
            vnet_cidr.to_string(),
            prev_vnet_ctx.vnet_name.clone(),
            prev_vnet_ctx.subscription_name.clone(),
            prev_vnet_ctx.subscription_id.clone(),
        );
        let ghost old_views = row_views(rows@);
        rows.push(row);
        proof {
            let blocks = gap_blocks(next_ip as nat, end, m);
            assert(blocks =~= seq![next_subnet] + rest);
            assert(vgap_rows(blocks, vnet_cidr, *prev_vnet_ctx) =~= seq![row@] + vgap_rows(
                rest,
                vnet_cidr,
                *prev_vnet_ctx,
            ));
            assert(row_views(rows@) =~= old_views.push(row@));
            assert(forall|k: int|
                0 <= k < rest.len() ==> #[trigger] rest[k] == blocks[k + 1]);
        }
        next_ip = next_subnet_ipv4(next_subnet, None).unwrap().lo();
    }
    proof {
        if start <= vnet_hi {
            assert(gap_blocks(next_ip as nat, end, m) =~= Seq::<Ipv4>::empty());
        } else {
            assert(gap_blocks(start as nat, end, m) =~= Seq::<Ipv4>::empty());
        }
        assert(vgap_rows(Seq::<Ipv4>::empty(), vnet_cidr, *prev_vnet_ctx)
            =~= Seq::<RowView>::empty());
    }
    (next_ip, rows)
}


/// Push-based accumulator that keeps the next free address and the previous
/// VNet's context between subnets.
///
/// Feed sorted subnets one at a time with [`GapFinder::push`]; after the last
/// one, [`GapFinder::finish`] gives the trailing `-vgap-` rows of the final
/// VNet_CIDR.
pub struct GapFinder {
    default_cidr_mask: u8,
    next_ip: u32,
    prev_vnet_ctx: PrevVnetContext,
}

/// `10.0.0.0`, where the scan starts.
pub const SCAN_START: u32 = 0x0a00_0000;

/// `10.17.255.255`, handed to `process_subnet_row` (which does not use it).
pub const SKIP_SMALLER_THAN: u32 = 0x0a11_ffff;

impl GapFinder {
    /// The next address not yet covered by a row.
    pub closed spec fn next_ip_spec(&self) -> u32 {
        self.next_ip
    }

    /// The context of the last subnet pushed.
    pub closed spec fn context_spec(&self) -> PrevVnetContext {
        self.prev_vnet_ctx
    }

    /// The largest gap block size, as a prefix length.
    pub closed spec fn gap_mask_spec(&self) -> u8 {
        self.default_cidr_mask
    }

    /// A gap finder that starts at `10.0.0.0` with no previous VNet.
    pub fn new(default_cidr_mask: u8) -> (r: GapFinder)
        ensures
            r.next_ip_spec() == SCAN_START,
            r.context_spec().vnet_cidr is None,
            r.context_spec().vnet_name@ == Seq::<char>::empty(),
            r.context_spec().subscription_name@ == Seq::<char>::empty(),
            r.context_spec().subscription_id@ == Seq::<char>::empty(),
            r.gap_mask_spec() == default_cidr_mask,
    {
        GapFinder { default_cidr_mask, next_ip: SCAN_START, prev_vnet_ctx: PrevVnetContext::default() }
    }

    /// Processes one subnet and returns the rows it generates (gaps, then
    /// the subnet itself).
    pub fn push(&mut self, s: &Subnet, i: usize) -> (rows: Vec<SubnetPrintRow>)
        requires
            subnet_row_ok(
                *s,
                i,
                old(self).next_ip_spec(),
                old(self).context_spec(),
                old(self).gap_mask_spec(),
            ),
        ensures
            final(self).gap_mask_spec() == old(self).gap_mask_spec(),
            match s.subnet_cidr {
                None => {
                    &&& final(self).next_ip_spec() == old(self).next_ip_spec()
                    &&& final(self).context_spec() == old(self).context_spec()
                    &&& row_views(rows@) == seq![
                        base_row(*s, i as int, "None"@, "none"@, "none"@, 0),
                    ]
                },
                Some(c) => {
                    &&& final(self).next_ip_spec() as nat == after_block(
                        c.addr as nat,
                        c.mask as nat,
                    )
                    &&& final(self).context_spec() == context_of(*s)
                    &&& row_views(rows@) == gap_rows(
                        gap_blocks(
                            old(self).next_ip_spec() as nat,
                            c.lo_spec(),
                            old(self).gap_mask_spec() as nat,
                        ),
                        *s,
                        old(self).context_spec(),
                    ).push(subnet_row(*s, i as int, c))
                },
            },
    {
        let mut ctx = PrevVnetContext::default();
        std::mem::swap(&mut ctx, &mut self.prev_vnet_ctx);
        let (new_next_ip, new_prev_ctx, rows) = process_subnet_row(
            s,
            i,
            self.next_ip,
            ctx,
            self.default_cidr_mask,
            SKIP_SMALLER_THAN,
        );
        self.next_ip = new_next_ip;
        self.prev_vnet_ctx = new_prev_ctx;
        rows
    }

    /// The trailing `-vgap-` rows of the last VNet_CIDR seen (none when no
    /// subnet with a block was pushed).
    pub fn finish(self) -> (rows: Vec<SubnetPrintRow>)
        requires
            self.context_spec().vnet_cidr matches Some(v) ==> trailing_vgap_ok(
                self.next_ip_spec(),
                v,
                self.gap_mask_spec(),
            ),
        ensures
            match self.context_spec().vnet_cidr {
                None => rows@.len() == 0,
                Some(v) => row_views(rows@) == vgap_rows(
                    gap_blocks(self.next_ip_spec() as nat, v.hi_spec() + 1, self.gap_mask_spec() as nat),
                    v,
                    self.context_spec(),
                ),
            },
    {
        match self.prev_vnet_ctx.vnet_cidr {
            None => Vec::new(),
            Some(vnet_cidr) => {
                fill_trailing_vgap(
                    self.next_ip,
                    vnet_cidr,
                    &self.prev_vnet_ctx,
                    self.default_cidr_mask,
                ).1
            },
        }
    }
}


/// A VNet_CIDR address space with its metadata and the subnets it holds,
/// sorted by start address.
#[derive(Debug)]
pub struct VnetCidr {
    pub cidr: Ipv4,
    pub vnet_name: String,
    pub subscription_id: String,
    pub subscription_name: String,
    pub location: String,
    /// Subnets belonging to this VNet_CIDR, sorted by start address.
    pub subnets: Vec<Subnet>,
}

/// A single block in the gap-scan output.
#[derive(Debug)]
pub struct GapEvent<'a> {
    /// The block.
    pub cidr: Ipv4,
    /// What the block is.
    pub kind: GapKind<'a>,
}

/// What a [`GapEvent`] is.
#[derive(Debug)]
pub enum GapKind<'a> {
    /// Unused address space between two VNet_CIDRs.
    Gap,
    /// Unused address space inside a VNet_CIDR.
    Vnet(&'a VnetCidr),
    /// An allocated subnet.
    Subnet(&'a Subnet),
}

/// What a [`GapKind`] refers to, by value.
pub enum GapKindView {
    Gap,
    Vnet(VnetCidr),
    Subnet(Subnet),
}

/// The value a [`GapKind`] refers to.
pub open spec fn kind_view<'a>(k: GapKind<'a>) -> GapKindView {
    match k {
        GapKind::Gap => GapKindView::Gap,
        GapKind::Vnet(v) => GapKindView::Vnet(*v),
        GapKind::Subnet(s) => GapKindView::Subnet(*s),
    }
}

/// The events as (block, kind) pairs.
pub open spec fn event_views<'a>(es: Seq<GapEvent<'a>>) -> Seq<(Ipv4, GapKindView)> {
    es.map_values(|e: GapEvent<'a>| (e.cidr, kind_view(e.kind)))
}

/// Blocks, each paired with the same kind.
pub open spec fn tagged(blocks: Seq<Ipv4>, k: GapKindView) -> Seq<(Ipv4, GapKindView)> {
    blocks.map_values(|b: Ipv4| (b, k))
}

/// The scan position after the given subnets, starting from `ip`: the
/// address after the last subnet that has a block.
pub open spec fn inner_ip_after(subs: Seq<Subnet>, ip: nat) -> nat
    decreases subs.len(),
{
    if subs.len() == 0 {
        ip
    } else {
        match subs.last().subnet_cidr {
            Some(c) => after_block(c.addr as nat, c.mask as nat),
            None => inner_ip_after(subs.drop_last(), ip),
        }
    }
}

/// The events of the given subnets of `vc`, scanning from `ip`: before
/// each subnet with a block, the unused blocks up to it, then the subnet.
pub open spec fn subnet_events(vc: VnetCidr, subs: Seq<Subnet>, ip: nat, m: nat) -> Seq<
    (Ipv4, GapKindView),
>
    decreases subs.len(),
{
    if subs.len() == 0 {
        Seq::empty()
    } else {
        let before = subnet_events(vc, subs.drop_last(), ip, m);
        let cur = inner_ip_after(subs.drop_last(), ip);
        match subs.last().subnet_cidr {
            None => before,
            Some(c) => before + tagged(gap_blocks(cur, c.lo_spec(), m), GapKindView::Vnet(vc))
                + seq![(c, GapKindView::Subnet(subs.last()))],
        }
    }
}

/// The events inside one VNet_CIDR: its subnets and the unused blocks
/// between them, then the trailing unused blocks up to its end.
pub open spec fn vnet_cidr_events(vc: VnetCidr, m: nat) -> Seq<(Ipv4, GapKindView)> {
    let lo = vc.cidr.lo_spec();
    subnet_events(vc, vc.subnets@, lo, m) + tagged(
        gap_blocks(inner_ip_after(vc.subnets@, lo), vc.cidr.hi_spec() + 1, m),
        GapKindView::Vnet(vc),
    )
}

/// The events of a sequence of VNet_CIDRs: between two of them, the unused
/// blocks from the end of the first to the start of the second.
pub open spec fn scan_events(vcs: Seq<VnetCidr>, m: nat) -> Seq<(Ipv4, GapKindView)>
    decreases vcs.len(),
{
    if vcs.len() == 0 {
        Seq::empty()
    } else {
        let n = vcs.len() - 1;
        let global = if n > 0 {
            tagged(
                gap_blocks(
                    after_block(vcs[n - 1].cidr.addr as nat, vcs[n - 1].cidr.mask as nat),
                    vcs[n].cidr.lo_spec(),
                    m,
                ),
                GapKindView::Gap,
            )
        } else {
            Seq::empty()
        };
        scan_events(vcs.drop_last(), m) + global + vnet_cidr_events(vcs[n], m)
    }
}

/// A block whose successor can be computed: prefix length 1 to 32 and not
/// the last block of the address space.
pub open spec fn block_steps(c: Ipv4) -> bool {
    &&& c.wf()
    &&& c.mask != 0
    &&& after_block(c.addr as nat, c.mask as nat) < addr_space()
}

/// No unused space needs cutting into blocks: each VNet_CIDR starts at or
/// before the end of the previous one, each subnet at or before the end of
/// the previous subnet (or the start of its VNet_CIDR), and the last subnet
/// reaches the end of its VNet_CIDR.
pub open spec fn gapless(vcs: Seq<VnetCidr>) -> bool {
    forall|k: int|
        0 <= k < vcs.len() ==> {
            let lo = (#[trigger] vcs[k]).cidr.lo_spec();
            let subs = vcs[k].subnets@;
            &&& (k > 0 ==> after_block(vcs[k - 1].cidr.addr as nat, vcs[k - 1].cidr.mask as nat) >= lo)
            &&& forall|j: int|
                0 <= j < subs.len() ==> ((#[trigger] subs[j]).subnet_cidr matches Some(c) ==> inner_ip_after(
                    subs.subrange(0, j),
                    lo,
                ) >= c.lo_spec())
            &&& inner_ip_after(subs, lo) > vcs[k].cidr.hi_spec()
        }
}

/// What `gaps` needs of its inputs: the gap mask is a prefix length (unless
/// there is no unused space to cut), and each block has a successor.
pub open spec fn gaps_ok(vcs: Seq<VnetCidr>, gap_mask: u8) -> bool {
    &&& (gap_mask <= 32 || gapless(vcs))
    &&& forall|k: int|
        0 <= k < vcs.len() ==> {
            &&& block_steps(#[trigger] vcs[k].cidr)
            &&& forall|j: int|
                0 <= j < vcs[k].subnets@.len() ==> (#[trigger] vcs[k].subnets@[j].subnet_cidr
                    matches Some(c) ==> block_steps(c))
        }
}

/// All blocks inside `vnet_cidrs` as a flat sequence of events: each subnet
/// becomes a `Subnet` event, unused space inside a VNet_CIDR becomes `Vnet`
/// events and unused space between adjacent VNet_CIDRs becomes `Gap` events,
/// each split into aligned blocks no larger than `gap_mask` allows.
#[verifier::spinoff_prover]
#[verifier::rlimit(40)]
pub fn gaps<'a>(vnet_cidrs: &'a [VnetCidr], gap_mask: u8) -> (r: Vec<GapEvent<'a>>)
    requires
        gaps_ok(vnet_cidrs@, gap_mask),
    ensures
        event_views(r@) == scan_events(vnet_cidrs@, gap_mask as nat),
{
    let ghost m = gap_mask as nat;
    let mut events: Vec<GapEvent<'a>> = Vec::new();
    let mut current_ip: Option<u32> = None;
    let mut k: usize = 0;
    while k < vnet_cidrs.len()
        invariant
            k <= vnet_cidrs@.len(),
            gaps_ok(vnet_cidrs@, gap_mask),
            m == gap_mask,
            event_views(events@) == scan_events(vnet_cidrs@.subrange(0, k as int), m),
            k == 0 ==> current_ip is None,
            k > 0 ==> (current_ip is Some && current_ip->0 as nat == after_block(
                vnet_cidrs@[k - 1].cidr.addr as nat,
                vnet_cidrs@[k - 1].cidr.mask as nat,
            )),
        decreases vnet_cidrs@.len() - k,
    {
        let vc = &vnet_cidrs[k];
        assert(block_steps(vnet_cidrs@[k as int].cidr));
        let vc_lo = vc.cidr.lo();
        let ghost base = event_views(events@);
        let ghost global = if k > 0 {
            tagged(
                gap_blocks(
                    after_block(vnet_cidrs@[k - 1].cidr.addr as nat, vnet_cidrs@[k - 1].cidr.mask as nat),
                    vc_lo as nat,
                    m,
                ),
                GapKindView::Gap,
            )
        } else {
            Seq::empty()
        };
        // Global gap before this VNet_CIDR.
        if let Some(ip) = current_ip {
            let mut gip = ip;
            let ghost gstart = ip as nat;
            assert(event_views(events@) + tagged(gap_blocks(gstart, vc_lo as nat, m), GapKindView::Gap)
                =~= base + global);
            proof {
                if gap_mask > 32 {
                    assert(vnet_cidrs@[k as int] == *vc);
                }
            }
            while gip < vc_lo
                invariant
                    vc.cidr.wf(),
                    vc_lo as nat == vc.cidr.lo_spec(),
                    gap_mask <= 32 || gip >= vc_lo,
                    m == gap_mask,
                    event_views(events@) + tagged(gap_blocks(gip as nat, vc_lo as nat, m), GapKindView::Gap)
                        == base + global,
                decreases vc_lo - gip,
            {
                let mask = find_biggest_subnet(gip, gap_mask, vc.cidr);
                let block = Ipv4 { addr: gip, mask };
                proof {
                    lemma_gap_step(gip as nat, vc_lo as nat, m);
                }
                let ghost rest = gap_blocks((gip + block_size(mask as nat)) as nat, vc_lo as nat, m);
                let ghost old_views = event_views(events@);
                events.push(GapEvent { cidr: block, kind: GapKind::Gap });
                proof {
                    let blocks = gap_blocks(gip as nat, vc_lo as nat, m);
                    assert(blocks =~= seq![block] + rest);
                    assert(tagged(blocks, GapKindView::Gap) =~= seq![(block, GapKindView::Gap)]
                        + tagged(rest, GapKindView::Gap));
                    assert(event_views(events@) =~= old_views.push((block, GapKindView::Gap)));
                }
                gip = next_subnet_ipv4(block, None).unwrap().lo();
            }
            assert(gap_blocks(gip as nat, vc_lo as nat, m) =~= Seq::<Ipv4>::empty());
            assert(tagged(Seq::<Ipv4>::empty(), GapKindView::Gap) =~= Seq::empty());
        } else {
            assert(event_views(events@) =~= base + global);
        }
        // Subnets, and the unused blocks before each, inside this VNet_CIDR.
        let ghost after_global = event_views(events@);
        let ghost subs = vc.subnets@;
        let mut inner_ip: u32 = vc_lo;
        let mut j: usize = 0;
        assert(subs.subrange(0, 0) =~= Seq::<Subnet>::empty());
        while j < vc.subnets.len()
            invariant
                j <= subs.len(),
                subs == vc.subnets@,
                vc == vnet_cidrs@[k as int],
                k < vnet_cidrs@.len(),
                gaps_ok(vnet_cidrs@, gap_mask),
                m == gap_mask,
                vc_lo as nat == vc.cidr.lo_spec(),
                inner_ip as nat == inner_ip_after(subs.subrange(0, j as int), vc_lo as nat),
                event_views(events@) == after_global + subnet_events(
                    *vc,
                    subs.subrange(0, j as int),
                    vc_lo as nat,
                    m,
                ),
            decreases subs.len() - j,
        {
            let subnet = &vc.subnets[j];
            let ghost pre = subs.subrange(0, j as int);
            assert(subs.subrange(0, j + 1).drop_last() =~= pre);
            assert(subs.subrange(0, j + 1).last() == *subnet);
            if let Some(sub_cidr) = subnet.subnet_cidr {
                assert(block_steps(sub_cidr));
                let sub_lo = sub_cidr.lo();
                proof {
                    if gap_mask > 32 {
                        assert(subs[j as int] == *subnet);
                    }
                }
                let ghost base2 = event_views(events@);
                let ghost vgaps = tagged(
                    gap_blocks(inner_ip as nat, sub_lo as nat, m),
                    GapKindView::Vnet(*vc),
                );
                assert(base2 + vgaps =~= base2 + vgaps);
                while inner_ip < sub_lo
                    invariant
                        sub_cidr.wf(),
                        sub_lo as nat == sub_cidr.lo_spec(),
                        gap_mask <= 32 || inner_ip >= sub_lo,
                        m == gap_mask,
                        event_views(events@) + tagged(
                            gap_blocks(inner_ip as nat, sub_lo as nat, m),
                            GapKindView::Vnet(*vc),
                        ) == base2 + vgaps,
                    decreases sub_lo - inner_ip,
                {
                    let mask = find_biggest_subnet(inner_ip, gap_mask, sub_cidr);
                    let block = Ipv4 { addr: inner_ip, mask };
                    proof {
                        lemma_gap_step(inner_ip as nat, sub_lo as nat, m);
                    }
                    let ghost rest = gap_blocks(
                        (inner_ip + block_size(mask as nat)) as nat,
                        sub_lo as nat,
                        m,
                    );
                    let ghost old_views = event_views(events@);
                    events.push(GapEvent { cidr: block, kind: GapKind::Vnet(vc) });
                    proof {
                        let blocks = gap_blocks(inner_ip as nat, sub_lo as nat, m);
                        assert(blocks =~= seq![block] + rest);
                        assert(tagged(blocks, GapKindView::Vnet(*vc)) =~= seq![
                            (block, GapKindView::Vnet(*vc)),
                        ] + tagged(rest, GapKindView::Vnet(*vc)));
                        assert(event_views(events@) =~= old_views.push(
                            (block, GapKindView::Vnet(*vc)),
                        ));
                    }
                    inner_ip = next_subnet_ipv4(block, None).unwrap().lo();
                }
                assert(gap_blocks(inner_ip as nat, sub_lo as nat, m) =~= Seq::<Ipv4>::empty());
                assert(tagged(Seq::<Ipv4>::empty(), GapKindView::Vnet(*vc)) =~= Seq::empty());
                let ghost before_sub = event_views(events@);
                events.push(GapEvent { cidr: sub_cidr, kind: GapKind::Subnet(subnet) });
                assert(event_views(events@) =~= before_sub.push(
                    (sub_cidr, GapKindView::Subnet(*subnet)),
                ));
                proof {
                    lemma_block(sub_cidr.addr as nat, sub_cidr.mask as nat);
                    lemma_block_size_facts(sub_cidr.mask as nat);
                    let net = net_of(sub_cidr.addr as nat, sub_cidr.mask as nat);
                    lemma_mod_add_multiples_vanish(
                        net as int,
                        block_size(sub_cidr.mask as nat) as int,
                    );
                    lemma_block(
                        after_block(sub_cidr.addr as nat, sub_cidr.mask as nat),
                        sub_cidr.mask as nat,
                    );
                }
                inner_ip = next_subnet_ipv4(sub_cidr, None).unwrap().lo();
            }
            j += 1;
        }
        assert(subs.subrange(0, subs.len() as int) =~= subs);
        // Trailing unused blocks to the end of the VNet_CIDR.
        let vc_hi = vc.cidr.hi();
        let ghost base3 = event_views(events@);
        let ghost tail = tagged(
            gap_blocks(inner_ip as nat, (vc_hi + 1) as nat, m),
            GapKindView::Vnet(*vc),
        );
        proof {
            assert(block_steps(vnet_cidrs@[k as int].cidr));
            lemma_block(vc.cidr.addr as nat, vc.cidr.mask as nat);
            lemma_block_size_facts(vc.cidr.mask as nat);
        }
        proof {
            if gap_mask > 32 {
                assert(vnet_cidrs@[k as int] == *vc);
            }
        }
        while inner_ip <= vc_hi
            invariant
                vc.cidr.wf(),
                vc_hi as nat == vc.cidr.hi_spec(),
                vc_hi + 1 < addr_space(),
                gap_mask <= 32 || inner_ip > vc_hi,
                m == gap_mask,
                event_views(events@) + tagged(
                    gap_blocks(inner_ip as nat, (vc_hi + 1) as nat, m),
                    GapKindView::Vnet(*vc),
                ) == base3 + tail,
            decreases vc_hi + 1 - inner_ip,
        {
            let mask = find_biggest_subnet_within(inner_ip, gap_mask, vc.cidr);
            let block = Ipv4 { addr: inner_ip, mask };
            proof {
                lemma_gap_step(inner_ip as nat, (vc_hi + 1) as nat, m);
            }
            let ghost rest = gap_blocks(
                (inner_ip + block_size(mask as nat)) as nat,
                (vc_hi + 1) as nat,
                m,
            );
            let ghost old_views = event_views(events@);
            events.push(GapEvent { cidr: block, kind: GapKind::Vnet(vc) });
            proof {
                let blocks = gap_blocks(inner_ip as nat, (vc_hi + 1) as nat, m);
                assert(blocks =~= seq![block] + rest);
                assert(tagged(blocks, GapKindView::Vnet(*vc)) =~= seq![
                    (block, GapKindView::Vnet(*vc)),
                ] + tagged(rest, GapKindView::Vnet(*vc)));
                assert(event_views(events@) =~= old_views.push((block, GapKindView::Vnet(*vc))));
            }
            inner_ip = next_subnet_ipv4(block, None).unwrap().lo();
        }
        assert(gap_blocks(inner_ip as nat, (vc_hi + 1) as nat, m) =~= Seq::<Ipv4>::empty());
        assert(tagged(Seq::<Ipv4>::empty(), GapKindView::Vnet(*vc)) =~= Seq::empty());
        proof {
            let pre = vnet_cidrs@.subrange(0, k as int);
            let now = vnet_cidrs@.subrange(0, k + 1);
            assert(now.drop_last() =~= pre);
            assert(now[k as int] == *vc);
            if k > 0 {
                assert(now[k - 1] == vnet_cidrs@[k - 1]);
            }
            assert(event_views(events@) =~= scan_events(now, m));
        }
        proof {
            lemma_block_size_facts(vc.cidr.mask as nat);
            let net = net_of(vc.cidr.addr as nat, vc.cidr.mask as nat);
            lemma_mod_add_multiples_vanish(net as int, block_size(vc.cidr.mask as nat) as int);
            lemma_block(after_block(vc.cidr.addr as nat, vc.cidr.mask as nat), vc.cidr.mask as nat);
        }
        current_ip = Some(next_subnet_ipv4(vc.cidr, None).unwrap().lo());
        k += 1;
    }
    assert(vnet_cidrs@.subrange(0, vnet_cidrs@.len() as int) =~= vnet_cidrs@);
    events
}


/// Law (gap blocks tile the unused range): the gap blocks of `[ip, end)`
/// cover it exactly and in order.  There are blocks exactly when the range
/// is not empty; the first starts at `ip`; each starts where the previous
/// one ends; the last ends at `end`; and each is aligned to its own size,
/// has a prefix length from `min_len` to 32, and lies inside the range.
pub proof fn lemma_gap_blocks_tile(ip: nat, end: nat, min_len: nat)
    requires
        ip <= end <= addr_space(),
        min_len <= 32,
    ensures
        ({
            let bs = gap_blocks(ip, end, min_len);
            &&& (bs.len() > 0 <==> ip < end)
            &&& bs.len() > 0 ==> bs[0].addr == ip
            &&& bs.len() > 0 ==> bs.last().addr + block_size(bs.last().mask as nat) == end
            &&& forall|k: int|
                0 <= k < bs.len() - 1 ==> #[trigger] bs[k + 1].addr == bs[k].addr + block_size(
                    bs[k].mask as nat,
                )
            &&& forall|k: int|
                0 <= k < bs.len() ==> {
                    &&& min_len <= #[trigger] bs[k].mask <= 32
                    &&& aligned(bs[k].addr as nat, bs[k].mask as nat)
                    &&& ip <= bs[k].addr
                    &&& bs[k].addr + block_size(bs[k].mask as nat) <= end
                }
        }),
    decreases end - ip,
{
    let bs = gap_blocks(ip, end, min_len);
    if ip < end {
        lemma_gap_step(ip, end, min_len);
        let len = gap_len(ip, min_len, end);
        let next = ip + block_size(len);
        lemma_gap_blocks_tile(next, end, min_len);
        let rest = gap_blocks(next, end, min_len);
        assert(bs == seq![Ipv4 { addr: ip as u32, mask: len as u8 }] + rest);
        assert forall|k: int| 0 <= k < bs.len() - 1 implies #[trigger] bs[k + 1].addr
            == bs[k].addr + block_size(bs[k].mask as nat) by {
            assert(bs[k + 1] == rest[k]);
            if k > 0 {
                assert(bs[k] == rest[k - 1]);
                assert(rest[(k - 1) + 1] == rest[k]);
            }
        }
        assert forall|k: int| 0 <= k < bs.len() implies {
            &&& min_len <= #[trigger] bs[k].mask <= 32
            &&& aligned(bs[k].addr as nat, bs[k].mask as nat)
            &&& ip <= bs[k].addr
            &&& bs[k].addr + block_size(bs[k].mask as nat) <= end
        } by {
            if k > 0 {
                assert(bs[k] == rest[k - 1]);
            }
        }
        if rest.len() > 0 {
            assert(bs.last() == rest.last());
        }
    }
}

/// Multiples of `d` that differ, differ by at least `d`.
proof fn lemma_multiples_apart(x: nat, y: nat, d: nat)
    requires
        d > 0,
        x % d == 0,
        y % d == 0,
        x < y,
    ensures
        x + d <= y,
{
    lemma_divmod(x, d);
    lemma_divmod(y, d);
    let qx = x / d;
    let qy = y / d;
    assert(qx < qy) by (nonlinear_arith)
        requires
            x == d * qx,
            y == d * qy,
            x < y,
            d > 0,
    ;
    assert(d * qx + d <= d * qy) by (nonlinear_arith)
        requires
            qx + 1 <= qy,
            d > 0,
    ;
}

/// Two aligned blocks that share an address are nested: the one with the
/// shorter (or equal) prefix length holds the other.
pub proof fn lemma_aligned_blocks_nest(a: nat, p: nat, b: nat, q: nat)
    requires
        p <= q <= 32,
        aligned(a, p),
        aligned(b, q),
        a < b + block_size(q),
        b < a + block_size(p),
    ensures
        a <= b,
        b + block_size(q) <= a + block_size(p),
{
    lemma_aligned_longer(a, p, q);
    lemma_block_size_facts(q);
    lemma_block_size_facts(p);
    let d = block_size(q);
    assert(block_size(p) % d == 0) by {
        vstd::arithmetic::power2::lemma_pow2_adds((32 - q) as nat, (q - p) as nat);
        assert(((32 - q) as nat) + ((q - p) as nat) == (32 - p) as nat);
        vstd::arithmetic::power2::lemma_pow2_pos((q - p) as nat);
        vstd::arithmetic::div_mod::lemma_mod_multiples_basic(
            pow2((q - p) as nat) as int,
            d as int,
        );
        assert(pow2((q - p) as nat) * d == d * pow2((q - p) as nat)) by (nonlinear_arith);
        assert(block_size(p) == d * pow2((q - p) as nat));
    }
    if b < a {
        lemma_multiples_apart(b, a, d);
    }
    vstd::arithmetic::div_mod::lemma_mod_adds(a as int, block_size(p) as int, d as int);
    assert((a + block_size(p)) % d == 0);
    if b + d > a + block_size(p) {
        lemma_multiples_apart(b, a + block_size(p), d);
    }
}

/// Law (gap block boundary): a gap block found before an address `end`
/// inside VNet_CIDR `v` lies either wholly inside `v` or wholly outside it,
/// so its `-vgap-` or `-gap-` label holds for all of it.
pub proof fn lemma_gap_block_respects_vnet(ip: nat, end: nat, min_len: nat, v: Ipv4, k: int)
    requires
        ip <= end <= addr_space(),
        min_len <= 32,
        v.wf(),
        v.lo_spec() <= end <= v.hi_spec(),
        0 <= k < gap_blocks(ip, end, min_len).len(),
    ensures
        ({
            let b = gap_blocks(ip, end, min_len)[k];
            let b_end = b.addr + block_size(b.mask as nat);
            ||| v.lo_spec() <= b.addr && b_end <= v.hi_spec() + 1
            ||| b_end <= v.lo_spec()
            ||| v.hi_spec() < b.addr
        }),
{
    lemma_gap_blocks_tile(ip, end, min_len);
    let b = gap_blocks(ip, end, min_len)[k];
    let vm = v.mask as nat;
    let lo = v.lo_spec();
    lemma_block(v.addr as nat, vm);
    lemma_block_size_facts(vm);
    let b_end = b.addr + block_size(b.mask as nat);
    if b_end > lo && b.addr <= v.hi_spec() {
        if (b.mask as nat) <= vm {
            lemma_aligned_blocks_nest(b.addr as nat, b.mask as nat, lo, vm);
            assert(false);
        } else {
            lemma_aligned_blocks_nest(lo, vm, b.addr as nat, b.mask as nat);
        }
    }
}


proof fn lemma_hostable_step(b: Ipv4, rest: Seq<Ipv4>)
    ensures
        blocks_hostable(seq![b] + rest) == (b.mask < 30 && blocks_hostable(rest)),
{
    let all = seq![b] + rest;
    assert(all[0] == b);
    if b.mask < 30 && blocks_hostable(rest) {
        assert forall|k: int| 0 <= k < all.len() implies #[trigger] all[k].mask < 30 by {
            if k > 0 {
                assert(all[k] == rest[k - 1]);
            }
        }
    }
    if blocks_hostable(all) {
        assert forall|k: int| 0 <= k < rest.len() implies #[trigger] rest[k].mask < 30 by {
            assert(all[k + 1] == rest[k]);
        }
    }
}

/// Whether every gap block from `ip` up to the start of `below` can be
/// reported with a usable host count.
pub fn blocks_hostable_before(ip: u32, m: u8, below: Ipv4) -> (r: bool)
    requires
        m <= 32,
        below.wf(),
    ensures
        r == blocks_hostable(gap_blocks(ip as nat, below.lo_spec(), m as nat)),
{
    let lo = below.lo();
    let ghost end = lo as nat;
    let mut cur: u32 = ip;
    while cur < lo
        invariant
            lo as nat == end == below.lo_spec(),
            below.wf(),
            m <= 32,
            blocks_hostable(gap_blocks(ip as nat, end, m as nat)) == blocks_hostable(
                gap_blocks(cur as nat, end, m as nat),
            ),
        decreases end - cur,
    {
        let mask = find_biggest_subnet(cur, m, below);
        proof {
            lemma_gap_step(cur as nat, end, m as nat);
            lemma_hostable_step(
                Ipv4 { addr: cur, mask },
                gap_blocks((cur + block_size(mask as nat)) as nat, end, m as nat),
            );
        }
        if mask >= 30 {
            return false;
        }
        let size = crate::models::ipv4::block_size_u64(mask);
        cur = (cur as u64 + size) as u32;
    }
    assert(gap_blocks(cur as nat, end, m as nat) =~= Seq::<Ipv4>::empty());
    true
}

/// Whether every gap block from `ip` to the end of `vnet_cidr` can be
/// reported with a usable host count.
pub fn blocks_hostable_within(ip: u32, m: u8, vnet_cidr: Ipv4) -> (r: bool)
    requires
        m <= 32,
        vnet_cidr.wf(),
    ensures
        r == blocks_hostable(gap_blocks(ip as nat, vnet_cidr.hi_spec() + 1, m as nat)),
{
    let hi = vnet_cidr.hi();
    let ghost end: nat = (hi + 1) as nat;
    let mut cur: u64 = ip as u64;
    proof {
        lemma_block(vnet_cidr.addr as nat, vnet_cidr.mask as nat);
    }
    while cur <= hi as u64
        invariant
            hi as nat == vnet_cidr.hi_spec(),
            end == hi + 1,
            end <= addr_space(),
            vnet_cidr.wf(),
            m <= 32,
            cur == ip || cur <= end,
            blocks_hostable(gap_blocks(ip as nat, end, m as nat)) == blocks_hostable(
                gap_blocks(cur as nat, end, m as nat),
            ),
        decreases end - cur,
    {
        let c = cur as u32;
        let mask = find_biggest_subnet_within(c, m, vnet_cidr);
        proof {
            lemma_gap_step(cur as nat, end, m as nat);
            lemma_hostable_step(
                Ipv4 { addr: c, mask },
                gap_blocks((cur + block_size(mask as nat)) as nat, end, m as nat),
            );
        }
        if mask >= 30 {
            return false;
        }
        let size = crate::models::ipv4::block_size_u64(mask);
        cur = cur + size;
    }
    assert(gap_blocks(cur as nat, end, m as nat) =~= Seq::<Ipv4>::empty());
    true
}

} // verus!
