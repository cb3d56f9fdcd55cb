//! CSV output of subnet data: which rows, in which order, and their text.
//!
//! The rows are those of the gap finder over the active subnets, with the
//! rows of excluded subnets after the last row of their winning VNet and the
//! vWAN hub address spaces at their place by start address.
use crate::azure::graph::Data;
use crate::azure::vwan_graph::VWanRow;
use crate::models::ipv4::{
    addr_string, addr_text, addr_text_ok, addr_text_value, bcast_of, block_size, broadcast_addr,
    cidr_text, cut_addr, num_az_hosts, parse_addr, Ipv4, MAX_LENGTH,
};
use crate::models::subnet::Subnet;
use crate::output::terminal::{field_text, format_field};
use crate::processing::gap_finder::{
    base_row, context_of, dns_text, extract_nsg_name, format_dns_servers, gap_blocks, gap_rows,
    nsg_text, row_views, subnet_row, subnet_row_ok, trailing_vgap_ok, vgap_rows, GapFinder,
    PrevVnetContext, RowView, SubnetPrintRow, SCAN_START, blocks_hostable_before,
    blocks_hostable_within,
};
use crate::models::ipv4::{addr_space, next_subnet_ipv4};
use crate::models::ipv4::after_block;
use crate::text::{
    append_chars, append_str, chars_of, dec, decimal_chars, find_char, first_index_of,
    parse_u8, parse_u8_spec, string_from_chars, sub_chars,
};
use vstd::prelude::*;

verus! {

/// The header line of the CSV file.
pub const CSV_HEADER: &'static str = " \"cnt\", \"gap\"  , \"subnet_cidr\"    ,\"vms\"        ,  \"broadcast\"      , \"subnet_name\"          ,  \"subscription_name\",     \"vnet_cidr\"        ,      \"vnet_name\",\"location\",\"nsg\",\"dns\",\"subscription_id\"";

/// The text of a row: its fields, each formatted with [`format_field`]
/// to its column width (`vms_width` for the host count column), separated
/// by commas.
pub open spec fn row_line_text(r: RowView, vms_width: nat) -> Seq<char> {
    field_text(dec(r.j as nat), 6) + ","@ + field_text(r.gap, 8) + ","@ + field_text(r.subnet_cidr, 18)
        + ","@ + field_text(
        dec(r.ip_configurations_count as nat) + "/"@ + dec(r.az_hosts as nat) + "_vms"@,
        vms_width,
    ) + ","@ + field_text(r.broadcast + "_br"@, 19) + ","@ + field_text(r.subnet_name, 24) + ","@
        + field_text(r.subscription_name, 21) + ","@ + field_text(r.vnet_cidr + "_vnet"@, 24) + ","@
        + field_text(r.vnet_name, 30) + ","@ + field_text(r.location, 16) + ","@ + field_text(
        r.nsg,
        13,
    ) + ","@ + field_text(r.dns, 13) + ","@ + field_text(r.subscription_id, 39)
}

/// The text of a CSV row.
pub open spec fn csv_line_text(r: RowView) -> Seq<char> {
    row_line_text(r, 13)
}

fn push_field(line: &mut Vec<char>, value: &str, width: usize, first: bool)
    ensures
        final(line)@ == if first {
            old(line)@ + field_text(value@, width as nat)
        } else {
            old(line)@ + ","@ + field_text(value@, width as nat)
        },
{
    if !first {
        append_str(line, ",");
    }
    let f = format_field(value, width);
    append_str(line, f.as_str());
}

fn concat(a: &str, b: &str) -> (r: String)
    ensures
        r@ == a@ + b@,
{
    let mut v = chars_of(a);
    append_str(&mut v, b);
    string_from_chars(v.as_slice())
}

/// The line of a row (without the line end), its host count column
/// `vms_width` wide.
pub fn row_line(row: &SubnetPrintRow, vms_width: usize) -> (r: String)
    ensures
        r@ == row_line_text(row@, vms_width as nat),
{
    let mut line: Vec<char> = Vec::new();
    let j = string_from_chars(decimal_chars(row.j as u64).as_slice());
    push_field(&mut line, j.as_str(), 6, true);
    push_field(&mut line, row.gap.as_str(), 8, false);
    push_field(&mut line, row.subnet_cidr.as_str(), 18, false);
    let mut hosts = decimal_chars(row.ip_configurations_count as u64);
    append_str(&mut hosts, "/");
    let max = decimal_chars(row.az_hosts as u64);
    append_chars(&mut hosts, &max);
    append_str(&mut hosts, "_vms");
    let hosts = string_from_chars(hosts.as_slice());
    push_field(&mut line, hosts.as_str(), vms_width, false);
    let br = concat(row.broadcast.as_str(), "_br");
    push_field(&mut line, br.as_str(), 19, false);
    push_field(&mut line, row.subnet_name.as_str(), 24, false);
    push_field(&mut line, row.subscription_name.as_str(), 21, false);
    let vc = concat(row.vnet_cidr.as_str(), "_vnet");
    push_field(&mut line, vc.as_str(), 24, false);
    push_field(&mut line, row.vnet_name.as_str(), 30, false);
    push_field(&mut line, row.location.as_str(), 16, false);
    push_field(&mut line, row.nsg.as_str(), 13, false);
    push_field(&mut line, row.dns.as_str(), 13, false);
    push_field(&mut line, row.subscription_id.as_str(), 39, false);
    assert(line@ =~= row_line_text(row@, vms_width as nat));
    string_from_chars(line.as_slice())
}

/// The CSV line of a row (without the line end).
pub fn csv_line(row: &SubnetPrintRow) -> (r: String)
    ensures
        r@ == csv_line_text(row@),
{
    row_line(row, 13)
}

/// The row of a subnet excluded by overlap resolution.
pub open spec fn dup_row(s: Subnet) -> RowView {
    let winner = match s.excluded_by {
        Some(w) => w@,
        None => "?"@,
    };
    RowView {
        j: 0,
        gap: "DUP_EXCL_VNET"@,
        subnet_cidr: match s.subnet_cidr {
            Some(c) => cidr_text(c),
            None => "None"@,
        },
        broadcast: match s.subnet_cidr {
            Some(c) => if c.wf() {
                addr_text(c.hi_spec())
            } else {
                "None"@
            },
            None => "None"@,
        },
        az_hosts: match s.subnet_cidr {
            Some(c) => if c.mask < 30 {
                (block_size(c.mask as nat) - 5) as usize
            } else {
                0
            },
            None => 0,
        },
        subnet_name: s.subnet_name@ + " [DUP of VNET "@ + winner + "]"@,
        subscription_name: s.subscription_name@,
        vnet_cidr: cidr_text(s.vnet_cidr),
        vnet_name: s.vnet_name@,
        location: s.location@,
        nsg: nsg_text(s.nsg),
        dns: dns_text(s.dns_servers),
        subscription_id: s.subscription_id@,
        ip_configurations_count: s.ip_configurations_count.unwrap_or(0),
    }
}

/// The row of a subnet excluded by overlap resolution.
pub fn make_dup_row(s: &Subnet) -> (r: SubnetPrintRow)
    ensures
        r@ == dup_row(*s),
{
    let winner: &str = match &s.excluded_by {
        Some(w) => w.as_str(),
        None => "?",
    };
    let (cidr, broadcast, hosts) = match s.subnet_cidr {
        Some(c) => {
            let b = match c.broadcast() {
                Ok(b) => addr_string(b.addr),
                Err(_) => "None".to_owned(),
            };
            let h = match num_az_hosts(c.mask) {
                Ok(n) => n as usize,
                Err(_) => 0,
            };
            (c.to_string(), b, h)
        },
        None => ("None".to_owned(), "None".to_owned(), 0),
    };
    let mut name = chars_of(s.subnet_name.as_str());
    append_str(&mut name, " [DUP of VNET ");
    append_str(&mut name, winner);
    append_str(&mut name, "]");
    let nsg = match &s.nsg {
        Some(n) => extract_nsg_name(Some(n.as_str())),
        None => extract_nsg_name(None),
    };
    let dns = match &s.dns_servers {
        Some(v) => format_dns_servers(Some(v.as_slice())),
        None => format_dns_servers(None),
    };
    let count = match s.ip_configurations_count {
        Some(c) => c,
        None => 0,
    };
    SubnetPrintRow {
        j: 0,
        gap: "DUP_EXCL_VNET".to_owned(),
        subnet_cidr: cidr,
        broadcast,
        az_hosts: hosts,
        subnet_name: string_from_chars(name.as_slice()),
        subscription_name: s.subscription_name.clone(),
        vnet_cidr: s.vnet_cidr.to_string(),
        vnet_name: s.vnet_name.clone(),
        location: s.location.clone(),
        nsg,
        dns,
        subscription_id: s.subscription_id.clone(),
        ip_configurations_count: count,
    }
}

/// The address and prefix length of `a.b.c.d/n` text (split at the first
/// `/`), when both read and the length is at most 32.
pub open spec fn cidr_parts(t: Seq<char>) -> Option<(nat, u8)> {
    let i = first_index_of(t, '/');
    if i < 0 {
        None
    } else {
        let a = t.subrange(0, i);
        let l = t.subrange(i + 1, t.len() as int);
        if addr_text_ok(a) && parse_u8_spec(l) is Ok && parse_u8_spec(l)->Ok_0 <= 32 {
            Some((addr_text_value(a), parse_u8_spec(l)->Ok_0))
        } else {
            None
        }
    }
}

/// Reads `a.b.c.d/n` text into its network address, prefix length,
/// broadcast address text and usable Azure host count (the block size less
/// 5, at least 0).
pub fn parse_cidr(cidr: &str) -> (r: Option<(u32, u8, String, usize)>)
    ensures
        match cidr_parts(cidr@) {
            None => r is None,
            Some((a, l)) => r matches Some(x) && {
                &&& x.0 as nat == a - a % block_size(l as nat)
                &&& x.1 == l
                &&& x.2@ == addr_text(bcast_of(a, l as nat))
                &&& x.3 as nat == if block_size(l as nat) >= 5 {
                    block_size(l as nat) - 5
                } else {
                    0
                }
            },
        },
{
    let cs = chars_of(cidr);
    let n = cs.len();
    let i = match find_char(&cs, '/') {
        Some(i) => i,
        None => {
            return None;
        },
    };
    let a = sub_chars(&cs, 0, i);
    let l = sub_chars(&cs, i + 1, n);
    assert(a@ == cidr@.subrange(0, i as int));
    assert(l@ == cidr@.subrange(i + 1, cidr@.len() as int));
    let addr = match parse_addr(&a) {
        Some(x) => x,
        None => {
            return None;
        },
    };
    let len = match parse_u8(&l) {
        Ok(x) => x,
        Err(_) => {
            return None;
        },
    };
    if len > MAX_LENGTH {
        return None;
    }
    let start = match cut_addr(addr, len) {
        Ok(x) => x,
        Err(_) => {
            return None;
        },
    };
    let bcast = match broadcast_addr(addr, len) {
        Ok(x) => x,
        Err(_) => {
            return None;
        },
    };
    let hosts: usize = if len >= 30 {
        proof {
            vstd::arithmetic::power2::lemma2_to64();
            if len == 30 {
                assert(block_size(30) == 4);
            } else if len == 31 {
                assert(block_size(31) == 2);
            } else {
                assert(block_size(32) == 1);
            }
        }
        0
    } else {
        match num_az_hosts(len) {
            Ok(n) => n as usize,
            Err(_) => 0,
        }
    };
    let text = addr_string(bcast);
    proof {
        crate::models::ipv4::lemma_block_size_facts(len as nat);
        crate::models::ipv4::lemma_divmod(addr as nat, block_size(len as nat));
    }
    assert(cidr_parts(cidr@) == Some((addr as nat, len)));
    assert(start as nat == (addr as nat) - (addr as nat) % block_size(len as nat));
    assert(text@ == addr_text(bcast_of(addr as nat, len as nat)));
    assert(hosts as nat == if block_size(len as nat) >= 5 {
        block_size(len as nat) - 5
    } else {
        0
    });
    Some((start, len, text, hosts))
}

/// The start address of `a.b.c.d/n` text: its part before the first `/`,
/// when that is an address.
pub open spec fn cidr_start(t: Seq<char>) -> Option<nat> {
    let i = first_index_of(t, '/');
    let a = if i < 0 {
        t
    } else {
        t.subrange(0, i)
    };
    if addr_text_ok(a) {
        Some(addr_text_value(a))
    } else {
        None
    }
}

/// The start address of `a.b.c.d/n` text.
pub fn cidr_start_u32(cidr: &str) -> (r: Option<u32>)
    ensures
        match cidr_start(cidr@) {
            None => r is None,
            Some(a) => r matches Some(x) && x as nat == a,
        },
{
    let cs = chars_of(cidr);
    let a = match find_char(&cs, '/') {
        Some(i) => sub_chars(&cs, 0, i),
        None => cs,
    };
    if let Some(i) = find_char(&chars_of(cidr), '/') {
        assert(a@ == cidr@.subrange(0, i as int));
    }
    parse_addr(&a)
}


/// The state of the gap-finding pass before subnet `k`: the next free
/// address and the context, after the active subnets before it.
pub open spec fn scan_state(subs: Seq<Subnet>, k: int, ctx0: PrevVnetContext) -> (u32, PrevVnetContext)
    decreases k,
{
    if k <= 0 {
        (SCAN_START, ctx0)
    } else {
        let st = scan_state(subs, k - 1, ctx0);
        let s = subs[k - 1];
        if s.excluded_by is Some || s.subnet_cidr is None {
            st
        } else {
            (
                after_block(s.subnet_cidr->0.addr as nat, s.subnet_cidr->0.mask as nat) as u32,
                context_of(s),
            )
        }
    }
}

/// The rows that subnet `k` gives in the gap-finding pass (none when it is
/// excluded).
pub open spec fn pushed_rows(subs: Seq<Subnet>, k: int, m: u8, ctx0: PrevVnetContext) -> Seq<RowView> {
    let st = scan_state(subs, k, ctx0);
    let s = subs[k];
    if s.excluded_by is Some {
        Seq::empty()
    } else {
        match s.subnet_cidr {
            None => seq![base_row(s, k, "None"@, "none"@, "none"@, 0)],
            Some(c) => gap_rows(gap_blocks(st.0 as nat, c.lo_spec(), m as nat), s, st.1).push(
                subnet_row(s, k, c),
            ),
        }
    }
}

/// The rows of the first `n` subnets in the gap-finding pass.
pub open spec fn scan_rows(subs: Seq<Subnet>, n: int, m: u8, ctx0: PrevVnetContext) -> Seq<RowView>
    decreases n,
{
    if n <= 0 {
        Seq::empty()
    } else {
        scan_rows(subs, n - 1, m, ctx0) + pushed_rows(subs, n - 1, m, ctx0)
    }
}

/// The trailing rows after the last subnet.
pub open spec fn trailing_rows(subs: Seq<Subnet>, m: u8, ctx0: PrevVnetContext) -> Seq<RowView> {
    let st = scan_state(subs, subs.len() as int, ctx0);
    match st.1.vnet_cidr {
        None => Seq::empty(),
        Some(v) => vgap_rows(gap_blocks(st.0 as nat, v.hi_spec() + 1, m as nat), v, st.1),
    }
}

/// What the gap-finding pass needs of the subnets.
pub open spec fn scan_ok(subs: Seq<Subnet>, m: u8, ctx0: PrevVnetContext) -> bool {
    &&& forall|k: int|
        0 <= k < subs.len() && (#[trigger] subs[k]).excluded_by is None ==> subnet_row_ok(
            subs[k],
            k as usize,
            scan_state(subs, k, ctx0).0,
            scan_state(subs, k, ctx0).1,
            m,
        )
    &&& scan_state(subs, subs.len() as int, ctx0).1.vnet_cidr matches Some(v) ==> trailing_vgap_ok(
        scan_state(subs, subs.len() as int, ctx0).0,
        v,
        m,
    )
}

/// The starting context of the gap-finding pass: no previous VNet.
pub open spec fn empty_context() -> PrevVnetContext {
    choose|c: PrevVnetContext| c.vnet_cidr is None
}

/// The rows of the gap-finding pass over the active subnets.
pub open spec fn gap_finder_rows(subs: Seq<Subnet>, m: u8) -> Seq<RowView> {
    scan_rows(subs, subs.len() as int, m, empty_context()) + trailing_rows(subs, m, empty_context())
}

proof fn lemma_gap_rows_no_prev(blocks: Seq<Ipv4>, s: Subnet, c0: PrevVnetContext, c1: PrevVnetContext)
    requires
        c0.vnet_cidr is None,
        c1.vnet_cidr is None,
    ensures
        gap_rows(blocks, s, c0) == gap_rows(blocks, s, c1),
{
    assert(gap_rows(blocks, s, c0) =~= gap_rows(blocks, s, c1));
}

proof fn lemma_scan_context_free(subs: Seq<Subnet>, m: u8, c0: PrevVnetContext, c1: PrevVnetContext, n: int)
    requires
        c0.vnet_cidr is None,
        c1.vnet_cidr is None,
        0 <= n <= subs.len(),
    ensures
        scan_state(subs, n, c0).0 == scan_state(subs, n, c1).0,
        scan_state(subs, n, c0).1.vnet_cidr is None <==> scan_state(subs, n, c1).1.vnet_cidr is None,
        scan_state(subs, n, c0).1.vnet_cidr is Some ==> scan_state(subs, n, c0).1 == scan_state(subs, n, c1).1,
        scan_rows(subs, n, m, c0) == scan_rows(subs, n, m, c1),
        forall|k: int| 0 <= k < n ==> pushed_rows(subs, k, m, c0) == pushed_rows(subs, k, m, c1),
    decreases n,
{
    if n > 0 {
        lemma_scan_context_free(subs, m, c0, c1, n - 1);
        let k = n - 1;
        let s = subs[k];
        if s.excluded_by is None && s.subnet_cidr is Some {
            let st0 = scan_state(subs, k, c0);
            let st1 = scan_state(subs, k, c1);
            if st0.1.vnet_cidr is None {
                lemma_gap_rows_no_prev(
                    gap_blocks(st0.0 as nat, s.subnet_cidr->0.lo_spec(), m as nat),
                    s,
                    st0.1,
                    st1.1,
                );
            }
        }
    }
}

/// The rows of the gap-finding pass over the subnets that are not
/// excluded, with the trailing rows of the last VNet_CIDR.
pub fn gap_finder_pass(subs: &Vec<Subnet>, gap_cidr_mask: u8) -> (r: Vec<SubnetPrintRow>)
    requires
        scan_ok(subs@, gap_cidr_mask, empty_context()),
    ensures
        row_views(r@) == gap_finder_rows(subs@, gap_cidr_mask),
{
    let mut gf = GapFinder::new(gap_cidr_mask);
    let ghost c0 = gf.context_spec();
    proof {
        assert(exists|c: PrevVnetContext| c.vnet_cidr is None) by {
            assert(c0.vnet_cidr is None);
        }
        lemma_scan_context_free(subs@, gap_cidr_mask, c0, empty_context(), subs@.len() as int);
    }
    let mut rows: Vec<SubnetPrintRow> = Vec::new();
    let mut i: usize = 0;
    while i < subs.len()
        invariant
            i <= subs@.len(),
            c0.vnet_cidr is None,
            gf.gap_mask_spec() == gap_cidr_mask,
            scan_ok(subs@, gap_cidr_mask, empty_context()),
            forall|k: int| 0 <= k < subs@.len() ==> pushed_rows(subs@, k, gap_cidr_mask, c0) == pushed_rows(subs@, k, gap_cidr_mask, empty_context()),
            scan_state(subs@, subs@.len() as int, c0).0 == scan_state(subs@, subs@.len() as int, empty_context()).0,
            scan_state(subs@, subs@.len() as int, c0).1.vnet_cidr is None <==> scan_state(subs@, subs@.len() as int, empty_context()).1.vnet_cidr is None,
            scan_state(subs@, subs@.len() as int, c0).1.vnet_cidr is Some ==> scan_state(subs@, subs@.len() as int, c0).1 == scan_state(subs@, subs@.len() as int, empty_context()).1,
            gf.next_ip_spec() == scan_state(subs@, i as int, c0).0,
            gf.context_spec() == scan_state(subs@, i as int, c0).1,
            row_views(rows@) == scan_rows(subs@, i as int, gap_cidr_mask, c0),
        decreases subs@.len() - i,
    {
        let s = &subs[i];
        proof {
            lemma_scan_context_free(subs@, gap_cidr_mask, c0, empty_context(), i as int);
        }
        if s.excluded_by.is_none() {
            assert(subs@[i as int].excluded_by is None);
            let ghost before = row_views(rows@);
            let mut pushed = gf.push(s, i);
            rows.append(&mut pushed);
            assert(row_views(rows@) =~= before + pushed_rows(subs@, i as int, gap_cidr_mask, c0));
        } else {
            assert(pushed_rows(subs@, i as int, gap_cidr_mask, c0) =~= Seq::<RowView>::empty());
            assert(row_views(rows@) =~= scan_rows(subs@, i as int, gap_cidr_mask, c0) + pushed_rows(subs@, i as int, gap_cidr_mask, c0));
        }
        i += 1;
    }
    let ghost before = row_views(rows@);
    let mut tail = gf.finish();
    rows.append(&mut tail);
    proof {
        assert(row_views(rows@) =~= before + trailing_rows(subs@, gap_cidr_mask, c0));
        let st0 = scan_state(subs@, subs@.len() as int, c0);
        let st1 = scan_state(subs@, subs@.len() as int, empty_context());
        if st0.1.vnet_cidr is None {
            assert(trailing_rows(subs@, gap_cidr_mask, c0) =~= trailing_rows(subs@, gap_cidr_mask, empty_context()));
        }
    }
    rows
}


/// The winner named by an excluded subnet (`?` when none is named).
pub open spec fn winner_of(s: Subnet) -> Seq<char> {
    match s.excluded_by {
        Some(w) => w@,
        None => "?"@,
    }
}

/// The winners of the excluded subnets, in order of first appearance.
pub open spec fn winners(subs: Seq<Subnet>) -> Seq<Seq<char>>
    decreases subs.len(),
{
    if subs.len() == 0 {
        Seq::empty()
    } else {
        let w = winners(subs.drop_last());
        if subs.last().excluded_by is Some && !w.contains(winner_of(subs.last())) {
            w.push(winner_of(subs.last()))
        } else {
            w
        }
    }
}

/// The rows of the subnets excluded in favour of `w`, in order.
pub open spec fn dup_group(subs: Seq<Subnet>, w: Seq<char>) -> Seq<RowView>
    decreases subs.len(),
{
    if subs.len() == 0 {
        Seq::empty()
    } else {
        let g = dup_group(subs.drop_last(), w);
        if subs.last().excluded_by is Some && winner_of(subs.last()) == w {
            g.push(dup_row(subs.last()))
        } else {
            g
        }
    }
}

/// Position of the last row of VNet `w`, or -1.
pub open spec fn last_vnet_row(rows: Seq<RowView>, w: Seq<char>) -> int
    decreases rows.len(),
{
    if rows.len() == 0 {
        -1
    } else if rows.last().vnet_name == w {
        rows.len() - 1
    } else {
        last_vnet_row(rows.drop_last(), w)
    }
}

/// Where the rows excluded in favour of `w` go: after the last row of VNet
/// `w`, or at the end.
pub open spec fn dup_pos(rows: Seq<RowView>, w: Seq<char>) -> int {
    let k = last_vnet_row(rows, w);
    if k >= 0 {
        k + 1
    } else {
        rows.len() as int
    }
}

/// The duplicate rows that go at position `p`: the groups of the winners
/// whose rows go there, the later winner first.
pub open spec fn dups_at(rows: Seq<RowView>, subs: Seq<Subnet>, ws: Seq<Seq<char>>, p: int) -> Seq<RowView>
    decreases ws.len(),
{
    if ws.len() == 0 {
        Seq::empty()
    } else {
        let here = if dup_pos(rows, ws.last()) == p {
            dup_group(subs, ws.last())
        } else {
            Seq::empty()
        };
        here + dups_at(rows, subs, ws.drop_last(), p)
    }
}

/// The first `n` rows with the duplicate rows placed among them.
pub open spec fn spliced(rows: Seq<RowView>, subs: Seq<Subnet>, n: int) -> Seq<RowView>
    decreases n,
{
    if n <= 0 {
        dups_at(rows, subs, winners(subs), 0)
    } else {
        spliced(rows, subs, n - 1) + seq![rows[n - 1]] + dups_at(rows, subs, winners(subs), n)
    }
}

/// The rows with the rows of the excluded subnets placed after the last row
/// of their winner's VNet.
pub open spec fn with_dup_rows(rows: Seq<RowView>, subs: Seq<Subnet>) -> Seq<RowView> {
    spliced(rows, subs, rows.len() as int)
}

proof fn lemma_dup_pos(rows: Seq<RowView>, w: Seq<char>, k: int)
    requires
        0 <= k <= rows.len(),
        forall|q: int| k <= q < rows.len() ==> (#[trigger] rows[q]).vnet_name != w,
        k > 0 ==> rows[k - 1].vnet_name == w,
    ensures
        last_vnet_row(rows, w) == k - 1,
    decreases rows.len(),
{
    if rows.len() > 0 && k < rows.len() {
        let pre = rows.drop_last();
        assert forall|q: int| k <= q < pre.len() implies (#[trigger] pre[q]).vnet_name != w by {
            assert(pre[q] == rows[q]);
        }
        if k > 0 {
            assert(pre[k - 1] == rows[k - 1]);
        }
        lemma_dup_pos(pre, w, k);
        assert(rows.last() == rows[rows.len() - 1]);
    }
}

/// Where the rows excluded in favour of `w` go.
fn dup_position(rows: &Vec<SubnetPrintRow>, w: &str) -> (r: usize)
    ensures
        r as int == dup_pos(row_views(rows@), w@),
{
    let mut k: usize = rows.len();
    while k > 0 && !crate::text::str_eq(rows[k - 1].vnet_name.as_str(), w)
        invariant
            k <= rows@.len(),
            forall|q: int| k <= q < rows@.len() ==> (#[trigger] row_views(rows@)[q]).vnet_name != w@,
        decreases k,
    {
        k -= 1;
    }
    proof {
        lemma_dup_pos(row_views(rows@), w@, k as int);
    }
    if k > 0 {
        k
    } else {
        rows.len()
    }
}

/// The winners of the excluded subnets (in order of first appearance) and
/// the rows of each winner's excluded subnets.
pub(crate) fn dup_groups(subs: &Vec<Subnet>) -> (r: (Vec<String>, Vec<Vec<SubnetPrintRow>>))
    ensures
        r.0@.len() == r.1@.len(),
        crate::text::string_views(r.0@) == winners(subs@),
        forall|i: int| 0 <= i < r.1@.len() ==> row_views(#[trigger] r.1@[i]@) == dup_group(subs@, r.0@[i]@),
{
    let mut names: Vec<String> = Vec::new();
    let mut groups: Vec<Vec<SubnetPrintRow>> = Vec::new();
    let mut k: usize = 0;
    assert(subs@.subrange(0, 0) =~= Seq::<Subnet>::empty());
    assert(crate::text::string_views(names@) =~= winners(subs@.subrange(0, 0)));
    while k < subs.len()
        invariant
            k <= subs@.len(),
            names@.len() == groups@.len(),
            crate::text::string_views(names@) == winners(subs@.subrange(0, k as int)),
            forall|a: int, b: int| 0 <= a < b < names@.len() ==> (#[trigger] names@[a])@ != (#[trigger] names@[b])@,
            forall|i: int| 0 <= i < groups@.len() ==> row_views(#[trigger] groups@[i]@) == dup_group(subs@.subrange(0, k as int), names@[i]@),
        decreases subs@.len() - k,
    {
        let s = &subs[k];
        let ghost pre = subs@.subrange(0, k as int);
        let ghost now = subs@.subrange(0, k + 1);
        assert(now.drop_last() =~= pre);
        assert(now.last() == *s);
        let ghost ws = crate::text::string_views(names@);
        if s.excluded_by.is_some() {
            let w: &str = match &s.excluded_by {
                Some(x) => x.as_str(),
                None => "?",
            };
            let row = make_dup_row(s);
            let mut p: usize = 0;
            while p < names.len() && !crate::text::str_eq(names[p].as_str(), w)
                invariant
                    p <= names@.len(),
                    ws == crate::text::string_views(names@),
                    forall|q: int| 0 <= q < p ==> ws[q] != w@,
                decreases names@.len() - p,
            {
                p += 1;
            }
            if p < names.len() {
                assert(ws.contains(w@)) by {
                    assert(ws[p as int] == w@);
                }
                let ghost old_groups = groups@;
                let mut g: Vec<SubnetPrintRow> = Vec::new();
                std::mem::swap(&mut g, &mut groups[p]);
                g.push(row);
                groups.set(p, g);
                assert forall|i: int| 0 <= i < groups@.len() implies row_views(#[trigger] groups@[i]@) == dup_group(now, names@[i]@) by {
                    if i == p {
                        assert(row_views(groups@[i]@) =~= row_views(old_groups[i]@).push(dup_row(*s)));
                    } else {
                        assert(groups@[i] == old_groups[i]);
                        assert(names@[i]@ != w@) by {
                            assert(ws[i] == names@[i]@);
                            assert(names@[p as int]@ == w@);
                        }
                    }
                }
            } else {
                assert(!ws.contains(w@));
                let ghost old_groups = groups@;
                let ghost old_names = names@;
                names.push(w.to_owned());
                let mut g: Vec<SubnetPrintRow> = Vec::new();
                g.push(row);
                groups.push(g);
                assert(crate::text::string_views(names@) =~= ws.push(w@));
                assert forall|a: int, b: int| 0 <= a < b < names@.len() implies (#[trigger] names@[a])@ != (#[trigger] names@[b])@ by {
                    if b == names@.len() - 1 {
                        assert(names@[a] == old_names[a]);
                        assert(ws[a] == old_names[a]@);
                    } else {
                        assert(names@[a] == old_names[a] && names@[b] == old_names[b]);
                    }
                }
                assert forall|i: int| 0 <= i < groups@.len() implies row_views(#[trigger] groups@[i]@) == dup_group(now, names@[i]@) by {
                    if i == groups@.len() - 1 {
                        assert(dup_group(pre, w@) =~= Seq::<RowView>::empty()) by {
                            lemma_dup_group_absent(pre, w@);
                        }
                        assert(row_views(groups@[i]@) =~= seq![dup_row(*s)]);
                    } else {
                        assert(groups@[i] == old_groups[i]);
                        assert(names@[i] == old_names[i]);
                        assert(names@[i]@ != w@) by {
                            assert(ws[i] == old_names[i]@);
                        }
                    }
                }
            }
        } else {
            assert forall|i: int| 0 <= i < groups@.len() implies row_views(#[trigger] groups@[i]@) == dup_group(now, names@[i]@) by {
            }
        }
        k += 1;
    }
    assert(subs@.subrange(0, subs@.len() as int) =~= subs@);
    (names, groups)
}

proof fn lemma_dup_group_absent(subs: Seq<Subnet>, w: Seq<char>)
    requires
        !winners(subs).contains(w),
    ensures
        dup_group(subs, w) == Seq::<RowView>::empty(),
    decreases subs.len(),
{
    if subs.len() > 0 {
        let pre = subs.drop_last();
        let ws = winners(pre);
        if ws.contains(w) {
            let i = choose|i: int| 0 <= i < ws.len() && ws[i] == w;
            assert(winners(subs).contains(w)) by {
                if subs.last().excluded_by is Some && !ws.contains(winner_of(subs.last())) {
                    assert(winners(subs)[i] == w);
                } else {
                    assert(winners(subs)[i] == w);
                }
            }
        }
        lemma_dup_group_absent(pre, w);
        if subs.last().excluded_by is Some && winner_of(subs.last()) == w {
            if !ws.contains(w) {
                assert(winners(subs) == ws.push(w));
                assert(winners(subs)[ws.len() as int] == w);
            }
        }
    }
}


/// The rows in reverse order.
fn reversed(v: Vec<SubnetPrintRow>) -> (r: Vec<SubnetPrintRow>)
    ensures
        r@.len() == v@.len(),
        forall|q: int| 0 <= q < v@.len() ==> #[trigger] r@[q] == v@[v@.len() - 1 - q],
{
    let ghost orig = v@;
    let mut src = v;
    let mut out: Vec<SubnetPrintRow> = Vec::new();
    while src.len() > 0
        invariant
            src@ == orig.subrange(0, src@.len() as int),
            out@.len() + src@.len() == orig.len(),
            forall|q: int| 0 <= q < out@.len() ==> #[trigger] out@[q] == orig[orig.len() - 1 - q],
        decreases src@.len(),
    {
        let ghost n = src@.len();
        let x = src.pop().unwrap();
        assert(x == orig[n - 1]);
        out.push(x);
        assert(src@ =~= orig.subrange(0, src@.len() as int));
    }
    out
}

proof fn lemma_dups_at_step(rows: Seq<RowView>, subs: Seq<Subnet>, ws: Seq<Seq<char>>, i: int, q: int)
    requires
        0 <= i < ws.len(),
    ensures
        dups_at(rows, subs, ws.subrange(0, i + 1), q) == (if dup_pos(rows, ws[i]) == q {
            dup_group(subs, ws[i])
        } else {
            Seq::empty()
        }) + dups_at(rows, subs, ws.subrange(0, i), q),
{
    let w1 = ws.subrange(0, i + 1);
    assert(w1.drop_last() =~= ws.subrange(0, i));
    assert(w1.last() == ws[i]);
}

/// Appends the duplicate rows that go at position `q`, taking them out of
/// `groups`.
fn append_dups_at(
    out: &mut Vec<SubnetPrintRow>,
    groups: &mut Vec<Vec<SubnetPrintRow>>,
    positions: &Vec<usize>,
    q: usize,
    Ghost(rows): Ghost<Seq<RowView>>,
    Ghost(subs): Ghost<Seq<Subnet>>,
    Ghost(ws): Ghost<Seq<Seq<char>>>,
)
    requires
        old(groups)@.len() == positions@.len() == ws.len(),
        forall|i: int| 0 <= i < ws.len() ==> #[trigger] positions@[i] as int == dup_pos(rows, ws[i]),
        forall|i: int|
            0 <= i < ws.len() && positions@[i] >= q ==> row_views(#[trigger] old(groups)@[i]@)
                == dup_group(subs, ws[i]),
    ensures
        row_views(final(out)@) == row_views(old(out)@) + dups_at(rows, subs, ws, q as int),
        final(groups)@.len() == ws.len(),
        forall|i: int|
            0 <= i < ws.len() && positions@[i] > q ==> #[trigger] final(groups)@[i] == old(groups)@[i],
{
    let ghost start = row_views(out@);
    let ghost g0 = groups@;
    let mut i: usize = groups.len();
    assert(ws.subrange(0, ws.len() as int) =~= ws);
    while i > 0
        invariant
            i <= ws.len(),
            groups@.len() == positions@.len() == ws.len(),
            g0.len() == ws.len(),
            forall|j: int| 0 <= j < ws.len() ==> #[trigger] positions@[j] as int == dup_pos(rows, ws[j]),
            forall|j: int|
                0 <= j < ws.len() && positions@[j] >= q ==> row_views(#[trigger] g0[j]@) == dup_group(subs, ws[j]),
            forall|j: int| 0 <= j < i ==> #[trigger] groups@[j] == g0[j],
            forall|j: int| 0 <= j < ws.len() && positions@[j] != q ==> #[trigger] groups@[j] == g0[j],
            start + dups_at(rows, subs, ws, q as int) == row_views(out@) + dups_at(
                rows,
                subs,
                ws.subrange(0, i as int),
                q as int,
            ),
        decreases i,
    {
        i -= 1;
        proof {
            lemma_dups_at_step(rows, subs, ws, i as int, q as int);
        }
        if positions[i] == q {
            let ghost before = row_views(out@);
            let mut g: Vec<SubnetPrintRow> = Vec::new();
            std::mem::swap(&mut g, &mut groups[i]);
            assert(g@ == g0[i as int]@);
            out.append(&mut g);
            assert(row_views(out@) =~= before + dup_group(subs, ws[i as int]));
        }
    }
    assert(ws.subrange(0, 0) =~= Seq::<Seq<char>>::empty());
    assert(row_views(out@) =~= start + dups_at(rows, subs, ws, q as int));
}

/// The rows with the rows of the excluded subnets placed after the last row
/// of their winner's VNet (the later winner first where two share a place).
pub fn insert_dup_rows(rows: Vec<SubnetPrintRow>, subs: &Vec<Subnet>) -> (r: Vec<SubnetPrintRow>)
    ensures
        row_views(r@) == with_dup_rows(row_views(rows@), subs@),
{
    let ghost base = row_views(rows@);
    let (names, mut groups) = dup_groups(subs);
    let ghost ws = crate::text::string_views(names@);
    let mut positions: Vec<usize> = Vec::new();
    let mut i: usize = 0;
    while i < names.len()
        invariant
            i <= names@.len(),
            ws == crate::text::string_views(names@),
            base == row_views(rows@),
            positions@.len() == i,
            forall|j: int| 0 <= j < i ==> #[trigger] positions@[j] as int == dup_pos(base, ws[j]),
        decreases names@.len() - i,
    {
        let p = dup_position(&rows, names[i].as_str());
        positions.push(p);
        i += 1;
    }
    let n = rows.len();
    let mut rev = reversed(rows);
    let mut out: Vec<SubnetPrintRow> = Vec::new();
    append_dups_at(&mut out, &mut groups, &positions, 0, Ghost(base), Ghost(subs@), Ghost(ws));
    assert(row_views(out@) =~= spliced(base, subs@, 0));
    let mut p: usize = 0;
    while p < n
        invariant
            p <= n == base.len(),
            ws == winners(subs@),
            groups@.len() == positions@.len() == ws.len(),
            forall|j: int| 0 <= j < ws.len() ==> #[trigger] positions@[j] as int == dup_pos(base, ws[j]),
            forall|j: int|
                0 <= j < ws.len() && positions@[j] > p ==> row_views(#[trigger] groups@[j]@) == dup_group(subs@, ws[j]),
            rev@.len() == n - p,
            forall|q: int| 0 <= q < n - p ==> (#[trigger] rev@[q])@ == base[n - 1 - q],
            row_views(out@) == spliced(base, subs@, p as int),
        decreases n - p,
    {
        let ghost m = rev@.len();
        let x = rev.pop().unwrap();
        assert(x@ == base[p as int]);
        let ghost before = row_views(out@);
        out.push(x);
        append_dups_at(&mut out, &mut groups, &positions, p + 1, Ghost(base), Ghost(subs@), Ghost(ws));
        assert(row_views(out@) =~= spliced(base, subs@, p + 1));
        p += 1;
    }
    out
}


/// The row of a vWAN hub's address space.
pub open spec fn hub_row(h: VWanRow, broadcast: Seq<char>, az_hosts: usize) -> RowView {
    RowView {
        j: 0,
        gap: "VWAN_HUB"@,
        subnet_cidr: h.hub_address_prefix@,
        broadcast,
        az_hosts,
        subnet_name: "vWAN Hub:"@ + h.hub_name@,
        subscription_name: h.subscription_name@,
        vnet_cidr: h.hub_address_prefix@,
        vnet_name: if h.virtual_wan_name@.len() == 0 {
            h.hub_name@
        } else {
            h.virtual_wan_name@
        },
        location: h.location@,
        nsg: "None"@,
        dns: "None"@,
        subscription_id: h.subscription_id@,
        ip_configurations_count: 0,
    }
}

/// Usable Azure hosts of a block of prefix length `l` (at least 0).
pub open spec fn usable_hosts(l: u8) -> nat {
    if block_size(l as nat) >= 5 {
        (block_size(l as nat) - 5) as nat
    } else {
        0
    }
}

/// The hubs with a readable address prefix, each with its network address
/// and row.
pub open spec fn hub_entries(hubs: Seq<VWanRow>) -> Seq<(u32, RowView)>
    decreases hubs.len(),
{
    if hubs.len() == 0 {
        Seq::empty()
    } else {
        let pre = hub_entries(hubs.drop_last());
        let h = hubs.last();
        if h.hub_address_prefix@.len() > 0 && cidr_parts(h.hub_address_prefix@) is Some {
            let parts = cidr_parts(h.hub_address_prefix@)->0;
            let a = parts.0;
            let l = parts.1;
            pre.push(
                (
                    (a - a % block_size(l as nat)) as u32,
                    hub_row(h, addr_text(bcast_of(a, l as nat)), usable_hosts(l) as usize),
                ),
            )
        } else {
            pre
        }
    }
}

/// Where a stable insertion by address puts entry `x`.
pub open spec fn entry_insert_pos(s: Seq<(u32, RowView)>, x: (u32, RowView)) -> nat
    decreases s.len(),
{
    if s.len() == 0 || !(s[0].0 < x.0) {
        0
    } else {
        1 + entry_insert_pos(s.drop_first(), x)
    }
}

/// The entries stably sorted by address.
pub open spec fn entries_by_address(s: Seq<(u32, RowView)>) -> Seq<(u32, RowView)>
    decreases s.len(),
{
    if s.len() == 0 {
        s
    } else {
        let t = entries_by_address(s.drop_first());
        t.insert(entry_insert_pos(t, s[0]) as int, s[0])
    }
}

/// The block text starts at or below `ip`.
pub open spec fn block_at_most(t: Seq<char>, ip: u32) -> bool {
    cidr_start(t) matches Some(x) && x <= ip
}

/// Position of the last row whose block starts at or below `ip`, or -1.
pub open spec fn last_row_at_most(rows: Seq<RowView>, ip: u32) -> int
    decreases rows.len(),
{
    if rows.len() == 0 {
        -1
    } else if block_at_most(rows.last().subnet_cidr, ip) {
        rows.len() - 1
    } else {
        last_row_at_most(rows.drop_last(), ip)
    }
}

/// The rows with the hub entries inserted, the last entry first, each after
/// the last row whose block starts at or below the hub's address.
pub open spec fn insert_hubs(rows: Seq<RowView>, es: Seq<(u32, RowView)>) -> Seq<RowView>
    decreases es.len(),
{
    if es.len() == 0 {
        rows
    } else {
        let e = es.last();
        insert_hubs(rows.insert(last_row_at_most(rows, e.0) + 1, e.1), es.drop_last())
    }
}

/// The views of hub entries.
pub open spec fn entry_views(v: Seq<(u32, SubnetPrintRow)>) -> Seq<(u32, RowView)> {
    v.map_values(|e: (u32, SubnetPrintRow)| (e.0, e.1@))
}

fn make_hub_row(h: &VWanRow, broadcast: String, az_hosts: usize) -> (r: SubnetPrintRow)
    ensures
        r@ == hub_row(*h, broadcast@, az_hosts),
{
    let mut name = chars_of("vWAN Hub:");
    append_str(&mut name, h.hub_name.as_str());
    let vnet_name = if h.virtual_wan_name.as_str().is_empty() {
        h.hub_name.clone()
    } else {
        h.virtual_wan_name.clone()
    };
    SubnetPrintRow {
        j: 0,
        gap: "VWAN_HUB".to_owned(),
        subnet_cidr: h.hub_address_prefix.clone(),
        broadcast,
        az_hosts,
        subnet_name: string_from_chars(name.as_slice()),
        subscription_name: h.subscription_name.clone(),
        vnet_cidr: h.hub_address_prefix.clone(),
        vnet_name,
        location: h.location.clone(),
        nsg: "None".to_owned(),
        dns: "None".to_owned(),
        subscription_id: h.subscription_id.clone(),
        ip_configurations_count: 0,
    }
}


/// The hubs with a readable address prefix, with their network addresses
/// and rows.
fn collect_hub_entries(vwan: &[VWanRow]) -> (r: Vec<(u32, SubnetPrintRow)>)
    ensures
        entry_views(r@) == hub_entries(vwan@),
{
    let mut out: Vec<(u32, SubnetPrintRow)> = Vec::new();
    let mut k: usize = 0;
    assert(vwan@.subrange(0, 0) =~= Seq::<VWanRow>::empty());
    while k < vwan.len()
        invariant
            k <= vwan@.len(),
            entry_views(out@) == hub_entries(vwan@.subrange(0, k as int)),
        decreases vwan@.len() - k,
    {
        let h = &vwan[k];
        let ghost pre = vwan@.subrange(0, k as int);
        let ghost now = vwan@.subrange(0, k + 1);
        assert(now.drop_last() =~= pre);
        assert(now.last() == *h);
        if !h.hub_address_prefix.as_str().is_empty() {
            match parse_cidr(h.hub_address_prefix.as_str()) {
                Some((start, _len, broadcast, hosts)) => {
                    let row = make_hub_row(h, broadcast, hosts);
                    let ghost before = entry_views(out@);
                    out.push((start, row));
                    assert(entry_views(out@) =~= before.push((start, row@)));
                },
                None => {},
            }
        }
        k += 1;
    }
    assert(vwan@.subrange(0, vwan@.len() as int) =~= vwan@);
    out
}

proof fn lemma_entry_insert_pos(t: Seq<(u32, RowView)>, x: (u32, RowView), p: int)
    requires
        0 <= p <= t.len(),
        forall|q: int| 0 <= q < p ==> (#[trigger] t[q]).0 < x.0,
        p == t.len() || !(t[p].0 < x.0),
    ensures
        entry_insert_pos(t, x) == p,
    decreases p,
{
    if p > 0 {
        let u = t.drop_first();
        assert forall|q: int| 0 <= q < p - 1 implies (#[trigger] u[q]).0 < x.0 by {
            assert(u[q] == t[q + 1]);
        }
        if p < t.len() {
            assert(u[p - 1] == t[p]);
        }
        lemma_entry_insert_pos(u, x, p - 1);
    }
}

/// The hub entries stably sorted by address.
fn sort_entries(v: Vec<(u32, SubnetPrintRow)>) -> (r: Vec<(u32, SubnetPrintRow)>)
    ensures
        entry_views(r@) == entries_by_address(entry_views(v@)),
{
    let ghost s = entry_views(v@);
    let mut src = v;
    let mut out: Vec<(u32, SubnetPrintRow)> = Vec::new();
    assert(s.subrange(s.len() as int, s.len() as int) =~= Seq::<(u32, RowView)>::empty());
    while src.len() > 0
        invariant
            src@.len() <= s.len(),
            entry_views(src@) == s.subrange(0, src@.len() as int),
            entry_views(out@) == entries_by_address(s.subrange(src@.len() as int, s.len() as int)),
        decreases src@.len(),
    {
        let ghost k = src@.len() - 1;
        let ghost before = src@;
        let x = src.pop().unwrap();
        assert(entry_views(before)[k] == s[k]);
        assert(entry_views(src@) =~= s.subrange(0, src@.len() as int)) by {
            assert(src@ =~= before.subrange(0, k));
        }
        let ghost ov = entry_views(out@);
        let mut p: usize = 0;
        while p < out.len() && out[p].0 < x.0
            invariant
                p <= out@.len(),
                ov == entry_views(out@),
                forall|q: int| 0 <= q < p ==> (#[trigger] ov[q]).0 < x.0,
            decreases out@.len() - p,
        {
            p += 1;
        }
        proof {
            lemma_entry_insert_pos(ov, (x.0, x.1@), p as int);
            let whole = s.subrange(k, s.len() as int);
            assert(whole.drop_first() =~= s.subrange(k + 1, s.len() as int));
            assert(whole[0] == (x.0, x.1@));
        }
        let ghost xv = (x.0, x.1@);
        out.insert(p, x);
        assert(entry_views(out@) =~= ov.insert(p as int, xv));
    }
    assert(s.subrange(0, s.len() as int) =~= s);
    out
}

proof fn lemma_last_row_at_most(rows: Seq<RowView>, ip: u32, k: int)
    requires
        0 <= k <= rows.len(),
        forall|q: int| k <= q < rows.len() ==> !block_at_most(#[trigger] rows[q].subnet_cidr, ip),
        k > 0 ==> block_at_most(rows[k - 1].subnet_cidr, ip),
    ensures
        last_row_at_most(rows, ip) == k - 1,
    decreases rows.len(),
{
    if rows.len() > 0 && k < rows.len() {
        let pre = rows.drop_last();
        assert forall|q: int| k <= q < pre.len() implies !block_at_most(#[trigger] pre[q].subnet_cidr, ip) by {
            assert(pre[q] == rows[q]);
        }
        if k > 0 {
            assert(pre[k - 1] == rows[k - 1]);
        }
        lemma_last_row_at_most(pre, ip, k);
        assert(rows.last() == rows[rows.len() - 1]);
    }
}

/// Whether the block of a row starts at or below `ip`.
fn starts_at_most(row: &SubnetPrintRow, ip: u32) -> (r: bool)
    ensures
        r == block_at_most(row@.subnet_cidr, ip),
{
    match cidr_start_u32(row.subnet_cidr.as_str()) {
        Some(x) => x <= ip,
        None => false,
    }
}

/// Inserts the hub rows, the last entry first, each after the last row
/// whose block starts at or below the hub's address.
pub fn insert_hub_rows(rows: Vec<SubnetPrintRow>, entries: Vec<(u32, SubnetPrintRow)>) -> (r: Vec<
    SubnetPrintRow,
>)
    ensures
        row_views(r@) == insert_hubs(row_views(rows@), entry_views(entries@)),
{
    let ghost es0 = entry_views(entries@);
    let mut rows = rows;
    let mut entries = entries;
    let ghost target = insert_hubs(row_views(rows@), es0);
    while entries.len() > 0
        invariant
            insert_hubs(row_views(rows@), entry_views(entries@)) == target,
        decreases entries@.len(),
    {
        let ghost ev = entry_views(entries@);
        let ghost before = entries@;
        let (ip, row) = entries.pop().unwrap();
        assert(entry_views(entries@) =~= ev.drop_last()) by {
            assert(entries@ =~= before.subrange(0, before.len() - 1));
        }
        assert(ev.last() == (ip, row@));
        let mut k: usize = rows.len();
        while k > 0 && !starts_at_most(&rows[k - 1], ip)
            invariant
                k <= rows@.len(),
                forall|q: int| k <= q < rows@.len() ==> !block_at_most(#[trigger] row_views(rows@)[q].subnet_cidr, ip),
            decreases k,
        {
            k -= 1;
        }
        proof {
            lemma_last_row_at_most(row_views(rows@), ip, k as int);
        }
        let ghost rv = row_views(rows@);
        let ghost rowv = row@;
        rows.insert(k, row);
        assert(row_views(rows@) =~= rv.insert(k as int, rowv));
    }
    rows
}

/// The rows of the CSV file: the gap-finding pass over the subnets that are
/// not excluded, the rows of the excluded subnets after the last row of
/// their winner's VNet, and the rows of the vWAN hubs by start address.
pub fn subnet_print_rows(data: &Data, gap_cidr_mask: u8, vwan: &[VWanRow]) -> (r: Vec<SubnetPrintRow>)
    requires
        scan_ok(data.data@, gap_cidr_mask, empty_context()),
    ensures
        row_views(r@) == insert_hubs(
            with_dup_rows(gap_finder_rows(data.data@, gap_cidr_mask), data.data@),
            entries_by_address(hub_entries(vwan@)),
        ),
{
    let rows = gap_finder_pass(&data.data, gap_cidr_mask);
    let rows = insert_dup_rows(rows, &data.data);
    let entries = collect_hub_entries(vwan);
    let entries = sort_entries(entries);
    insert_hub_rows(rows, entries)
}


/// Whether subnet `s` (number `i`) can be processed from `ip` after a
/// subnet of VNet_CIDR `prev_vnet`.
fn row_ok_exec(s: &Subnet, i: usize, ip: u32, prev_vnet: Option<Ipv4>, m: u8, Ghost(prev): Ghost<PrevVnetContext>) -> (r: bool)
    requires
        prev.vnet_cidr == prev_vnet,
    ensures
        r == subnet_row_ok(*s, i, ip, prev, m),
{
    if i == usize::MAX {
        return false;
    }
    match s.subnet_cidr {
        None => true,
        Some(c) => {
            if c.mask > MAX_LENGTH || c.mask == 0 || c.mask >= 30 || ip > c.addr {
                return false;
            }
            if next_subnet_ipv4(c, None).is_err() {
                return false;
            }
            let lo = c.lo();
            if ip < lo {
                if m > 32 || s.vnet_cidr.mask > MAX_LENGTH {
                    return false;
                }
                match prev_vnet {
                    Some(v) => {
                        if v.mask > MAX_LENGTH {
                            return false;
                        }
                    },
                    None => {},
                }
                blocks_hostable_before(ip, m, c)
            } else {
                true
            }
        },
    }
}

/// Whether the trailing rows of `vnet_cidr` from `ip` can be reported.
fn trailing_ok_exec(ip: u32, vnet_cidr: Ipv4, m: u8) -> (r: bool)
    ensures
        r == trailing_vgap_ok(ip, vnet_cidr, m),
{
    if vnet_cidr.mask > MAX_LENGTH {
        return false;
    }
    let hi = vnet_cidr.hi();
    if ip <= hi {
        if m > 32 || hi == 0xffff_ffff {
            return false;
        }
        blocks_hostable_within(ip, m, vnet_cidr)
    } else {
        true
    }
}

/// Whether the gap-finding pass can report every row of the subnets (what
/// [`subnet_print_rows`] needs).
pub fn scan_check(subs: &Vec<Subnet>, m: u8) -> (r: bool)
    ensures
        r == scan_ok(subs@, m, empty_context()),
{
    let witness = PrevVnetContext::default();
    proof {
        assert(exists|c: PrevVnetContext| c.vnet_cidr is None) by {
            assert(witness.vnet_cidr is None);
        }
    }
    let ghost c0 = empty_context();
    let mut ip: u32 = SCAN_START;
    let mut vnet: Option<Ipv4> = None;
    let mut k: usize = 0;
    while k < subs.len()
        invariant
            k <= subs@.len(),
            c0 == empty_context(),
            c0.vnet_cidr is None,
            ip == scan_state(subs@, k as int, c0).0,
            vnet == scan_state(subs@, k as int, c0).1.vnet_cidr,
            forall|j: int|
                0 <= j < k && (#[trigger] subs@[j]).excluded_by is None ==> subnet_row_ok(
                    subs@[j],
                    j as usize,
                    scan_state(subs@, j, c0).0,
                    scan_state(subs@, j, c0).1,
                    m,
                ),
        decreases subs@.len() - k,
    {
        let s = &subs[k];
        if s.excluded_by.is_none() {
            let ok = row_ok_exec(s, k, ip, vnet, m, Ghost(scan_state(subs@, k as int, c0).1));
            if !ok {
                assert(!scan_ok(subs@, m, c0)) by {
                    assert(subs@[k as int].excluded_by is None);
                }
                return false;
            }
            match s.subnet_cidr {
                Some(c) => {
                    let n = next_subnet_ipv4(c, None).unwrap();
                    ip = n.addr;
                    vnet = Some(s.vnet_cidr);
                },
                None => {},
            }
        }
        k += 1;
    }
    match vnet {
        Some(v) => trailing_ok_exec(ip, v, m),
        None => true,
    }
}

} // verus!
