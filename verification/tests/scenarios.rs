use azure_subnet_summary::azure::graph::Data;
use azure_subnet_summary::azure::peering_graph::PeeringEdge;
use azure_subnet_summary::models::ipv4::Ipv4;
use azure_subnet_summary::models::subnet::Subnet;
use azure_subnet_summary::output::csv::{csv_line, subnet_print_rows};
use azure_subnet_summary::output::validate_dot::validate_dot_content;
use azure_subnet_summary::processing::gap_finder::{
    find_biggest_subnet, gaps, process_subnet_row, GapFinder, GapKind, PrevVnetContext, VnetCidr,
};
use azure_subnet_summary::processing::overlap::{find_overlapping_vnets, resolve_overlapping_vnets, ExcludedSubnet};
use azure_subnet_summary::processing::vnet::{format_vnets, get_vnets};

fn addr(a: u8, b: u8, c: u8, d: u8) -> u32 {
    u32::from_be_bytes([a, b, c, d])
}

fn make_subnet(cidr: &str, vnet_cidr: &str, vnet_name: &str, subnet_name: &str) -> Subnet {
    let mut s = Subnet::default();
    s.vnet_name = vnet_name.to_string();
    s.vnet_cidr = Ipv4::new(vnet_cidr).unwrap();
    s.subnet_name = subnet_name.to_string();
    s.subnet_cidr = Some(Ipv4::new(cidr).unwrap());
    s
}

const SKIP: u32 = 0x0a11_ffff;

// ─── peering edges ──────────────────────────────────────────────────────────

#[test]
fn remote_vnet_name_from_arm_id() {
    let edge = PeeringEdge {
        remote_vnet_id: "/subscriptions/aaaa-1111/resourceGroups/rg/providers/Microsoft.Network/virtualNetworks/spoke-vnet".to_string(),
        ..Default::default()
    };
    assert_eq!(edge.remote_vnet_name(), "spoke-vnet");
}

#[test]
fn remote_subscription_id_from_arm_id() {
    let edge = PeeringEdge {
        remote_vnet_id: "/subscriptions/aaaa-1111/resourceGroups/rg/providers/Microsoft.Network/virtualNetworks/spoke-vnet".to_string(),
        ..Default::default()
    };
    assert_eq!(edge.remote_subscription_id(), "aaaa-1111");
}

#[test]
fn remote_vnet_name_empty_for_missing_id() {
    let edge = PeeringEdge::default();
    assert_eq!(edge.remote_vnet_name(), "");
    assert_eq!(edge.remote_subscription_id(), "");
}

#[test]
fn is_connected_true_only_for_connected_state() {
    let connected = PeeringEdge { peering_state: "Connected".to_string(), ..Default::default() };
    let initiated = PeeringEdge { peering_state: "Initiated".to_string(), ..Default::default() };
    assert!(connected.is_connected());
    assert!(!initiated.is_connected());
}

// ─── gap finder ─────────────────────────────────────────────────────────────

#[test]
fn test_find_biggest_subnet() {
    let start_ip = addr(10, 0, 0, 0);
    let below_subnet_cidr = Ipv4::new("10.0.1.0/24").unwrap();
    assert_eq!(24, find_biggest_subnet(start_ip, 8, below_subnet_cidr));
    assert_eq!(28, find_biggest_subnet(start_ip, 28, below_subnet_cidr));

    let start_ip = addr(10, 11, 12, 16);
    let below_subnet_cidr = Ipv4::new("10.11.16.0/24").unwrap();
    assert_eq!(28, find_biggest_subnet(start_ip, 8, below_subnet_cidr));

    let start_ip = addr(10, 11, 12, 0);
    let below_subnet_cidr = Ipv4::new("10.11.16.0/24").unwrap();
    assert_eq!(22, find_biggest_subnet(start_ip, 8, below_subnet_cidr));

    let start_ip = addr(10, 0, 0, 0);
    let below_subnet_cidr = Ipv4::new("10.11.16.0/24").unwrap();
    assert_eq!(13, find_biggest_subnet(start_ip, 8, below_subnet_cidr));

    let below_subnet_cidr = Ipv4::new("10.192.0.0/24").unwrap();
    assert_eq!(9, find_biggest_subnet(start_ip, 8, below_subnet_cidr));
    assert_eq!(12, find_biggest_subnet(start_ip, 12, below_subnet_cidr));
}

#[test]
fn test_find_biggest_subnet_alignment() {
    let start_ip = addr(10, 6, 2, 80);
    let below_subnet_cidr = Ipv4::new("10.6.8.0/24").unwrap();
    let mask = find_biggest_subnet(start_ip, 16, below_subnet_cidr);
    assert_eq!(28, mask, "10.6.2.80 can only be /28 or smaller due to alignment");
    let gap_subnet = Ipv4::new("10.6.2.80/28").unwrap();
    assert_eq!(gap_subnet.lo(), start_ip, "Network address should match start_ip");
    assert!(gap_subnet.hi() < below_subnet_cidr.lo(), "Gap should not overlap with next subnet");
}

#[test]
fn large_gap_with_mask_4_produces_fewer_rows_than_mask_16() {
    let s = make_subnet("10.5.0.0/24", "10.5.0.0/16", "vnet-b", "snet-b");
    let start = addr(10, 0, 0, 0);
    let (_, _, rows_4) = process_subnet_row(&s, 0, start, PrevVnetContext::default(), 4, SKIP);
    let (_, _, rows_16) = process_subnet_row(&s, 0, start, PrevVnetContext::default(), 16, SKIP);
    let gaps_4: Vec<_> = rows_4.iter().filter(|r| r.j == 0).collect();
    let gaps_16: Vec<_> = rows_16.iter().filter(|r| r.j == 0).collect();
    assert_eq!(gaps_16.len(), 5, "mask=16: one /16 row per class-B");
    assert_eq!(gaps_4.len(), 2, "mask=4: 10.0.0.0/14 + 10.4.0.0/16");
    assert_eq!(gaps_4[0].subnet_cidr, "10.0.0.0/14");
    assert_eq!(gaps_4[1].subnet_cidr, "10.4.0.0/16");
}

#[test]
fn gap_inside_vnet_stays_within_vnet_boundary() {
    let s = make_subnet("10.0.64.0/24", "10.0.0.0/16", "vnet-a", "snet-a");
    let vnet_hi = Ipv4::new("10.0.0.0/16").unwrap().hi();
    let (_, _, rows) = process_subnet_row(&s, 0, addr(10, 0, 0, 0), PrevVnetContext::default(), 4, SKIP);
    for row in rows.iter().filter(|r| r.j == 0) {
        let gap = Ipv4::new(&row.subnet_cidr).unwrap();
        assert!(gap.hi() <= vnet_hi, "Gap {} crosses VNet boundary", row.subnet_cidr);
    }
}

#[test]
fn gateway_subnet_gets_gateway_gap_marker() {
    let s = make_subnet("10.0.0.0/27", "10.0.0.0/16", "hub-vnet", "GatewaySubnet");
    let (_, _, rows) = process_subnet_row(&s, 0, addr(10, 0, 0, 0), PrevVnetContext::default(), 28, SKIP);
    let subnet_row = rows.iter().find(|r| r.j != 0).expect("should have a subnet row");
    assert_eq!(subnet_row.gap, "GATEWAY", "GatewaySubnet must have gap = GATEWAY");
}

#[test]
fn gap_finder_test_process_subnet_row_01() {
    let mut result = Subnet::default();
    result.vnet_name = "jenkinsarm-vnet".to_string();
    result.vnet_cidr = Ipv4::new("10.0.0.0/16").unwrap();
    result.subnet_name = "jenkinsarm-snet".to_string();
    result.subnet_cidr = Some(Ipv4::new("10.0.0.0/24").unwrap());
    let (next_ip, _prev_vnet_ctx, print_rows) =
        process_subnet_row(&result, 1, addr(10, 0, 0, 0), PrevVnetContext::default(), 28, addr(10, 17, 255, 255));
    assert_eq!(result.subnet_name, "jenkinsarm-snet");
    assert_eq!(next_ip, addr(10, 0, 1, 0));
    assert_eq!(print_rows.len(), 1, "Expected 1 row for subnet");
}

fn make_vnet_cidr(cidr: &str, name: &str, subnets: Vec<Subnet>) -> VnetCidr {
    VnetCidr {
        cidr: Ipv4::new(cidr).unwrap(),
        vnet_name: name.to_string(),
        subscription_id: "sub-001".to_string(),
        subscription_name: "Test Sub".to_string(),
        location: "eastus".to_string(),
        subnets,
    }
}

#[test]
fn single_subnet_filling_vnet_cidr_produces_one_subnet_event() {
    let subnet = make_subnet("10.0.0.0/24", "10.0.0.0/24", "vnet-a", "snet-a");
    let vnet_cidrs = [make_vnet_cidr("10.0.0.0/24", "vnet-a", vec![subnet])];
    let events = gaps(&vnet_cidrs, 28);
    assert_eq!(events.len(), 1);
    assert!(matches!(events[0].kind, GapKind::Subnet(_)));
    assert_eq!(events[0].cidr.to_string(), "10.0.0.0/24");
}

#[test]
fn vgap_before_first_subnet_is_emitted_as_vnet_event() {
    let subnet = make_subnet("10.0.1.0/24", "10.0.0.0/16", "vnet-a", "snet-a");
    let vnet_cidrs = [make_vnet_cidr("10.0.0.0/16", "vnet-a", vec![subnet])];
    let events = gaps(&vnet_cidrs, 24);
    assert!(matches!(events[0].kind, GapKind::Vnet(_)));
    assert_eq!(events[0].cidr.to_string(), "10.0.0.0/24");
    assert!(matches!(events[1].kind, GapKind::Subnet(_)));
}

#[test]
fn vgap_between_two_subnets_is_emitted_as_vnet_event() {
    let s1 = make_subnet("10.0.0.0/24", "10.0.0.0/16", "vnet-a", "snet-a");
    let s2 = make_subnet("10.0.2.0/24", "10.0.0.0/16", "vnet-a", "snet-b");
    let vnet_cidrs = [make_vnet_cidr("10.0.0.0/16", "vnet-a", vec![s1, s2])];
    let events = gaps(&vnet_cidrs, 24);
    assert!(matches!(events[0].kind, GapKind::Subnet(_)), "first event should be snet-a");
    assert_eq!(events[0].cidr.to_string(), "10.0.0.0/24");
    assert!(matches!(events[1].kind, GapKind::Vnet(_)), "second event should be vgap");
    assert_eq!(events[1].cidr.to_string(), "10.0.1.0/24");
    assert!(matches!(events[2].kind, GapKind::Subnet(_)), "third event should be snet-b");
}

#[test]
fn trailing_vgap_fills_rest_of_vnet_cidr() {
    let subnet = make_subnet("10.0.0.0/24", "10.0.0.0/16", "vnet-a", "snet-a");
    let vnet_cidrs = [make_vnet_cidr("10.0.0.0/16", "vnet-a", vec![subnet])];
    let events = gaps(&vnet_cidrs, 24);
    assert!(matches!(events[0].kind, GapKind::Subnet(_)));
    assert!(events[1..].iter().all(|e| matches!(e.kind, GapKind::Vnet(_))));
    let last = events.last().unwrap();
    assert_eq!(last.cidr.hi(), Ipv4::new("10.0.0.0/16").unwrap().hi());
}

#[test]
fn gap_between_two_vnet_cidrs_emits_gap_events() {
    let s1 = make_subnet("10.0.0.0/24", "10.0.0.0/24", "vnet-a", "snet-a");
    let s2 = make_subnet("10.0.2.0/24", "10.0.2.0/24", "vnet-b", "snet-b");
    let vnet_cidrs = [
        make_vnet_cidr("10.0.0.0/24", "vnet-a", vec![s1]),
        make_vnet_cidr("10.0.2.0/24", "vnet-b", vec![s2]),
    ];
    let events = gaps(&vnet_cidrs, 24);
    assert_eq!(events.len(), 3);
    assert!(matches!(events[0].kind, GapKind::Subnet(_)));
    assert!(matches!(events[1].kind, GapKind::Gap), "middle block should be a Gap");
    assert_eq!(events[1].cidr.to_string(), "10.0.1.0/24");
    assert!(matches!(events[2].kind, GapKind::Subnet(_)));
}

#[test]
fn large_gap_is_split_into_aligned_blocks_according_to_gap_mask() {
    let s1 = make_subnet("10.0.0.0/24", "10.0.0.0/24", "vnet-a", "snet-a");
    let s2 = make_subnet("10.5.0.0/24", "10.5.0.0/24", "vnet-b", "snet-b");
    let vnet_cidrs = [
        make_vnet_cidr("10.0.0.0/24", "vnet-a", vec![s1]),
        make_vnet_cidr("10.5.0.0/24", "vnet-b", vec![s2]),
    ];
    let events_m16 = gaps(&vnet_cidrs, 16);
    let events_m4 = gaps(&vnet_cidrs, 4);
    let gap_count_m16 = events_m16.iter().filter(|e| matches!(e.kind, GapKind::Gap)).count();
    let gap_count_m4 = events_m4.iter().filter(|e| matches!(e.kind, GapKind::Gap)).count();
    assert!(gap_count_m16 > gap_count_m4, "coarser gap_mask should produce fewer blocks");
    assert!(events_m16.iter().filter(|e| matches!(e.kind, GapKind::Gap)).all(|e| e.cidr.mask >= 16));
}

#[test]
fn gap_finder_push_accumulates_rows_and_hides_state() {
    let mut gf = GapFinder::new(24);
    let s1 = make_subnet("10.0.0.0/24", "10.0.0.0/16", "vnet-a", "snet-a");
    let s2 = make_subnet("10.0.2.0/24", "10.0.0.0/16", "vnet-a", "snet-b");
    let rows1 = gf.push(&s1, 0);
    let rows2 = gf.push(&s2, 1);
    let trailing = gf.finish();
    assert_eq!(rows1.len(), 1, "s1: no gap expected");
    assert_eq!(rows1[0].subnet_name, "snet-a");
    assert_eq!(rows2.len(), 2, "s2: one gap + one subnet");
    assert_eq!(rows2[0].gap, "-vgap-");
    assert_eq!(rows2[0].subnet_cidr, "10.0.1.0/24");
    assert_eq!(rows2[1].subnet_name, "snet-b");
    assert!(!trailing.is_empty(), "trailing vgaps expected");
    assert!(trailing.iter().all(|r| r.gap == "-vgap-"));
}

// ─── overlap resolution ─────────────────────────────────────────────────────

fn overlap_subnet(vnet_name: &str, subscription_name: &str, vnet_cidr: &str, subnet_cidr: &str) -> Subnet {
    let mut s = Subnet::default();
    s.vnet_name = vnet_name.to_string();
    s.vnet_cidr = Ipv4::new(vnet_cidr).unwrap();
    s.subnet_name = format!("{vnet_name}-snet");
    s.subnet_cidr = Some(Ipv4::new(subnet_cidr).unwrap());
    s.subscription_name = subscription_name.to_string();
    s.subscription_id = format!("sub-{}", subscription_name.to_lowercase().replace(' ', "-"));
    s.location = "eastus".to_string();
    s
}

fn make_data(subnets: Vec<Subnet>) -> Data {
    let count = subnets.len() as i32;
    Data { data: subnets, count, ..Default::default() }
}

#[test]
fn containment_overlap_is_detected() {
    let data = make_data(vec![
        overlap_subnet("big-vnet", "Dev Sub", "10.0.0.0/8", "10.0.1.0/24"),
        overlap_subnet("small-vnet", "Test Sub", "10.1.0.0/16", "10.1.1.0/24"),
    ]);
    let conflicts = find_overlapping_vnets(&data);
    assert_eq!(conflicts.len(), 1, "should detect one conflict group");
    assert_eq!(conflicts[0].vnets.len(), 2, "both VNets should be in the group");
}

#[test]
fn non_overlapping_cidrs_form_no_conflict() {
    let data = make_data(vec![
        overlap_subnet("vnet-a", "Sub A", "10.0.0.0/16", "10.0.1.0/24"),
        overlap_subnet("vnet-b", "Sub B", "10.2.0.0/16", "10.2.1.0/24"),
    ]);
    let conflicts = find_overlapping_vnets(&data);
    assert!(conflicts.is_empty(), "disjoint CIDRs should produce no conflicts");
}

#[test]
fn transitive_overlap_forms_one_group() {
    let data = make_data(vec![
        overlap_subnet("vnet-a", "Sub A", "10.0.0.0/16", "10.0.1.0/24"),
        overlap_subnet("vnet-b", "Sub B", "10.0.0.0/8", "10.0.2.0/24"),
        overlap_subnet("vnet-c", "Sub C", "10.5.0.0/16", "10.5.1.0/24"),
    ]);
    let conflicts = find_overlapping_vnets(&data);
    assert_eq!(conflicts.len(), 1, "transitively connected VNets form one group");
    assert_eq!(conflicts[0].vnets.len(), 3, "all three VNets should be in the group");
}

#[test]
fn production_sub_wins_over_non_production_with_fewer_subnets() {
    let data = make_data(vec![
        overlap_subnet("dev-vnet", "AAA Sandbox", "10.1.0.0/16", "10.1.1.0/24"),
        overlap_subnet("dev-vnet2", "BBB Sandbox", "10.1.0.0/16", "10.1.2.0/24"),
        overlap_subnet("prod-vnet", "Zzz Production", "10.1.0.0/16", "10.1.3.0/24"),
    ]);
    let out = resolve_overlapping_vnets(data);
    let active_names: Vec<&str> = out.active.data.iter().map(|s| s.vnet_name.as_str()).collect();
    assert!(active_names.contains(&"prod-vnet"), "production VNet should win even though it sorts last");
    assert!(!active_names.contains(&"dev-vnet"), "non-prod VNet should be excluded");
    assert!(!active_names.contains(&"dev-vnet2"), "non-prod VNet should be excluded");
}

#[test]
fn excluded_subnets_have_winner_vnet_name_set() {
    let data = make_data(vec![
        overlap_subnet("loser-vnet", "Sandbox", "10.1.0.0/16", "10.1.1.0/24"),
        overlap_subnet("winner-vnet", "Coretex Production", "10.1.0.0/16", "10.1.2.0/24"),
    ]);
    let out = resolve_overlapping_vnets(data);
    assert_eq!(out.active.data.len(), 1);
    assert_eq!(out.active.data[0].vnet_name, "winner-vnet");
    assert_eq!(out.excluded.len(), 1);
    assert_eq!(out.excluded[0].subnet.vnet_name, "loser-vnet");
    assert_eq!(out.excluded[0].winner_vnet_name, "winner-vnet");
}

#[test]
fn most_subnets_wins_when_no_production_involved() {
    let data = make_data(vec![
        overlap_subnet("small-vnet", "Dev Sub", "10.1.0.0/16", "10.1.1.0/24"),
        overlap_subnet("big-vnet", "Test Sub", "10.1.0.0/16", "10.1.2.0/24"),
        overlap_subnet("big-vnet", "Test Sub", "10.1.0.0/16", "10.1.3.0/24"),
    ]);
    let out = resolve_overlapping_vnets(data);
    let active_names: Vec<&str> = out.active.data.iter().map(|s| s.vnet_name.as_str()).collect();
    assert!(active_names.contains(&"big-vnet"), "vnet with more subnets should be kept");
    assert!(!active_names.contains(&"small-vnet"), "vnet with fewer subnets should be excluded");
}

#[test]
fn non_conflicting_cidr_of_same_vnet_is_not_excluded() {
    let mut subnet_a = overlap_subnet("pd-ibe-westus-arm", "iBright Sandbox", "10.0.0.0/16", "10.0.0.0/24");
    subnet_a.subscription_id = "sub-ibright".to_string();
    let mut subnet_b = overlap_subnet("pd-ibe-westus-arm", "iBright Sandbox", "172.17.8.0/21", "172.17.8.0/24");
    subnet_b.subscription_id = "sub-ibright".to_string();
    let mut other = overlap_subnet("other-vnet", "iBright Production", "10.0.0.0/16", "10.0.1.0/24");
    other.subscription_id = "sub-prod".to_string();
    let out = resolve_overlapping_vnets(make_data(vec![subnet_a, subnet_b, other]));
    let excluded_names: Vec<&str> = out.excluded.iter().map(|e| e.subnet.vnet_name.as_str()).collect();
    assert!(excluded_names.contains(&"pd-ibe-westus-arm"), "subnet with conflicting CIDR must be excluded");
    let subnet_b_active = out
        .active
        .data
        .iter()
        .find(|s| s.vnet_cidr.to_string() == "172.17.8.0/21")
        .expect("subnet_b must still be in active");
    assert_eq!(subnet_b_active.vnet_name, "pd-ibe-westus-arm");
}

#[test]
fn test_find_overlapping_vnets() {
    // Without a cache file to read, the data set is empty and has no
    // conflicts.
    let conflicts = find_overlapping_vnets(&Data::default());
    assert!(conflicts.is_empty());
}

#[test]
fn resolve_returns_split_active_and_excluded() {
    let data = make_data(vec![
        overlap_subnet("loser-vnet", "Sandbox", "10.1.0.0/16", "10.1.1.0/24"),
        overlap_subnet("winner-vnet", "Coretex Production", "10.1.0.0/16", "10.1.2.0/24"),
    ]);
    let out = resolve_overlapping_vnets(data);
    assert_eq!(out.active.data.len(), 1);
    assert_eq!(out.active.data[0].vnet_name, "winner-vnet");
    assert_eq!(out.excluded.len(), 1);
    assert_eq!(out.excluded[0].winner_vnet_name, "winner-vnet");
    assert_eq!(out.excluded[0].subnet.vnet_name, "loser-vnet");
}

// ─── DOT validation ─────────────────────────────────────────────────────────

fn validate(content: &str) -> Result<(), String> {
    validate_dot_content(content, "test.dot")
}

#[test]
fn accepts_valid_digraph() {
    assert!(validate("digraph G { a -> b; }").is_ok());
}

#[test]
fn accepts_digraph_with_leading_comments() {
    assert!(validate("// header\n// more\ndigraph G { }").is_ok());
}

#[test]
fn rejects_empty_file() {
    let err = validate("   \n  ").unwrap_err();
    assert!(err.contains("empty"));
}

#[test]
fn rejects_wrong_keyword() {
    let err = validate("not_a_graph { }").unwrap_err();
    assert!(err.contains("does not start with"));
}

#[test]
fn rejects_unbalanced_open_brace() {
    let err = validate("digraph G { a -> b; ").unwrap_err();
    assert!(err.contains("unbalanced"));
}

#[test]
fn rejects_unbalanced_close_brace() {
    let err = validate("digraph G { } }").unwrap_err();
    assert!(err.contains("too many closing braces"));
}

#[test]
fn rejects_non_ascii_in_html_label() {
    let err = validate("digraph G { a [label=<⚠ bad>]; }").unwrap_err();
    assert!(err.contains("non-ASCII"));
    assert!(err.contains("HTML label"));
}

#[test]
fn accepts_html_entity_in_html_label() {
    assert!(validate("digraph G { a [label=<&#x26A0; safe>]; }").is_ok());
}

#[test]
fn non_ascii_in_plain_string_label_is_detected() {
    let err = validate(r#"digraph G { a [label="⚠ warning"]; }"#).unwrap_err();
    assert!(err.contains("non-ASCII") && err.contains("plain"), "expected plain-label non-ASCII error, got: {err}");
}

#[test]
fn non_ascii_in_cluster_plain_label_is_detected() {
    let err = validate("digraph G { subgraph cluster_0 { label=\"Island 1 [⚠ missing]\"; } }").unwrap_err();
    assert!(err.contains("non-ASCII") && err.contains("plain"), "expected plain-label non-ASCII error, got: {err}");
}

#[test]
fn unescaped_quote_inside_plain_label_is_detected() {
    let err = validate(r#"digraph G { subgraph cluster_0 { label="My "Broken" Sub"; } }"#).unwrap_err();
    assert!(
        err.contains("unescaped") || err.contains("quote") || err.contains("plain"),
        "expected plain-label quote error, got: {err}"
    );
}

#[test]
fn escaped_quote_in_plain_label_is_accepted() {
    assert!(validate(r#"digraph G { a [label="foo \"bar\""]; }"#).is_ok());
}

// ─── VNet summary ───────────────────────────────────────────────────────────

fn vnet_subnet(vnet_name: &str, sub_name: &str, vnet_cidr: &str, subnet_cidr: &str) -> Subnet {
    let mut s = Subnet::default();
    s.vnet_name = vnet_name.to_string();
    s.subscription_name = sub_name.to_string();
    s.subscription_id = "sub-id".to_string();
    s.vnet_cidr = Ipv4::new(vnet_cidr).unwrap();
    s.subnet_cidr = Some(Ipv4::new(subnet_cidr).unwrap());
    s.subnet_name = format!("{vnet_name}-subnet");
    s
}

fn strip_ansi(s: &str) -> String {
    let mut result = String::new();
    let mut in_escape = false;
    for c in s.chars() {
        if c == '\x1b' {
            in_escape = true;
        } else if in_escape && c == 'm' {
            in_escape = false;
        } else if !in_escape {
            result.push(c);
        }
    }
    result
}

#[test]
fn excluded_vnet_appears_with_dup_reference_in_terminal_output() {
    let active = make_data(vec![vnet_subnet("winner-vnet", "Coretex Production", "10.1.0.0/16", "10.1.1.0/24")]);
    let excluded = vec![ExcludedSubnet {
        subnet: vnet_subnet("loser-vnet", "Sandbox", "10.1.0.0/16", "10.1.1.0/24"),
        winner_vnet_name: "winner-vnet".to_string(),
    }];
    let vnets = get_vnets(&active);
    let output = format_vnets(&vnets, &excluded);
    let plain = strip_ansi(&output);
    assert!(plain.contains("winner-vnet"), "winner must appear in output");
    assert!(plain.contains("loser-vnet"), "excluded vnet must appear in output");
    assert!(plain.contains("DUP of 'winner-vnet'"), "excluded must reference winner");
    assert!(plain.contains("EXCL:"), "excluded vnet must be labeled EXCL");
}

#[test]
fn non_overlapping_vnets_show_without_conflict_markers() {
    let data = make_data(vec![
        vnet_subnet("vnet-a", "Sub A", "10.1.0.0/16", "10.1.1.0/24"),
        vnet_subnet("vnet-b", "Sub B", "10.2.0.0/16", "10.2.1.0/24"),
    ]);
    let vnets = get_vnets(&data);
    let output = format_vnets(&vnets, &[]);
    let plain = strip_ansi(&output);
    assert!(plain.contains("vnet-a"), "vnet-a must appear");
    assert!(plain.contains("vnet-b"), "vnet-b must appear");
    assert!(!plain.contains("EXCL:"), "no EXCL markers for non-overlapping");
    assert!(!plain.contains("DUP of"), "no DUP markers for non-overlapping");
}

// ─── CSV rows ───────────────────────────────────────────────────────────────

fn csv_subnet(vnet_name: &str, sub_name: &str, vnet_cidr: &str, subnet_cidr: &str, name: &str, excluded_by: Option<&str>) -> Subnet {
    let mut s = Subnet::default();
    s.vnet_name = vnet_name.to_string();
    s.subscription_name = sub_name.to_string();
    s.subscription_id = "sub-id".to_string();
    s.vnet_cidr = Ipv4::new(vnet_cidr).unwrap();
    s.subnet_cidr = Some(Ipv4::new(subnet_cidr).unwrap());
    s.subnet_name = name.to_string();
    s.excluded_by = excluded_by.map(|x| x.to_string());
    s
}

fn csv_contents(data: &Data, mask: u8) -> String {
    let rows = subnet_print_rows(data, mask, &[]);
    rows.iter().map(csv_line).collect::<Vec<_>>().join("\n")
}

#[test]
fn excluded_subnet_skipped_in_gap_finder_and_appears_as_dup_in_csv() {
    let data = make_data(vec![
        csv_subnet("winner-vnet", "Coretex Production", "10.11.0.0/16", "10.11.4.0/22", "my-subnet", None),
        csv_subnet("loser-vnet", "Sandbox", "10.11.0.0/16", "10.11.4.0/22", "my-subnet", Some("winner-vnet")),
    ]);
    let contents = csv_contents(&data, 28);
    assert!(contents.contains("DUP_EXCL_VNET"), "CSV must contain DUP_EXCL_VNET row");
    assert!(contents.contains("winner-vnet"), "DUP row must reference the winning VNet");
}

#[test]
fn dup_rows_appear_directly_after_winner_vnet_not_at_end() {
    let data = make_data(vec![
        csv_subnet("winner-vnet", "Prod", "10.0.0.0/16", "10.0.0.0/24", "snet", None),
        csv_subnet("later-vnet", "Prod", "10.1.0.0/16", "10.1.0.0/24", "snet", None),
        csv_subnet("loser-vnet", "Dev", "10.0.0.0/16", "10.0.0.0/24", "snet", Some("winner-vnet")),
    ]);
    let contents = csv_contents(&data, 28);
    let dup_pos = contents.find("DUP_EXCL_VNET").expect("DUP_EXCL_VNET must exist");
    let later_pos = contents.find("later-vnet").expect("later-vnet must exist");
    assert!(dup_pos < later_pos, "DUP row must appear directly after winner-vnet rows");
}

#[test]
fn trailing_vgap_within_vnet_cidr_is_filled() {
    let data = make_data(vec![csv_subnet("my-vnet", "my-sub", "10.0.0.0/16", "10.0.0.0/24", "only-subnet", None)]);
    let contents = csv_contents(&data, 28);
    assert!(contents.contains("-vgap-"), "CSV must contain -vgap- rows\n{contents}");
    assert!(contents.contains("10.0.0.0/16_vnet"), "trailing vgap must reference the VNet_CIDR\n{contents}");
}

#[test]
fn gaps_accepts_any_mask_when_nothing_is_unused() {
    let a = make_subnet("10.0.0.0/25", "10.0.0.0/24", "vnet-a", "snet-a");
    let b = make_subnet("10.0.0.128/25", "10.0.0.0/24", "vnet-a", "snet-b");
    let vnet_cidrs = [
        make_vnet_cidr("10.0.0.0/24", "vnet-a", vec![a, b]),
        make_vnet_cidr("10.0.1.0/24", "vnet-b", vec![make_subnet("10.0.1.0/24", "10.0.1.0/24", "vnet-b", "snet-c")]),
    ];
    let events = gaps(&vnet_cidrs, 40);
    assert_eq!(events.len(), 3);
    assert!(events.iter().all(|e| matches!(e.kind, GapKind::Subnet(_))));
}
