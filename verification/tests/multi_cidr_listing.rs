use azure_subnet_summary::graph_read_subnet_data::Data;
use azure_subnet_summary::models::ipv4::{addr_string, Ipv4};
use azure_subnet_summary::struct_subnet::Subnet;
use azure_subnet_summary::subnet_add_row::{find_bigest_subnet, process_subnet_row};
use azure_subnet_summary::subnet_add_row::listing_row_check;
use azure_subnet_summary::subnet_print::{listing_check, listing_line, subnet_print_rows, LISTING_HEADER};

fn addr(a: u8, b: u8, c: u8, d: u8) -> u32 {
    u32::from_be_bytes([a, b, c, d])
}

fn multi_cidr_subnet(vnet: &str, vnet_cidr: &str, name: &str, cidr: Option<&str>) -> Subnet {
    let mut s = Subnet::default();
    s.vnet_name = vnet.to_string();
    s.vnet_cidr = vec![Ipv4::new(vnet_cidr).unwrap()];
    s.subnet_name = name.to_string();
    s.subnet_cidr = cidr.map(|c| Ipv4::new(c).unwrap());
    s.gap = None;
    s
}

#[test]
fn test_find_bigest_subnet() {
    let start_ip = addr(10, 0, 0, 0);
    let below_subnet_cidr = Ipv4::new("10.0.1.0/24").unwrap();
    assert_eq!(24, find_bigest_subnet(start_ip, 8, below_subnet_cidr));
    assert_eq!(28, find_bigest_subnet(start_ip, 28, below_subnet_cidr));
    let start_ip = addr(10, 11, 12, 16);
    let below_subnet_cidr = Ipv4::new("10.11.16.0/24").unwrap();
    assert_eq!(20, find_bigest_subnet(start_ip, 8, below_subnet_cidr));
    let start_ip = addr(10, 0, 0, 0);
    let below_subnet_cidr = Ipv4::new("10.11.16.0/24").unwrap();
    assert_eq!(13, find_bigest_subnet(start_ip, 8, below_subnet_cidr));
    let below_subnet_cidr = Ipv4::new("10.192.0.0/24").unwrap();
    assert_eq!(9, find_bigest_subnet(start_ip, 8, below_subnet_cidr));
    assert_eq!(12, find_bigest_subnet(start_ip, 12, below_subnet_cidr));
}

#[test]
fn subnet_add_row_test_process_subnet_row_01() {
    let mut result: Subnet = Default::default();
    result.vnet_name = "jenkinsarm-vnet".to_string();
    result.vnet_cidr = vec![Ipv4::new("10.0.0.0/16").unwrap()];
    result.subnet_name = "jenkinsarm-snet".to_string();
    result.subnet_cidr = Some(Ipv4::new("10.0.0.0/24").unwrap());
    let (next_ip, _vnet_previous_cidr, print_rows) = process_subnet_row(
        &result,
        1,
        addr(10, 0, 0, 0),
        Ipv4::new("0.0.0.0/24").unwrap(),
        28,
        addr(10, 17, 255, 255),
    );
    assert_eq!(result.subnet_name, "jenkinsarm-snet", "Not expected test subnet name.");
    assert_eq!(addr_string(next_ip), "10.0.1.0");
    assert_eq!(print_rows.len(), 1, "Expected 1 row for subnet 151");
}

#[test]
fn multi_cidr_gap_blocks_need_not_be_aligned() {
    // From 10.0.0.128 up to 10.0.2.0 with /24 at most: the first block keeps
    // its unaligned start and ends at 10.0.0.255.
    let s = multi_cidr_subnet("v", "10.0.0.0/16", "b", Some("10.0.2.0/24"));
    let (next_ip, prev, rows) =
        process_subnet_row(&s, 4, addr(10, 0, 0, 128), Ipv4::new("0.0.0.0/24").unwrap(), 24, addr(10, 17, 255, 255));
    assert_eq!(rows.len(), 3);
    assert_eq!(rows[0].subnet_cidr, "10.0.0.128/24");
    assert_eq!(rows[0].broadcast, "10.0.0.255");
    assert_eq!(rows[0].gap, "-gap-");
    assert_eq!(rows[0].j, 0);
    assert_eq!(rows[0].az_hosts, 251);
    assert_eq!(rows[0].vnet_cidr, "10.0.0.0/16");
    assert_eq!(rows[0].nsg, "Unused_nsg");
    assert_eq!(rows[1].subnet_cidr, "10.0.1.0/24");
    assert_eq!(rows[2].subnet_cidr, "10.0.2.0/24");
    assert_eq!(rows[2].gap, "Sub0");
    assert_eq!(rows[2].j, 5);
    assert_eq!(rows[2].nsg, "None");
    assert_eq!(rows[2].dns, "None");
    assert_eq!(addr_string(next_ip), "10.0.3.0");
    assert_eq!(prev, Ipv4::new("10.0.0.0/16").unwrap());
}

#[test]
fn multi_cidr_subnet_without_block_gives_one_row_and_keeps_state() {
    let mut s = multi_cidr_subnet("v", "10.0.0.0/16", "nameless", None);
    s.nsg = Some("/subscriptions/x/networkSecurityGroups/nsg-1".to_string());
    let prev = Ipv4::new("10.9.0.0/16").unwrap();
    let (next_ip, back, rows) = process_subnet_row(&s, 2, addr(10, 0, 5, 0), prev, 24, addr(10, 17, 255, 255));
    assert_eq!(next_ip, addr(10, 0, 5, 0));
    assert_eq!(back, prev);
    assert_eq!(rows.len(), 1);
    assert_eq!(rows[0].gap, "None");
    assert_eq!(rows[0].subnet_cidr, "none");
    assert_eq!(rows[0].broadcast, "none");
    assert_eq!(rows[0].j, 3);
    assert_eq!(rows[0].nsg, "nsg-1");
    assert_eq!(rows[0].dns, "No_Subnet_IPs");
}

#[test]
fn multi_cidr_listing_fills_gaps_from_ten_dot_zero() {
    let subnets = vec![
        multi_cidr_subnet("v", "10.0.0.0/16", "a", Some("10.0.1.0/24")),
        multi_cidr_subnet("v", "10.0.0.0/16", "b", Some("10.0.2.0/24")),
    ];
    let data = Data { count: 2, data: subnets, skip_token: None, total_records: None };
    let rows = subnet_print_rows(&data, 16);
    let cidrs: Vec<&str> = rows.iter().map(|r| r.subnet_cidr.as_str()).collect();
    assert_eq!(cidrs, vec!["10.0.0.0/24", "10.0.1.0/24", "10.0.2.0/24"]);
    assert_eq!(rows[1].j, 1);
    assert_eq!(rows[2].j, 2);
}

#[test]
fn multi_cidr_listing_line_uses_narrower_host_column() {
    let s = multi_cidr_subnet("v", "10.0.0.0/16", "a", Some("10.0.1.0/24"));
    let data = Data { count: 1, data: vec![s], skip_token: None, total_records: None };
    let rows = subnet_print_rows(&data, 24);
    let line = listing_line(&rows[1]);
    assert!(line.starts_with("   \"1\",  \"Sub0\",     \"10.0.1.0/24\", \"0/251_vms\","), "{line}");
    assert!(LISTING_HEADER.starts_with(" \"cnt\""));
}

#[test]
fn multi_cidr_listing_check_refuses_what_the_listing_cannot_build() {
    let ok = Data {
        count: 1,
        data: vec![multi_cidr_subnet("v", "10.0.0.0/16", "a", Some("10.0.1.0/24"))],
        skip_token: None,
        total_records: None,
    };
    assert!(listing_check(&ok, 24));
    // A subnet below the listing's start address (10.0.0.0) cannot be listed.
    let below = Data {
        count: 1,
        data: vec![multi_cidr_subnet("v", "9.0.0.0/16", "a", Some("9.0.1.0/24"))],
        skip_token: None,
        total_records: None,
    };
    assert!(!listing_check(&below, 24));
    // With blocks of at most /30, the gap before 10.0.0.8 is cut into /30
    // blocks, which have no usable hosts.
    let s = multi_cidr_subnet("v", "10.0.0.0/16", "a", Some("10.0.0.8/29"));
    assert!(!listing_row_check(&s, 0, addr(10, 0, 0, 0), 30));
    assert!(listing_row_check(&s, 0, addr(10, 0, 0, 0), 29));
    // A subnet without a block is always listed.
    let none = multi_cidr_subnet("v", "10.0.0.0/16", "a", None);
    assert!(listing_row_check(&none, 0, addr(10, 0, 0, 0), 40));
}
