use azure_subnet_summary::models::ipv4::{broadcast_addr, cut_addr, ip_after_subnet, lo_mask, next_subnet_ipv4, Ipv4};

fn addr(a: u8, b: u8, c: u8, d: u8) -> u32 {
    u32::from_be_bytes([a, b, c, d])
}

#[test]
fn ipv4_test_cut_addr() {
    let ip = addr(192, 168, 1, 42);
    assert_eq!(cut_addr(ip, 24).unwrap(), addr(192, 168, 1, 0));
    assert_eq!(cut_addr(ip, 16).unwrap(), addr(192, 168, 0, 0));
    assert_eq!(cut_addr(ip, 8).unwrap(), addr(192, 0, 0, 0));
    assert_eq!(cut_addr(ip, 32).unwrap(), addr(192, 168, 1, 42));
    assert!(cut_addr(ip, 33).is_err());
}

#[test]
fn ipv4_test_next_subnet() {
    let ip = addr(192, 168, 1, 0);
    assert_eq!(ip_after_subnet(ip, 24).unwrap(), addr(192, 168, 2, 0));
    assert_eq!(ip_after_subnet(ip, 16).unwrap(), addr(192, 169, 0, 0));
    assert_eq!(ip_after_subnet(ip, 8).unwrap(), addr(193, 0, 0, 0));
    assert_eq!(ip_after_subnet(ip, 32).unwrap(), addr(192, 168, 1, 1));
    assert!(ip_after_subnet(addr(255, 255, 255, 255), 24).is_err());
}

#[test]
fn ipv4_test_next_subnet_ipv4() {
    let ip1 = Ipv4::new("10.1.1.0/28").unwrap();
    assert_eq!(next_subnet_ipv4(ip1, None).unwrap(), Ipv4::new("10.1.1.16/28").unwrap());

    let ip2 = Ipv4::new("10.1.1.0/29").unwrap();
    let ip2_next = next_subnet_ipv4(ip2, None).unwrap();
    assert_eq!(ip2_next, Ipv4::new("10.1.1.8/29").unwrap());
    assert_eq!(next_subnet_ipv4(ip2_next, None).unwrap(), Ipv4::new("10.1.1.16/29").unwrap());
    assert_eq!(
        next_subnet_ipv4(Ipv4 { addr: ip2_next.addr, mask: 28 }, None).unwrap(),
        Ipv4::new("10.1.1.16/28").unwrap()
    );

    let ipv4 = Ipv4::new("192.168.1.0/8").unwrap();
    assert_eq!(ipv4.broadcast().unwrap(), Ipv4::new("192.255.255.255/8").unwrap());
    assert_eq!(next_subnet_ipv4(ipv4, None).unwrap(), Ipv4::new("193.0.0.0/8").unwrap());

    let next_ipv4 = next_subnet_ipv4(ipv4, Some(16)).unwrap();
    assert_eq!(next_ipv4.mask, 16);
    assert_eq!(next_ipv4.addr, addr(193, 0, 0, 0));

    let ip3 = Ipv4::new("10.2.3.4/16").unwrap();
    assert_eq!(next_subnet_ipv4(ip3, None).unwrap(), Ipv4::new("10.3.0.0/16").unwrap());
    assert_eq!(next_subnet_ipv4(ip3, Some(24)).unwrap(), Ipv4::new("10.3.0.0/24").unwrap());

    let ip5 = Ipv4::new("10.18.126.0/24").unwrap();
    let next_ip5 = next_subnet_ipv4(ip5, Some(28)).unwrap();
    assert_eq!(next_ip5, Ipv4::new("10.18.127.0/28").unwrap());

    let next_ip5 = next_subnet_ipv4(next_ip5, Some(24)).unwrap();
    assert_eq!(next_ip5, Ipv4::new("10.18.128.0/24").unwrap());
}

#[test]
fn ipv4_test_broadcast_addr() {
    let ip = addr(192, 168, 1, 0);
    assert_eq!(broadcast_addr(ip, 24).unwrap(), addr(192, 168, 1, 255));
    assert_eq!(broadcast_addr(ip, 16).unwrap(), addr(192, 168, 255, 255));
    assert_eq!(broadcast_addr(ip, 8).unwrap(), addr(192, 255, 255, 255));
    assert_eq!(broadcast_addr(ip, 32).unwrap(), addr(192, 168, 1, 0));
    assert!(broadcast_addr(addr(255, 255, 255, 255), 24).is_ok());
}

#[test]
fn ipv4_test_ip4_cmp() {
    let ip1 = Ipv4::new("10.0.0.1/24").unwrap();
    let ip2 = Ipv4::new("10.0.0.2/24").unwrap();
    let ip3 = Ipv4::new("10.0.0.1/24").unwrap();

    assert!(ip1 < ip2);
    assert!(ip1 == ip3);
    assert!(ip2 > ip1);
    assert!(ip2 >= ip3);
}

#[test]
fn ipv4_test_ip4_cmp_overlap() {
    let ip1 = Ipv4::new("10.0.10.0/24").unwrap();
    let ip2 = Ipv4::new("10.0.0.0/8").unwrap();
    let ip3 = Ipv4::new("10.0.10.64/26").unwrap();

    assert!(ip1.addr > ip2.addr);
    assert!(ip1.addr < ip3.addr);
    assert!(ip1.mask > ip2.mask);
    assert!(ip1 > ip2);
    assert!(ip1 < ip3);
    assert!(ip2 < ip1);
    assert!(ip2 < ip3);
    assert!(ip2.lo() < ip1.lo());
    assert!(ip2.lo() < ip3.lo());
    assert!(ip2.hi() > ip1.hi());
    assert!(ip2.hi() > ip3.hi());
    assert_eq!(ip2.hi(), addr(10, 255, 255, 255));
}

#[test]
fn ipv4_test_lo_mask() {
    let ip = addr(192, 168, 1, 1);
    assert_eq!(lo_mask(ip), 32);
}

#[test]
fn ipv4_text_reads_back_as_the_same_block() {
    for text in ["0.0.0.0/0", "10.0.0.0/24", "192.168.1.42/32", "255.255.255.255/8", "10.11.0.0/16"] {
        let x = Ipv4::new(text).unwrap();
        assert_eq!(Ipv4::new(&x.to_string()), Ok(x));
    }
}
