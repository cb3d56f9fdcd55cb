use azure_subnet_summary::graph_read_subnet_data::Data;
use azure_subnet_summary::models::ipv4::Ipv4;
use azure_subnet_summary::struct_subnet::Subnet;
use azure_subnet_summary::struct_vnet::{get_vnets, VnetList};

fn multi_cidr_subnet(vnet: &str, sub: &str, name: &str) -> Subnet {
    let mut s = Subnet::default();
    s.vnet_name = vnet.to_string();
    s.subscription_name = sub.to_string();
    s.subscription_id = format!("{sub}-id");
    s.vnet_cidr = vec![Ipv4::new("10.0.0.0/16").unwrap()];
    s.subnet_name = name.to_string();
    s
}

fn multi_cidr_data() -> Data {
    let subnets = vec![
        multi_cidr_subnet("vnet-a", "sub-1", "a1"),
        multi_cidr_subnet("vnet-b", "sub-1", "b1"),
        multi_cidr_subnet("vnet-a", "sub-1", "a2"),
        multi_cidr_subnet("vnet-a", "sub-2", "a3"),
    ];
    Data { count: subnets.len() as i32, data: subnets, skip_token: None, total_records: None }
}

#[test]
fn multi_cidr_get_vnets_groups_by_name_and_subscription() {
    let data = multi_cidr_data();
    let list = get_vnets(&data);
    assert_eq!(list.vnets.len(), 3);
    assert_eq!(list.vnets[0].vnet_name, "vnet-a");
    assert_eq!(list.vnets[0].subscription_name, "sub-1");
    let names: Vec<&str> = list.vnets[0].subnets.iter().map(|s| s.subnet_name.as_str()).collect();
    assert_eq!(names, vec!["a1", "a2"]);
    assert_eq!(list.vnets[1].vnet_name, "vnet-b");
    assert_eq!(list.vnets[1].subnets.len(), 1);
    assert_eq!(list.vnets[2].subscription_name, "sub-2");
    assert_eq!(list.vnets[2].subnets[0].subnet_name, "a3");
    assert_eq!(list.vnets[0].vnet_cidr.len(), 1);
    assert_eq!(list.vnets[2].subscription_id, "sub-2-id");
    assert_eq!(list.vnets[0].location, "blank");
}

#[test]
fn multi_cidr_import_keeps_last_subnet_of_each_vnet() {
    let data = multi_cidr_data();
    let mut list = VnetList::new();
    list.import_from_subnets(&data);
    assert_eq!(list.vnets.len(), 3);
    assert_eq!(list.vnets[0].subnets.len(), 1);
    assert_eq!(list.vnets[0].subnets[0].subnet_name, "a2");
    assert_eq!(list.vnets[1].subnets[0].subnet_name, "b1");
}

#[test]
fn multi_cidr_vnet_add_subnet_appends() {
    let a = multi_cidr_subnet("vnet-a", "sub-1", "a1");
    let b = multi_cidr_subnet("vnet-a", "sub-1", "a2");
    let mut v = azure_subnet_summary::struct_vnet::Vnet::new(&a);
    v.add_subnet(&b);
    assert_eq!(v.subnets.len(), 2);
    assert_eq!(v.subnets[1].subnet_name, "a2");
    assert_eq!(v.location, "blank");
}
