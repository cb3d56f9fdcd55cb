use azure_subnet_summary::azure::graph::Data;
use azure_subnet_summary::azure::local_gateway::LocalGatewayRow;
use azure_subnet_summary::azure::peering_graph::PeeringEdge;
use azure_subnet_summary::azure::vwan_graph::VWanRow;
use azure_subnet_summary::models::ipv4::Ipv4;
use azure_subnet_summary::models::subnet::Subnet;
use azure_subnet_summary::output::dup_report::duplicates_md_text;
use azure_subnet_summary::output::peering_diagram::peering_diagram_text;
use azure_subnet_summary::output::peering_dot::{dot_quote, html_escape, peering_dot_text};
use azure_subnet_summary::output::validate_dot::validate_dot_content;
use azure_subnet_summary::output::peering_topology::{build_topology, canonical_pair, node_id, sanitize_id};

const DATE: &str = "2026-05-31";

fn arm_id(sub: &str, vnet: &str) -> String {
    format!("/subscriptions/{sub}/resourceGroups/rg/providers/Microsoft.Network/virtualNetworks/{vnet}")
}

fn empty_data() -> Data {
    Data { data: vec![], count: 0, skip_token: None, total_records: None }
}

fn one_subnet(vnet: &str, subnet: &str, sub: &str) -> Data {
    let mut s = Subnet::default();
    s.vnet_name = vnet.into();
    s.subnet_name = subnet.into();
    s.subscription_name = sub.into();
    Data { data: vec![s], count: 1, skip_token: None, total_records: None }
}

fn edge(vnet: &str, sub: &str, state: &str, remote: &str) -> PeeringEdge {
    PeeringEdge {
        vnet_name: vnet.into(),
        subscription_name: sub.into(),
        peering_state: state.into(),
        remote_vnet_id: arm_id("s2", remote),
        ..Default::default()
    }
}

fn hub(name: &str, prefix: &str, wan: &str) -> VWanRow {
    VWanRow {
        subscription_id: String::new(),
        subscription_name: String::new(),
        hub_name: name.into(),
        hub_address_prefix: prefix.into(),
        virtual_wan_name: wan.into(),
        location: String::new(),
    }
}

fn lng_row(vnet: &str, vng: &str, lng: &str, prefixes: &[&str], ip: &str) -> LocalGatewayRow {
    LocalGatewayRow {
        vnet_name: vnet.into(),
        vng_name: vng.into(),
        vng_bgp_asn: String::new(),
        local_gw_name: lng.into(),
        address_prefixes: prefixes.iter().map(|p| p.to_string()).collect(),
        gateway_ip: ip.into(),
        gateway_ips: vec![],
        bgp_asn: String::new(),
        bgp_peer_ip: String::new(),
    }
}

// ─── Mermaid diagram ────────────────────────────────────────────────────────

#[test]
fn elk_renderer_directive_present() {
    let edges = vec![edge("vnet-a", "", "Connected", "vnet-b")];
    let c = peering_diagram_text(&edges, &empty_data(), DATE);
    assert!(c.contains("defaultRenderer") && c.contains("elk"), "ELK directive missing:\n{c}");
}

#[test]
fn two_connected_vnets_produce_bidir_arrow() {
    let edges = vec![
        PeeringEdge { remote_vnet_id: arm_id("s2", "vnet-b"), ..edge("vnet-a", "Sub A", "Connected", "vnet-b") },
        PeeringEdge { remote_vnet_id: arm_id("s1", "vnet-a"), ..edge("vnet-b", "Sub B", "Connected", "vnet-a") },
    ];
    let c = peering_diagram_text(&edges, &empty_data(), DATE);
    assert!(c.contains("<-->"), "Expected <--> for fully connected peers:\n{c}");
}

#[test]
fn asymmetric_peering_produces_stop_arrow_in_red() {
    let edges = vec![edge("broken-vnet", "", "Initiated", "spoke-vnet")];
    let c = peering_diagram_text(&edges, &empty_data(), DATE);
    assert!(c.contains("--x"), "Expected --x stop arrow:\n{c}");
    assert!(c.contains("stroke:#ff0000"), "Expected red stroke:\n{c}");
}

#[test]
fn node_labels_include_subscription_slash_vnet() {
    let edges = vec![edge("my-vnet", "My Sub", "Initiated", "other-vnet")];
    let c = peering_diagram_text(&edges, &empty_data(), DATE);
    assert!(c.contains("My Sub/my-vnet"), "Node label must be Sub/VNet:\n{c}");
}

#[test]
fn gateway_vnet_gets_external_node() {
    let c = peering_diagram_text(&[], &one_subnet("hub-vnet", "GatewaySubnet", "Prod Sub"), DATE);
    assert!(c.contains("On-Premises") || c.contains("External"), "Gateway node missing:\n{c}");
    assert!(c.contains("hub-vnet"), "hub-vnet must appear:\n{c}");
}

#[test]
fn standalone_vnet_gets_own_subgraph() {
    let c = peering_diagram_text(&[], &one_subnet("standalone-vnet", "default", "Standalone Sub"), DATE);
    assert!(c.contains("subgraph"), "Must have subgraph:\n{c}");
    assert!(c.contains("Standalone Sub/standalone-vnet"), "Must have correct label:\n{c}");
}

#[test]
fn mermaid_broken_link_style_counts_gateway_links() {
    // One gateway link (index 0) comes before the broken edge (index 1).
    let mut data = one_subnet("hub-vnet", "GatewaySubnet", "Prod Sub");
    data.data[0].vnet_cidr = Ipv4::new("10.0.0.0/16").unwrap();
    let edges = vec![edge("hub-vnet", "Prod Sub", "Initiated", "lost-vnet")];
    let c = peering_diagram_text(&edges, &data, DATE);
    assert!(c.contains("    linkStyle 1 stroke:#ff0000,color:#ff0000\n"), "{c}");
    assert!(c.contains("Prod Sub/hub-vnet\\n10.0.0.0/16"), "{c}");
    assert!(c.contains("\u{26a0} MISSING\\nSUB:s2\\nlost-vnet"), "{c}");
    assert!(c.starts_with("# Azure VNet Peering Diagram\n\nGenerated: 2026-05-31\n"));
    assert!(c.ends_with("```\n"));
}

// ─── DOT diagram ────────────────────────────────────────────────────────────

fn dot(edges: &[PeeringEdge], data: &Data, lngs: &[LocalGatewayRow], hubs: &[VWanRow]) -> String {
    peering_dot_text(edges, data, lngs, hubs, DATE, "peering.dot")
}

#[test]
fn dot_vwan_hub_node_rendered() {
    let data = one_subnet("spoke-vnet", "default", "Prod Sub");
    let c = dot(&[], &data, &[], &[hub("prod-hub", "10.100.0.0/23", "prod-vwan")]);
    assert!(c.contains("vWAN Hub:prod-hub"), "vWAN hub node must be rendered:\n{c}");
    assert!(c.contains("shape=diamond"), "vWAN hub must use diamond shape:\n{c}");
    assert!(c.contains("#e8d5f5"), "vWAN hub must have light purple fill:\n{c}");
}

#[test]
fn dot_vwan_spoke_to_hub_edge_rendered() {
    let data = one_subnet("spoke-vnet", "default", "Prod Sub");
    // The spoke's peering to the hub's fabric VNet names the hub.
    let edges = vec![edge("spoke-vnet", "Prod Sub", "Connected", "HV_prod-hub_abc123")];
    let c = dot(&edges, &data, &[], &[hub("prod-hub", "10.100.0.0/23", "prod-vwan")]);
    assert!(c.contains("vwan_prod_hub"), "Hub node ID must appear in diagram:\n{c}");
    assert!(c.contains("n_spoke_vnet -> vwan_prod_hub [dir=none color=\"#6a0dad\" penwidth=1.5]"), "{c}");
}

#[test]
fn dot_hv_prefix_peering_not_shown_as_broken() {
    let edges = vec![edge("spoke-vnet", "Prod Sub", "Connected", "HV_prod-hub_abc123")];
    let c = dot(&edges, &empty_data(), &[], &[]);
    assert!(!c.contains("broken"), "HV_ peering must NOT appear as broken edge:\n{c}");
    assert!(!c.contains("HV_"), "HV_ internal VNet must NOT appear as a node:\n{c}");
}

#[test]
fn dot_file_starts_with_digraph() {
    let c = dot(&[], &empty_data(), &[], &[]);
    assert!(c.contains("digraph azure_vnet_peering"), "Must start with digraph:\n{c}");
    assert!(c.contains("layout=fdp"), "Must specify fdp layout:\n{c}");
}

#[test]
fn dot_bidir_uses_dir_both() {
    let edges = vec![
        PeeringEdge { remote_vnet_id: arm_id("s2", "vnet-b"), ..edge("vnet-a", "Sub A", "Connected", "vnet-b") },
        PeeringEdge { remote_vnet_id: arm_id("s1", "vnet-a"), ..edge("vnet-b", "Sub B", "Connected", "vnet-a") },
    ];
    let c = dot(&edges, &empty_data(), &[], &[]);
    assert!(c.contains("dir=both"), "Bidir edge must have dir=both:\n{c}");
}

#[test]
fn dot_broken_edge_is_red_dashed() {
    let edges = vec![edge("broken-vnet", "", "Initiated", "spoke-vnet")];
    let c = dot(&edges, &empty_data(), &[], &[]);
    assert!(c.contains("color=red"), "Broken edge must be red:\n{c}");
    assert!(c.contains("style=dashed"), "Broken edge must be dashed:\n{c}");
}

#[test]
fn dot_node_label_includes_vnet_prefix() {
    let edges = vec![edge("my-vnet", "My Sub", "Initiated", "other-vnet")];
    let c = dot(&edges, &empty_data(), &[], &[]);
    assert!(c.contains("VNET:my-vnet"), "Node label must include VNET: prefix:\n{c}");
}

#[test]
fn dot_gateway_vnet_has_external_node() {
    let data = one_subnet("hub-vnet", "GatewaySubnet", "Prod Sub");
    let lng = lng_row("hub-vnet", "hub-vpngw", "on-prem-lng", &["10.0.0.0/8"], "1.2.3.4");
    let c = dot(&[], &data, &[lng], &[]);
    assert!(c.contains("shape=ellipse"), "Gateway VNet with LNG must have external ellipse node:\n{c}");
    assert!(c.contains("LNG:on-prem-lng"), "Ext node must show LNG: prefix:\n{c}");
    assert!(c.contains("hub-vnet"), "hub-vnet must appear:\n{c}");
    assert!(c.contains("PubIP:1.2.3.4\\n10.0.0.0/8"), "{c}");
    assert!(c.contains("n_hub_vnet -> ext_on_prem_lng [dir=none color=\"#1a5fa8\" penwidth=2]"), "{c}");
    assert!(c.contains("VNG:hub-vpngw"), "{c}");
}

#[test]
fn dot_gateway_vnet_no_lng_has_no_external_node() {
    let data = one_subnet("hub-vnet", "GatewaySubnet", "Prod Sub");
    let c = dot(&[], &data, &[], &[]);
    assert!(!c.contains("shape=ellipse"), "Gateway VNet with no LNG must NOT have external ellipse node:\n{c}");
    assert!(c.contains("hub-vnet"), "hub-vnet must still appear:\n{c}");
    assert!(c.contains("GatewaySubnet"), "GatewaySubnet must appear in VNet label:\n{c}");
}

#[test]
fn dot_standalone_vnet_in_cluster() {
    let c = dot(&[], &one_subnet("standalone-vnet", "default", "Standalone Sub"), &[], &[]);
    assert!(c.contains("subgraph cluster_"), "Must have cluster subgraph:\n{c}");
    assert!(c.contains("standalone-vnet"), "VNet must appear in diagram:\n{c}");
}

#[test]
fn dot_missing_island_is_dark_red_and_labelled_by_subscription() {
    let edges = vec![edge("src-vnet", "Sub A", "Initiated", "gone-vnet")];
    let c = dot(&edges, &empty_data(), &[], &[]);
    assert!(c.contains("label=\"MISSING - SUB:s2\""), "{c}");
    assert!(c.contains("fillcolor=\"#8b0000\""), "{c}");
    assert!(c.contains("n_src_vnet -> n_gone_vnet [color=red style=dashed penwidth=2 label=\"broken\"]"), "{c}");
}

#[test]
fn html_escape_escapes_markup_characters() {
    assert_eq!(html_escape("a<b>&c"), "a&lt;b&gt;&amp;c");
    assert_eq!(html_escape("plain"), "plain");
    assert_eq!(html_escape("say \"hi\""), "say &quot;hi&quot;");
}

// ─── topology ───────────────────────────────────────────────────────────────

#[test]
fn canonical_pair_orders_names() {
    assert_eq!(canonical_pair("b", "a"), ("a".to_string(), "b".to_string()));
    assert_eq!(canonical_pair("a", "b"), ("a".to_string(), "b".to_string()));
    assert_eq!(canonical_pair("a", "a"), ("a".to_string(), "a".to_string()));
}

#[test]
fn node_id_replaces_non_alphanumerics() {
    assert_eq!(node_id("my-vnet.01"), "n_my_vnet_01");
    assert_eq!(sanitize_id("a|b c"), "a_b_c");
}

#[test]
fn islands_group_fully_connected_vnets_and_split_broken_ones() {
    let edges = vec![
        edge("a", "S", "Connected", "b"),
        edge("b", "S", "Connected", "a"),
        edge("b", "S", "Connected", "c"),
        edge("c", "S", "Disconnected", "b"),
    ];
    let topo = build_topology(&edges, &empty_data());
    let names: Vec<&str> = topo.vnet_meta.iter().map(|m| m.vnet_name.as_str()).collect();
    assert_eq!(names, vec!["a", "b", "c"]);
    assert_eq!(topo.bidir_pairs, vec![("a".to_string(), "b".to_string())]);
    assert_eq!(topo.islands, vec![vec!["a".to_string(), "b".to_string()], vec!["c".to_string()]]);
    assert_eq!(topo.island_id, vec![0, 0, 1]);
    assert_eq!(topo.broken_edges.len(), 1);
    // b's side is connected, so the broken edge is drawn from b.
    assert_eq!(topo.broken_edges[0].from, "b");
    assert_eq!(topo.broken_edges[0].to, "c");
}

#[test]
fn every_vnet_lies_in_exactly_one_island() {
    let edges = vec![
        edge("x", "S", "Connected", "y"),
        edge("y", "S", "Connected", "x"),
        edge("z", "S", "Connected", "w"),
        edge("w", "S", "Connected", "z"),
        edge("y", "S", "Connected", "z"),
    ];
    let topo = build_topology(&edges, &empty_data());
    for (k, m) in topo.vnet_meta.iter().enumerate() {
        let holding: Vec<usize> = topo
            .islands
            .iter()
            .enumerate()
            .filter(|(_, isl)| isl.contains(&m.vnet_name))
            .map(|(i, _)| i)
            .collect();
        assert_eq!(holding, vec![topo.island_id[k]]);
    }
    assert_eq!(topo.islands.len(), 2);
}

// ─── duplicates report ──────────────────────────────────────────────────────

fn dup_subnet(vnet: &str, sub: &str, vnet_cidr: &str, cidr: &str, name: &str, excluded_by: Option<&str>) -> Subnet {
    let mut s = Subnet::default();
    s.vnet_name = vnet.to_string();
    s.subscription_name = sub.to_string();
    s.subscription_id = "sub-id".to_string();
    s.vnet_cidr = Ipv4::new(vnet_cidr).unwrap();
    s.subnet_cidr = Some(Ipv4::new(cidr).unwrap());
    s.subnet_name = name.to_string();
    s.excluded_by = excluded_by.map(|x| x.to_string());
    s
}

#[test]
fn duplicates_md_contains_winner_and_excluded_vnet_sections() {
    let subnets = vec![
        dup_subnet("winner-vnet", "Prod Sub", "10.0.0.0/16", "10.0.0.0/24", "web-snet", None),
        dup_subnet("winner-vnet", "Prod Sub", "10.0.0.0/16", "10.0.1.0/24", "app-snet", None),
        dup_subnet("excl-vnet", "Dev Sub", "10.0.0.0/16", "10.0.0.0/24", "dup-web", Some("winner-vnet")),
        dup_subnet("excl-vnet", "Dev Sub", "10.0.0.0/16", "10.0.1.0/24", "dup-app", Some("winner-vnet")),
    ];
    let data = Data { count: subnets.len() as i32, skip_token: None, total_records: None, data: subnets };
    let contents = duplicates_md_text(&data, "subnets-test-duplicates.md");
    assert!(contents.contains("winner-vnet"), "must mention winner VNet");
    assert!(contents.contains("Prod Sub"), "must mention winner subscription");
    assert!(contents.contains("excl-vnet"), "must mention excluded VNet");
    assert!(contents.contains("Dev Sub"), "must mention excluded subscription");
    assert!(contents.contains("dup-web"), "must list excluded subnets");
    assert!(contents.contains("dup-app"), "must list excluded subnets");
    assert!(contents.contains("10.0.0.0/24"), "must include subnet CIDRs");
}

#[test]
fn duplicates_md_no_duplicates_writes_placeholder() {
    let subnets = vec![dup_subnet("only-vnet", "Prod", "10.0.0.0/16", "10.0.0.0/24", "snet", None)];
    let data = Data { count: 1, skip_token: None, total_records: None, data: subnets };
    let contents = duplicates_md_text(&data, "subnets-test-no-dup-duplicates.md");
    assert!(contents.contains("_No duplicate VNets found._"));
}

#[test]
fn repeated_one_way_edge_is_not_bidirectional() {
    let edges = vec![edge("x", "S", "Connected", "y"), edge("x", "S", "Connected", "y")];
    let topo = build_topology(&edges, &empty_data());
    assert!(topo.bidir_pairs.is_empty());
    assert_eq!(topo.broken_edges.len(), 1);
    assert_eq!(topo.broken_edges[0].from, "x");
    assert_eq!(topo.broken_edges[0].to, "y");
    assert_eq!(topo.islands.len(), 2);
}

#[test]
fn connected_both_ways_is_bidirectional_even_with_repeats() {
    let edges = vec![
        edge("x", "S", "Connected", "y"),
        edge("x", "S", "Connected", "y"),
        edge("y", "S", "Connected", "x"),
    ];
    let topo = build_topology(&edges, &empty_data());
    assert_eq!(topo.bidir_pairs, vec![("x".to_string(), "y".to_string())]);
    assert!(topo.broken_edges.is_empty());
    assert_eq!(topo.islands, vec![vec!["x".to_string(), "y".to_string()]]);
}

#[test]
fn broken_edge_is_drawn_from_the_connected_side() {
    let edges = vec![edge("p", "S", "Initiated", "q"), edge("q", "S", "Connected", "p")];
    let topo = build_topology(&edges, &empty_data());
    assert_eq!(topo.broken_edges.len(), 1);
    assert_eq!(topo.broken_edges[0].from, "q");
    assert_eq!(topo.broken_edges[0].to, "p");
}

// ─── DOT text passes its own validation ─────────────────────────────────────

#[test]
fn dot_with_missing_vnet_and_gateway_passes_validation() {
    let mut data = one_subnet("hub-vnet", "GatewaySubnet", "Prod Sub");
    data.data[0].vnet_cidr = Ipv4::new("10.0.0.0/16").unwrap();
    let lng = lng_row("hub-vnet", "hub-vpngw", "on-prem-lng", &["10.0.0.0/8"], "1.2.3.4");
    let edges = vec![
        edge("hub-vnet", "Prod Sub", "Initiated", "gone-vnet"),
        edge("hub-vnet", "Prod Sub", "Connected", "spoke-vnet"),
    ];
    let c = dot(&edges, &data, &[lng], &[hub("prod-hub", "10.100.0.0/23", "prod-vwan")]);
    assert_eq!(validate_dot_content(&c, "peering.dot"), Ok(()), "{c}");
    assert!(c.contains("&#x26A0; MISSING<BR/>SUB:s2<BR/>gone-vnet"), "{c}");
    assert!(c.contains("label=\"MISSING - SUB:s2\""), "{c}");
    assert!(c.contains("  &#x2514; VNG:hub-vpngw"), "{c}");
}

#[test]
fn dot_escapes_quotes_in_names_and_passes_validation() {
    let mut data = one_subnet("odd\"vnet", "default", "Sub \"Q\"");
    data.data[0].subnet_name = "sn\"1".into();
    let c = dot(&[], &data, &[], &[]);
    assert!(c.contains("label=\"Sub \\\"Q\\\"\"\n"), "{c}");
    assert!(c.contains("VNET:odd&quot;vnet"), "{c}");
    assert!(c.contains("Subnet:sn&quot;1"), "{c}");
    assert_eq!(validate_dot_content(&c, "peering.dot"), Ok(()), "{c}");
}

#[test]
fn dot_quote_escapes_quotes_and_backslashes() {
    assert_eq!(dot_quote("a\"b"), "a\\\"b");
    assert_eq!(dot_quote("a\\b"), "a\\\\b");
    assert_eq!(dot_quote("plain"), "plain");
}
