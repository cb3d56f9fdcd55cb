use azure_subnet_summary::azure::azure_cache::{cache_file_name, resolve_cache_path, resolve_local_gateway_cache_path, CacheError};
use azure_subnet_summary::azure::graph::Data;
use azure_subnet_summary::azure::paginate::{next_token_param, page_command, paginate_step, PageStep, LAST_PAGE_PARAM};
use azure_subnet_summary::models::ipv4::Ipv4;
use azure_subnet_summary::models::subnet::Subnet;
use azure_subnet_summary::models::vnet::VnetList;
use azure_subnet_summary::output::csv::parse_cidr;
use azure_subnet_summary::pipeline::{
    dot_engine, output_plan, parse_diagram_types, prepare_subnets, render_start, PrepareError, render_step, wants_diagram, LaunchOutcome, RenderAction,
    RenderEnd, RenderState,
};
use azure_subnet_summary::processing::dedup::de_duplicate_subnets;
use azure_subnet_summary::processing::overlap::{is_production, ExcludedSubnet};
use azure_subnet_summary::processing::vnet::{count_excluded_vnets, get_vnets, vnet_lines, Paint};
use azure_subnet_summary::{check_for_duplicate_subnets, get_sorted_subnets, DuplicateSubnet};

fn subnet(vnet: &str, sub_id: &str, cidr: Option<&str>, name: &str) -> Subnet {
    let mut s = Subnet::default();
    s.vnet_name = vnet.to_string();
    s.subscription_id = sub_id.to_string();
    s.subscription_name = format!("{sub_id} name");
    s.vnet_cidr = Ipv4::new("10.0.0.0/8").unwrap();
    s.subnet_cidr = cidr.map(|c| Ipv4::new(c).unwrap());
    s.subnet_name = name.to_string();
    s
}

fn data(subnets: Vec<Subnet>) -> Data {
    Data { count: subnets.len() as i32, data: subnets, ..Default::default() }
}

// ─── sorting and duplicates ─────────────────────────────────────────────────

#[test]
fn sorted_subnets_are_ordered_by_block_and_keep_ties_in_order() {
    let d = data(vec![
        subnet("b", "s2", Some("10.0.2.0/24"), "x"),
        subnet("a", "s1", Some("10.0.1.0/24"), "first"),
        subnet("c", "s3", None, "none"),
        subnet("a", "s1", Some("10.0.1.0/24"), "second"),
    ]);
    let r = get_sorted_subnets(d);
    let names: Vec<&str> = r.data.iter().map(|s| s.subnet_name.as_str()).collect();
    assert_eq!(names, vec!["none", "first", "second", "x"]);
    assert_eq!(r.count, 4);
}

#[test]
fn duplicate_check_reports_first_repeat() {
    let d = data(vec![
        subnet("a", "s1", Some("10.0.1.0/24"), "one"),
        subnet("b", "s1", Some("10.0.2.0/24"), "two"),
        subnet("c", "s1", Some("10.0.1.0/24"), "three"),
    ]);
    assert_eq!(check_for_duplicate_subnets(&d), Err(DuplicateSubnet { index: 2 }));
    let ok = data(vec![
        subnet("a", "s1", Some("10.0.1.0/24"), "one"),
        subnet("b", "s2", Some("10.0.1.0/24"), "two"),
    ]);
    assert_eq!(check_for_duplicate_subnets(&ok), Ok(()));
}

#[test]
fn de_duplicated_subnets_pass_the_duplicate_check() {
    let d = data(vec![
        subnet("a", "s1", Some("10.0.1.0/24"), "one"),
        subnet("a", "s1", Some("10.0.1.0/24"), "again"),
        subnet("b", "s1", Some("10.0.0.0/24"), "default"),
        subnet("c", "s2", None, "no-block"),
        subnet("d", "s2", Some("10.0.3.0/24"), "three"),
    ]);
    let r = de_duplicate_subnets(d, None).unwrap();
    let names: Vec<&str> = r.data.iter().map(|s| s.subnet_name.as_str()).collect();
    assert_eq!(names, vec!["one", "three"]);
    assert_eq!(check_for_duplicate_subnets(&r), Ok(()));
}

#[test]
fn de_duplicate_uses_the_given_ignore_list() {
    let d = data(vec![
        subnet("a", "s1", Some("10.0.1.0/24"), "keep"),
        subnet("b", "s1", Some("10.0.2.0/24"), "drop-me"),
        subnet("c", "s1", Some("10.0.3.0/24"), "default"),
    ]);
    let ignore = vec!["drop-me"];
    let r = de_duplicate_subnets(d, Some(&ignore)).unwrap();
    let names: Vec<&str> = r.data.iter().map(|s| s.subnet_name.as_str()).collect();
    assert_eq!(names, vec!["keep", "default"]);
}

// ─── pagination ─────────────────────────────────────────────────────────────

#[test]
fn single_page_returns_all_rows() {
    // A first page without a skip token is the last page.
    assert_eq!(paginate_step(&vec![String::new()], None), PageStep::Last);
    assert_eq!(next_token_param(None), LAST_PAGE_PARAM);
}

#[test]
fn two_pages_are_merged() {
    let mut seen = vec![String::new()];
    let first = paginate_step(&seen, Some("tok1"));
    assert_eq!(first, PageStep::More("--skip-token tok1".to_string()));
    seen.push("--skip-token tok1".to_string());
    assert_eq!(paginate_step(&seen, None), PageStep::Last);
}

#[test]
fn duplicate_skip_token_returns_error() {
    let mut seen = vec![String::new()];
    assert_eq!(paginate_step(&seen, Some("stuck")), PageStep::More("--skip-token stuck".to_string()));
    seen.push("--skip-token stuck".to_string());
    assert_eq!(paginate_step(&seen, Some("stuck")), PageStep::Stuck);
}

#[test]
fn skip_token_cycle_is_stuck() {
    let mut seen = vec![String::new()];
    for t in ["t1", "t2"] {
        match paginate_step(&seen, Some(t)) {
            PageStep::More(next) => seen.push(next),
            other => panic!("unexpected {other:?}"),
        }
    }
    assert_eq!(paginate_step(&seen, Some("t1")), PageStep::Stuck);
}

#[test]
fn page_command_embeds_token_and_query() {
    assert_eq!(
        page_command("Resources | limit 1", "--skip-token abc"),
        "az graph query --first 50 --skip-token abc -q 'Resources | limit 1' --output json"
    );
}

// ─── cache files ────────────────────────────────────────────────────────────

#[test]
fn cache_names_follow_the_date_and_stem() {
    assert_eq!(cache_file_name("2026-02-09", "subnet"), "net_2026-02-09_cache_subnet.json");
    assert_eq!(resolve_cache_path(None, false, "2026-02-09", "peering"), Ok("net_2026-02-09_cache_peering.json".to_string()));
    assert_eq!(resolve_cache_path(Some("x.json"), true, "2026-02-09", "peering"), Ok("x.json".to_string()));
}

#[test]
fn load_fails_when_explicit_file_missing() {
    let err = resolve_cache_path(Some("/no/such/file.json"), false, "2026-02-09", "subnet").unwrap_err();
    assert_eq!(err, CacheError::Missing("/no/such/file.json".to_string()));
    assert!(err.message().contains("does not exist"));
    let err = resolve_local_gateway_cache_path(Some("lg.json"), false, "2026-02-09").unwrap_err();
    assert_eq!(err.message(), "Local gateway cache file does not exist: lg.json");
    assert_eq!(
        resolve_local_gateway_cache_path(None, false, "2026-02-09"),
        Ok("net_2026-02-09_cache_local-gateway.json".to_string())
    );
}

// ─── blocks ─────────────────────────────────────────────────────────────────

#[test]
fn parse_cidr_gives_network_broadcast_and_hosts() {
    let (start, len, bcast, hosts) = parse_cidr("10.0.1.7/24").unwrap();
    assert_eq!(start, u32::from_be_bytes([10, 0, 1, 0]));
    assert_eq!(len, 24);
    assert_eq!(bcast, "10.0.1.255");
    assert_eq!(hosts, 251);
    assert_eq!(parse_cidr("10.0.0.0/32").unwrap().3, 0);
    assert!(parse_cidr("not a block").is_none());
}

#[test]
fn ipv4_text_round_trips() {
    let b = Ipv4::new("192.168.4.0/22").unwrap();
    assert_eq!(b.to_string(), "192.168.4.0/22");
    assert_eq!(b.lo(), u32::from_be_bytes([192, 168, 4, 0]));
    assert_eq!(b.hi(), u32::from_be_bytes([192, 168, 7, 255]));
    assert!(Ipv4::new("192.168.4.0").is_err());
}

// ─── diagrams requested ─────────────────────────────────────────────────────

#[test]
fn diagram_kinds_are_trimmed_lowercased_and_unique() {
    let kinds = parse_diagram_types(" SVG, dot,,svg ,Mermaid");
    assert_eq!(kinds, vec!["svg", "dot", "mermaid"]);
    assert!(wants_diagram(&kinds, "dot"));
    assert!(!wants_diagram(&kinds, "png"));
}

#[test]
fn production_is_a_case_insensitive_prod_substring() {
    assert!(is_production("Coretex Production"));
    assert!(is_production("platform-PROD"));
    assert!(!is_production("Sandbox"));
}

// ─── VNets ──────────────────────────────────────────────────────────────────

#[test]
fn vnets_group_subnets_by_name_and_subscription() {
    let mut s1 = subnet("v", "s1", Some("10.0.1.0/24"), "a");
    s1.vnet_cidr = Ipv4::new("10.0.0.0/16").unwrap();
    let mut s2 = subnet("v", "s1", Some("172.16.0.0/24"), "b");
    s2.vnet_cidr = Ipv4::new("172.16.0.0/16").unwrap();
    let s3 = subnet("v", "s2", Some("10.9.0.0/24"), "c");
    let d = data(vec![s1, s2, s3]);
    let list: VnetList = get_vnets(&d);
    assert_eq!(list.vnets.len(), 2);
    assert_eq!(list.vnets[0].subnets.len(), 2);
    assert_eq!(list.vnets[0].vnet_cidr.len(), 2);
    let lines = vnet_lines(&list, &[]);
    assert_eq!(lines[0].0, "VNET: 'v' 's1 name' - 10.0.0.0/16, 172.16.0.0/16 [2 subnet(s)]");
    assert_eq!(lines[0].1, None);
}

#[test]
fn winner_line_is_green_and_excluded_lines_red() {
    let w = subnet("winner", "s1", Some("10.1.1.0/24"), "w");
    let d = data(vec![w]);
    let list = get_vnets(&d);
    let ex = vec![
        ExcludedSubnet { subnet: subnet("loser", "s2", Some("10.1.1.0/24"), "l1"), winner_vnet_name: "winner".into() },
        ExcludedSubnet { subnet: subnet("loser", "s2", Some("10.1.2.0/24"), "l2"), winner_vnet_name: "winner".into() },
    ];
    let lines = vnet_lines(&list, &ex);
    assert_eq!(lines.len(), 2);
    assert_eq!(lines[0].1, Some(Paint::Green));
    assert_eq!(lines[1].0, "  EXCL: 'loser' 's2 name' - 10.0.0.0/8 [2 subnet(s)] [DUP of 'winner']");
    assert_eq!(lines[1].1, Some(Paint::Red));
    assert_eq!(count_excluded_vnets(&ex), 1);
}

// ─── output plan ────────────────────────────────────────────────────────────

#[test]
fn output_plan_renders_svg_only_when_asked() {
    let plan = output_plan(&parse_diagram_types("svg"), "2024-05-01");
    assert_eq!(plan.report_dir, "report-2024-05-01");
    assert_eq!(plan.dot_file.as_deref(), Some("net_2024-05-01_peering.dot"));
    assert_eq!(plan.svg_file.as_deref(), Some("net_2024-05-01_peering.svg"));
    assert_eq!(plan.mermaid_file, None);

    let plan = output_plan(&parse_diagram_types("md"), "2024-05-01");
    assert_eq!(plan.mermaid_file.as_deref(), Some("net_2024-05-01_peering.md"));
    assert_eq!(plan.dot_file, None);
    assert_eq!(plan.svg_file, None);
    assert_eq!(plan.csv_file, "net_2024-05-01_subnets.csv");
    assert_eq!(plan.duplicates_file, "net_2024-05-01_duplicates.md");
}

#[test]
fn output_plan_dot_without_svg() {
    let plan = output_plan(&parse_diagram_types(" DOT , md"), "2024-05-01");
    assert!(plan.dot_file.is_some());
    assert!(plan.svg_file.is_none());
    assert!(plan.mermaid_file.is_some());
}

#[test]
fn de_duplicating_twice_removes_nothing_more() {
    let d = data(vec![
        subnet("a", "s1", Some("10.0.1.0/24"), "one"),
        subnet("a", "s1", Some("10.0.1.0/24"), "again"),
        subnet("e", "s0", Some("10.0.1.0/24"), "other-sub"),
        subnet("c", "s2", None, "no-block"),
        subnet("d", "s2", Some("10.0.0.0/24"), "zero"),
    ]);
    let once = de_duplicate_subnets(d, None).unwrap();
    let names: Vec<String> = once.data.iter().map(|s| s.subnet_name.clone()).collect();
    let twice = de_duplicate_subnets(once, None).unwrap();
    let again: Vec<String> = twice.data.iter().map(|s| s.subnet_name.clone()).collect();
    assert_eq!(names, again);
    assert_eq!(names, vec!["zero", "other-sub", "one"]);
}

// ─── SVG rendering decisions ────────────────────────────────────────────────

#[test]
fn invalid_dot_launches_nothing() {
    assert_eq!(render_start(false).1, RenderAction::Stop(RenderEnd::Invalid));
    assert_eq!(render_start(true).1, RenderAction::RunLocal(0));
}

#[test]
fn engines_are_tried_in_order() {
    assert_eq!((dot_engine(0), dot_engine(1), dot_engine(2)), ("fdp", "sfdp", "neato"));
}

#[test]
fn local_failures_try_each_engine_then_give_up_without_docker() {
    let (mut s, a) = render_start(true);
    assert_eq!(a, RenderAction::RunLocal(0));
    let (n, a) = render_step(s, LaunchOutcome::Failed);
    assert_eq!(a, RenderAction::RunLocal(1));
    s = n;
    let (n, a) = render_step(s, LaunchOutcome::Failed);
    assert_eq!(a, RenderAction::RunLocal(2));
    s = n;
    let (_, a) = render_step(s, LaunchOutcome::Failed);
    assert_eq!(a, RenderAction::Stop(RenderEnd::LocalEnginesFailed));
    // dot ran once; a later launch failure still does not fall back to Docker
    let (_, a) = render_step(RenderState::Local { engine: 1, dot_installed: true }, LaunchOutcome::NotFound);
    assert_eq!(a, RenderAction::Stop(RenderEnd::LocalEnginesFailed));
}

#[test]
fn missing_dot_falls_back_to_docker() {
    let (s, _) = render_start(true);
    let (s, a) = render_step(s, LaunchOutcome::NotFound);
    assert_eq!((s, a), (RenderState::Docker { engine: 0 }, RenderAction::RunDocker(0)));
    let (_, a) = render_step(RenderState::Local { engine: 0, dot_installed: false }, LaunchOutcome::LaunchError);
    assert_eq!(a, RenderAction::RunDocker(0));
    let (s, a) = render_step(s, LaunchOutcome::Failed);
    assert_eq!(a, RenderAction::RunDocker(1));
    let (s, a) = render_step(s, LaunchOutcome::Failed);
    assert_eq!(a, RenderAction::RunDocker(2));
    let (_, a) = render_step(s, LaunchOutcome::Failed);
    assert_eq!(a, RenderAction::Stop(RenderEnd::DockerEnginesFailed));
}

#[test]
fn rendering_stops_on_success_or_when_docker_cannot_start() {
    let (_, a) = render_step(RenderState::Local { engine: 2, dot_installed: true }, LaunchOutcome::Succeeded);
    assert_eq!(a, RenderAction::Stop(RenderEnd::Rendered));
    let (_, a) = render_step(RenderState::Docker { engine: 1 }, LaunchOutcome::Succeeded);
    assert_eq!(a, RenderAction::Stop(RenderEnd::Rendered));
    let (_, a) = render_step(RenderState::Docker { engine: 0 }, LaunchOutcome::NotFound);
    assert_eq!(a, RenderAction::Stop(RenderEnd::DockerUnavailable));
}

// ─── subnet steps of a run ──────────────────────────────────────────────────

#[test]
fn prepare_subnets_resolves_overlaps_and_drops_repeats() {
    let mut web = subnet("prod-vnet", "p", Some("10.0.0.0/24"), "web");
    web.subscription_name = "Prod Sub".into();
    web.vnet_cidr = Ipv4::new("10.0.0.0/16").unwrap();
    let mut app = subnet("dev-vnet", "d", Some("10.0.1.0/24"), "app");
    app.subscription_name = "Dev Sub".into();
    app.vnet_cidr = Ipv4::new("10.0.0.0/16").unwrap();
    let p = prepare_subnets(data(vec![app.clone(), web.clone(), web.clone()])).unwrap();
    let names: Vec<&str> = p.active.data.iter().map(|s| s.subnet_name.as_str()).collect();
    assert_eq!(names, vec!["web"]);
    assert_eq!(p.excluded.len(), 1);
    assert_eq!(p.excluded[0].subnet.subnet_name, "app");
    assert_eq!(p.excluded[0].winner_vnet_name, "prod-vnet");
}

#[test]
fn prepare_subnets_refuses_prefix_above_32() {
    let mut s = subnet("v", "p", Some("10.0.0.0/24"), "web");
    s.vnet_cidr = Ipv4 { addr: 0x0a00_0000, mask: 33 };
    assert!(matches!(prepare_subnets(data(vec![s])), Err(PrepareError::PrefixTooLong)));
}
