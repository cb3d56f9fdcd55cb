use azure_subnet_summary::azure::cli::split_and_strip;
use azure_subnet_summary::models::ipv4::{get_cidr_mask, num_az_hosts, Ipv4Error};
use azure_subnet_summary::output::terminal::format_field;
use azure_subnet_summary::subnet_print::f;

fn split(input: &str) -> Vec<String> {
    split_and_strip(input).expect("the command pattern compiles")
}

#[test]
fn cli_test_split_and_strip_complex() {
    let input = "Hello 'World War'  'fail' Rust";
    let expected = vec!["Hello", "World War", "fail", "Rust"];
    assert_eq!(split(input), expected);
}

#[test]
fn cli_test_split_and_strip_nospaces() {
    let input = "NoSpacesHere";
    let expected = vec!["NoSpacesHere"];
    assert_eq!(split(input), expected);
}

#[test]
fn cli_test_split_and_strip_empty_quotes() {
    let input = "Empty '' Single Quotes";
    let expected = vec!["Empty", "", "Single", "Quotes"];
    assert_eq!(split(input), expected);
}

#[test]
fn cli_test_quoted_url() {
    let input = "curl \"https://mysite.com?\\$filter=name eq 'john' and surname eq 'smith'\"";
    let expected = vec![
        "curl",
        "https://mysite.com?\\$filter=name eq 'john' and surname eq 'smith'",
    ];
    assert_eq!(split(input), expected);
}

#[test]
fn cmd_test_split_and_strip_complex() {
    let input = "Hello 'World War'  'fail' Rust";
    let expected = vec!["Hello", "World War", "fail", "Rust"];
    assert_eq!(split(input), expected);
}

#[test]
fn cmd_test_split_and_strip_nospaces() {
    let input2 = "NoSpacesHere";
    let expected2 = vec!["NoSpacesHere"];
    assert_eq!(split(input2), expected2);
}

#[test]
fn cmd_test_split_and_strip_empty_quotes() {
    let input3 = "Empty '' Single Quotes";
    let expected3 = vec!["Empty", "", "Single", "Quotes"];
    assert_eq!(split(input3), expected3);
}

#[test]
fn cmd_test_quoted_url() {
    let input3 = "curl \"https://mysite.com?\\$filter=name eq 'john' and surname eq 'smith'\"";
    let expected3 = vec![
        "curl",
        "https://mysite.com?\\$filter=name eq 'john' and surname eq 'smith'",
    ];
    assert_eq!(split(input3), expected3);
}

#[test]
fn ipv4_test_get_cidr_mask() {
    assert_eq!(get_cidr_mask(0).unwrap(), 0x00000000);
    assert_eq!(get_cidr_mask(8).unwrap(), 0xFF000000);
    assert_eq!(get_cidr_mask(16).unwrap(), 0xFFFF0000);
    assert_eq!(get_cidr_mask(24).unwrap(), 0xFFFFFF00);
    assert_eq!(get_cidr_mask(32).unwrap(), 0xFFFFFFFF);
    assert!(get_cidr_mask(33).is_err());
}

#[test]
fn ipv4_test_num_az_hosts() {
    assert_eq!(num_az_hosts(0).unwrap(), 4294967291);
    assert_eq!(num_az_hosts(8).unwrap(), 16777211);
    assert_eq!(num_az_hosts(16).unwrap(), 65531);
    assert_eq!(num_az_hosts(24).unwrap(), 251);
    assert_eq!(num_az_hosts(25).unwrap(), 123);
    assert_eq!(num_az_hosts(26).unwrap(), 59);
    assert_eq!(num_az_hosts(27).unwrap(), 27);
    assert_eq!(num_az_hosts(28).unwrap(), 11);
    assert_eq!(num_az_hosts(29).unwrap(), 3);
    assert_eq!(
        num_az_hosts(30).unwrap_err().message(),
        "Network length is too long or invalid"
    );
    assert!(num_az_hosts(33).is_err());
}

#[test]
fn num_az_hosts_refuses_single_address_block() {
    assert_eq!(
        num_az_hosts(32).unwrap_err().message(),
        "Network length is too long or invalid"
    );
}

#[test]
fn test_format_field_short() {
    assert_eq!(format_field("test", 10), "    \"test\"");
}

#[test]
fn test_format_field_exact() {
    assert_eq!(format_field("test", 6), "\"test\"");
}

#[test]
fn test_format_field_long() {
    assert_eq!(format_field("long_value", 5), "\"long_value\"");
}

#[test]
fn test_format_field_number() {
    assert_eq!(format_field(&42.to_string(), 6), "  \"42\"");
}

#[test]
fn format_field_decides_by_bytes_and_pads_by_characters() {
    // Quoted "éé" is 4 characters but 6 bytes: at width 5 it is not padded.
    assert_eq!(format_field("éé", 5), "\"éé\"");
    // Quoted "é" is 3 characters and 4 bytes: padded to 6 characters.
    assert_eq!(format_field("é", 6), "   \"é\"");
}

#[test]
fn multi_cidr_field_formatter_matches_format_field() {
    assert_eq!(f("abc", 8), format_field("abc", 8));
    assert_eq!(f("abc", 8), "   \"abc\"");
}

#[test]
fn cidr_mask_error_variant_is_network_length_too_long() {
    assert_eq!(get_cidr_mask(40), Err(Ipv4Error::NetworkLengthTooLong));
    assert_eq!(num_az_hosts(31), Err(Ipv4Error::HostLengthInvalid));
}

#[test]
fn split_keeps_double_quoted_arguments_whole() {
    assert_eq!(split("az graph query -q \"a b c\""), vec!["az", "graph", "query", "-q", "a b c"]);
}
