use nordiv::api::{classify_hosts, split_by_membership, ApiResult, HostRecord, HostStatus};
use nordiv::grouping::{record_match, SubnetGroup};
use nordiv::ipv4::ipv4_from_octets;
use nordiv::network::{divide_subnet, CidrBlock};

fn block(a: u8, b: u8, c: u8, d: u8, prefix: u8) -> CidrBlock {
    CidrBlock { address: ipv4_from_octets(a, b, c, d), prefix }
}

fn online(hostname: &str, station: &str) -> HostRecord {
    HostRecord::new(hostname, HostStatus::Online, station)
}

fn offline(hostname: &str, station: &str) -> HostRecord {
    HostRecord::new(hostname, HostStatus::Other, station)
}

fn names(list: &[&str]) -> Vec<String> {
    list.iter().map(|n| n.to_string()).collect()
}

fn groups_of(result: &ApiResult) -> Vec<(CidrBlock, Vec<String>)> {
    result.grouped_servers.iter().map(|g| (g.subnet, g.hostnames.clone())).collect()
}

#[test]
fn classify_two_halves_of_a_slash_8() {
    let subnets = divide_subnet(block(10, 0, 0, 0, 8), 9).unwrap();
    assert_eq!(subnets, vec![block(10, 0, 0, 0, 9), block(10, 128, 0, 0, 9)]);
    let hosts = vec![
        online("a", "10.0.0.1"),
        online("b", "10.200.0.1"),
        offline("c", "10.1.1.1"),
        online("d", "bad-ip"),
    ];
    let result = classify_hosts(&hosts, &subnets);
    assert_eq!(result.total_servers, 4);
    assert_eq!(result.online_servers, 3);
    assert_eq!(
        groups_of(&result),
        vec![
            (block(10, 0, 0, 0, 9), names(&["a"])),
            (block(10, 128, 0, 0, 9), names(&["b"])),
        ]
    );
    assert_eq!(result.servers_without_matches, Vec::<String>::new());
    assert_eq!(result.server_info.len(), 2);
    assert_eq!(result.server_info[0].hostname, "a");
    assert_eq!(result.server_info[0].ip_address, ipv4_from_octets(10, 0, 0, 1));
    assert_eq!(result.server_info[0].matched_subnets, vec![block(10, 0, 0, 0, 9)]);
    assert_eq!(result.server_info[0].missed_subnets, vec![block(10, 128, 0, 0, 9)]);
    assert_eq!(result.server_info[1].hostname, "b");
    assert_eq!(result.server_info[1].ip_address, ipv4_from_octets(10, 200, 0, 1));
    assert_eq!(result.server_info[1].matched_subnets, vec![block(10, 128, 0, 0, 9)]);
    assert_eq!(result.server_info[1].missed_subnets, vec![block(10, 0, 0, 0, 9)]);
}

#[test]
fn host_outside_every_block_is_only_unmatched() {
    let subnets = divide_subnet(block(10, 0, 0, 0, 8), 9).unwrap();
    let hosts = vec![online("in", "10.1.2.3"), online("out", "192.168.0.1")];
    let result = classify_hosts(&hosts, &subnets);
    assert_eq!(result.servers_without_matches, names(&["out"]));
    for group in &result.grouped_servers {
        assert!(!group.hostnames.contains(&"out".to_string()));
    }
    assert_eq!(groups_of(&result), vec![(block(10, 0, 0, 0, 9), names(&["in"]))]);
    assert_eq!(result.server_info[1].matched_subnets, Vec::<CidrBlock>::new());
    assert_eq!(result.server_info[1].missed_subnets, subnets);
}

#[test]
fn namesakes_inside_and_outside_are_listed_in_both_places() {
    let subnets = vec![block(10, 0, 0, 0, 8)];
    let hosts = vec![online("x", "10.0.0.1"), online("x", "192.168.0.1")];
    let result = classify_hosts(&hosts, &subnets);
    assert_eq!(result.servers_without_matches, names(&["x"]));
    assert_eq!(groups_of(&result), vec![(block(10, 0, 0, 0, 8), names(&["x"]))]);
}

#[test]
fn classify_nothing() {
    let result = classify_hosts(&vec![], &vec![block(10, 0, 0, 0, 8)]);
    assert_eq!(result.total_servers, 0);
    assert_eq!(result.online_servers, 0);
    assert!(result.server_info.is_empty());
    assert!(result.grouped_servers.is_empty());
    assert!(result.servers_without_matches.is_empty());
}

#[test]
fn classify_against_no_blocks() {
    let hosts = vec![online("a", "10.0.0.1"), offline("b", "10.0.0.2"), online("c", "10.0.0.3")];
    let result = classify_hosts(&hosts, &vec![]);
    assert_eq!(result.total_servers, 3);
    assert_eq!(result.online_servers, 2);
    assert_eq!(result.server_info.len(), 2);
    assert!(result.grouped_servers.is_empty());
    assert_eq!(result.servers_without_matches, names(&["a", "c"]));
}

#[test]
fn online_count_includes_hosts_with_bad_addresses() {
    let hosts = vec![online("a", ""), online("b", "1.2.3"), online("c", "01.2.3.4"), offline("d", "1.2.3.4")];
    let result = classify_hosts(&hosts, &vec![block(0, 0, 0, 0, 0)]);
    assert_eq!(result.total_servers, 4);
    assert_eq!(result.online_servers, 3);
    assert!(result.server_info.is_empty());
    assert!(result.grouped_servers.is_empty());
    assert!(result.servers_without_matches.is_empty());
}

#[test]
fn overlapping_blocks_each_list_the_host() {
    let subnets = vec![block(10, 0, 0, 0, 8), block(10, 1, 0, 0, 16), block(11, 0, 0, 0, 8)];
    let hosts = vec![online("a", "10.1.5.5"), online("b", "10.2.0.1")];
    let result = classify_hosts(&hosts, &subnets);
    assert_eq!(
        groups_of(&result),
        vec![
            (block(10, 0, 0, 0, 8), names(&["a", "b"])),
            (block(10, 1, 0, 0, 16), names(&["a"])),
        ]
    );
    assert_eq!(result.server_info[0].matched_subnets, vec![subnets[0], subnets[1]]);
    assert_eq!(result.server_info[0].missed_subnets, vec![subnets[2]]);
    assert_eq!(result.server_info[1].matched_subnets, vec![subnets[0]]);
    assert_eq!(result.server_info[1].missed_subnets, vec![subnets[1], subnets[2]]);
    assert!(result.servers_without_matches.is_empty());
}

#[test]
fn groups_come_in_the_order_of_first_match() {
    let subnets = vec![block(10, 0, 0, 0, 9), block(10, 128, 0, 0, 9)];
    let hosts = vec![online("late", "10.200.0.1"), online("early", "10.0.0.1"), online("later", "10.201.0.1")];
    let result = classify_hosts(&hosts, &subnets);
    assert_eq!(
        groups_of(&result),
        vec![
            (block(10, 128, 0, 0, 9), names(&["late", "later"])),
            (block(10, 0, 0, 0, 9), names(&["early"])),
        ]
    );
}

#[test]
fn a_block_given_twice_lists_the_host_twice() {
    let subnets = vec![block(10, 0, 0, 0, 8), block(10, 0, 0, 0, 8)];
    let hosts = vec![online("a", "10.0.0.1")];
    let result = classify_hosts(&hosts, &subnets);
    assert_eq!(groups_of(&result), vec![(block(10, 0, 0, 0, 8), names(&["a", "a"]))]);
    assert_eq!(result.server_info[0].matched_subnets, subnets);
}

#[test]
fn blocks_with_host_bits_match_by_their_network() {
    let subnets = vec![block(10, 7, 7, 7, 8)];
    let result = classify_hosts(&vec![online("a", "10.0.0.1")], &subnets);
    assert_eq!(groups_of(&result), vec![(block(10, 7, 7, 7, 8), names(&["a"]))]);
}

#[test]
fn a_slash_zero_block_matches_every_host() {
    let subnets = vec![block(0, 0, 0, 0, 0)];
    let hosts = vec![online("a", "1.2.3.4"), online("b", "255.255.255.255"), online("c", "0.0.0.0")];
    let result = classify_hosts(&hosts, &subnets);
    assert_eq!(groups_of(&result), vec![(block(0, 0, 0, 0, 0), names(&["a", "b", "c"]))]);
    assert!(result.servers_without_matches.is_empty());
}

#[test]
fn status_comes_from_the_text_online() {
    assert_eq!(HostStatus::from_text("online"), HostStatus::Online);
    assert_eq!(HostStatus::from_text("offline"), HostStatus::Other);
    assert_eq!(HostStatus::from_text("Online"), HostStatus::Other);
    assert_eq!(HostStatus::from_text(""), HostStatus::Other);
    assert_eq!(HostStatus::from_text("online "), HostStatus::Other);
}

#[test]
fn records_from_complete_and_incomplete_entries() {
    let full = HostRecord::from_fields(Some("online"), Some("a"), Some("10.0.0.1"));
    assert_eq!(full.hostname, "a");
    assert_eq!(full.status, HostStatus::Online);
    assert_eq!(full.station, "10.0.0.1");
    let off = HostRecord::from_fields(Some("maintenance"), Some("b"), Some("10.0.0.2"));
    assert_eq!(off.hostname, "b");
    assert_eq!(off.status, HostStatus::Other);
    assert_eq!(off.station, "10.0.0.2");
    for partial in [
        HostRecord::from_fields(None, Some("c"), Some("10.0.0.3")),
        HostRecord::from_fields(Some("online"), None, Some("10.0.0.3")),
        HostRecord::from_fields(Some("online"), Some("c"), None),
        HostRecord::from_fields(None, None, None),
    ] {
        assert_eq!(partial.hostname, "");
        assert_eq!(partial.status, HostStatus::Other);
        assert_eq!(partial.station, "");
    }
}

#[test]
fn incomplete_entries_count_only_in_the_total() {
    let hosts = vec![
        HostRecord::from_fields(Some("online"), Some("a"), Some("10.0.0.1")),
        HostRecord::from_fields(Some("online"), Some("b"), None),
        HostRecord::from_fields(None, Some("c"), Some("10.0.0.3")),
    ];
    let result = classify_hosts(&hosts, &vec![block(10, 0, 0, 0, 8)]);
    assert_eq!(result.total_servers, 3);
    assert_eq!(result.online_servers, 1);
    assert_eq!(groups_of(&result), vec![(block(10, 0, 0, 0, 8), names(&["a"]))]);
}

#[test]
fn split_by_membership_keeps_the_order() {
    let subnets = vec![block(10, 0, 0, 0, 8), block(11, 0, 0, 0, 8), block(10, 1, 0, 0, 16), block(0, 0, 0, 0, 0)];
    let (inside, outside) = split_by_membership(ipv4_from_octets(10, 1, 0, 9), &subnets);
    assert_eq!(inside, vec![subnets[0], subnets[2], subnets[3]]);
    assert_eq!(outside, vec![subnets[1]]);
}

#[test]
fn record_match_appends_or_opens_a_group() {
    let mut groups: Vec<SubnetGroup> = Vec::new();
    record_match(&mut groups, block(10, 0, 0, 0, 8), &"a".to_string());
    record_match(&mut groups, block(11, 0, 0, 0, 8), &"b".to_string());
    record_match(&mut groups, block(10, 0, 0, 0, 8), &"c".to_string());
    assert_eq!(groups.len(), 2);
    assert_eq!(groups[0].subnet, block(10, 0, 0, 0, 8));
    assert_eq!(groups[0].hostnames, names(&["a", "c"]));
    assert_eq!(groups[1].subnet, block(11, 0, 0, 0, 8));
    assert_eq!(groups[1].hostnames, names(&["b"]));
}
