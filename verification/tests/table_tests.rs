use etc_hosts::{EtcHosts, HostAddr};

#[test]
fn parse_serialize_round_trip_is_fixed_point() {
    let input = "127.0.0.1 localhost\n\n# The following lines are desirable for IPv6 capable hosts\n::1 ip6-localhost ip6-loopback\nfe00::0 ip6-localnet\n";
    let once = EtcHosts::from_str(input).unwrap().to_string();
    let twice = EtcHosts::from_str(&once).unwrap().to_string();
    assert_eq!(once, twice);
    assert_eq!(
        once,
        "127.0.0.1 localhost\n\n# The following lines are desirable for IPv6 capable hosts\n::1 ip6-localhost ip6-loopback\nfe00:: ip6-localnet\n"
    );
}

#[test]
fn trailing_blank_lines_are_dropped() {
    let hosts = EtcHosts::from_str("127.0.0.1 localhost\n\n\n").unwrap();
    assert_eq!(hosts.to_string(), "127.0.0.1 localhost\n");
}

#[test]
fn output_always_ends_in_newline() {
    let hosts = EtcHosts::from_str("127.0.0.1 localhost").unwrap();
    assert_eq!(hosts.to_string(), "127.0.0.1 localhost\n");
}

#[test]
fn malformed_line_rejects_whole_table() {
    assert!(EtcHosts::from_str("127.0.0.1 localhost\n::1\n").is_err());
    assert!(EtcHosts::from_str("notanip host1\n").is_err());
    assert!(EtcHosts::from_str("   \n").is_ok());
}

#[test]
fn add_data_is_idempotent() {
    let mut hosts = EtcHosts::from_str("127.0.0.1 localhost\n").unwrap();
    hosts.add_data(HostAddr::V4(10, 0, 0, 5), "foo");
    let after_one = hosts.to_string();
    hosts.add_data(HostAddr::V4(10, 0, 0, 5), "foo");
    let after_two = hosts.to_string();
    assert_eq!(after_one, after_two);
    assert_eq!(after_one.matches("foo").count(), 1);
}

#[test]
fn add_data_dedups_across_prior_location() {
    let mut hosts = EtcHosts::from_str("10.0.0.9 oldhost extra\n").unwrap();
    hosts.add_data(HostAddr::V4(10, 0, 0, 7), "oldhost");
    assert_eq!(
        hosts.to_string(),
        "10.0.0.9 extra\n\n# ISUCON Servers\n10.0.0.7 oldhost\n"
    );
}

#[test]
fn add_data_deletes_line_whose_last_alias_left() {
    let mut hosts = EtcHosts::from_str("10.0.0.9 oldhost\n# keep\n").unwrap();
    hosts.add_data(HostAddr::V4(10, 0, 0, 7), "oldhost");
    assert_eq!(
        hosts.to_string(),
        "# keep\n\n# ISUCON Servers\n10.0.0.7 oldhost\n"
    );
}

#[test]
fn add_data_creates_region_with_separator() {
    let mut hosts = EtcHosts::from_str("127.0.0.1 localhost\n").unwrap();
    hosts.add_data(HostAddr::V4(10, 0, 0, 1), "is1");
    assert_eq!(
        hosts.to_string(),
        "127.0.0.1 localhost\n\n# ISUCON Servers\n10.0.0.1 is1\n"
    );
}

#[test]
fn add_data_creates_region_without_separator_on_empty_table() {
    let mut hosts = EtcHosts::from_str("").unwrap();
    hosts.add_data(HostAddr::V4(10, 0, 0, 1), "is1");
    assert_eq!(hosts.to_string(), "# ISUCON Servers\n10.0.0.1 is1\n");
}

#[test]
fn add_data_appends_to_existing_region() {
    let mut hosts =
        EtcHosts::from_str("# ISUCON Servers\n10.0.0.1 is1\n\n1.1.1.1 keep\n").unwrap();
    hosts.add_data(HostAddr::V4(10, 0, 0, 2), "is2");
    assert_eq!(
        hosts.to_string(),
        "# ISUCON Servers\n10.0.0.1 is1\n10.0.0.2 is2\n\n1.1.1.1 keep\n"
    );
}

#[test]
fn end_to_end_scenario() {
    let mut hosts = EtcHosts::from_str("127.0.0.1 localhost\n\n10.0.0.2 is2\n").unwrap();
    hosts.add_data(HostAddr::V4(10, 0, 0, 1), "is1");
    hosts.add_data(HostAddr::V4(10, 0, 0, 2), "is2");
    assert_eq!(
        hosts.to_string(),
        "127.0.0.1 localhost\n\n\n# ISUCON Servers\n10.0.0.1 is1\n10.0.0.2 is2\n"
    );
}

#[test]
fn remove_first_removes_only_first_match() {
    let mut v = vec!["a".to_owned(), "b".to_owned(), "a".to_owned()];
    assert!(etc_hosts::remove_first(&mut v, "a"));
    assert_eq!(v, vec!["b".to_owned(), "a".to_owned()]);
    assert!(!etc_hosts::remove_first(&mut v, "x"));
    assert_eq!(v, vec!["b".to_owned(), "a".to_owned()]);
}

#[test]
fn comments_and_spacing_survive_edits() {
    let mut hosts =
        EtcHosts::from_str("10.0.0.1 is1  #isucon1  \n# plain comment\n").unwrap();
    hosts.add_data(HostAddr::V6(0, 0, 0, 0, 0, 0, 0, 1), "is9");
    assert_eq!(
        hosts.to_string(),
        "10.0.0.1 is1  # isucon1  \n# plain comment\n\n# ISUCON Servers\n::1 is9\n"
    );
}
