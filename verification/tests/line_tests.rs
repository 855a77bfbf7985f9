use etc_hosts::{FormatError, HostAddr, Line, LineData};

#[test]
fn line_data() {
    let data: LineData = LineData::from_str("127.0.0.1 localhost").unwrap();
    assert_eq!(data.ip, HostAddr::V4(127, 0, 0, 1));
    assert_eq!(data.hosts, vec!["localhost".to_owned()]);
}

#[test]
fn line_data_multi_host() {
    let data: LineData = LineData::from_str("::1 localhost lh").unwrap();
    assert_eq!(data.ip, HostAddr::V6(0, 0, 0, 0, 0, 0, 0, 1));
    assert_eq!(data.hosts, vec!["localhost".to_owned(), "lh".to_owned()]);
}

#[test]
fn line_data_no_host() {
    assert!(LineData::from_str("::1").is_err());
}

#[test]
fn line_empty() {
    let line: Line = Line::from_str(" \t  ").unwrap();
    assert!(line.data.is_none());
    assert!(line.comment.is_none());
}

#[test]
fn line_comment() {
    let line: Line = Line::from_str("#  abc").unwrap();
    assert!(line.data.is_none());
    assert_eq!(line.comment, Some("abc".to_owned()));
}

#[test]
fn line() {
    let line: Line = Line::from_str("10.0.0.1 is1  #isucon1  ").unwrap();
    assert_eq!(line.data.unwrap().hosts, vec!["is1".to_owned()]);
    assert_eq!(line.comment, Some("isucon1  ".to_owned()));
}

#[test]
fn line_data_no_host_error_kind() {
    assert_eq!(LineData::from_str("::1"), Err(FormatError::MissingHosts));
}

#[test]
fn line_data_bad_address_error_kind() {
    assert_eq!(
        LineData::from_str("notanip host1"),
        Err(FormatError::InvalidAddress)
    );
}

#[test]
fn line_serializes_data_and_comment() {
    let line = Line::from_str("10.0.0.1 is1  #isucon1  ").unwrap();
    let mut out = String::new();
    line.write_into(&mut out);
    assert_eq!(out, "10.0.0.1 is1  # isucon1  ");
}

#[test]
fn line_serializes_comment_only() {
    let line = Line::from_str("#  abc").unwrap();
    let mut out = String::new();
    line.write_into(&mut out);
    assert_eq!(out, "# abc");
}

#[test]
fn line_is_empty_observes_both_fields() {
    assert!(Line::from_str("").unwrap().is_empty());
    assert!(!Line::from_str("# x").unwrap().is_empty());
    assert!(!Line::from_str("1.2.3.4 a").unwrap().is_empty());
}
