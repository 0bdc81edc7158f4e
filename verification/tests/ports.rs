use portscan::ports::{ParseError, Ports, PortsStatus};

#[test]
fn parse_single_port() {
    let p = Ports::from_str("80").unwrap();
    assert_eq!(p.0, vec![80u16]);
}

#[test]
fn parse_port_list() {
    let p = Ports::from_str("80,443").unwrap();
    assert_eq!(p.0, vec![80u16, 443]);
}

#[test]
fn parse_range() {
    let p = Ports::from_str("20-22").unwrap();
    assert_eq!(p.0, vec![20u16, 21, 22]);
}

#[test]
fn parse_range_then_port() {
    let p = Ports::from_str("20-22,80").unwrap();
    assert_eq!(p.0, vec![20u16, 21, 22, 80]);
}

#[test]
fn parse_inverted_range_is_error() {
    assert_eq!(Ports::from_str("22-20").unwrap_err(), ParseError::InvalidRange);
}

#[test]
fn parse_garbage_is_error() {
    assert_eq!(Ports::from_str("abc").unwrap_err(), ParseError::InvalidPort);
}

#[test]
fn parse_empty_is_error() {
    assert_eq!(Ports::from_str("").unwrap_err(), ParseError::InvalidPort);
}

#[test]
fn parse_trailing_comma_is_error() {
    assert_eq!(Ports::from_str("80,").unwrap_err(), ParseError::InvalidPort);
}

#[test]
fn parse_oversized_port_is_error() {
    assert_eq!(Ports::from_str("70000").unwrap_err(), ParseError::InvalidPort);
    assert_eq!(Ports::from_str("65536").unwrap_err(), ParseError::InvalidPort);
    assert!(Ports::from_str("65535").is_ok());
}

#[test]
fn parse_double_dash_is_error() {
    // the token splits at its first dash, leaving `2-3` as the upper bound
    assert_eq!(Ports::from_str("1-2-3").unwrap_err(), ParseError::InvalidPort);
}

#[test]
fn parse_first_bad_token_decides_the_error() {
    assert_eq!(Ports::from_str("22-20,abc").unwrap_err(), ParseError::InvalidRange);
    assert_eq!(Ports::from_str("abc,22-20").unwrap_err(), ParseError::InvalidPort);
}

#[test]
fn parse_keeps_duplicates() {
    let p = Ports::from_str("80,79-81,80").unwrap();
    assert_eq!(p.0, vec![80u16, 79, 80, 81, 80]);
}

#[test]
fn parse_full_range_is_accepted() {
    let p = Ports::from_str("0-65535").unwrap();
    assert_eq!(p.0.len(), 65536);
    assert_eq!(p.0[0], 0);
    assert_eq!(p.0[65535], 65535);
}

#[test]
fn format_empty_is_none() {
    assert_eq!(PortsStatus::fmt_vec(&vec![]), "none");
}

#[test]
fn format_single() {
    assert_eq!(PortsStatus::fmt_vec(&vec![5u16]), "5");
}

#[test]
fn format_run() {
    assert_eq!(PortsStatus::fmt_vec(&vec![5u16, 6, 7]), "5-7");
}

#[test]
fn format_mixed() {
    assert_eq!(PortsStatus::fmt_vec(&vec![1u16, 3, 4, 5, 9]), "1,3-5,9");
}

#[test]
fn format_duplicate_makes_a_run() {
    assert_eq!(PortsStatus::fmt_vec(&vec![5u16, 5]), "5-5");
}

#[test]
fn format_large_values() {
    assert_eq!(PortsStatus::fmt_vec(&vec![80u16, 443, 8080, 8081, 8082]), "80,443,8080-8082");
}

#[test]
fn status_records_and_renders() {
    let mut st = PortsStatus::new(3);
    st.record(3, false);
    st.record(2, true);
    st.record(1, false);
    st.sort();
    assert_eq!(st.to_status_string(), "open: 2;closed: 1,3");
}

#[test]
fn status_all_closed_renders_none_open() {
    let mut st = PortsStatus::new(2);
    st.record(9, false);
    st.record(8, false);
    st.sort();
    assert_eq!(st.to_status_string(), "open: none;closed: 8-9");
}

#[test]
fn sorting_sorted_status_is_noop() {
    let mut st = PortsStatus::new(4);
    st.record(4, true);
    st.record(1, true);
    st.record(9, false);
    st.record(2, false);
    st.sort();
    let open_once = st.open_ports.clone();
    let closed_once = st.closed_ports.clone();
    st.sort();
    assert_eq!(st.open_ports, open_once);
    assert_eq!(st.closed_ports, closed_once);
}

#[test]
fn formatting_twice_gives_identical_output() {
    let mut st = PortsStatus::new(3);
    st.record(7, true);
    st.record(5, true);
    st.record(6, true);
    st.sort();
    let first = st.to_status_string();
    let second = st.to_status_string();
    assert_eq!(first, second);
    assert_eq!(first, "open: 5-7;closed: none");
}
