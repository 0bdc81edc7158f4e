use portscan::ports::Ports;
use portscan::scanner::{
    classify_connect, probe_identifier, probe_payload, required_pingers, AddrFamily,
    ConnectOutcome, PortOutcome, ScanError, ScanResults,
};

#[test]
fn empty_target_list_is_a_construction_failure() {
    assert_eq!(
        required_pingers(&vec![]).unwrap_err(),
        ScanError::NoSupportedAddressFamily
    );
}

#[test]
fn families_determine_the_pingers() {
    assert_eq!(required_pingers(&vec![AddrFamily::V4]).unwrap(), (true, false));
    assert_eq!(required_pingers(&vec![AddrFamily::V6]).unwrap(), (false, true));
    assert_eq!(
        required_pingers(&vec![AddrFamily::V6, AddrFamily::V4]).unwrap(),
        (true, true)
    );
}

#[test]
fn only_a_completed_connection_is_open() {
    assert!(classify_connect(ConnectOutcome::Connected));
    assert!(!classify_connect(ConnectOutcome::TimedOut));
    assert!(!classify_connect(ConnectOutcome::Failed));
}

#[test]
fn probe_identifiers_truncate_the_index() {
    assert_eq!(probe_identifier(0), 0);
    assert_eq!(probe_identifier(7), 7);
    assert_eq!(probe_identifier(65536), 0);
    assert_eq!(probe_identifier(65537), 1);
    assert_eq!(probe_identifier(70000), 4464);
}

#[test]
fn probe_payload_is_56_zero_bytes() {
    let p = probe_payload();
    assert_eq!(p.len(), 56);
    assert!(p.iter().all(|b| *b == 0));
}

#[test]
fn outcomes_fold_into_per_address_lists() {
    let mut results = ScanResults::new(2, 3);
    let outcomes = vec![
        PortOutcome { addr: 0, port: 3, is_open: false },
        PortOutcome { addr: 1, port: 1, is_open: true },
        PortOutcome { addr: 0, port: 2, is_open: true },
        PortOutcome { addr: 0, port: 1, is_open: false },
    ];
    results.record_all(&outcomes);
    results.finalize();
    let first = results.statuses[0].as_ref().unwrap();
    assert_eq!(first.open_ports, vec![2u16]);
    assert_eq!(first.closed_ports, vec![1u16, 3]);
    let second = results.statuses[1].as_ref().unwrap();
    assert_eq!(second.open_ports, vec![1u16]);
    assert_eq!(second.closed_ports, vec![]);
}

#[test]
fn duplicated_ports_stay_duplicated() {
    let mut results = ScanResults::new(1, 2);
    let outcomes = vec![
        PortOutcome { addr: 0, port: 80, is_open: true },
        PortOutcome { addr: 0, port: 80, is_open: true },
    ];
    results.record_all(&outcomes);
    results.finalize();
    let st = results.statuses[0].as_ref().unwrap();
    assert_eq!(st.open_ports, vec![80u16, 80]);
}

#[test]
fn swept_address_reports_open_and_closed() {
    // one reachable address, ports 1-3 swept, only port 2 listening
    let ports = Ports::from_str("1-3").unwrap();
    let mut results = ScanResults::new(1, ports.len());
    let outcomes = vec![
        PortOutcome { addr: 0, port: 3, is_open: false },
        PortOutcome { addr: 0, port: 1, is_open: false },
        PortOutcome { addr: 0, port: 2, is_open: true },
    ];
    results.record_all(&outcomes);
    results.finalize();
    let st = results.statuses[0].as_ref().unwrap();
    assert_eq!(st.to_status_string(), "open: 2;closed: 1,3");
}

#[test]
fn unprobed_address_is_absent() {
    // the address never answered its probe: no outcomes, no entry
    let ports = Ports::from_str("80").unwrap();
    let mut results = ScanResults::new(1, ports.len());
    results.record_all(&vec![]);
    results.finalize();
    assert!(results.statuses[0].is_none());
}
