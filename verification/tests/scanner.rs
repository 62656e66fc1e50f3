use std::collections::HashSet;

use havn::parse_arg::CliArgs;
use havn::scanner::{AllPortStatus, FirstPassAction, PortMessage, ScanStep};

#[test]
/// Depending on message open status, port gets inserted into HashSet, or closed total is increased
fn test_scanner_get_insert() {
    let mut result = AllPortStatus {
        open: HashSet::new(),
        closed: 8,
        number_ports: 10,
        port_max: 10,
    };

    result.insert(PortMessage {
        port: 1,
        open: false,
    });
    assert_eq!(result.closed, 9);

    result.insert(PortMessage {
        port: 80,
        open: true,
    });
    assert_eq!(result.closed, 9);
    assert_eq!(result.open_len(), 1);
    assert!(result.open.contains(&80));
}

#[test]
/// Scan all ports, at least 2 should be open
fn test_scanner_get_open_none() {
    let mut result = AllPortStatus {
        open: HashSet::new(),
        closed: 8,
        number_ports: 10,
        port_max: 10,
    };

    // 8 of 10 ports scanned, so is_complete is false and get_all_open is none
    assert!(!result.complete());
    assert!(result.get_all_open().is_none());

    result.closed = 9;
    // 9 of 10 ports scanned, so is_complete is false and get_all_open is none
    assert!(!result.complete());
    assert!(result.get_all_open().is_none());

    // All ports now "scanned", so complete() and get_all_open is Some()
    result.closed = 10;
    assert!(result.complete());
    assert!(result.get_all_open().is_none());
}

#[test]
/// Extract port descriptions Vec<(u16, &str)> when all scans complete, retrieve valid descriptions for given ports
fn test_scanner_get_open_some() {
    let mut result = AllPortStatus {
        open: HashSet::new(),
        closed: 8,
        number_ports: 10,
        port_max: 10,
    };

    // 8 of 10 ports scanned, so is_complete is false
    assert!(!result.complete());
    assert!(result.get_all_open().is_none());

    result.open.insert(6379);
    // 9 of 10 ports scanned, so is_complete is false
    assert!(!result.complete());
    assert!(result.get_all_open().is_none());

    result.open.insert(443);
    assert!(result.complete());
    let result = result.get_all_open();
    assert!(result.is_some());
    let result = result.unwrap();

    assert_eq!(result.len(), 2);
    // First element is 443, as has been pre-sorted
    assert_eq!(result[0], (443, "https"));
    assert_eq!(result[1], (6379, "redis"));
}

#[test]
/// The open ports come out sorted, with "unknown" for ports without a description, the extremes included
fn test_get_all_open_sorted_extremes() {
    let result = AllPortStatus::test_new(HashSet::from([65535, 0, 80, 32825, 22]), 5, 65535, 0);
    let open = result.get_all_open().unwrap();
    assert_eq!(
        open,
        vec![(0, "unknown"), (22, "ssh"), (80, "http"), (32825, "unknown"), (65535, "unknown")]
    );
}

#[test]
/// The second pass starts from the first one's counts, with no port open yet, and rescans each open port once
fn test_second_pass_start() {
    let first = AllPortStatus::test_new(HashSet::from([80, 443, 8080]), 10, 10000, 7);
    let (validated, ports) = AllPortStatus::second_pass_start(&first);
    assert_eq!(validated.closed, 7);
    assert_eq!(validated.number_ports, 10);
    assert_eq!(validated.port_max, 10000);
    assert_eq!(validated.open_len(), 0);
    let mut sorted = ports.clone();
    sorted.sort_unstable();
    assert_eq!(sorted, vec![80, 443, 8080]);

    let copy = AllPortStatus::from(&first);
    assert_eq!(copy.closed, 7);
    assert!(copy.open.is_empty());
}

#[test]
/// The second pass keeps the total: a port that is closed on the second look moves to the closed count
fn test_second_pass_keeps_count() {
    let first = AllPortStatus::test_new(HashSet::from([80, 443, 8080]), 10, 10000, 7);
    let (mut validated, ports) = AllPortStatus::second_pass_start(&first);
    for port in ports {
        validated.insert(PortMessage { open: port != 443, port });
    }
    assert_eq!(validated.open_len(), 2);
    assert_eq!(validated.closed, 8);
    assert!(validated.complete());
    assert_eq!(validated.open_len() + validated.closed, first.open_len() + first.closed);
}

#[test]
/// The first pass hands out every port once, in ascending order, and stops when all have reported
fn test_first_pass_dispatch() {
    let mut cli_args = CliArgs::test_new("1-10".to_owned(), 4, None, false);
    let mut start = AllPortStatus::first_pass_start(&mut cli_args);
    assert_eq!(start.spawn_now, vec![1, 2, 3, 4]);
    assert_eq!(start.to_spawn, vec![10, 9, 8, 7, 6, 5]);
    assert_eq!(cli_args.ports_len(), 0);
    assert_eq!(start.status.number_ports, 10);
    assert_eq!(start.status.port_max, 10);

    let mut spawned = start.spawn_now.clone();
    let mut pending = start.spawn_now.clone();
    let mut closed = false;
    while let Some(port) = pending.pop() {
        let action = start
            .status
            .first_pass_step(&mut start.to_spawn, PortMessage { open: port == 3, port });
        if let Some(next) = action.spawn {
            spawned.push(next);
            pending.insert(0, next);
        }
        closed = action.close;
    }
    assert!(closed);
    assert_eq!(spawned, (1..=10).collect::<Vec<u16>>());
    assert_eq!(start.status.closed, 9);
    assert_eq!(start.status.open_len(), 1);
}

#[test]
/// With fewer ports than concurrent requests, all are spawned at once, in order
fn test_first_pass_few_ports() {
    let mut cli_args = CliArgs::test_new("1-5".to_owned(), 2048, None, false);
    let mut start = AllPortStatus::first_pass_start(&mut cli_args);
    assert_eq!(start.spawn_now, vec![1, 2, 3, 4, 5]);
    assert!(start.to_spawn.is_empty());
    let action = start
        .status
        .first_pass_step(&mut start.to_spawn, PortMessage { open: false, port: 5 });
    assert_eq!(action, FirstPassAction { close: false, spawn: None });
}

#[test]
/// An open port is reported at once, a closed one retried while retries are left
fn test_scan_step() {
    assert_eq!(
        AllPortStatus::scan_step(2, 80, true),
        ScanStep::Report(PortMessage { open: true, port: 80 })
    );
    assert_eq!(AllPortStatus::scan_step(2, 80, false), ScanStep::Retry(1));
    assert_eq!(
        AllPortStatus::scan_step(0, 80, false),
        ScanStep::Report(PortMessage { open: false, port: 80 })
    );

    // One retry: closed, then open, is reported open after two attempts
    let mut counter = 1;
    let attempts = [false, true];
    let mut report = None;
    for connected in attempts {
        match AllPortStatus::scan_step(counter, 22, connected) {
            ScanStep::Report(m) => {
                report = Some(m);
                break;
            }
            ScanStep::Retry(c) => counter = c,
        }
    }
    assert_eq!(report, Some(PortMessage { open: true, port: 22 }));
}

#[test]
/// The open count is the size of the set of open ports
fn test_open_len() {
    let status = AllPortStatus::test_new((0..=100).collect(), 200, 100, 0);
    assert_eq!(status.open_len(), 101);
    let status = AllPortStatus::test_new((0..=65535).collect(), 0, 65535, 0);
    assert_eq!(status.open_len(), 0);
}

#[test]
/// A second pass is needed exactly when the first found an open port
fn test_needs_second_pass() {
    let none = AllPortStatus::test_new(HashSet::new(), 10, 10, 10);
    assert!(!none.needs_second_pass());
    let some = AllPortStatus::test_new(HashSet::from([22]), 10, 10, 9);
    assert!(some.needs_second_pass());
}

#[test]
/// A copy keeps the open ports and the counts
fn test_clone_status() {
    let status = AllPortStatus::test_new(HashSet::from([22, 80, 443]), 10, 443, 7);
    let copy = status.clone();
    assert_eq!(copy.open, status.open);
    assert_eq!(copy.closed, 7);
    assert_eq!(copy.number_ports, 10);
    assert_eq!(copy.port_max, 443);
}

#[test]
/// After the first pass, the open ports are exactly those reported open, whatever the order of the reports
fn test_first_pass_exact_tally() {
    let mut status = AllPortStatus::test_new(HashSet::new(), 6, 6, 0);
    for (port, open) in [(4, true), (1, false), (6, true), (2, false), (5, false), (3, true)] {
        status.insert(PortMessage { open, port });
    }
    assert_eq!(status.open, HashSet::from([3, 4, 6]));
    assert_eq!(status.closed, 3);
    assert!(status.complete());
}
