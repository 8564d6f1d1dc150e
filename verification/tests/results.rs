use pscan::results::{
    count_in_state, port_label, sort_by_port, without_states, PortState, ScanResult,
};
use pscan::scanners::ScanProtocol;

fn tcp(port: u16, state: PortState) -> ScanResult {
    ScanResult::new(ScanProtocol::Tcp, port, state)
}

fn udp(port: u16, state: PortState) -> ScanResult {
    ScanResult::new(ScanProtocol::Udp, port, state)
}

fn ports_of(results: &Vec<ScanResult>) -> Vec<u16> {
    let mut ports: Vec<u16> = Vec::new();
    for result in results {
        ports.push(result.port);
    }
    ports
}

#[test]
fn new_result_holds_what_it_was_given() {
    let result = ScanResult::new(ScanProtocol::Udp, 53, PortState::Filtered);
    assert_eq!(result.protocol, ScanProtocol::Udp);
    assert_eq!(result.port, 53);
    assert_eq!(result.state, PortState::Filtered);
    assert_eq!(
        result,
        ScanResult { protocol: ScanProtocol::Udp, port: 53, state: PortState::Filtered }
    );
}

#[test]
fn state_names() {
    assert_eq!(PortState::Open.name(), "open");
    assert_eq!(PortState::Closed.name(), "closed");
    assert_eq!(PortState::Filtered.name(), "filtered");
}

#[test]
fn protocol_names() {
    assert_eq!(ScanProtocol::Tcp.name(), "tcp");
    assert_eq!(ScanProtocol::Udp.name(), "udp");
}

#[test]
fn sort_orders_by_port() {
    let mut results = vec![
        tcp(443, PortState::Open),
        tcp(22, PortState::Open),
        tcp(8080, PortState::Filtered),
        tcp(1, PortState::Closed),
        tcp(80, PortState::Closed),
    ];
    sort_by_port(&mut results);
    assert_eq!(
        results,
        vec![
            tcp(1, PortState::Closed),
            tcp(22, PortState::Open),
            tcp(80, PortState::Closed),
            tcp(443, PortState::Open),
            tcp(8080, PortState::Filtered),
        ]
    );
}

#[test]
fn sort_of_nothing_and_of_one() {
    let mut none: Vec<ScanResult> = Vec::new();
    sort_by_port(&mut none);
    assert!(none.is_empty());
    let mut one = vec![udp(53, PortState::Open)];
    sort_by_port(&mut one);
    assert_eq!(one, vec![udp(53, PortState::Open)]);
}

#[test]
fn sort_keeps_the_order_of_results_for_the_same_port() {
    let mut results = vec![
        tcp(80, PortState::Open),
        udp(53, PortState::Filtered),
        udp(80, PortState::Closed),
        tcp(53, PortState::Open),
        tcp(80, PortState::Filtered),
        udp(53, PortState::Closed),
    ];
    sort_by_port(&mut results);
    assert_eq!(
        results,
        vec![
            udp(53, PortState::Filtered),
            tcp(53, PortState::Open),
            udp(53, PortState::Closed),
            tcp(80, PortState::Open),
            udp(80, PortState::Closed),
            tcp(80, PortState::Filtered),
        ]
    );
}

#[test]
fn sort_agrees_with_the_standard_stable_sort() {
    let mut seed: u32 = 12345;
    for length in 0usize..60 {
        let mut results: Vec<ScanResult> = Vec::new();
        for _ in 0..length {
            seed = seed.wrapping_mul(1664525).wrapping_add(1013904223);
            let port: u16 = ((seed >> 16) % 20) as u16;
            let state = match (seed >> 8) % 3 {
                0 => PortState::Open,
                1 => PortState::Closed,
                _ => PortState::Filtered,
            };
            results.push(if seed % 2 == 0 { tcp(port, state) } else { udp(port, state) });
        }
        let mut expected = results.clone();
        expected.sort_by(|a, b| a.port.cmp(&b.port));
        sort_by_port(&mut results);
        assert_eq!(results, expected);
    }
}

#[test]
fn sort_of_a_descending_full_range() {
    let mut results: Vec<ScanResult> = Vec::new();
    for port in (0u16..=65535).rev() {
        results.push(tcp(port, PortState::Filtered));
    }
    sort_by_port(&mut results);
    assert_eq!(results.len(), 65536);
    let ports = ports_of(&results);
    for pair in ports.windows(2) {
        assert!(pair[0] < pair[1]);
    }
    assert_eq!(ports[0], 0);
    assert_eq!(ports[65535], 65535);
}

#[test]
fn count_in_state_counts_only_that_state() {
    let results = vec![
        tcp(1, PortState::Closed),
        tcp(2, PortState::Open),
        tcp(3, PortState::Closed),
        tcp(4, PortState::Filtered),
        tcp(5, PortState::Closed),
    ];
    assert_eq!(count_in_state(&results, PortState::Closed), 3);
    assert_eq!(count_in_state(&results, PortState::Open), 1);
    assert_eq!(count_in_state(&results, PortState::Filtered), 1);
    assert_eq!(count_in_state(&Vec::new(), PortState::Open), 0);
}

#[test]
fn without_states_drops_the_ignored_and_keeps_the_order() {
    let results = vec![
        tcp(1, PortState::Closed),
        tcp(2, PortState::Open),
        tcp(3, PortState::Filtered),
        tcp(4, PortState::Open),
        tcp(5, PortState::Closed),
    ];
    assert_eq!(without_states(&results, &Vec::new()), results);
    assert_eq!(
        without_states(&results, &vec![PortState::Closed]),
        vec![tcp(2, PortState::Open), tcp(3, PortState::Filtered), tcp(4, PortState::Open)]
    );
    assert_eq!(
        without_states(&results, &vec![PortState::Closed, PortState::Filtered, PortState::Closed]),
        vec![tcp(2, PortState::Open), tcp(4, PortState::Open)]
    );
    assert_eq!(
        without_states(
            &results,
            &vec![PortState::Open, PortState::Closed, PortState::Filtered]
        ),
        Vec::<ScanResult>::new()
    );
}

#[test]
fn port_label_is_port_slash_protocol() {
    assert_eq!(port_label(&tcp(22, PortState::Open)), "22/tcp");
    assert_eq!(port_label(&udp(53, PortState::Open)), "53/udp");
    assert_eq!(port_label(&tcp(0, PortState::Closed)), "0/tcp");
    assert_eq!(port_label(&udp(65535, PortState::Filtered)), "65535/udp");
    assert_eq!(port_label(&tcp(10000, PortState::Filtered)), "10000/tcp");
}
