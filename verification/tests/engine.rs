use pscan::results::{PortState, ScanResult};
use pscan::scanners::engine::{
    collect, plan, worker_cap, worker_count, ScanError, WorkerReport, MAX_WORKERS,
};
use pscan::scanners::partition::partition;
use pscan::scanners::protocols::tcp::ConnectOutcome;
use pscan::scanners::worker::Worker;
use pscan::scanners::{PortRange, ScanProtocol, TcpScanner};

fn verdict(port: u16) -> Option<PortState> {
    match port % 5 {
        0 => Some(PortState::Open),
        1 => Some(PortState::Closed),
        2 => None,
        _ => Some(PortState::Filtered),
    }
}

fn sweep(protocol: ScanProtocol, chunk: PortRange) -> Vec<ScanResult> {
    let mut worker = Worker::new(protocol, chunk);
    while let Some(port) = worker.next_port() {
        worker.record(verdict(port));
    }
    worker.into_results()
}

fn scan_in_order(
    range: &PortRange,
    cap: usize,
    order: &dyn Fn(usize) -> Vec<usize>,
) -> Vec<ScanResult> {
    let chunks = partition(range, cap);
    let mut reports: Vec<WorkerReport> = Vec::new();
    for index in order(chunks.len()) {
        reports.push(WorkerReport::Finished(sweep(ScanProtocol::Tcp, chunks[index])));
    }
    collect(&reports).unwrap()
}

fn forwards(count: usize) -> Vec<usize> {
    (0..count).collect()
}

fn backwards(count: usize) -> Vec<usize> {
    (0..count).rev().collect()
}

fn shuffled(count: usize) -> Vec<usize> {
    let mut order: Vec<usize> = (0..count).collect();
    let mut seed: usize = 7;
    for i in (1..count).rev() {
        seed = seed.wrapping_mul(1103515245).wrapping_add(12345);
        order.swap(i, (seed >> 8) % (i + 1));
    }
    order
}

#[test]
fn worker_cap_is_the_processors_up_to_sixteen() {
    assert_eq!(MAX_WORKERS, 16);
    assert_eq!(worker_cap(1), 1);
    assert_eq!(worker_cap(4), 4);
    assert_eq!(worker_cap(15), 15);
    assert_eq!(worker_cap(16), 16);
    assert_eq!(worker_cap(17), 16);
    assert_eq!(worker_cap(128), 16);
    assert_eq!(worker_cap(usize::MAX), 16);
    assert_eq!(worker_cap(0), 0);
}

#[test]
fn worker_count_on_this_machine() {
    let count: usize = worker_count();
    assert!(count >= 1);
    assert!(count <= 16);
    assert_eq!(count, worker_cap(num_cpus::get()));
}

#[test]
fn plan_splits_for_this_machine() {
    let range = PortRange { start: 1, end: 1000 };
    let chunks = plan(&range);
    assert_eq!(chunks, partition(&range, worker_count()));
    assert!(chunks.len() >= 1);
    assert!(chunks.len() <= 16);
    assert_eq!(chunks[0].start, 1);
    assert_eq!(chunks[chunks.len() - 1].end, 1000);
}

#[test]
fn scan_of_one_to_hundred_is_strictly_ascending() {
    let range = PortRange { start: 1, end: 100 };
    for order in [forwards, backwards, shuffled] {
        let results = scan_in_order(&range, 16, &order);
        assert_eq!(results.len(), 80);
        for pair in results.windows(2) {
            assert!(pair[0].port < pair[1].port);
        }
    }
}

#[test]
fn scan_does_not_depend_on_split_or_arrival_order() {
    let range = PortRange { start: 1, end: 100 };
    let expected = sweep(ScanProtocol::Tcp, range);
    for cap in 1usize..=20 {
        assert_eq!(scan_in_order(&range, cap, &forwards), expected);
        assert_eq!(scan_in_order(&range, cap, &backwards), expected);
        assert_eq!(scan_in_order(&range, cap, &shuffled), expected);
    }
}

#[test]
fn repeated_scan_gives_the_same_result_set() {
    let range = PortRange { start: 8000, end: 8100 };
    let first = scan_in_order(&range, 16, &shuffled);
    let second = scan_in_order(&range, 16, &backwards);
    assert_eq!(first, second);
}

#[test]
fn scan_of_three_ports_on_loopback() {
    let range = PortRange { start: 22, end: 24 };
    let chunks = partition(&range, 16);
    assert_eq!(chunks.len(), 3);
    let outcomes = [ConnectOutcome::Established, ConnectOutcome::Refused, ConnectOutcome::Failed];
    let mut reports: Vec<WorkerReport> = Vec::new();
    for index in [2usize, 0, 1] {
        let mut worker = TcpScanner.worker(chunks[index]);
        while let Some(port) = worker.next_port() {
            worker.record(Some(TcpScanner.classify(outcomes[(port - 22) as usize])));
        }
        reports.push(WorkerReport::Finished(worker.into_results()));
    }
    assert_eq!(
        collect(&reports),
        Ok(vec![
            ScanResult::new(ScanProtocol::Tcp, 22, PortState::Open),
            ScanResult::new(ScanProtocol::Tcp, 23, PortState::Closed),
            ScanResult::new(ScanProtocol::Tcp, 24, PortState::Filtered),
        ])
    );
}

#[test]
fn collect_of_no_reports_is_empty() {
    assert_eq!(collect(&Vec::new()), Ok(Vec::new()));
}

#[test]
fn crashed_worker_leaves_its_ports_out() {
    let range = PortRange { start: 1, end: 9 };
    let chunks = partition(&range, 3);
    let reports = vec![
        WorkerReport::Finished(sweep(ScanProtocol::Udp, chunks[2])),
        WorkerReport::Crashed,
        WorkerReport::Finished(sweep(ScanProtocol::Udp, chunks[0])),
    ];
    assert_eq!(
        collect(&reports),
        Ok(vec![
            ScanResult::new(ScanProtocol::Udp, 1, PortState::Closed),
            ScanResult::new(ScanProtocol::Udp, 3, PortState::Filtered),
            ScanResult::new(ScanProtocol::Udp, 8, PortState::Filtered),
            ScanResult::new(ScanProtocol::Udp, 9, PortState::Filtered),
        ])
    );
}

#[test]
fn all_workers_crashed_gives_an_empty_result_set() {
    let reports = vec![WorkerReport::Crashed, WorkerReport::Crashed];
    assert_eq!(collect(&reports), Ok(Vec::new()));
}

#[test]
fn setup_failure_fails_the_scan_and_names_the_first_worker() {
    let chunk = PortRange { start: 1, end: 3 };
    let reports = vec![
        WorkerReport::Finished(sweep(ScanProtocol::Udp, chunk)),
        WorkerReport::Crashed,
        WorkerReport::SetupFailed,
        WorkerReport::Finished(Vec::new()),
        WorkerReport::SetupFailed,
    ];
    assert_eq!(collect(&reports), Err(ScanError::Setup { worker: 2 }));
    assert_eq!(collect(&vec![WorkerReport::SetupFailed]), Err(ScanError::Setup { worker: 0 }));
}

#[test]
fn collect_keeps_arrival_order_for_the_same_port() {
    let reports = vec![
        WorkerReport::Finished(vec![
            ScanResult::new(ScanProtocol::Tcp, 80, PortState::Open),
            ScanResult::new(ScanProtocol::Tcp, 22, PortState::Open),
        ]),
        WorkerReport::Finished(vec![
            ScanResult::new(ScanProtocol::Udp, 22, PortState::Filtered),
            ScanResult::new(ScanProtocol::Udp, 80, PortState::Closed),
        ]),
    ];
    assert_eq!(
        collect(&reports),
        Ok(vec![
            ScanResult::new(ScanProtocol::Tcp, 22, PortState::Open),
            ScanResult::new(ScanProtocol::Udp, 22, PortState::Filtered),
            ScanResult::new(ScanProtocol::Tcp, 80, PortState::Open),
            ScanResult::new(ScanProtocol::Udp, 80, PortState::Closed),
        ])
    );
}

#[test]
fn full_range_scan_with_sixteen_workers() {
    let range = PortRange::default();
    let results = scan_in_order(&range, 16, &shuffled);
    assert_eq!(results, sweep(ScanProtocol::Tcp, range));
    assert_eq!(results.len(), 52428);
    assert_eq!(results[0].port, 1);
    assert_eq!(results[results.len() - 1].port, 65535);
}
