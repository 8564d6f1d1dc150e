use pscan::scanners::partition::partition;
use pscan::scanners::PortRange;

fn lengths(chunks: &Vec<PortRange>) -> Vec<u32> {
    let mut out: Vec<u32> = Vec::new();
    for chunk in chunks {
        out.push(chunk.len());
    }
    out
}

fn assert_covers(range: &PortRange, chunks: &Vec<PortRange>) {
    assert!(!chunks.is_empty());
    assert_eq!(chunks[0].start, range.start);
    assert_eq!(chunks[chunks.len() - 1].end, range.end);
    for chunk in chunks {
        assert!(chunk.start <= chunk.end);
    }
    for pair in chunks.windows(2) {
        assert_eq!(pair[1].start as u32, pair[0].end as u32 + 1);
    }
    let total: u32 = lengths(chunks).iter().sum();
    assert_eq!(total, range.len());
}

#[test]
fn hundred_ports_over_sixteen_workers() {
    let range = PortRange { start: 1, end: 100 };
    let chunks = partition(&range, 16);
    assert_eq!(chunks.len(), 15);
    assert_eq!(chunks[0], PortRange { start: 1, end: 7 });
    assert_eq!(chunks[1], PortRange { start: 8, end: 14 });
    assert_eq!(chunks[14], PortRange { start: 99, end: 100 });
    assert_covers(&range, &chunks);
}

#[test]
fn every_chunk_but_the_last_has_the_chunk_size() {
    let range = PortRange { start: 1000, end: 1099 };
    let chunks = partition(&range, 16);
    let sizes = lengths(&chunks);
    for size in &sizes[..sizes.len() - 1] {
        assert_eq!(*size, 7);
    }
    assert_eq!(sizes[sizes.len() - 1], 2);
}

#[test]
fn fewer_ports_than_workers_gives_one_port_per_chunk() {
    let range = PortRange { start: 22, end: 24 };
    let chunks = partition(&range, 16);
    assert_eq!(
        chunks,
        vec![
            PortRange { start: 22, end: 22 },
            PortRange { start: 23, end: 23 },
            PortRange { start: 24, end: 24 },
        ]
    );
}

#[test]
fn as_many_ports_as_workers() {
    let range = PortRange { start: 1, end: 16 };
    let chunks = partition(&range, 16);
    assert_eq!(chunks.len(), 16);
    assert_eq!(lengths(&chunks), vec![1u32; 16]);
    assert_covers(&range, &chunks);
}

#[test]
fn single_port_is_a_single_chunk() {
    let range = PortRange { start: 443, end: 443 };
    assert_eq!(partition(&range, 16), vec![range]);
    assert_eq!(partition(&range, 1), vec![range]);
}

#[test]
fn one_worker_takes_the_whole_range() {
    let range = PortRange { start: 1, end: 65535 };
    assert_eq!(partition(&range, 1), vec![range]);
}

#[test]
fn default_range_over_sixteen_workers() {
    let range = PortRange::default();
    let chunks = partition(&range, 16);
    assert_eq!(chunks.len(), 16);
    assert_eq!(chunks[0], PortRange { start: 1, end: 4096 });
    assert_eq!(chunks[1], PortRange { start: 4097, end: 8192 });
    assert_eq!(chunks[15], PortRange { start: 61441, end: 65535 });
    assert_eq!(chunks[15].len(), 4095);
    assert_covers(&range, &chunks);
}

#[test]
fn all_ports_from_zero_split_evenly() {
    let range = PortRange { start: 0, end: 65535 };
    let chunks = partition(&range, 16);
    assert_eq!(chunks.len(), 16);
    assert_eq!(lengths(&chunks), vec![4096u32; 16]);
    assert_eq!(chunks[15], PortRange { start: 61440, end: 65535 });
    assert_covers(&range, &chunks);
}

#[test]
fn range_that_ends_at_the_last_port() {
    let range = PortRange { start: 65530, end: 65535 };
    let chunks = partition(&range, 4);
    assert_eq!(
        chunks,
        vec![
            PortRange { start: 65530, end: 65531 },
            PortRange { start: 65532, end: 65533 },
            PortRange { start: 65534, end: 65535 },
        ]
    );
}

#[test]
fn cap_that_divides_the_ports_is_reached() {
    let range = PortRange { start: 1, end: 12 };
    let chunks = partition(&range, 4);
    assert_eq!(chunks.len(), 4);
    assert_eq!(lengths(&chunks), vec![3u32, 3, 3, 3]);
}

#[test]
fn nine_ports_over_four_workers_need_three_chunks() {
    let range = PortRange { start: 1, end: 9 };
    let chunks = partition(&range, 4);
    assert_eq!(
        chunks,
        vec![
            PortRange { start: 1, end: 3 },
            PortRange { start: 4, end: 6 },
            PortRange { start: 7, end: 9 },
        ]
    );
}

#[test]
fn ten_ports_over_four_workers() {
    let range = PortRange { start: 1, end: 10 };
    let chunks = partition(&range, 4);
    assert_eq!(lengths(&chunks), vec![3u32, 3, 3, 1]);
}

#[test]
fn chunk_count_never_exceeds_cap_nor_ports() {
    for cap in 1usize..=20 {
        for n in 1u16..=200 {
            let range = PortRange { start: 500, end: 500 + n - 1 };
            let chunks = partition(&range, cap);
            assert!(chunks.len() <= cap);
            assert!(chunks.len() <= n as usize);
            assert_covers(&range, &chunks);
            let divisor: usize = cap.min(n as usize);
            let size: usize = (n as usize + divisor - 1) / divisor;
            assert_eq!(chunks.len(), (n as usize + size - 1) / size);
            assert_eq!(chunks[0].len() as usize, size);
            if n as usize <= cap || n as usize % cap == 0 {
                assert_eq!(chunks.len(), divisor);
            }
        }
    }
}

#[test]
fn every_port_lies_in_exactly_one_chunk() {
    let range = PortRange { start: 1, end: 100 };
    let chunks = partition(&range, 16);
    for port in 0u16..=200 {
        let mut holders: usize = 0;
        for chunk in &chunks {
            if chunk.contains(port) {
                holders += 1;
            }
        }
        assert_eq!(holders, if range.contains(port) { 1 } else { 0 });
    }
}

#[test]
fn huge_cap_is_the_same_as_one_port_per_chunk() {
    let range = PortRange { start: 10, end: 14 };
    let chunks = partition(&range, usize::MAX);
    assert_eq!(chunks.len(), 5);
    assert_eq!(lengths(&chunks), vec![1u32; 5]);
}
