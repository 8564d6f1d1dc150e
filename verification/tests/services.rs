use pscan::services::ServiceTable;
use std::collections::HashMap;

fn reference(text: &str) -> Option<HashMap<u16, String>> {
    let mut table: HashMap<u16, String> = HashMap::new();
    for line in text.lines().skip(1) {
        let mut parts = line.split(',');
        let service = parts.next()?;
        let port = parts.next()?.parse::<u16>().ok()?;
        table.insert(port, service.to_string());
    }
    Some(table)
}

fn assert_same(text: &str) {
    let expected = reference(text);
    let table = ServiceTable::from_csv(text);
    match (expected, table) {
        (None, None) => {}
        (Some(expected), Some(table)) => {
            for port in [0u16, 1, 2, 3, 4, 5, 6, 7, 8, 22, 80, 65534, 65535] {
                assert_eq!(table.get(port), expected.get(&port), "port {} of {:?}", port, text);
            }
        }
        (expected, table) => panic!(
            "{:?}: expected a table: {}, got one: {}",
            text,
            expected.is_some(),
            table.is_some()
        ),
    }
}

#[test]
fn empty_table_knows_no_service() {
    let table = ServiceTable::new();
    assert_eq!(table.get(22), None);
    assert_eq!(table.name_of(22), "unknown");
}

#[test]
fn inserted_service_is_found() {
    let mut table = ServiceTable::new();
    table.insert(22, "ssh".to_string());
    table.insert(80, "http".to_string());
    assert_eq!(table.get(22), Some(&"ssh".to_string()));
    assert_eq!(table.name_of(80), "http");
    assert_eq!(table.name_of(81), "unknown");
    table.insert(80, "www".to_string());
    assert_eq!(table.name_of(80), "www");
    assert_eq!(table.name_of(22), "ssh");
}

#[test]
fn table_from_text_skips_the_header() {
    let text = "Service Name,Port Number,Transport Protocol,Description\n\
                ssh,22,tcp,The Secure Shell (SSH) Protocol\n\
                http,80,tcp,World Wide Web HTTP\n\
                https,443,tcp,\n";
    let table = ServiceTable::from_csv(text).unwrap();
    assert_eq!(table.name_of(22), "ssh");
    assert_eq!(table.name_of(80), "http");
    assert_eq!(table.name_of(443), "https");
    assert_eq!(table.name_of(0), "unknown");
    assert_eq!(table.get(23), None);
}

#[test]
fn header_alone_or_nothing_gives_an_empty_table() {
    for text in ["", "name,port", "name,port\n", "no comma here\r\n", "\n"] {
        let table = ServiceTable::from_csv(text).unwrap();
        assert_eq!(table.get(0), None);
        assert_eq!(table.get(80), None);
    }
}

#[test]
fn last_line_for_a_port_counts() {
    let text = "h\nfirst,7\nsecond,7\nother,9";
    let table = ServiceTable::from_csv(text).unwrap();
    assert_eq!(table.name_of(7), "second");
    assert_eq!(table.name_of(9), "other");
}

#[test]
fn lines_may_end_with_carriage_return_and_line_feed() {
    let text = "h\r\nssh,22\r\nhttp,80,tcp\r\ndns,53";
    let table = ServiceTable::from_csv(text).unwrap();
    assert_eq!(table.name_of(22), "ssh");
    assert_eq!(table.name_of(80), "http");
    assert_eq!(table.name_of(53), "dns");
}

#[test]
fn line_without_port_gives_no_table() {
    assert!(ServiceTable::from_csv("h\nssh").is_none());
    assert!(ServiceTable::from_csv("h\nssh,").is_none());
    assert!(ServiceTable::from_csv("h\nssh,x").is_none());
    assert!(ServiceTable::from_csv("h\nssh,65536").is_none());
    assert!(ServiceTable::from_csv("h\nssh, 22").is_none());
    assert!(ServiceTable::from_csv("h\nssh,22\n\nhttp,80").is_none());
    assert!(ServiceTable::from_csv("h\nssh,22\nhttp").is_none());
    assert!(ServiceTable::from_csv("h\nssh,22\r").is_none());
}

#[test]
fn name_may_be_empty_or_hold_any_character() {
    let text = "h\n,5\nna\u{ef}ve \u{1f600},6,x\n-- odd\r name,7\n";
    let table = ServiceTable::from_csv(text).unwrap();
    assert_eq!(table.name_of(5), "");
    assert_eq!(table.name_of(6), "na\u{ef}ve \u{1f600}");
    assert_eq!(table.name_of(7), "-- odd\r name");
}

#[test]
fn from_csv_agrees_with_lines_and_split() {
    let pieces = [
        "", "h", "a,1", "b,2,tcp", "c,+3", ",4", "d", "e,", "f,x,5", "g,65535", "i,65536",
        "j,7\r", "\r", "k,007,,",
    ];
    let breaks = ["\n", "\r\n", "\n\n"];
    for first in pieces {
        for second in pieces {
            for third in pieces {
                for line_break in breaks {
                    let joined =
                        format!("{}{}{}{}{}", first, line_break, second, line_break, third);
                    assert_same(&joined);
                    let ended = format!("{}{}", joined, line_break);
                    assert_same(&ended);
                }
            }
        }
    }
}
