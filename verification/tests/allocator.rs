use kjdb::allocator::{Alloc, ScanLine};
use kjdb::gaps::Gaps;
use kjdb::keymap::{range_is_ordered, KeyBound, KeyMap};
use kjdb::record::{Record, Tie};
use std::collections::BTreeMap;

/// Splits a file into its lines, each with its newline where it has one.
fn lines_of(data: &[u8]) -> Vec<&[u8]> {
    let mut lines = Vec::new();
    let mut start = 0;
    for (i, b) in data.iter().enumerate() {
        if *b == b'\n' {
            lines.push(&data[start..=i]);
            start = i + 1;
        }
    }
    if start < data.len() {
        lines.push(&data[start..]);
    }
    lines
}

/// Scans a file whose values parse as `T`.
fn scan_lines<T: serde::de::DeserializeOwned>(data: &[u8]) -> Vec<ScanLine> {
    let mut scanned = Vec::new();
    for line in lines_of(data) {
        let text = std::str::from_utf8(line).unwrap();
        let entry = match Tie::detect(text) {
            Some((tie, json)) => serde_json::from_str::<BTreeMap<String, T>>(json)
                .ok()
                .map(|m| (tie, m.into_keys().next().unwrap())),
            None => None,
        };
        scanned.push(ScanLine {
            size: line.len() as u64,
            entry,
        });
    }
    scanned
}

fn scan<T: serde::de::DeserializeOwned>(data: &[u8]) -> Alloc {
    Alloc::scan(scan_lines::<T>(data))
}

fn records(entries: &[(&str, Tie, u64, u64)]) -> KeyMap<Record> {
    let mut map = KeyMap::new();
    for (key, tie, offset, size) in entries {
        map.insert(
            key.to_string(),
            Record {
                tie: *tie,
                offset: *offset,
                size: *size,
            },
        );
    }
    map
}

#[test]
fn test_scan_empty() {
    let alloc = scan::<u64>(b"");
    assert_eq!(alloc, Alloc::default());
}

#[test]
fn test_scan_one() {
    let alloc = scan::<u64>(b" {\"foo\":1}\n");
    assert_eq!(
        alloc,
        Alloc {
            map: records(&[("foo", Tie::Live, 0, 11)]),
            gaps: Gaps {
                file_end: 11,
                ..Default::default()
            },
        }
    );
}

#[test]
fn test_scan_two() {
    let alloc = scan::<u64>(b" {\"foo\":1}\n {\"bar\":2}\n");
    assert_eq!(
        alloc,
        Alloc {
            map: records(&[("foo", Tie::Live, 0, 11), ("bar", Tie::Live, 11, 11)]),
            gaps: Gaps {
                file_end: 22,
                ..Default::default()
            },
        }
    );
}

#[test]
fn test_scan_one_live_unstaged() {
    let alloc = scan::<u64>(b" {\"foo\":1}\n\t{\"foo\":2}\n");
    assert_eq!(
        alloc,
        Alloc {
            map: records(&[("foo", Tie::Live, 0, 11)]),
            gaps: Gaps {
                file_end: 11,
                ..Default::default()
            },
        }
    );
}

#[test]
fn test_scan_one_unstaged_live() {
    let alloc = scan::<u64>(b"\t{\"foo\":1}\n {\"foo\":2}\n");
    assert_eq!(
        alloc,
        Alloc {
            map: records(&[("foo", Tie::Live, 11, 11)]),
            gaps: Gaps {
                map: BTreeMap::from([(0, 11)]),
                file_end: 22,
            },
        }
    );
}

#[test]
fn test_scan_live_partial_unstaged() {
    let alloc = scan::<String>(b" {\"foo\":\"hello 3!\"}\n}\n\t{\"foo\":\"hello two!\"}\n");
    assert_eq!(
        alloc,
        Alloc {
            map: records(&[("foo", Tie::Live, 0, 20)]),
            gaps: Gaps {
                file_end: 20,
                ..Default::default()
            },
        }
    );
}

#[test]
fn test_scan_unstaged_partial_live() {
    let alloc = scan::<String>(b"\t{\"foo\":\"hello 3!\"}\n}\n {\"foo\":\"hello two!\"}\n");
    assert_eq!(
        alloc,
        Alloc {
            map: records(&[("foo", Tie::Live, 22, 22)]),
            gaps: Gaps {
                map: BTreeMap::from([(0, 22)]),
                file_end: 44,
            },
        }
    );
}

#[test]
fn test_scan_two_partial() {
    let alloc = scan::<String>(
        b"\t{\"foo\":\"hello 3!\"}\n \"foo\":\"\nh}\n {\"foo\":\"hello two!\"}\n",
    );
    assert_eq!(
        alloc,
        Alloc {
            map: records(&[("foo", Tie::Live, 32, 22)]),
            gaps: Gaps {
                map: BTreeMap::from([(0, 32)]),
                file_end: 54,
            },
        }
    );
}

/// Only an unstaged line for a key: it stands, as unstaged.
#[test]
fn scan_keeps_a_lone_unstaged_line() {
    let alloc = scan::<u64>(b"\t{\"foo\":1}\n");
    assert_eq!(
        alloc.get("foo"),
        Some(Record {
            tie: Tie::Unstaged,
            offset: 0,
            size: 11
        })
    );
}

/// Of two live lines for a key, the first wins and the second is free.
#[test]
fn scan_first_live_line_wins() {
    let alloc = scan::<u64>(b"\t{\"foo\":1}\n {\"foo\":2}\n {\"foo\":3}\n {\"bar\":4}\n");
    assert_eq!(
        alloc.get("foo"),
        Some(Record {
            tie: Tie::Live,
            offset: 11,
            size: 11
        })
    );
    assert_eq!(alloc.gaps.map, BTreeMap::from([(0, 11), (22, 11)]));
    assert_eq!(alloc.gaps.file_end, 44);
}

const DATABASE: &str = "\n {\"apple\":1}\n {\"application\":2}\n {\"apply\":3}\n {\"banana\":4}\n {\"app\":5}\n {\"appetite\":6}\n";

fn keys(entries: Vec<(String, Record)>) -> Vec<String> {
    entries.into_iter().map(|(k, _)| k).collect()
}

#[test]
fn range_keys_of_scanned_file() {
    let alloc = scan::<u32>(DATABASE.as_bytes());
    assert_eq!(
        keys(alloc.range(KeyBound::Unbounded, KeyBound::Unbounded)),
        ["app", "appetite", "apple", "application", "apply", "banana"]
    );
    assert_eq!(
        keys(alloc.range(KeyBound::Included("app"), KeyBound::Included("apply"))),
        ["app", "appetite", "apple", "application", "apply"]
    );
    assert_eq!(
        keys(alloc.range(KeyBound::Included("app"), KeyBound::Excluded("apply"))),
        ["app", "appetite", "apple", "application"]
    );
    assert_eq!(
        keys(alloc.range(KeyBound::Unbounded, KeyBound::Included("app"))),
        ["app"]
    );
    assert_eq!(
        keys(alloc.range(KeyBound::Included("apply"), KeyBound::Unbounded)),
        ["apply", "banana"]
    );
    assert_eq!(
        keys(alloc.range(KeyBound::Included("apple"), KeyBound::Included("banana"))),
        ["apple", "application", "apply", "banana"]
    );
    assert_eq!(
        keys(alloc.range(KeyBound::Included("appl"), KeyBound::Excluded("apply"))),
        ["apple", "application"]
    );
    assert_eq!(
        keys(alloc.range(KeyBound::Included("x"), KeyBound::Excluded("z"))),
        Vec::<String>::new()
    );
    assert_eq!(
        keys(alloc.range(KeyBound::Excluded("app"), KeyBound::Excluded("apple"))),
        ["appetite"]
    );
}

#[test]
fn prefix_keys_of_scanned_file() {
    let alloc = scan::<u32>(DATABASE.as_bytes());
    assert_eq!(keys(alloc.prefix("hello")), Vec::<String>::new());
    assert_eq!(
        keys(alloc.prefix("a")),
        ["app", "appetite", "apple", "application", "apply"]
    );
    assert_eq!(
        keys(alloc.prefix("app")),
        ["app", "appetite", "apple", "application", "apply"]
    );
    assert_eq!(keys(alloc.prefix("appl")), ["apple", "application", "apply"]);
    assert_eq!(
        keys(alloc.prefix("")),
        ["app", "appetite", "apple", "application", "apply", "banana"]
    );
}

#[test]
fn records_of_scanned_file() {
    let alloc = scan::<u32>(DATABASE.as_bytes());
    assert_eq!(
        alloc.get("apple"),
        Some(Record {
            tie: Tie::Live,
            offset: 1,
            size: 13
        })
    );
    assert_eq!(alloc.get("404"), None);
    assert_eq!(alloc.gaps.map, BTreeMap::from([(0, 1)]));
    let all = alloc.range(KeyBound::Unbounded, KeyBound::Unbounded);
    assert_eq!(all[0].1.offset, 60);
    assert_eq!(all[1].1.offset, 71);
}

#[test]
fn range_ordering_of_bounds() {
    assert!(range_is_ordered(KeyBound::Included("a"), KeyBound::Included("a")));
    assert!(range_is_ordered(KeyBound::Included("a"), KeyBound::Excluded("a")));
    assert!(!range_is_ordered(KeyBound::Excluded("a"), KeyBound::Excluded("a")));
    assert!(!range_is_ordered(KeyBound::Included("b"), KeyBound::Included("a")));
    assert!(range_is_ordered(KeyBound::Excluded("a"), KeyBound::Excluded("b")));
    assert!(range_is_ordered(KeyBound::Unbounded, KeyBound::Excluded("a")));
}

#[test]
fn scan_erasing_names_the_lines_that_lost() {
    let data = b"\t{\"foo\":1}\n {\"foo\":2}\n {\"foo\":3}\n {\"bar\":4}\n";
    let (alloc, erasures) = Alloc::scan_erasing(scan_lines::<u64>(data));
    assert_eq!(alloc, scan::<u64>(data));
    let offsets: Vec<u64> = erasures.iter().map(|w| w.offset).collect();
    assert_eq!(offsets, vec![0, 22]);
    for w in &erasures {
        assert_eq!(w.bytes, vec![b'\n']);
    }
}

#[test]
fn scan_erasing_a_clean_file_erases_nothing() {
    let data = b" {\"foo\":1}\n\n {\"bar\":2}\n";
    let (_, erasures) = Alloc::scan_erasing(scan_lines::<u64>(data));
    assert!(erasures.is_empty());
}
