use kjdb::record::{frame_line, Entry, Record, Tie};

#[test]
fn test_tie_detect() {
    assert_eq!(Tie::detect(" {}"), Some((Tie::Live, "{}")));
    assert_eq!(Tie::detect("\t{}"), Some((Tie::Unstaged, "{}")));
    assert_eq!(Tie::detect("x"), None);
}

#[test]
fn detect_empty_line_is_none() {
    assert_eq!(Tie::detect(""), None);
    assert_eq!(Tie::detect("\n"), None);
}

#[test]
fn detect_keeps_multibyte_rest() {
    assert_eq!(Tie::detect(" {\"ü\":1}\n"), Some((Tie::Live, "{\"ü\":1}\n")));
    assert_eq!(Tie::detect("é"), None);
}

#[test]
fn record_new_is_live() {
    let r = Record::new(7, 11);
    assert_eq!(
        r,
        Record {
            tie: Tie::Live,
            offset: 7,
            size: 11
        }
    );
}

#[test]
fn frame_line_frames_json() {
    assert_eq!(frame_line("{\"a\":1}"), " {\"a\":1}\n");
}

#[test]
fn framed_line_detects_as_live() {
    let line = frame_line("{\"foo\":\"bar\"}");
    assert_eq!(
        Tie::detect(&line),
        Some((Tie::Live, "{\"foo\":\"bar\"}\n"))
    );
}

#[test]
fn entry_new_gives_back_key_and_value() {
    let e = Entry::new("key".to_string(), 42u32);
    assert_eq!(e.key(), "key");
    let e = Entry::new("key".to_string(), "value".to_string());
    assert_eq!(e.value(), "value");
}

#[test]
fn entry_key_is_the_lowest_key() {
    let mut e = Entry::new("b".to_string(), 2u32);
    e.data.insert("a".to_string(), 1);
    assert_eq!(e.key(), "a");
    let mut e = Entry::new("b".to_string(), 2u32);
    e.data.insert("a".to_string(), 1);
    assert_eq!(e.value(), 1);
}
