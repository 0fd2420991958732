use kjdb::allocator::{Alloc, ScanLine, WriteAt};
use kjdb::record::{frame_line, Tie};
use std::collections::BTreeMap;

/// A database file held in memory, written as the writer writes a file.
struct MemDb {
    file: Vec<u8>,
    alloc: Alloc,
}

fn lines_of(data: &[u8]) -> Vec<ScanLine> {
    let mut scanned = Vec::new();
    let mut start = 0;
    while start < data.len() {
        let end = match data[start..].iter().position(|b| *b == b'\n') {
            Some(i) => start + i + 1,
            None => data.len(),
        };
        let line = &data[start..end];
        let entry = match std::str::from_utf8(line).ok().and_then(Tie::detect) {
            Some((tie, json)) => serde_json::from_str::<BTreeMap<String, String>>(json)
                .ok()
                .map(|m| (tie, m.into_keys().next().unwrap())),
            None => None,
        };
        scanned.push(ScanLine {
            size: line.len() as u64,
            entry,
        });
        start = end;
    }
    scanned
}

fn scan(data: &[u8]) -> Alloc {
    Alloc::scan(lines_of(data))
}

impl MemDb {
    fn open(data: &str) -> Self {
        let (alloc, erasures) = Alloc::scan_erasing(lines_of(data.as_bytes()));
        let mut db = MemDb {
            file: data.as_bytes().to_vec(),
            alloc,
        };
        for w in &erasures {
            db.write_at(w.offset, &w.bytes);
        }
        let end = db.alloc.gaps.file_end;
        db.set_len(end);
        db
    }

    fn write_at(&mut self, offset: u64, bytes: &[u8]) {
        let offset = offset as usize;
        if self.file.len() < offset + bytes.len() {
            self.file.resize(offset + bytes.len(), 0);
        }
        self.file[offset..offset + bytes.len()].copy_from_slice(bytes);
    }

    fn set_len(&mut self, len: u64) {
        self.file.resize(len as usize, 0);
    }

    fn get(&self, key: &str) -> Option<String> {
        let record = self.alloc.get(key)?;
        let line = &self.file[record.offset as usize..(record.offset + record.size) as usize];
        let (_, json) = Tie::detect(std::str::from_utf8(line).unwrap()).unwrap();
        let map = serde_json::from_str::<BTreeMap<String, String>>(json).unwrap();
        map.into_values().next()
    }

    fn put(&mut self, key: &str, value: &str) {
        let pending = self.alloc.begin_put(key.to_string());
        if let Some(w) = &pending.unstage {
            self.write_at(w.offset, &w.bytes);
        }
        let json = serde_json::to_string(&BTreeMap::from([(key, value)])).unwrap();
        let line = frame_line(&json);
        assert!(self.alloc.gaps.can_take(line.len() as u64));
        let placed = self.alloc.place_put(pending, &line);
        let WriteAt { offset, bytes } = &placed.write;
        let (offset, bytes) = (*offset, bytes.clone());
        self.write_at(offset, &bytes);
        if let Some(freed) = self.alloc.commit_put(placed) {
            self.write_at(freed.erase.offset, &freed.erase.bytes);
            let end = self.alloc.release(freed);
            self.set_len(end);
        }
    }

    fn delete(&mut self, key: &str) {
        let Some(freed) = self.alloc.begin_delete(key) else {
            return;
        };
        self.write_at(freed.erase.offset, &freed.erase.bytes);
        let end = self.alloc.release(freed);
        self.set_len(end);
        self.alloc.forget(key);
    }

    fn text(&self) -> String {
        String::from_utf8(self.file.clone()).unwrap()
    }

    /// Reopening the file finds the records and free space kept in memory.
    fn verify(&self) {
        assert_eq!(scan(&self.file), self.alloc);
    }
}

#[test]
fn test_write_once() {
    let mut db = MemDb::open("");
    assert_eq!(db.get("foo"), None);
    db.put("foo", "hello world!");
    assert_eq!(db.get("foo"), Some("hello world!".to_string()));
    assert_eq!(db.text(), " {\"foo\":\"hello world!\"}\n");
    db.verify();
}

#[test]
fn test_write_twice() {
    let mut db = MemDb::open("");
    assert_eq!(db.get("foo"), None);
    db.put("foo", "hello one!");
    assert_eq!(db.get("foo"), Some("hello one!".to_string()));
    db.put("foo", "hello two!");
    assert_eq!(db.get("foo"), Some("hello two!".to_string()));
    assert_eq!(
        db.text(),
        "\n{\"foo\":\"hello one!\"}\n {\"foo\":\"hello two!\"}\n"
    );
    db.verify();
}

#[test]
fn test_write_three_times() {
    let mut db = MemDb::open("");
    assert_eq!(db.get("foo"), None);
    db.put("foo", "hello one!");
    assert_eq!(db.get("foo"), Some("hello one!".to_string()));
    db.put("foo", "hello two!");
    assert_eq!(db.get("foo"), Some("hello two!".to_string()));
    db.put("foo", "hello 3!");
    assert_eq!(db.get("foo"), Some("hello 3!".to_string()));
    assert_eq!(db.text(), " {\"foo\":\"hello 3!\"}\n");
    db.verify();
}

#[test]
fn test_write_three_times_avoid_truncate() {
    let mut db = MemDb::open("");
    assert_eq!(db.get("foo"), None);
    db.put("foo", "hello one!");
    assert_eq!(db.get("foo"), Some("hello one!".to_string()));
    db.put("bar", "something");
    assert_eq!(db.get("bar"), Some("something".to_string()));
    db.put("foo", "hello two!");
    assert_eq!(db.get("foo"), Some("hello two!".to_string()));
    db.put("foo", "hello 3!");
    assert_eq!(db.get("foo"), Some("hello 3!".to_string()));
    assert_eq!(
        db.text(),
        " {\"foo\":\"hello 3!\"}\n}\n {\"bar\":\"something\"}\n"
    );
    db.verify();
}

const WRITE_DATABASE: &str = "\n {\"hello\":\"world\"}\n {\"foo\":\"bar\"}\n {\"baz\":\"qux\"}\n";

#[test]
fn write_test_writer() {
    let mut db = MemDb::open(WRITE_DATABASE);
    assert_eq!(db.get("hello").as_deref(), Some("world"));
    db.put("hello", "ohai!");
    assert_eq!(db.get("foo").as_deref(), Some("bar"));
    db.put("foo", "");
    assert_eq!(db.get("404").as_deref(), None);
    assert_eq!(db.get("hello").as_deref(), Some("ohai!"));
    assert_eq!(db.get("foo").as_deref(), Some(""));
    assert_eq!(
        db.text(),
        " {\"foo\":\"\"}\nworld\"}\n\n{\"foo\":\"bar\"}\n {\"baz\":\"qux\"}\n {\"hello\":\"ohai!\"}\n"
    );
    db.verify();
}

#[test]
fn delete_test_writer() {
    let mut db = MemDb::open(WRITE_DATABASE);
    assert_eq!(db.get("hello").as_deref(), Some("world"));
    db.delete("hello");
    assert_eq!(db.get("hello").as_deref(), None);
    assert_eq!(db.get("404").as_deref(), None);
    db.delete("404");
    assert_eq!(db.get("foo").as_deref(), Some("bar"));
    assert_eq!(db.get("baz").as_deref(), Some("qux"));
    db.delete("baz");
    assert_eq!(db.text(), "\n\n{\"hello\":\"world\"}\n {\"foo\":\"bar\"}\n");
    db.verify();
}

#[test]
fn get_test_writer() {
    let db = MemDb::open("\n {\"hello\": \"world\"}\n {\"foo\": \"bar\"}\n {\"baz\": \"qux\"}\n");
    assert_eq!(db.get("hello").as_deref(), Some("world"));
    assert_eq!(db.get("foo").as_deref(), Some("bar"));
    assert_eq!(db.get("404").as_deref(), None);
}

/// After a put, the key reads back the new value and other keys keep theirs.
#[test]
fn put_reads_back_and_keeps_other_keys() {
    let mut db = MemDb::open("");
    db.put("a", "1");
    db.put("b", "2");
    db.put("c", "3");
    db.put("b", "a longer value than before");
    db.put("a", "x");
    assert_eq!(db.get("a").as_deref(), Some("x"));
    assert_eq!(db.get("b").as_deref(), Some("a longer value than before"));
    assert_eq!(db.get("c").as_deref(), Some("3"));
    db.verify();
    db.delete("c");
    db.delete("b");
    db.delete("a");
    assert_eq!(db.text(), "");
    assert_eq!(db.alloc, Alloc::default());
}

/// Before a key gets a new line, its old line is marked unstaged; after,
/// the old line is erased.
#[test]
fn put_marks_the_old_line_unstaged_then_erases_it() {
    let mut db = MemDb::open(" {\"k\":\"v\"}\n");
    let pending = db.alloc.begin_put("k".to_string());
    let unstage = pending.unstage.as_ref().unwrap();
    assert_eq!(unstage.offset, 0);
    assert_eq!(unstage.bytes, b"\t");
    let placed = db.alloc.place_put(pending, " {\"k\":\"w\"}\n");
    assert_eq!(placed.offset, 11);
    assert_eq!(placed.write.bytes, b" {\"k\":\"w\"}\n");
    let freed = db.alloc.commit_put(placed).unwrap();
    assert_eq!(freed.erase.offset, 0);
    assert_eq!(freed.erase.bytes, b"\n");
    assert_eq!((freed.offset, freed.size), (0, 11));
    assert_eq!(db.alloc.release(freed), 22);
}

/// Deleting a key that has no record changes nothing.
#[test]
fn delete_of_missing_key_is_a_no_op() {
    let db = MemDb::open(" {\"k\":\"v\"}\n");
    assert!(db.alloc.begin_delete("missing").is_none());
    let mut alloc = scan(db.text().as_bytes());
    alloc.forget("missing");
    assert_eq!(alloc, db.alloc);
}

/// A put never overwrites the line of another key.
#[test]
fn put_places_lines_apart() {
    let mut db = MemDb::open("");
    db.put("a", "1");
    db.put("b", "2");
    db.delete("a");
    db.put("c", "33");
    db.put("d", "4");
    let a = db.alloc.get("b").unwrap();
    let c = db.alloc.get("c").unwrap();
    let d = db.alloc.get("d").unwrap();
    let mut spans = vec![(a.offset, a.size), (c.offset, c.size), (d.offset, d.size)];
    spans.sort();
    for pair in spans.windows(2) {
        assert!(pair[0].0 + pair[0].1 <= pair[1].0);
    }
    assert_eq!(db.get("b").as_deref(), Some("2"));
    assert_eq!(db.get("c").as_deref(), Some("33"));
    assert_eq!(db.get("d").as_deref(), Some("4"));
    db.verify();
}

/// After puts and deletes, every byte of the file lies in a key's line or
/// in a gap, and none in two.
#[test]
fn every_byte_is_tracked_once() {
    let mut db = MemDb::open("\n {\"a\":\"1\"}\n junk\n {\"b\":\"2\"}\n");
    db.put("c", "3");
    db.put("a", "a value of some length");
    db.delete("b");
    db.put("d", "4");
    let len = db.file.len();
    assert_eq!(len as u64, db.alloc.gaps.file_end);
    let mut owners = vec![0u32; len];
    for key in ["a", "b", "c", "d"] {
        if let Some(r) = db.alloc.get(key) {
            for i in r.offset..r.offset + r.size {
                owners[i as usize] += 1;
            }
        }
    }
    for (offset, size) in &db.alloc.gaps.map {
        for i in *offset..*offset + *size {
            owners[i as usize] += 1;
        }
    }
    assert!(owners.iter().all(|n| *n == 1));
    db.verify();
}

#[test]
fn open_erases_lines_that_lost() {
    let db = MemDb::open("\t{\"foo\":\"old\"}\n {\"foo\":\"new\"}\n {\"bar\":\"b\"}\n");
    assert_eq!(db.get("foo"), Some("new".to_string()));
    assert_eq!(
        db.text(),
        "\n{\"foo\":\"old\"}\n {\"foo\":\"new\"}\n {\"bar\":\"b\"}\n"
    );
    db.verify();
}

#[test]
fn put_cut_short_after_unstaging_keeps_the_old_value() {
    // A stale unstaged line of `foo` stands before its live line.
    let mut db = MemDb::open("\t{\"foo\":\"stale\"}\n {\"foo\":\"old\"}\n");
    assert_eq!(db.get("foo"), Some("old".to_string()));
    // A put of `foo` stops right after marking the live line unstaged.
    let pending = db.alloc.begin_put("foo".to_string());
    let (offset, bytes) = {
        let w = pending.unstage.as_ref().unwrap();
        (w.offset, w.bytes.clone())
    };
    db.write_at(offset, &bytes);
    let reopened = MemDb::open(&db.text());
    assert_eq!(reopened.get("foo"), Some("old".to_string()));
}

#[test]
fn put_cut_short_after_writing_gives_the_new_value() {
    let mut db = MemDb::open(" {\"foo\":\"old\"}\n {\"bar\":\"b\"}\n");
    let pending = db.alloc.begin_put("foo".to_string());
    let (offset, bytes) = {
        let w = pending.unstage.as_ref().unwrap();
        (w.offset, w.bytes.clone())
    };
    db.write_at(offset, &bytes);
    let json = serde_json::to_string(&BTreeMap::from([("foo", "new")])).unwrap();
    let line = frame_line(&json);
    let placed = db.alloc.place_put(pending, &line);
    let (offset, bytes) = (placed.write.offset, placed.write.bytes.clone());
    db.write_at(offset, &bytes);
    let reopened = MemDb::open(&db.text());
    assert_eq!(reopened.get("foo"), Some("new".to_string()));
    assert_eq!(reopened.get("bar"), Some("b".to_string()));
    reopened.verify();
}

#[test]
fn reopen_after_put_merges_the_freed_line() {
    let mut db = MemDb::open("\n{\"a\":\"\"}\n {\"b\":\"\"}\n {\"c\":\"\"}\n");
    db.put("c", "x");
    assert_eq!(db.get("c"), Some("x".to_string()));
    assert_eq!(db.alloc.gaps.map, BTreeMap::from([(0, 10), (20, 10)]));
    assert_eq!(db.alloc.gaps.file_end, 41);
    db.verify();
}
