//! Where each key's line lies in the file, and which space is free.
use crate::gaps::{
    add_gap_spec, is_first_fit, lemma_add_gap_sizes_positive, lemma_take_space_sizes_positive,
    lemma_truncated_keeps_gaps, sat_add, take_space_spec, truncated, Gaps,
};
use crate::keymap::{
    above, ascending, below, entries_view, is_run, lookup, range_ordered, starts_with, KeyBound, KeyMap,
};
use crate::layout::{
    law_scan_sound, law_scan_tracks_space, records_sound, space_tracked, total_size,
};
use crate::record::{Record, Tie};
use crate::reopen::{law_losers_are_free, law_scan_gives_writer_sound, writer_sound};
use vstd::prelude::*;
use vstd::string::StrSliceExecFns;
use vstd::utf8::encode_utf8;

verus! {

/// A line of the file as the scan sees it: its length in bytes, and the
/// tie and key it holds, where its text could be read as an entry.
pub struct ScanLine {
    pub size: u64,
    pub entry: Option<(Tie, String)>,
}

impl View for ScanLine {
    type V = (u64, Option<(Tie, Seq<char>)>);

    open spec fn view(&self) -> (u64, Option<(Tie, Seq<char>)>) {
        (
            self.size,
            match self.entry {
                Some((tie, key)) => Some((tie, key@)),
                None => None,
            },
        )
    }
}

/// The records, gaps and file end after one more line of `size` bytes,
/// holding `entry`, was scanned at the end of the file. The first line of a
/// key gives its record; a later live line replaces an unstaged one, and
/// the space of the line that loses becomes a gap; so does a line that
/// holds no entry.
pub open spec fn scan_step(
    m: Map<Seq<char>, Record>,
    g: Map<u64, u64>,
    end: u64,
    size: u64,
    entry: Option<(Tie, Seq<char>)>,
) -> (Map<Seq<char>, Record>, Map<u64, u64>, u64) {
    let offset = end;
    let (m2, g2) = match entry {
        Some((tie, k)) => if !m.contains_key(k) {
            (m.insert(k, Record { tie, offset, size }), g)
        } else if m[k].tie == Tie::Unstaged && tie == Tie::Live {
            (m.insert(k, Record { tie, offset, size }), add_gap_spec(g, end, m[k].offset, m[k].size).0)
        } else {
            (m, add_gap_spec(g, end, offset, size).0)
        },
        None => (m, add_gap_spec(g, end, offset, size).0),
    };
    (m2, g2, sat_add(offset, size))
}

/// The records, gaps and file end after the lines were scanned in order,
/// before the free space at the end is cut off.
pub open spec fn scanned(lines: Seq<(u64, Option<(Tie, Seq<char>)>)>) -> (
    Map<Seq<char>, Record>,
    Map<u64, u64>,
    u64,
)
    decreases lines.len(),
{
    if lines.len() == 0 {
        (Map::empty(), Map::empty(), 0)
    } else {
        let (m, g, e) = scanned(lines.drop_last());
        scan_step(m, g, e, lines.last().0, lines.last().1)
    }
}

/// Where the line scanned at `end`, holding `entry`, leaves a line of the
/// file that loses to another line of its key: the earlier unstaged line
/// that a live line replaces, or else the line itself.
pub open spec fn scan_loser(m: Map<Seq<char>, Record>, end: u64, entry: Option<(Tie, Seq<char>)>) -> Option<
    u64,
> {
    match entry {
        Some((tie, k)) => if !m.contains_key(k) {
            None
        } else if m[k].tie == Tie::Unstaged && tie == Tie::Live {
            Some(m[k].offset)
        } else {
            Some(end)
        },
        None => None,
    }
}

/// The offsets of the lines that lose to another line of their key, in the
/// order the scan finds them.
pub open spec fn scan_losers(lines: Seq<(u64, Option<(Tie, Seq<char>)>)>) -> Seq<u64>
    decreases lines.len(),
{
    if lines.len() == 0 {
        Seq::empty()
    } else {
        let (m, g, e) = scanned(lines.drop_last());
        let rest = scan_losers(lines.drop_last());
        match scan_loser(m, e, lines.last().1) {
            Some(o) => rest.push(o),
            None => rest,
        }
    }
}

/// A nonempty key or line has a nonempty UTF-8 encoding.
proof fn lemma_encoding_nonempty(s: Seq<char>)
    requires
        s.len() > 0,
    ensures
        s.len() <= encode_utf8(s).len(),
    decreases s.len(),
{
    if s.len() > 1 {
        lemma_encoding_nonempty(s.drop_first());
    }
}

/// What the scan sees of each line.
pub open spec fn scan_view(lines: Seq<ScanLine>) -> Seq<(u64, Option<(Tie, Seq<char>)>)> {
    lines.map_values(|l: ScanLine| l@)
}

/// A write of `bytes` at `offset` of the file.
pub struct WriteAt {
    pub offset: u64,
    pub bytes: Vec<u8>,
}

/// The byte that marks a line as unstaged: a tab.
pub const UNSTAGE_MARK: u8 = 9;

/// The byte that erases a line: a newline, from which no entry can be read.
pub const ERASE_MARK: u8 = 10;

/// Writes `byte` over the first byte of the line of `r`.
fn mark(r: Record, byte: u8) -> (w: WriteAt)
    ensures
        w.offset == r.offset,
        w.bytes@ == seq![byte],
{
    let mut bytes = Vec::new();
    bytes.push(byte);
    assert(bytes@ =~= seq![byte]);
    WriteAt { offset: r.offset, bytes }
}

/// Space whose line the writer erases (with `erase`) and then hands back
/// with `release`.
pub struct Release {
    pub erase: WriteAt,
    pub offset: u64,
    pub size: u64,
}

/// The release of the line of `r`: a newline over its first byte, then its
/// bytes are free.
pub open spec fn releases(f: Release, r: Record) -> bool {
    &&& f.erase.offset == r.offset
    &&& f.erase.bytes@ == seq![ERASE_MARK]
    &&& f.offset == r.offset
    &&& f.size == r.size
}

/// A put that has begun: the key, the record its line had, and the write
/// that marks that line unstaged, which the writer performs before the new
/// line is written.
pub struct PendingPut {
    pub key: String,
    pub prev: Option<Record>,
    pub unstage: Option<WriteAt>,
}

/// A put whose new line has its space: the writer performs `write`, then
/// commits the put.
pub struct PlacedPut {
    pub key: String,
    pub prev: Option<Record>,
    pub offset: u64,
    pub size: u64,
    pub write: WriteAt,
}

/// The records of the keys, and the free space of the file.
#[derive(Debug, PartialEq)]
pub struct Alloc {
    pub map: KeyMap<Record>,
    pub gaps: Gaps,
}

impl Default for Alloc {
    fn default() -> (a: Self)
        ensures
            a.map@ == Seq::<(Seq<char>, Record)>::empty(),
            a.gaps.map@ == Map::<u64, u64>::empty(),
            a.gaps.file_end == 0,
    {
        Alloc { map: KeyMap::new(), gaps: Gaps::default() }
    }
}

impl Alloc {
    /// The record of each key.
    pub open spec fn records(&self) -> Map<Seq<char>, Record> {
        Map::new(|k: Seq<char>| lookup(self.map@, k) is Some, |k: Seq<char>| lookup(self.map@, k)->0)
    }

    /// No record or gap has size zero.
    pub open spec fn wf(&self) -> bool {
        &&& self.gaps.wf()
        &&& forall|k: Seq<char>| #[trigger] self.records().contains_key(k) ==> self.records()[k].size > 0
    }

    /// The records and gaps lay the file out soundly, and every byte of the
    /// file lies in a record's line or in a gap.
    pub open spec fn sound(&self) -> bool {
        &&& records_sound(self.records(), self.gaps.map@, self.gaps.file_end)
        &&& space_tracked(self.records(), self.gaps.map@, self.gaps.file_end)
    }

    /// The record of `key`.
    pub fn get(&self, key: &str) -> (r: Option<Record>)
        ensures
            r == lookup(self.map@, key@),
    {
        match self.map.get(key) {
            Some(r) => Some(*r),
            None => None,
        }
    }

    /// The keys between `lo` and `hi` with their records, in key order.
    pub fn range(&self, lo: KeyBound, hi: KeyBound) -> (r: Vec<(String, Record)>)
        requires
            range_ordered(lo, hi),
        ensures
            is_run(entries_view(r@), self.map@, |k: Seq<char>| above(k, lo) && below(k, hi)),
            ascending(entries_view(r@)),
    {
        self.map.range(lo, hi)
    }

    /// The keys that begin with `prefix` with their records, in key order.
    pub fn prefix(&self, prefix: &str) -> (r: Vec<(String, Record)>)
        ensures
            is_run(entries_view(r@), self.map@, |k: Seq<char>| starts_with(k, prefix@)),
            ascending(entries_view(r@)),
    {
        self.map.prefix(prefix)
    }

    /// Builds the records and free space of a file from its lines, in file
    /// order, then cuts the free space at the end of the file off.
    pub fn scan(lines: Vec<ScanLine>) -> (a: Alloc)
        requires
            forall|i: int| 0 <= i < lines@.len() ==> #[trigger] lines@[i].size > 0,
        ensures
            a.wf(),
            ({
                let (m, g, e) = scanned(scan_view(lines@));
                &&& a.records() == m
                &&& (a.gaps.map@, a.gaps.file_end) == truncated(g, e)
            }),
            total_size(scan_view(lines@)) <= u64::MAX ==> a.sound(),
            total_size(scan_view(lines@)) <= u64::MAX ==> writer_sound(
                a.records(),
                a.gaps.map@,
                a.gaps.file_end,
            ),
    {
        Alloc::scan_erasing(lines).0
    }

    /// Scans the lines as `scan` does, and also returns the writes that
    /// erase each line that lost to another line of its key, so that a
    /// writer leaves one line for each key in the file.
    pub fn scan_erasing(lines: Vec<ScanLine>) -> (r: (Alloc, Vec<WriteAt>))
        requires
            forall|i: int| 0 <= i < lines@.len() ==> #[trigger] lines@[i].size > 0,
        ensures
            r.0.wf(),
            ({
                let (m, g, e) = scanned(scan_view(lines@));
                &&& r.0.records() == m
                &&& (r.0.gaps.map@, r.0.gaps.file_end) == truncated(g, e)
            }),
            total_size(scan_view(lines@)) <= u64::MAX ==> r.0.sound(),
            total_size(scan_view(lines@)) <= u64::MAX ==> writer_sound(
                r.0.records(),
                r.0.gaps.map@,
                r.0.gaps.file_end,
            ),
            total_size(scan_view(lines@)) <= u64::MAX ==> forall|j: int, k: Seq<char>|
                0 <= j < r.1@.len() && #[trigger] r.0.records().contains_key(k) ==> !(r.0.records()[k].offset
                    <= (#[trigger] r.1@[j]).offset < r.0.records()[k].offset + r.0.records()[k].size),
            r.1@.len() == scan_losers(scan_view(lines@)).len(),
            forall|j: int|
                0 <= j < r.1@.len() ==> (#[trigger] r.1@[j]).offset == scan_losers(scan_view(lines@))[j]
                    && r.1@[j].bytes@ == seq![ERASE_MARK],
    {
        let ghost v = scan_view(lines@);
        let mut erasures: Vec<WriteAt> = Vec::new();
        let mut a = Alloc::default();
        assert(a.records() =~= Map::<Seq<char>, Record>::empty());
        let mut i: usize = 0;
        assert(v.take(0) =~= Seq::<(u64, Option<(Tie, Seq<char>)>)>::empty());
        while i < lines.len()
            invariant
                i <= lines@.len(),
                v == scan_view(lines@),
                forall|j: int| 0 <= j < lines@.len() ==> #[trigger] lines@[j].size > 0,
                a.wf(),
                ({
                    let (m, g, e) = scanned(v.take(i as int));
                    &&& a.records() == m
                    &&& a.gaps.map@ == g
                    &&& a.gaps.file_end == e
                }),
                erasures@.len() == scan_losers(v.take(i as int)).len(),
                forall|j: int|
                    0 <= j < erasures@.len() ==> (#[trigger] erasures@[j]).offset == scan_losers(
                        v.take(i as int),
                    )[j] && erasures@[j].bytes@ == seq![ERASE_MARK],
            decreases lines@.len() - i,
        {
            let loser = a.scan_line(&lines[i]);
            assert(v.take(i + 1).drop_last() =~= v.take(i as int));
            assert(v.take(i + 1).last() == lines@[i as int]@);
            let ghost before = scan_losers(v.take(i as int));
            match loser {
                Some(o) => {
                    let mut bytes = Vec::new();
                    bytes.push(ERASE_MARK);
                    assert(bytes@ =~= seq![ERASE_MARK]);
                    erasures.push(WriteAt { offset: o, bytes });
                    assert(scan_losers(v.take(i + 1)) == before.push(o));
                },
                None => {
                    assert(scan_losers(v.take(i + 1)) == before);
                },
            }
            i = i + 1;
        }
        assert(v.take(i as int) =~= v);
        let ghost g0 = a.gaps.map@;
        let ghost e0 = a.gaps.file_end;
        proof {
            lemma_truncated_keeps_gaps(g0, e0);
        }
        a.gaps.truncate();
        assert(a.gaps.map@ == truncated(g0, e0).0);
        assert(a.gaps.wf());
        proof {
            assert forall|j: int| 0 <= j < v.len() implies #[trigger] v[j].0 > 0 by {
                assert(v[j] == lines@[j]@);
            }
            if total_size(v) <= u64::MAX {
                law_scan_sound(v);
                law_scan_tracks_space(v);
                law_scan_gives_writer_sound(v);
                law_losers_are_free(v);
            }
        }
        (a, erasures)
    }

    /// Begins a put of `key`.
    pub fn begin_put(&self, key: String) -> (p: PendingPut)
        ensures
            p.key == key,
            p.prev == lookup(self.map@, key@),
            match p.prev {
                Some(r) => p.unstage matches Some(w) && w.offset == r.offset && w.bytes@ == seq![UNSTAGE_MARK],
                None => p.unstage is None,
            },
    {
        let prev = self.get(key.as_str());
        let unstage = match prev {
            Some(r) => Some(mark(r, UNSTAGE_MARK)),
            None => None,
        };
        PendingPut { key, prev, unstage }
    }

    /// Finds space for the new line of a put: the lowest gap that holds it,
    /// else the end of the file.
    pub fn place_put(&mut self, pending: PendingPut, line: &str) -> (p: PlacedPut)
        requires
            old(self).wf(),
            line@.len() > 0,
            forall|o: u64|
                is_first_fit(old(self).gaps.map@, encode_utf8(line@).len() as u64, o)
                    && old(self).gaps.map@[o] > encode_utf8(line@).len() ==> o + encode_utf8(line@).len()
                    <= u64::MAX,
        ensures
            final(self).wf(),
            final(self).map == old(self).map,
            p.size == encode_utf8(line@).len(),
            (final(self).gaps.map@, final(self).gaps.file_end, p.offset) == take_space_spec(
                old(self).gaps.map@,
                old(self).gaps.file_end,
                p.size,
            ),
            p.write.offset == p.offset,
            p.write.bytes@ == encode_utf8(line@),
            p.key == pending.key,
            p.prev == pending.prev,
    {
        let bytes = line.as_bytes_vec();
        proof {
            lemma_encoding_nonempty(line@);
        }
        let size = bytes.len() as u64;
        let offset = self.gaps.take_space(size);
        proof {
            lemma_take_space_sizes_positive(old(self).gaps.map@, old(self).gaps.file_end, size);
        }
        PlacedPut {
            key: pending.key,
            prev: pending.prev,
            offset,
            size,
            write: WriteAt { offset, bytes },
        }
    }

    /// Makes the written line the live record of its key; where it replaces
    /// a record, returns the release of that record's line.
    pub fn commit_put(&mut self, placed: PlacedPut) -> (freed: Option<Release>)
        requires
            old(self).wf(),
            placed.size > 0,
        ensures
            final(self).wf(),
            final(self).records() == old(self).records().insert(
                placed.key@,
                Record { tie: Tie::Live, offset: placed.offset, size: placed.size },
            ),
            final(self).gaps == old(self).gaps,
            match placed.prev {
                Some(r) => freed matches Some(f) && releases(f, r),
                None => freed is None,
            },
    {
        let ghost m0 = self.records();
        let ghost k = placed.key@;
        let record = Record::new(placed.offset, placed.size);
        self.map.insert(placed.key, record);
        assert(self.records() =~= m0.insert(k, record));
        match placed.prev {
            Some(r) => Some(Release { erase: mark(r, ERASE_MARK), offset: r.offset, size: r.size }),
            None => None,
        }
    }

    /// Begins a delete of `key`: the release of its line, where it has one.
    pub fn begin_delete(&self, key: &str) -> (freed: Option<Release>)
        ensures
            match lookup(self.map@, key@) {
                Some(r) => freed matches Some(f) && releases(f, r),
                None => freed is None,
            },
    {
        match self.get(key) {
            Some(r) => Some(Release { erase: mark(r, ERASE_MARK), offset: r.offset, size: r.size }),
            None => None,
        }
    }

    /// Frees the erased line of a release and cuts the free space at the end
    /// of the file off; returns the new length of the file.
    pub fn release(&mut self, freed: Release) -> (end: u64)
        requires
            old(self).wf(),
            freed.size > 0,
        ensures
            final(self).wf(),
            final(self).map == old(self).map,
            ({
                let (g, e) = add_gap_spec(
                    old(self).gaps.map@,
                    old(self).gaps.file_end,
                    freed.offset,
                    freed.size,
                );
                (final(self).gaps.map@, final(self).gaps.file_end) == truncated(g, e)
            }),
            end == final(self).gaps.file_end,
    {
        let offset = freed.offset;
        let size = freed.size;
        proof {
            lemma_add_gap_sizes_positive(self.gaps.map@, self.gaps.file_end, offset, size);
        }
        self.gaps.add_gap(offset, size);
        let ghost g0 = self.gaps.map@;
        let ghost e0 = self.gaps.file_end;
        proof {
            lemma_truncated_keeps_gaps(g0, e0);
        }
        let end = self.gaps.truncate();
        assert(self.gaps.map@ == truncated(g0, e0).0);
        end
    }

    /// Drops the record of `key`, once its line was erased and its space
    /// released.
    pub fn forget(&mut self, key: &str)
        requires
            old(self).wf(),
        ensures
            final(self).wf(),
            final(self).records() == old(self).records().remove(key@),
            final(self).gaps == old(self).gaps,
    {
        let ghost m0 = self.records();
        self.map.remove(key);
        assert(self.records() =~= m0.remove(key@));
    }

    /// Takes in the next line of the file, which starts at the current end
    /// of the file.
    fn scan_line(&mut self, line: &ScanLine) -> (loser: Option<u64>)
        requires
            old(self).wf(),
            line.size > 0,
        ensures
            final(self).wf(),
            loser == scan_loser(old(self).records(), old(self).gaps.file_end, line@.1),
            ({
                let (m, g, e) = scan_step(
                    old(self).records(),
                    old(self).gaps.map@,
                    old(self).gaps.file_end,
                    line@.0,
                    line@.1,
                );
                &&& final(self).records() == m
                &&& final(self).gaps.map@ == g
                &&& final(self).gaps.file_end == e
            }),
    {
        let ghost m0 = self.records();
        let offset = self.gaps.file_end;
        let size = line.size;
        let loser = match &line.entry {
            Some((tie, key)) => {
                let tie = *tie;
                match self.get(key.as_str()) {
                    None => {
                        self.map.insert(key.clone(), Record { tie, offset, size });
                        assert(self.records() =~= m0.insert(key@, Record { tie, offset, size }));
                        None
                    },
                    Some(existing) => {
                        assert(m0.contains_key(key@) && m0[key@] == existing);
                        if existing.tie == Tie::Unstaged && tie == Tie::Live {
                            self.map.insert(key.clone(), Record { tie, offset, size });
                            assert(self.records() =~= m0.insert(key@, Record { tie, offset, size }));
                            proof {
                                lemma_add_gap_sizes_positive(
                                    self.gaps.map@,
                                    self.gaps.file_end,
                                    existing.offset,
                                    existing.size,
                                );
                            }
                            self.gaps.add_gap(existing.offset, existing.size);
                            Some(existing.offset)
                        } else {
                            proof {
                                lemma_add_gap_sizes_positive(self.gaps.map@, self.gaps.file_end, offset, size);
                            }
                            self.gaps.add_gap(offset, size);
                            assert(self.records() =~= m0);
                            Some(offset)
                        }
                    },
                }
            },
            None => {
                proof {
                    lemma_add_gap_sizes_positive(self.gaps.map@, self.gaps.file_end, offset, size);
                }
                self.gaps.add_gap(offset, size);
                assert(self.records() =~= m0);
                None
            },
        };
        self.gaps.file_end = offset.saturating_add(size);
        loser
    }
}

} // verus!
