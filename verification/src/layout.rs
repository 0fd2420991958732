//! How the records and the gaps lay out the file, and what each operation
//! of the allocator keeps of that layout.
use crate::allocator::{scan_step, scanned, ERASE_MARK, UNSTAGE_MARK};
use crate::gap_laws::{
    law_add_gap_frees_region, law_take_space_reserves, law_truncate_cuts_only_free_space,
};
use crate::gaps::{
    add_gap_spec, gaps_sound, gaps_within, in_gap, region_clear, sizes_positive,
    take_space_spec, truncated,
};
use crate::record::{Record, Tie};
use vstd::prelude::*;

verus! {

/// The lines of two records share no byte.
pub open spec fn apart(a: Record, b: Record) -> bool {
    a.offset + a.size <= b.offset || b.offset + b.size <= a.offset
}

/// Records `m` and gaps `g` lay out a file that ends at `end`: no record or
/// gap is empty or passes the end, no two records share a byte, the gaps
/// are well laid out, and no record shares a byte with a gap.
pub open spec fn records_sound(m: Map<Seq<char>, Record>, g: Map<u64, u64>, end: u64) -> bool {
    &&& g.dom().finite()
    &&& gaps_sound(g)
    &&& gaps_within(g, end as int)
    &&& forall|k: Seq<char>| #[trigger]
        m.contains_key(k) ==> m[k].size > 0 && m[k].offset + m[k].size <= end
    &&& forall|a: Seq<char>, b: Seq<char>|
        #![trigger m.contains_key(a), m.contains_key(b)]
        m.contains_key(a) && m.contains_key(b) && a != b ==> apart(m[a], m[b])
    &&& forall|k: Seq<char>| #[trigger]
        m.contains_key(k) ==> region_clear(g, m[k].offset as int, m[k].size as int)
}

/// Byte `x` lies in the line of some record of `m`.
pub open spec fn in_record(m: Map<Seq<char>, Record>, x: int) -> bool {
    exists|k: Seq<char>| #[trigger] m.contains_key(k) && m[k].offset <= x < m[k].offset + m[k].size
}

/// No space is lost: every byte of the file before `end` lies in the line
/// of a record or in a gap.
pub open spec fn space_tracked(m: Map<Seq<char>, Record>, g: Map<u64, u64>, end: u64) -> bool {
    forall|x: int|
        #![trigger in_record(m, x)]
        #![trigger in_gap(g, x)]
        0 <= x < end ==> in_record(m, x) || in_gap(g, x)
}

/// Cutting the free space off the end keeps every byte before the new end
/// tracked.
proof fn lemma_truncate_tracked(m: Map<Seq<char>, Record>, g: Map<u64, u64>, end: u64)
    requires
        records_sound(m, g, end),
        space_tracked(m, g, end),
    ensures
        ({
            let (g2, e2) = truncated(g, end);
            space_tracked(m, g2, e2)
        }),
{
    law_truncate_cuts_only_free_space(g, end);
    let (g2, e2) = truncated(g, end);
    assert forall|x: int|
        #![trigger in_record(m, x)]
        #![trigger in_gap(g2, x)]
        0 <= x < e2 implies in_record(m, x) || in_gap(g2, x) by {
        if !in_record(m, x) {
            assert(in_gap(g, x));
        }
    }
}

/// A region is clear of the gaps exactly when none of its bytes lies in a
/// gap.
proof fn lemma_clear_iff_no_gap_byte(g: Map<u64, u64>, offset: int, size: int)
    requires
        sizes_positive(g),
        size > 0,
    ensures
        region_clear(g, offset, size) <==> forall|x: int| offset <= x < offset + size ==> !in_gap(g, x),
{
    if region_clear(g, offset, size) {
        assert forall|x: int| offset <= x < offset + size implies !in_gap(g, x) by {
            if in_gap(g, x) {
                let o = choose|o: u64| #[trigger] g.contains_key(o) && o <= x < o + g[o];
            }
        }
    }
    if forall|x: int| offset <= x < offset + size ==> !in_gap(g, x) {
        assert forall|o: u64| #[trigger] g.contains_key(o) implies o + g[o] <= offset || offset + size
            <= o by {
            if !(o + g[o] <= offset || offset + size <= o) {
                let x = if o >= offset {
                    o as int
                } else {
                    offset
                };
                assert(in_gap(g, x));
            }
        }
    }
}

/// Gaps whose bytes are those of `g` and perhaps some of `extra` stay clear
/// of every region that is clear of `g` and apart from `extra`.
pub(crate) proof fn lemma_clear_of_grown_gaps(
    g: Map<u64, u64>,
    g2: Map<u64, u64>,
    extra_offset: int,
    extra_size: int,
    offset: int,
    size: int,
)
    requires
        sizes_positive(g),
        sizes_positive(g2),
        size > 0,
        region_clear(g, offset, size),
        offset + size <= extra_offset || extra_offset + extra_size <= offset,
        forall|x: int| #[trigger] in_gap(g2, x) ==> in_gap(g, x) || (extra_offset <= x < extra_offset + extra_size),
    ensures
        region_clear(g2, offset, size),
{
    lemma_clear_iff_no_gap_byte(g, offset, size);
    lemma_clear_iff_no_gap_byte(g2, offset, size);
}

/// Cutting the free space off the end keeps the layout sound, and never
/// cuts into a record.
pub proof fn lemma_truncate_sound(m: Map<Seq<char>, Record>, g: Map<u64, u64>, end: u64)
    requires
        records_sound(m, g, end),
    ensures
        ({
            let (g2, e2) = truncated(g, end);
            &&& records_sound(m, g2, e2)
            &&& e2 <= end
        }),
{
    law_truncate_cuts_only_free_space(g, end);
    let (g2, e2) = truncated(g, end);
    assert(g2.dom().finite()) by {
        assert(g2.dom().subset_of(g.dom()));
        vstd::set_lib::lemma_len_subset(g2.dom(), g.dom());
    }
    assert forall|k: Seq<char>| #[trigger] m.contains_key(k) implies m[k].size > 0 && m[k].offset
        + m[k].size <= e2 by {
        let r = m[k];
        lemma_clear_iff_no_gap_byte(g, r.offset as int, r.size as int);
        if r.offset + r.size > e2 {
            let x = if r.offset >= e2 {
                r.offset as int
            } else {
                e2 as int
            };
            assert(in_gap(g, x));
        }
    }
    assert forall|k: Seq<char>| #[trigger] m.contains_key(k) implies region_clear(
        g2,
        m[k].offset as int,
        m[k].size as int,
    ) by {
        assert forall|o: u64| #[trigger] g2.contains_key(o) implies o + g2[o] <= m[k].offset || m[k].offset
            + m[k].size <= o by {
            assert(g.contains_key(o));
        }
    }
    assert forall|a: u64, b: u64|
        #![trigger g2.contains_key(a), g2.contains_key(b)]
        g2.contains_key(a) && g2.contains_key(b) && a != b implies a + g2[a] <= b || b + g2[b]
            <= a by {
        assert(g.contains_key(a) && g.contains_key(b));
    }
    assert forall|o: u64| #[trigger] g2.contains_key(o) implies g2[o] > 0 && o + g2[o] <= u64::MAX by {
        assert(g.contains_key(o));
    }
}

/// Freeing the line of a record that no longer stands in `m`, then cutting
/// the free space off the end, keeps the layout sound.
proof fn lemma_release_sound(m: Map<Seq<char>, Record>, g: Map<u64, u64>, end: u64, freed: Record)
    requires
        records_sound(m, g, end),
        freed.size > 0,
        freed.offset + freed.size <= end,
        region_clear(g, freed.offset as int, freed.size as int),
        forall|k: Seq<char>| #[trigger] m.contains_key(k) ==> apart(m[k], freed),
    ensures
        ({
            let (g1, e1) = add_gap_spec(g, end, freed.offset, freed.size);
            &&& records_sound(m, g1, e1)
            &&& e1 == end
            &&& forall|x: int| in_gap(g1, x) <==> in_gap(g, x) || (freed.offset <= x < freed.offset + freed.size)
        }),
        ({
            let (g1, e1) = add_gap_spec(g, end, freed.offset, freed.size);
            let (g2, e2) = truncated(g1, e1);
            &&& records_sound(m, g2, e2)
            &&& e2 <= end
        }),
{
    law_add_gap_frees_region(g, end, freed.offset, freed.size);
    let (g1, e1) = add_gap_spec(g, end, freed.offset, freed.size);
    lemma_add_gap_finite(g, end, freed.offset, freed.size);
    assert forall|k: Seq<char>| #[trigger] m.contains_key(k) implies region_clear(
        g1,
        m[k].offset as int,
        m[k].size as int,
    ) by {
        lemma_clear_of_grown_gaps(
            g,
            g1,
            freed.offset as int,
            freed.size as int,
            m[k].offset as int,
            m[k].size as int,
        );
    }
    lemma_truncate_sound(m, g1, e1);
}

/// Adding a gap to finitely many gaps leaves finitely many.
pub(crate) proof fn lemma_add_gap_finite(g: Map<u64, u64>, end: u64, offset: u64, size: u64)
    requires
        g.dom().finite(),
    ensures
        add_gap_spec(g, end, offset, size).0.dom().finite(),
{
}

/// A put keeps the layout sound; the key reads back the new line, every
/// other key keeps its record, and the new line shares no byte with the
/// line of any key, the key's own old line included.
pub proof fn law_put(m: Map<Seq<char>, Record>, g: Map<u64, u64>, end: u64, key: Seq<char>, size: u64)
    requires
        records_sound(m, g, end),
        size > 0,
        end + size <= u64::MAX,
    ensures
        ({
            let (g1, e1, offset) = take_space_spec(g, end, size);
            let line = Record { tie: Tie::Live, offset, size };
            let m2 = m.insert(key, line);
            let (g3, e3) = if m.contains_key(key) {
                let (g2, e2) = add_gap_spec(g1, e1, m[key].offset, m[key].size);
                truncated(g2, e2)
            } else {
                (g1, e1)
            };
            &&& records_sound(m2, g3, e3)
            &&& m2[key] == line
            &&& forall|k: Seq<char>| k != key ==> m2.contains_key(k) == m.contains_key(k) && m2[k] == m[k]
            &&& forall|k: Seq<char>| #[trigger] m.contains_key(k) ==> apart(m[k], line)
        }),
{
    law_take_space_reserves(g, end, size);
    let (g1, e1, offset) = take_space_spec(g, end, size);
    let line = Record { tie: Tie::Live, offset, size };
    let m2 = m.insert(key, line);
    assert(g1.dom().finite());
    assert forall|k: Seq<char>| #[trigger] m.contains_key(k) implies apart(m[k], line) by {
        let r = m[k];
        lemma_clear_iff_no_gap_byte(g, r.offset as int, r.size as int);
        if !apart(r, line) {
            let x = if r.offset >= offset {
                r.offset as int
            } else {
                offset as int
            };
            if offset != end {
                assert(in_gap(g, x));
            }
        }
    }
    assert forall|k: Seq<char>| #[trigger] m2.contains_key(k) implies region_clear(
        g1,
        m2[k].offset as int,
        m2[k].size as int,
    ) by {
        if k != key {
            lemma_clear_of_grown_gaps(g, g1, 0, 0, m2[k].offset as int, m2[k].size as int);
        }
    }
    assert forall|a: Seq<char>, b: Seq<char>|
        #![trigger m2.contains_key(a), m2.contains_key(b)]
        m2.contains_key(a) && m2.contains_key(b) && a != b implies apart(m2[a], m2[b]) by {
        if a == key {
            assert(m.contains_key(b));
        } else if b == key {
            assert(m.contains_key(a));
        } else {
            assert(m.contains_key(a) && m.contains_key(b));
        }
    }
    assert(records_sound(m2, g1, e1));
    if m.contains_key(key) {
        let p = m[key];
        lemma_clear_of_grown_gaps(g, g1, 0, 0, p.offset as int, p.size as int);
        assert forall|k: Seq<char>| #[trigger] m2.contains_key(k) implies apart(m2[k], p) by {
            if k != key {
                assert(m.contains_key(k) && m.contains_key(key));
            }
        }
        lemma_release_sound(m2, g1, e1, p);
    }
}

/// A delete keeps the layout sound; the key is gone, every other key keeps
/// its record, and the space of the deleted line is free or cut off.
pub proof fn law_delete(m: Map<Seq<char>, Record>, g: Map<u64, u64>, end: u64, key: Seq<char>)
    requires
        records_sound(m, g, end),
        m.contains_key(key),
    ensures
        ({
            let p = m[key];
            let (g1, e1) = add_gap_spec(g, end, p.offset, p.size);
            let (g2, e2) = truncated(g1, e1);
            let m2 = m.remove(key);
            &&& records_sound(m2, g2, e2)
            &&& !m2.contains_key(key)
            &&& forall|k: Seq<char>| k != key ==> m2.contains_key(k) == m.contains_key(k) && m2[k] == m[k]
            &&& forall|x: int| p.offset <= x < p.offset + p.size && x < e2 ==> in_gap(g2, x)
        }),
{
    let p = m[key];
    let m2 = m.remove(key);
    assert forall|k: Seq<char>| #[trigger] m2.contains_key(k) implies apart(m2[k], p) by {
        assert(m.contains_key(k) && m.contains_key(key));
    }
    assert forall|a: Seq<char>, b: Seq<char>|
        #![trigger m2.contains_key(a), m2.contains_key(b)]
        m2.contains_key(a) && m2.contains_key(b) && a != b implies apart(m2[a], m2[b]) by {
        assert(m.contains_key(a) && m.contains_key(b));
    }
    lemma_release_sound(m2, g, end, p);
    let (g1, e1) = add_gap_spec(g, end, p.offset, p.size);
    law_truncate_cuts_only_free_space(g1, e1);
}

/// The sum of the sizes of the lines.
pub open spec fn total_size(lines: Seq<(u64, Option<(Tie, Seq<char>)>)>) -> int
    decreases lines.len(),
{
    if lines.len() == 0 {
        0
    } else {
        total_size(lines.drop_last()) + lines.last().0
    }
}

/// Scanning lines that all hold bytes, and whose sizes sum to at most
/// `u64::MAX`, lays the file out soundly: every line becomes a record or a
/// gap, the file ends after the last line, and cutting the free space off
/// the end keeps the layout sound.
pub proof fn law_scan_sound(lines: Seq<(u64, Option<(Tie, Seq<char>)>)>)
    requires
        forall|i: int| 0 <= i < lines.len() ==> #[trigger] lines[i].0 > 0,
        total_size(lines) <= u64::MAX,
    ensures
        ({
            let (m, g, e) = scanned(lines);
            &&& records_sound(m, g, e)
            &&& e == total_size(lines)
        }),
        ({
            let (m, g, e) = scanned(lines);
            let (g2, e2) = truncated(g, e);
            records_sound(m, g2, e2)
        }),
    decreases lines.len(),
{
    if lines.len() > 0 {
        let prefix = lines.drop_last();
        assert forall|i: int| 0 <= i < prefix.len() implies #[trigger] prefix[i].0 > 0 by {
            assert(prefix[i] == lines[i]);
        }
        law_scan_sound(prefix);
        let (m, g, e) = scanned(prefix);
        let (size, entry) = lines.last();
        assert(lines[lines.len() - 1].0 > 0);
        lemma_scan_step_sound(m, g, e, size, entry);
    }
    let (m, g, e) = scanned(lines);
    lemma_truncate_sound(m, g, e);
}

proof fn lemma_scan_step_sound(
    m: Map<Seq<char>, Record>,
    g: Map<u64, u64>,
    e: u64,
    size: u64,
    entry: Option<(Tie, Seq<char>)>,
)
    requires
        records_sound(m, g, e),
        size > 0,
        e + size <= u64::MAX,
    ensures
        ({
            let (m2, g2, e2) = scan_step(m, g, e, size, entry);
            &&& records_sound(m2, g2, e2)
            &&& e2 == e + size
        }),
{
    let line = Record { tie: Tie::Live, offset: e, size };
    let (m2, g2, e2) = scan_step(m, g, e, size, entry);
    assert(e2 == e + size);
    assert(region_clear(g, e as int, size as int));
    let mut new_line = false;
    let mut freed_old = false;
    match entry {
        Some((tie, k)) => {
            if !m.contains_key(k) {
                new_line = true;
            } else if m[k].tie == Tie::Unstaged && tie == Tie::Live {
                new_line = true;
                freed_old = true;
            }
        },
        None => {},
    }
    if !new_line {
        law_add_gap_frees_region(g, e, e, size);
        lemma_add_gap_finite(g, e, e, size);
        assert forall|k: Seq<char>| #[trigger] m2.contains_key(k) implies region_clear(
            g2,
            m2[k].offset as int,
            m2[k].size as int,
        ) by {
            lemma_clear_of_grown_gaps(g, g2, e as int, size as int, m2[k].offset as int, m2[k].size as int);
        }
    } else {
        let (tie, k) = entry->0;
        let rec = Record { tie, offset: e, size };
        assert(m2 == m.insert(k, rec));
        assert forall|a: Seq<char>, b: Seq<char>|
            #![trigger m2.contains_key(a), m2.contains_key(b)]
            m2.contains_key(a) && m2.contains_key(b) && a != b implies apart(m2[a], m2[b]) by {
            if a == k {
                assert(m.contains_key(b));
            } else if b == k {
                assert(m.contains_key(a));
            } else {
                assert(m.contains_key(a) && m.contains_key(b));
            }
        }
        if freed_old {
            let p = m[k];
            assert(m.contains_key(k));
            assert forall|j: Seq<char>| #[trigger] m2.contains_key(j) implies apart(m2[j], p) by {
                if j != k {
                    assert(m.contains_key(j) && m.contains_key(k));
                }
            }
            law_add_gap_frees_region(g, e, p.offset, p.size);
            lemma_add_gap_finite(g, e, p.offset, p.size);
            assert forall|j: Seq<char>| #[trigger] m2.contains_key(j) implies region_clear(
                g2,
                m2[j].offset as int,
                m2[j].size as int,
            ) by {
                if j != k {
                    assert(m.contains_key(j));
                }
                lemma_clear_of_grown_gaps(g, g2, p.offset as int, p.size as int, m2[j].offset as int, m2[j].size as int);
            }
        } else {
            assert forall|j: Seq<char>| #[trigger] m2.contains_key(j) implies region_clear(
                g2,
                m2[j].offset as int,
                m2[j].size as int,
            ) by {
                if j != k {
                    assert(m.contains_key(j));
                }
            }
        }
    }
}

/// The line holds an entry for `k`, a live one where `live_only` is set.
pub open spec fn holds_key(line: (u64, Option<(Tie, Seq<char>)>), k: Seq<char>, live_only: bool) -> bool {
    match line.1 {
        Some((tie, key)) => key == k && (live_only ==> tie == Tie::Live),
        None => false,
    }
}

/// Line `i` is the first that holds an entry for `k` (a live one, where
/// `live_only` is set).
pub open spec fn is_first_line(
    lines: Seq<(u64, Option<(Tie, Seq<char>)>)>,
    k: Seq<char>,
    i: int,
    live_only: bool,
) -> bool {
    &&& 0 <= i < lines.len()
    &&& holds_key(lines[i], k, live_only)
    &&& forall|j: int| 0 <= j < i ==> !holds_key(#[trigger] lines[j], k, live_only)
}

/// The record that line `i` would give its key: its tie, where it starts,
/// and its size.
pub open spec fn line_record(lines: Seq<(u64, Option<(Tie, Seq<char>)>)>, i: int) -> Record {
    let tie = match lines[i].1 {
        Some((t, _)) => t,
        None => Tie::Live,
    };
    Record { tie, offset: scanned(lines.take(i)).2, size: lines[i].0 }
}

/// Some line holds an entry for `k` (a live one, where `live_only` is set).
pub open spec fn has_line(lines: Seq<(u64, Option<(Tie, Seq<char>)>)>, k: Seq<char>, live_only: bool) -> bool {
    exists|j: int| 0 <= j < lines.len() && holds_key(#[trigger] lines[j], k, live_only)
}

/// The first line that holds an entry for `k` (a live one, where
/// `live_only` is set).
pub open spec fn first_line(lines: Seq<(u64, Option<(Tie, Seq<char>)>)>, k: Seq<char>, live_only: bool) -> int {
    choose|i: int| is_first_line(lines, k, i, live_only)
}

pub(crate) proof fn lemma_first_line(lines: Seq<(u64, Option<(Tie, Seq<char>)>)>, k: Seq<char>, live_only: bool)
    requires
        has_line(lines, k, live_only),
    ensures
        is_first_line(lines, k, first_line(lines, k, live_only), live_only),
        forall|i: int| #[trigger] is_first_line(lines, k, i, live_only) ==> i == first_line(lines, k, live_only),
{
    let j = choose|j: int| 0 <= j < lines.len() && holds_key(#[trigger] lines[j], k, live_only);
    lemma_first_line_exists(lines, k, j, live_only);
    let f = first_line(lines, k, live_only);
    assert forall|i: int| #[trigger] is_first_line(lines, k, i, live_only) implies i == f by {
        if i < f {
            assert(holds_key(lines[i], k, live_only));
        } else if f < i {
            assert(holds_key(lines[f], k, live_only));
        }
    }
}

proof fn lemma_first_line_extend(lines: Seq<(u64, Option<(Tie, Seq<char>)>)>, k: Seq<char>, live_only: bool)
    requires
        lines.len() > 0,
    ensures
        ({
            let n = lines.len() - 1;
            let prefix = lines.drop_last();
            &&& has_line(lines, k, live_only) == (has_line(prefix, k, live_only) || holds_key(lines[n], k, live_only))
            &&& has_line(prefix, k, live_only) ==> first_line(lines, k, live_only) == first_line(prefix, k, live_only)
            &&& !has_line(prefix, k, live_only) && holds_key(lines[n], k, live_only) ==> first_line(lines, k, live_only) == n
        }),
{
    let n = lines.len() - 1;
    let prefix = lines.drop_last();
    if has_line(prefix, k, live_only) {
        let j = choose|j: int| 0 <= j < prefix.len() && holds_key(#[trigger] prefix[j], k, live_only);
        assert(prefix[j] == lines[j]);
        lemma_first_line(prefix, k, live_only);
        let f = first_line(prefix, k, live_only);
        assert forall|i: int| 0 <= i < f implies !holds_key(#[trigger] lines[i], k, live_only) by {
            assert(prefix[i] == lines[i]);
        }
        assert(prefix[f] == lines[f]);
        assert(is_first_line(lines, k, f, live_only));
        lemma_first_line(lines, k, live_only);
    } else {
        if has_line(lines, k, live_only) {
            let j = choose|j: int| 0 <= j < lines.len() && holds_key(#[trigger] lines[j], k, live_only);
            if j < n {
                assert(prefix[j] == lines[j]);
            }
        }
        if holds_key(lines[n], k, live_only) {
            assert forall|i: int| 0 <= i < n implies !holds_key(#[trigger] lines[i], k, live_only) by {
                assert(prefix[i] == lines[i]);
            }
            assert(is_first_line(lines, k, n, live_only));
            lemma_first_line(lines, k, live_only);
        }
    }
}

/// Of the lines for a key, the first live one wins; where none is live,
/// the first one, unstaged, stands; where there is none, the key has no
/// record.
pub proof fn law_first_live_line_wins(lines: Seq<(u64, Option<(Tie, Seq<char>)>)>, k: Seq<char>)
    ensures
        ({
            let m = scanned(lines).0;
            &&& has_line(lines, k, true) ==> m.contains_key(k) && m[k] == line_record(lines, first_line(lines, k, true))
            &&& !has_line(lines, k, true) && has_line(lines, k, false) ==> m.contains_key(k) && m[k]
                == line_record(lines, first_line(lines, k, false)) && m[k].tie == Tie::Unstaged
            &&& !has_line(lines, k, false) ==> !m.contains_key(k)
        }),
    decreases lines.len(),
{
    if lines.len() == 0 {
        return;
    }
    let n = lines.len() - 1;
    let prefix = lines.drop_last();
    law_first_live_line_wins(prefix, k);
    lemma_first_line_extend(lines, k, true);
    lemma_first_line_extend(lines, k, false);
    let m = scanned(lines).0;
    let mp = scanned(prefix).0;
    let ep = scanned(prefix).2;
    assert(lines.take(n) =~= prefix);
    assert forall|i: int| 0 <= i < n implies line_record(lines, i) == line_record(prefix, i) by {
        assert(lines.take(i) =~= prefix.take(i));
        assert(lines[i] == prefix[i]);
    }
    if has_line(prefix, k, true) {
        lemma_first_line(prefix, k, true);
    }
    if has_line(prefix, k, false) {
        lemma_first_line(prefix, k, false);
        if !has_line(prefix, k, true) {
            let f = first_line(prefix, k, false);
            assert(!holds_key(prefix[f], k, true));
        }
    }
    let last = lines[n];
    assert(last == lines.last());
    match last.1 {
        Some((tie, key)) => {
            if key == k {
                assert(holds_key(last, k, false));
                if tie == Tie::Live {
                    assert(holds_key(last, k, true));
                } else {
                    assert(!holds_key(last, k, true));
                }
            } else {
                assert(!holds_key(last, k, false));
                assert(!holds_key(last, k, true));
            }
        },
        None => {
            assert(!holds_key(last, k, false));
            assert(!holds_key(last, k, true));
        },
    }
}

/// Where some line holds an entry for `k`, one of them is the first.
proof fn lemma_first_line_exists(lines: Seq<(u64, Option<(Tie, Seq<char>)>)>, k: Seq<char>, i: int, live_only: bool)
    requires
        0 <= i < lines.len(),
        holds_key(lines[i], k, live_only),
    ensures
        exists|j: int| j <= i && is_first_line(lines, k, j, live_only),
    decreases i,
{
    if exists|j: int| 0 <= j < i && holds_key(#[trigger] lines[j], k, live_only) {
        let j = choose|j: int| 0 <= j < i && holds_key(#[trigger] lines[j], k, live_only);
        lemma_first_line_exists(lines, k, j, live_only);
    } else {
        assert(is_first_line(lines, k, i, live_only));
    }
}

/// A put loses no space: where every byte of the file lay in a line or a
/// gap before, it does after.
pub proof fn law_put_tracks_space(m: Map<Seq<char>, Record>, g: Map<u64, u64>, end: u64, key: Seq<char>, size: u64)
    requires
        records_sound(m, g, end),
        space_tracked(m, g, end),
        size > 0,
        end + size <= u64::MAX,
    ensures
        ({
            let (g1, e1, offset) = take_space_spec(g, end, size);
            let m2 = m.insert(key, Record { tie: Tie::Live, offset, size });
            let (g3, e3) = if m.contains_key(key) {
                let (g2, e2) = add_gap_spec(g1, e1, m[key].offset, m[key].size);
                truncated(g2, e2)
            } else {
                (g1, e1)
            };
            space_tracked(m2, g3, e3)
        }),
{
    law_put(m, g, end, key, size);
    law_take_space_reserves(g, end, size);
    let (g1, e1, offset) = take_space_spec(g, end, size);
    let line = Record { tie: Tie::Live, offset, size };
    let m2 = m.insert(key, line);
    if m.contains_key(key) {
        let p = m[key];
        lemma_clear_of_grown_gaps(g, g1, 0, 0, p.offset as int, p.size as int);
        assert forall|k: Seq<char>| #[trigger] m2.contains_key(k) implies apart(m2[k], p) by {
            if k != key {
                assert(m.contains_key(k) && m.contains_key(key));
            }
        }
        lemma_release_sound(m2, g1, e1, p);
        let (g2, e2) = add_gap_spec(g1, e1, p.offset, p.size);
        assert forall|x: int|
            #![trigger in_record(m2, x)]
            #![trigger in_gap(g2, x)]
            0 <= x < e2 implies in_record(m2, x) || in_gap(g2, x) by {
            if offset <= x < offset + size {
                assert(m2.contains_key(key));
            } else if in_gap(g, x) {
                assert(in_gap(g1, x));
            } else {
                assert(in_record(m, x));
                let k = choose|k: Seq<char>| #[trigger] m.contains_key(k) && m[k].offset <= x < m[k].offset + m[k].size;
                if k != key {
                    assert(m2.contains_key(k));
                }
            }
        }
        lemma_truncate_tracked(m2, g2, e2);
    } else {
        assert forall|x: int|
            #![trigger in_record(m2, x)]
            #![trigger in_gap(g1, x)]
            0 <= x < e1 implies in_record(m2, x) || in_gap(g1, x) by {
            if offset <= x < offset + size {
                assert(m2.contains_key(key));
            } else if in_gap(g, x) {
                assert(in_gap(g1, x));
            } else {
                assert(in_record(m, x));
                let k = choose|k: Seq<char>| #[trigger] m.contains_key(k) && m[k].offset <= x < m[k].offset + m[k].size;
                assert(m2.contains_key(k));
            }
        }
    }
}

/// A delete loses no space: the deleted line's bytes become free.
pub proof fn law_delete_tracks_space(m: Map<Seq<char>, Record>, g: Map<u64, u64>, end: u64, key: Seq<char>)
    requires
        records_sound(m, g, end),
        space_tracked(m, g, end),
        m.contains_key(key),
    ensures
        ({
            let p = m[key];
            let (g1, e1) = add_gap_spec(g, end, p.offset, p.size);
            let (g2, e2) = truncated(g1, e1);
            space_tracked(m.remove(key), g2, e2)
        }),
{
    let p = m[key];
    let m2 = m.remove(key);
    assert forall|k: Seq<char>| #[trigger] m2.contains_key(k) implies apart(m2[k], p) by {
        assert(m.contains_key(k) && m.contains_key(key));
    }
    assert forall|a: Seq<char>, b: Seq<char>|
        #![trigger m2.contains_key(a), m2.contains_key(b)]
        m2.contains_key(a) && m2.contains_key(b) && a != b implies apart(m2[a], m2[b]) by {
        assert(m.contains_key(a) && m.contains_key(b));
    }
    lemma_release_sound(m2, g, end, p);
    let (g1, e1) = add_gap_spec(g, end, p.offset, p.size);
    assert forall|x: int|
        #![trigger in_record(m2, x)]
        #![trigger in_gap(g1, x)]
        0 <= x < e1 implies in_record(m2, x) || in_gap(g1, x) by {
        if !in_gap(g, x) && !(p.offset <= x < p.offset + p.size) {
            assert(in_record(m, x));
            let k = choose|k: Seq<char>| #[trigger] m.contains_key(k) && m[k].offset <= x < m[k].offset + m[k].size;
            assert(m2.contains_key(k));
        }
    }
    lemma_truncate_tracked(m2, g1, e1);
}

/// Scanning loses no space: every byte of the file lies in a line that
/// became a record or in a gap, before and after the free space at the end
/// is cut off.
pub proof fn law_scan_tracks_space(lines: Seq<(u64, Option<(Tie, Seq<char>)>)>)
    requires
        forall|i: int| 0 <= i < lines.len() ==> #[trigger] lines[i].0 > 0,
        total_size(lines) <= u64::MAX,
    ensures
        ({
            let (m, g, e) = scanned(lines);
            space_tracked(m, g, e)
        }),
        ({
            let (m, g, e) = scanned(lines);
            let (g2, e2) = truncated(g, e);
            space_tracked(m, g2, e2)
        }),
    decreases lines.len(),
{
    law_scan_sound(lines);
    if lines.len() > 0 {
        let prefix = lines.drop_last();
        assert forall|i: int| 0 <= i < prefix.len() implies #[trigger] prefix[i].0 > 0 by {
            assert(prefix[i] == lines[i]);
        }
        law_scan_tracks_space(prefix);
        law_scan_sound(prefix);
        let (m, g, e) = scanned(prefix);
        let (size, entry) = lines.last();
        assert(lines[lines.len() - 1].0 > 0);
        lemma_scan_step_tracked(m, g, e, size, entry);
    }
    let (m, g, e) = scanned(lines);
    lemma_truncate_tracked(m, g, e);
}

proof fn lemma_scan_step_tracked(
    m: Map<Seq<char>, Record>,
    g: Map<u64, u64>,
    e: u64,
    size: u64,
    entry: Option<(Tie, Seq<char>)>,
)
    requires
        records_sound(m, g, e),
        space_tracked(m, g, e),
        size > 0,
        e + size <= u64::MAX,
    ensures
        ({
            let (m2, g2, e2) = scan_step(m, g, e, size, entry);
            space_tracked(m2, g2, e2)
        }),
{
    let (m2, g2, e2) = scan_step(m, g, e, size, entry);
    let mut new_line = false;
    let mut freed_old = false;
    match entry {
        Some((tie, k)) => {
            if !m.contains_key(k) {
                new_line = true;
            } else if m[k].tie == Tie::Unstaged && tie == Tie::Live {
                new_line = true;
                freed_old = true;
            }
        },
        None => {},
    }
    if !new_line {
        law_add_gap_frees_region(g, e, e, size);
        assert forall|x: int|
            #![trigger in_record(m2, x)]
            #![trigger in_gap(g2, x)]
            0 <= x < e2 implies in_record(m2, x) || in_gap(g2, x) by {
            if x < e && !in_gap(g, x) {
                assert(in_record(m, x));
            }
        }
    } else {
        let (tie, k) = entry->0;
        let rec = Record { tie, offset: e, size };
        assert(m2 == m.insert(k, rec));
        if freed_old {
            let p = m[k];
            assert(m.contains_key(k));
            law_add_gap_frees_region(g, e, p.offset, p.size);
            assert forall|x: int|
                #![trigger in_record(m2, x)]
                #![trigger in_gap(g2, x)]
                0 <= x < e2 implies in_record(m2, x) || in_gap(g2, x) by {
                if x >= e {
                    assert(m2.contains_key(k));
                } else if !in_gap(g, x) && !(p.offset <= x < p.offset + p.size) {
                    assert(in_record(m, x));
                    let j = choose|j: Seq<char>| #[trigger] m.contains_key(j) && m[j].offset <= x < m[j].offset + m[j].size;
                    assert(m2.contains_key(j));
                }
            }
        } else {
            assert forall|x: int|
                #![trigger in_record(m2, x)]
                #![trigger in_gap(g2, x)]
                0 <= x < e2 implies in_record(m2, x) || in_gap(g2, x) by {
                if x >= e {
                    assert(m2.contains_key(k));
                } else if !in_gap(g, x) {
                    assert(in_record(m, x));
                    let j = choose|j: Seq<char>| #[trigger] m.contains_key(j) && m[j].offset <= x < m[j].offset + m[j].size;
                    assert(m2.contains_key(j));
                }
            }
        }
    }
}

/// The file `f` after `bytes` were written at `offset`; the file grows,
/// with zero bytes, where the write passes its end.
pub open spec fn written(f: Seq<u8>, offset: int, bytes: Seq<u8>) -> Seq<u8> {
    let len = if f.len() >= offset + bytes.len() {
        f.len() as int
    } else {
        offset + bytes.len()
    };
    Seq::new(
        len as nat,
        |i: int|
            if offset <= i < offset + bytes.len() {
                bytes[i - offset]
            } else if i < f.len() {
                f[i]
            } else {
                0u8
            },
    )
}

/// The file `f` cut, or grown with zero bytes, to `len` bytes.
pub open spec fn resized(f: Seq<u8>, len: int) -> Seq<u8> {
    Seq::new(len as nat, |i: int| if i < f.len() { f[i] } else { 0u8 })
}

/// The bytes of the line of `r` in the file `f`.
pub open spec fn line_of(f: Seq<u8>, r: Record) -> Seq<u8> {
    f.subrange(r.offset as int, r.offset + r.size)
}

proof fn lemma_write_elsewhere(f: Seq<u8>, offset: int, bytes: Seq<u8>, r: Record)
    requires
        0 <= offset,
        r.offset + r.size <= f.len(),
        r.offset + r.size <= offset || offset + bytes.len() <= r.offset,
    ensures
        line_of(written(f, offset, bytes), r) == line_of(f, r),
{
    assert(line_of(written(f, offset, bytes), r) =~= line_of(f, r));
}

/// The writes of a put leave a file, whose length was the end of the
/// layout, as long as the new end; the key's record then covers exactly the
/// line written, and every other key's line keeps its bytes.
pub proof fn law_put_writes(
    m: Map<Seq<char>, Record>,
    g: Map<u64, u64>,
    end: u64,
    f: Seq<u8>,
    key: Seq<char>,
    line: Seq<u8>,
)
    requires
        records_sound(m, g, end),
        f.len() == end,
        line.len() > 0,
        end + line.len() <= u64::MAX,
    ensures
        ({
            let size = line.len() as u64;
            let (g1, e1, offset) = take_space_spec(g, end, size);
            let rec = Record { tie: Tie::Live, offset, size };
            let f1 = if m.contains_key(key) {
                written(f, m[key].offset as int, seq![UNSTAGE_MARK])
            } else {
                f
            };
            let f2 = written(f1, offset as int, line);
            let (g3, e3) = if m.contains_key(key) {
                let (g2, e2) = add_gap_spec(g1, e1, m[key].offset, m[key].size);
                truncated(g2, e2)
            } else {
                (g1, e1)
            };
            let f3 = if m.contains_key(key) {
                resized(written(f2, m[key].offset as int, seq![ERASE_MARK]), e3 as int)
            } else {
                f2
            };
            &&& f3.len() == e3
            &&& line_of(f3, rec) == line
            &&& forall|k: Seq<char>| #[trigger] m.contains_key(k) && k != key ==> line_of(f3, m[k]) == line_of(f, m[k])
        }),
{
    let size = line.len() as u64;
    law_put(m, g, end, key, size);
    law_take_space_reserves(g, end, size);
    let (g1, e1, offset) = take_space_spec(g, end, size);
    let rec = Record { tie: Tie::Live, offset, size };
    let m2 = m.insert(key, rec);
    let f1 = if m.contains_key(key) {
        written(f, m[key].offset as int, seq![UNSTAGE_MARK])
    } else {
        f
    };
    let f2 = written(f1, offset as int, line);
    if offset != end {
        assert(in_gap(g, offset + size - 1));
        let o = choose|o: u64| #[trigger] g.contains_key(o) && o <= offset + size - 1 < o + g[o];
    }
    assert(offset + size <= e1);
    assert(f1.len() == end);
    assert(f2.len() == e1);
    assert(line_of(f2, rec) =~= line);
    assert forall|k: Seq<char>| #[trigger] m.contains_key(k) && k != key implies line_of(f2, m[k]) == line_of(f, m[k]) by {
        if m.contains_key(key) {
            assert(m.contains_key(key) && m.contains_key(k));
            lemma_write_elsewhere(f, m[key].offset as int, seq![UNSTAGE_MARK], m[k]);
        }
        lemma_write_elsewhere(f1, offset as int, line, m[k]);
    }
    if m.contains_key(key) {
        let p = m[key];
        lemma_clear_of_grown_gaps(g, g1, 0, 0, p.offset as int, p.size as int);
        assert forall|k: Seq<char>| #[trigger] m2.contains_key(k) implies apart(m2[k], p) by {
            if k != key {
                assert(m.contains_key(k) && m.contains_key(key));
            }
        }
        assert(records_sound(m2, g1, e1));
        lemma_release_sound(m2, g1, e1, p);
        let (g2, e2) = add_gap_spec(g1, e1, p.offset, p.size);
        let (g3, e3) = truncated(g2, e2);
        let f25 = written(f2, p.offset as int, seq![ERASE_MARK]);
        assert(f25.len() == e1);
        assert(m2.contains_key(key));
        assert(rec.offset + rec.size <= e3);
        lemma_write_elsewhere(f2, p.offset as int, seq![ERASE_MARK], rec);
        assert(line_of(resized(f25, e3 as int), rec) =~= line_of(f25, rec));
        assert forall|k: Seq<char>| #[trigger] m.contains_key(k) && k != key implies line_of(
            resized(f25, e3 as int),
            m[k],
        ) == line_of(f, m[k]) by {
            assert(m2.contains_key(k) && m2[k] == m[k]);
            lemma_write_elsewhere(f2, p.offset as int, seq![ERASE_MARK], m[k]);
            assert(line_of(resized(f25, e3 as int), m[k]) =~= line_of(f25, m[k]));
        }
    }
}

/// The writes of a delete leave a file as long as the new end, and every
/// other key's line keeps its bytes.
pub proof fn law_delete_writes(m: Map<Seq<char>, Record>, g: Map<u64, u64>, end: u64, f: Seq<u8>, key: Seq<char>)
    requires
        records_sound(m, g, end),
        f.len() == end,
        m.contains_key(key),
    ensures
        ({
            let p = m[key];
            let (g1, e1) = add_gap_spec(g, end, p.offset, p.size);
            let (g2, e2) = truncated(g1, e1);
            let f2 = resized(written(f, p.offset as int, seq![ERASE_MARK]), e2 as int);
            &&& f2.len() == e2
            &&& forall|k: Seq<char>| #[trigger] m.contains_key(k) && k != key ==> line_of(f2, m[k]) == line_of(f, m[k])
        }),
{
    law_delete(m, g, end, key);
    let p = m[key];
    let (g1, e1) = add_gap_spec(g, end, p.offset, p.size);
    let (g2, e2) = truncated(g1, e1);
    let f1 = written(f, p.offset as int, seq![ERASE_MARK]);
    assert(f1.len() == end);
    assert forall|k: Seq<char>| #[trigger] m.contains_key(k) && k != key implies line_of(
        resized(f1, e2 as int),
        m[k],
    ) == line_of(f, m[k]) by {
        assert(m.remove(key).contains_key(k));
        assert(m.contains_key(key) && m.contains_key(k));
        lemma_write_elsewhere(f, p.offset as int, seq![ERASE_MARK], m[k]);
        assert(line_of(resized(f1, e2 as int), m[k]) =~= line_of(f1, m[k]));
    }
}

} // verus!
