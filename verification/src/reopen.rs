//! What reopening the file gives: the layout a writer keeps, the state that
//! a scan of its lines rebuilds, and what a put cut short leaves.
use crate::allocator::{scan_losers, scanned};
use crate::gap_laws::{
    law_add_gap_frees_region, law_free_bytes_fix_the_gaps, law_take_space_reserves,
    law_truncate_cuts_only_free_space, lemma_take_space_keeps_apart,
    lemma_truncated_when_no_gap_reaches_end,
};
use crate::gaps::{
    add_gap_spec, gaps_apart, gaps_sound, gaps_within, in_gap, region_clear, take_space_spec, truncated,
};
use crate::layout::{
    has_line, holds_key, in_record, law_delete, law_delete_tracks_space, law_first_live_line_wins, law_put,
    law_put_tracks_space, law_scan_sound, law_scan_tracks_space, lemma_add_gap_finite,
    lemma_clear_of_grown_gaps, lemma_first_line, first_line, line_record, records_sound,
    space_tracked, total_size,
};
use crate::record::{Record, Tie};
use vstd::prelude::*;

verus! {

/// The layout a writer keeps between its operations: sound, with every
/// byte of the file in a line or a gap, no two gaps touching, and no gap
/// reaching the end of the file.
pub open spec fn writer_sound(m: Map<Seq<char>, Record>, g: Map<u64, u64>, end: u64) -> bool {
    &&& records_sound(m, g, end)
    &&& space_tracked(m, g, end)
    &&& gaps_apart(g)
    &&& forall|o: u64| #[trigger] g.contains_key(o) ==> o + g[o] < end
}

/// Freeing a region clear of the gaps, then cutting the free space off the
/// end, keeps the gaps apart and leaves no gap reaching the end.
proof fn lemma_release_keeps_gaps_apart(g: Map<u64, u64>, end: u64, offset: u64, size: u64)
    requires
        g.dom().finite(),
        gaps_sound(g),
        gaps_apart(g),
        gaps_within(g, end as int),
        region_clear(g, offset as int, size as int),
        size > 0,
        offset + size <= u64::MAX,
    ensures
        ({
            let (g1, e1) = add_gap_spec(g, end, offset, size);
            let (g2, e2) = truncated(g1, e1);
            &&& gaps_apart(g2)
            &&& forall|o: u64| #[trigger] g2.contains_key(o) ==> o + g2[o] < e2
        }),
{
    law_add_gap_frees_region(g, end, offset, size);
    lemma_add_gap_finite(g, end, offset, size);
    let (g1, e1) = add_gap_spec(g, end, offset, size);
    law_truncate_cuts_only_free_space(g1, e1);
    let (g2, e2) = truncated(g1, e1);
    assert forall|a: u64, b: u64|
        #![trigger g2.contains_key(a), g2.contains_key(b)]
        g2.contains_key(a) && g2.contains_key(b) && a != b implies a + g2[a] < b || b + g2[b] < a by {
        assert(g1.contains_key(a) && g1.contains_key(b));
    }
}

/// A put keeps the layout a writer keeps.
pub proof fn law_put_keeps_writer_sound(
    m: Map<Seq<char>, Record>,
    g: Map<u64, u64>,
    end: u64,
    key: Seq<char>,
    size: u64,
)
    requires
        writer_sound(m, g, end),
        size > 0,
        end + size <= u64::MAX,
    ensures
        ({
            let (g1, e1, offset) = take_space_spec(g, end, size);
            let m2 = m.insert(key, Record { tie: Tie::Live, offset, size });
            let (g3, e3) = if m.contains_key(key) {
                let (g2, e2) = add_gap_spec(g1, e1, m[key].offset, m[key].size);
                truncated(g2, e2)
            } else {
                (g1, e1)
            };
            writer_sound(m2, g3, e3)
        }),
{
    law_put(m, g, end, key, size);
    law_put_tracks_space(m, g, end, key, size);
    law_take_space_reserves(g, end, size);
    lemma_take_space_keeps_apart(g, end, size);
    let (g1, e1, offset) = take_space_spec(g, end, size);
    assert(g1.dom().finite());
    if m.contains_key(key) {
        let p = m[key];
        lemma_clear_of_grown_gaps(g, g1, 0, 0, p.offset as int, p.size as int);
        lemma_release_keeps_gaps_apart(g1, e1, p.offset, p.size);
    }
}

/// A delete keeps the layout a writer keeps.
pub proof fn law_delete_keeps_writer_sound(
    m: Map<Seq<char>, Record>,
    g: Map<u64, u64>,
    end: u64,
    key: Seq<char>,
)
    requires
        writer_sound(m, g, end),
        m.contains_key(key),
    ensures
        ({
            let p = m[key];
            let (g1, e1) = add_gap_spec(g, end, p.offset, p.size);
            let (g2, e2) = truncated(g1, e1);
            writer_sound(m.remove(key), g2, e2)
        }),
{
    law_delete(m, g, end, key);
    law_delete_tracks_space(m, g, end, key);
    let p = m[key];
    lemma_release_keeps_gaps_apart(g, end, p.offset, p.size);
}

/// Scanning the lines in order leaves no two gaps touching.
proof fn lemma_scan_gaps_apart(lines: Seq<(u64, Option<(Tie, Seq<char>)>)>)
    requires
        forall|i: int| 0 <= i < lines.len() ==> #[trigger] lines[i].0 > 0,
        total_size(lines) <= u64::MAX,
    ensures
        gaps_apart(scanned(lines).1),
    decreases lines.len(),
{
    if lines.len() > 0 {
        let prefix = lines.drop_last();
        assert forall|i: int| 0 <= i < prefix.len() implies #[trigger] prefix[i].0 > 0 by {
            assert(prefix[i] == lines[i]);
        }
        law_scan_sound(prefix);
        lemma_scan_gaps_apart(prefix);
        let (m, g, e) = scanned(prefix);
        let (size, entry) = lines.last();
        assert(lines[lines.len() - 1].0 > 0);
        match entry {
            Some((tie, k)) => {
                if !m.contains_key(k) {
                } else if m[k].tie == Tie::Unstaged && tie == Tie::Live {
                    law_add_gap_frees_region(g, e, m[k].offset, m[k].size);
                } else {
                    law_add_gap_frees_region(g, e, e, size);
                }
            },
            None => {
                law_add_gap_frees_region(g, e, e, size);
            },
        }
    }
}

/// Opening a file gives the layout a writer keeps: scanning its lines and
/// cutting the free space off the end leaves a writer's layout.
pub proof fn law_scan_gives_writer_sound(lines: Seq<(u64, Option<(Tie, Seq<char>)>)>)
    requires
        forall|i: int| 0 <= i < lines.len() ==> #[trigger] lines[i].0 > 0,
        total_size(lines) <= u64::MAX,
    ensures
        ({
            let (m, g, e) = scanned(lines);
            let (g2, e2) = truncated(g, e);
            writer_sound(m, g2, e2)
        }),
{
    law_scan_sound(lines);
    law_scan_tracks_space(lines);
    lemma_scan_gaps_apart(lines);
    let (m, g, e) = scanned(lines);
    law_truncate_cuts_only_free_space(g, e);
    let (g2, e2) = truncated(g, e);
    assert forall|a: u64, b: u64|
        #![trigger g2.contains_key(a), g2.contains_key(b)]
        g2.contains_key(a) && g2.contains_key(b) && a != b implies a + g2[a] < b || b + g2[b] < a by {
        assert(g.contains_key(a) && g.contains_key(b));
    }
}

/// A free byte of one sound layout is free in every other that tracks all
/// the bytes of the same records.
proof fn lemma_free_byte_stays_free(
    m: Map<Seq<char>, Record>,
    g1: Map<u64, u64>,
    g2: Map<u64, u64>,
    end: u64,
    x: int,
)
    requires
        records_sound(m, g1, end),
        space_tracked(m, g2, end),
        in_gap(g1, x),
    ensures
        in_gap(g2, x),
{
    let o = choose|o: u64| #[trigger] g1.contains_key(o) && o <= x < o + g1[o];
    assert(o + g1[o] <= end);
    if in_record(m, x) {
        let k = choose|k: Seq<char>| #[trigger] m.contains_key(k) && m[k].offset <= x < m[k].offset + m[k].size;
        assert(region_clear(g1, m[k].offset as int, m[k].size as int));
        assert(g1.contains_key(o));
    }
}

/// The lines of a file hold the records `m`: each line that reads as an
/// entry is the line of its key's record, and each record has a line.
pub open spec fn lines_hold(lines: Seq<(u64, Option<(Tie, Seq<char>)>)>, m: Map<Seq<char>, Record>) -> bool {
    &&& forall|i: int|
        #![trigger line_record(lines, i)]
        0 <= i < lines.len() && lines[i].1 is Some ==> m.contains_key((lines[i].1->0).1) && m[(lines[i].1->0).1]
            == line_record(lines, i)
    &&& forall|k: Seq<char>| #[trigger] m.contains_key(k) ==> has_line(lines, k, false)
}

/// Reopening the file of a writer gives the writer's state: where the
/// lines of the file hold the writer's records and end where its file
/// ends, scanning them gives those records, and cutting the free space off
/// the end gives the writer's gaps and end.
pub proof fn law_reopen_gives_writer_state(
    lines: Seq<(u64, Option<(Tie, Seq<char>)>)>,
    m: Map<Seq<char>, Record>,
    g: Map<u64, u64>,
    end: u64,
)
    requires
        forall|i: int| 0 <= i < lines.len() ==> #[trigger] lines[i].0 > 0,
        total_size(lines) == end,
        writer_sound(m, g, end),
        lines_hold(lines, m),
    ensures
        scanned(lines).0 == m,
        truncated(scanned(lines).1, scanned(lines).2) == (g, end),
{
    let (ms, gs, es) = scanned(lines);
    assert forall|k: Seq<char>| ms.contains_key(k) == m.contains_key(k) && (m.contains_key(k) ==> ms[k] == m[k]) by {
        law_first_live_line_wins(lines, k);
        if has_line(lines, k, true) {
            lemma_first_line(lines, k, true);
            let f = first_line(lines, k, true);
            assert(lines[f].1 is Some);
        } else if has_line(lines, k, false) {
            lemma_first_line(lines, k, false);
            let f = first_line(lines, k, false);
            assert(lines[f].1 is Some);
        }
    }
    assert(ms =~= m);
    law_scan_sound(lines);
    law_scan_tracks_space(lines);
    lemma_scan_gaps_apart(lines);
    assert forall|x: int| in_gap(gs, x) <==> in_gap(g, x) by {
        if in_gap(gs, x) {
            lemma_free_byte_stays_free(m, gs, g, end, x);
        }
        if in_gap(g, x) {
            lemma_free_byte_stays_free(m, g, gs, end, x);
        }
    }
    law_free_bytes_fix_the_gaps(gs, g);
    lemma_truncated_when_no_gap_reaches_end(g, end);
}

/// The lines of a file while a put of `key`, whose new line is `new`, is
/// under way: each line that reads as an entry of another key is the line
/// of that key's record; each line of `key` is the line of its old record,
/// under either tie, or the new line; and each record has a line.
pub open spec fn lines_hold_during_put(
    lines: Seq<(u64, Option<(Tie, Seq<char>)>)>,
    m: Map<Seq<char>, Record>,
    key: Seq<char>,
    new: Record,
) -> bool {
    &&& forall|i: int|
        #![trigger line_record(lines, i)]
        0 <= i < lines.len() && lines[i].1 is Some ==> {
            let k = (lines[i].1->0).1;
            let r = line_record(lines, i);
            if k == key {
                r == new || (m.contains_key(key) && r.offset == m[key].offset && r.size == m[key].size)
            } else {
                m.contains_key(k) && m[k] == r
            }
        }
    &&& forall|k: Seq<char>| #[trigger] m.contains_key(k) ==> has_line(lines, k, false)
}

/// A put cut short leaves a consistent file: whatever of its writes were
/// made, scanning the lines gives every other key its record, and gives
/// `key` its old line or its new one; where `key` had a record, it keeps
/// one.
pub proof fn law_put_cut_short(
    lines: Seq<(u64, Option<(Tie, Seq<char>)>)>,
    m: Map<Seq<char>, Record>,
    key: Seq<char>,
    new: Record,
)
    requires
        new.tie == Tie::Live,
        lines_hold_during_put(lines, m, key, new),
    ensures
        ({
            let s = scanned(lines).0;
            &&& forall|k: Seq<char>|
                k != key ==> s.contains_key(k) == m.contains_key(k) && (m.contains_key(k) ==> s[k] == m[k])
            &&& m.contains_key(key) ==> s.contains_key(key)
            &&& s.contains_key(key) ==> s[key] == new || (m.contains_key(key) && s[key].offset
                == m[key].offset && s[key].size == m[key].size)
        }),
{
    assert forall|k: Seq<char>| k != key implies #[trigger] scanned(lines).0.contains_key(k) == m.contains_key(k)
        && (m.contains_key(k) ==> scanned(lines).0[k] == m[k]) by {
        lemma_key_during_put(lines, m, key, new, k);
    }
    lemma_key_during_put(lines, m, key, new, key);
}

/// What the scan gives one key of the lines of a put under way.
proof fn lemma_key_during_put(
    lines: Seq<(u64, Option<(Tie, Seq<char>)>)>,
    m: Map<Seq<char>, Record>,
    key: Seq<char>,
    new: Record,
    k: Seq<char>,
)
    requires
        new.tie == Tie::Live,
        lines_hold_during_put(lines, m, key, new),
    ensures
        ({
            let s = scanned(lines).0;
            &&& k != key ==> s.contains_key(k) == m.contains_key(k) && (m.contains_key(k) ==> s[k] == m[k])
            &&& k == key && m.contains_key(key) ==> s.contains_key(key)
            &&& k == key && s.contains_key(key) ==> s[key] == new || (m.contains_key(key) && s[key].offset
                == m[key].offset && s[key].size == m[key].size)
        }),
{
    law_first_live_line_wins(lines, k);
    if has_line(lines, k, true) {
        lemma_first_line(lines, k, true);
        let f = first_line(lines, k, true);
        assert(lines[f].1 is Some);
    } else if has_line(lines, k, false) {
        lemma_first_line(lines, k, false);
        let f = first_line(lines, k, false);
        assert(lines[f].1 is Some);
    }
}

/// Erasing the lines that lost never touches the line of a record: each
/// line that the scan names as lost lies in free space, apart from every
/// record's line.
pub proof fn law_losers_are_free(lines: Seq<(u64, Option<(Tie, Seq<char>)>)>)
    requires
        forall|i: int| 0 <= i < lines.len() ==> #[trigger] lines[i].0 > 0,
        total_size(lines) <= u64::MAX,
    ensures
        ({
            let (m, g, e) = scanned(lines);
            let losers = scan_losers(lines);
            &&& forall|j: int| 0 <= j < losers.len() ==> in_gap(g, #[trigger] losers[j] as int)
            &&& forall|j: int, k: Seq<char>|
                0 <= j < losers.len() && #[trigger] m.contains_key(k) ==> !(m[k].offset <= #[trigger] losers[j]
                    < m[k].offset + m[k].size)
        }),
    decreases lines.len(),
{
    law_scan_sound(lines);
    if lines.len() > 0 {
        let prefix = lines.drop_last();
        assert forall|i: int| 0 <= i < prefix.len() implies #[trigger] prefix[i].0 > 0 by {
            assert(prefix[i] == lines[i]);
        }
        law_scan_sound(prefix);
        law_losers_are_free(prefix);
        let (m, g, e) = scanned(prefix);
        let (size, entry) = lines.last();
        assert(lines[lines.len() - 1].0 > 0);
        let lp = scan_losers(prefix);
        let (m2, g2, e2) = scanned(lines);
        let l2 = scan_losers(lines);
        match entry {
            Some((tie, k)) => {
                if !m.contains_key(k) {
                    assert(l2 == lp);
                    assert(g2 == g);
                } else if m[k].tie == Tie::Unstaged && tie == Tie::Live {
                    law_add_gap_frees_region(g, e, m[k].offset, m[k].size);
                    assert(l2 == lp.push(m[k].offset));
                } else {
                    law_add_gap_frees_region(g, e, e, size);
                    assert(l2 == lp.push(e));
                }
            },
            None => {
                law_add_gap_frees_region(g, e, e, size);
                assert(l2 == lp);
            },
        }
        assert forall|j: int| 0 <= j < l2.len() implies in_gap(g2, #[trigger] l2[j] as int) by {
            if j < lp.len() {
                assert(l2[j] == lp[j]);
                assert(in_gap(g, lp[j] as int));
            }
        }
    }
    let (m, g, e) = scanned(lines);
    let losers = scan_losers(lines);
    assert forall|j: int, k: Seq<char>|
        0 <= j < losers.len() && #[trigger] m.contains_key(k) implies !(m[k].offset <= #[trigger] losers[j]
            < m[k].offset + m[k].size) by {
        assert(in_gap(g, losers[j] as int));
        let o = choose|o: u64| #[trigger] g.contains_key(o) && o <= losers[j] < o + g[o];
        assert(region_clear(g, m[k].offset as int, m[k].size as int));
        assert(g.contains_key(o));
    }
}

/// Where two runs of lines have the same sizes, scanning them ends at the
/// same offset.
proof fn lemma_scan_end_by_sizes(
    a: Seq<(u64, Option<(Tie, Seq<char>)>)>,
    b: Seq<(u64, Option<(Tie, Seq<char>)>)>,
)
    requires
        a.len() == b.len(),
        forall|j: int| 0 <= j < a.len() ==> #[trigger] a[j].0 == b[j].0,
    ensures
        scanned(a).2 == scanned(b).2,
    decreases a.len(),
{
    if a.len() > 0 {
        let pa = a.drop_last();
        let pb = b.drop_last();
        assert forall|j: int| 0 <= j < pa.len() implies #[trigger] pa[j].0 == pb[j].0 by {
            assert(pa[j] == a[j] && pb[j] == b[j]);
        }
        lemma_scan_end_by_sizes(pa, pb);
        assert(a[a.len() - 1].0 == b[b.len() - 1].0);
    }
}

/// The first write of a put keeps the file consistent: where the lines
/// hold the records `m`, marking the line of `key` unstaged leaves lines
/// that hold them while the put is under way, whatever its new line.
pub proof fn law_unstage_keeps_lines(
    lines: Seq<(u64, Option<(Tie, Seq<char>)>)>,
    m: Map<Seq<char>, Record>,
    key: Seq<char>,
    i: int,
    new: Record,
)
    requires
        lines_hold(lines, m),
        0 <= i < lines.len(),
        lines[i].1 matches Some((_, k)) && k == key,
    ensures
        lines_hold_during_put(lines.update(i, (lines[i].0, Some((Tie::Unstaged, key)))), m, key, new),
{
    let l2 = lines.update(i, (lines[i].0, Some((Tie::Unstaged, key))));
    assert forall|j: int| 0 <= j < l2.len() implies #[trigger] line_record(l2, j).offset == line_record(
        lines,
        j,
    ).offset && line_record(l2, j).size == line_record(lines, j).size by {
        let ta = lines.take(j);
        let tb = l2.take(j);
        assert forall|q: int| 0 <= q < ta.len() implies #[trigger] ta[q].0 == tb[q].0 by {
            assert(ta[q] == lines[q] && tb[q] == l2[q]);
        }
        lemma_scan_end_by_sizes(ta, tb);
    }
    assert(line_record(lines, i).offset == line_record(l2, i).offset);
    assert(lines[i].1 is Some);
    assert forall|j: int|
        #![trigger line_record(l2, j)]
        0 <= j < l2.len() && l2[j].1 is Some implies {
            let k = (l2[j].1->0).1;
            let r = line_record(l2, j);
            if k == key {
                r == new || (m.contains_key(key) && r.offset == m[key].offset && r.size == m[key].size)
            } else {
                m.contains_key(k) && m[k] == r
            }
        } by {
        assert(line_record(lines, j).offset == line_record(l2, j).offset);
        if j != i {
            assert(l2[j] == lines[j]);
            assert(lines[j].1 is Some);
        }
    }
    assert forall|k: Seq<char>| #[trigger] m.contains_key(k) implies has_line(l2, k, false) by {
        if k == key {
            assert(holds_key(l2[i], k, false));
        } else {
            assert(has_line(lines, k, false));
            let j = choose|j: int| 0 <= j < lines.len() && holds_key(#[trigger] lines[j], k, false);
            assert(j != i);
            assert(l2[j] == lines[j]);
            assert(holds_key(l2[j], k, false));
        }
    }
}

/// The sizes of two runs of lines, one after the other, add up.
pub(crate) proof fn lemma_total_size_concat(
    a: Seq<(u64, Option<(Tie, Seq<char>)>)>,
    b: Seq<(u64, Option<(Tie, Seq<char>)>)>,
)
    ensures
        total_size(a + b) == total_size(a) + total_size(b),
        total_size(a) >= 0,
    decreases b.len(),
{
    if b.len() == 0 {
        assert(a + b =~= a);
        lemma_total_size_nonneg(a);
    } else {
        lemma_total_size_concat(a, b.drop_last());
        assert((a + b).drop_last() =~= a + b.drop_last());
        assert((a + b).last() == b.last());
    }
}

/// No run of lines has a negative size.
pub(crate) proof fn lemma_total_size_nonneg(a: Seq<(u64, Option<(Tie, Seq<char>)>)>)
    ensures
        total_size(a) >= 0,
    decreases a.len(),
{
    if a.len() > 0 {
        lemma_total_size_nonneg(a.drop_last());
    }
}

/// Where the sizes of the lines sum to at most `u64::MAX`, scanning them
/// ends at that sum.
pub(crate) proof fn lemma_scan_end_is_total(a: Seq<(u64, Option<(Tie, Seq<char>)>)>)
    requires
        total_size(a) <= u64::MAX,
    ensures
        scanned(a).2 == total_size(a),
    decreases a.len(),
{
    if a.len() > 0 {
        lemma_total_size_nonneg(a.drop_last());
        lemma_scan_end_is_total(a.drop_last());
    }
}

/// A run of lines splits into three runs whose sizes add up to its own.
proof fn lemma_split_total(lines: Seq<(u64, Option<(Tie, Seq<char>)>)>, a: int, b: int)
    requires
        0 <= a <= b <= lines.len(),
    ensures
        total_size(lines) == total_size(lines.take(a)) + total_size(lines.subrange(a, b)) + total_size(
            lines.skip(b),
        ),
        total_size(lines.take(a)) >= 0,
        total_size(lines.subrange(a, b)) >= 0,
        total_size(lines.skip(b)) >= 0,
{
    lemma_total_size_concat(lines.take(b), lines.skip(b));
    assert(lines.take(b) + lines.skip(b) =~= lines);
    lemma_total_size_concat(lines.take(a), lines.subrange(a, b));
    assert(lines.take(a) + lines.subrange(a, b) =~= lines.take(b));
    lemma_total_size_nonneg(lines.subrange(a, b));
    lemma_total_size_nonneg(lines.skip(b));
}

/// Where the lines hold the records during a put of `key`, replacing the
/// lines `a` up to `b`, none of which reads as an entry, by lines `fill`
/// of the same total size, none of which reads as an entry, keeps them so.
pub proof fn law_free_lines_may_change(
    lines: Seq<(u64, Option<(Tie, Seq<char>)>)>,
    m: Map<Seq<char>, Record>,
    key: Seq<char>,
    new: Record,
    a: int,
    b: int,
    fill: Seq<(u64, Option<(Tie, Seq<char>)>)>,
)
    requires
        lines_hold_during_put(lines, m, key, new),
        total_size(lines) <= u64::MAX,
        0 <= a <= b <= lines.len(),
        forall|j: int| a <= j < b ==> (#[trigger] lines[j]).1 is None,
        forall|j: int| 0 <= j < fill.len() ==> (#[trigger] fill[j]).1 is None,
        total_size(fill) == total_size(lines.subrange(a, b)),
    ensures
        lines_hold_during_put(lines.take(a) + fill + lines.skip(b), m, key, new),
{
    lemma_split_total(lines, a, b);
    lemma_replace_lines(lines, m, key, new, a, b, fill);
}

/// Writing the new line of a put keeps the lines consistent: where the
/// lines hold the records during the put, and the new line `new` is
/// written over the lines `a` up to `b`, none of which reads as an entry,
/// starting where line `a` starts, with what stays of those bytes after it
/// left as lines `rest` that read as no entry, the lines hold the records
/// during the put.
pub proof fn law_write_keeps_lines(
    lines: Seq<(u64, Option<(Tie, Seq<char>)>)>,
    m: Map<Seq<char>, Record>,
    key: Seq<char>,
    new: Record,
    a: int,
    b: int,
    rest: Seq<(u64, Option<(Tie, Seq<char>)>)>,
)
    requires
        lines_hold_during_put(lines, m, key, new),
        new.tie == Tie::Live,
        0 <= a <= b <= lines.len(),
        forall|j: int| a <= j < b ==> (#[trigger] lines[j]).1 is None,
        forall|j: int| 0 <= j < rest.len() ==> (#[trigger] rest[j]).1 is None,
        scanned(lines.take(a)).2 == new.offset,
        b < lines.len() ==> total_size(lines.subrange(a, b)) == new.size + total_size(rest),
        total_size(lines.take(a)) + new.size + total_size(rest) + total_size(lines.skip(b)) <= u64::MAX,
    ensures
        lines_hold_during_put(
            lines.take(a) + (seq![(new.size, Some((Tie::Live, key)))] + rest) + lines.skip(b),
            m,
            key,
            new,
        ),
{
    let one = seq![(new.size, Some((Tie::Live, key)))];
    let fill = one + rest;
    lemma_split_total(lines, a, b);
    lemma_total_size_concat(one, rest);
    assert(one.drop_last() =~= Seq::<(u64, Option<(Tie, Seq<char>)>)>::empty());
    assert(total_size(Seq::<(u64, Option<(Tie, Seq<char>)>)>::empty()) == 0);
    assert(one.last() == (new.size, Some((Tie::Live, key))));
    assert(total_size(one) == new.size);
    assert forall|j: int| 0 <= j < fill.len() && (#[trigger] fill[j]).1 is Some implies j == 0 by {
        if j > 0 {
            assert(fill[j] == rest[j - 1]);
        }
    }
    lemma_replace_lines(lines, m, key, new, a, b, fill);
}

/// Line `b + t` keeps its record where the lines `a` up to `b` are
/// replaced by lines of the same total size.
proof fn lemma_shifted_record(
    lines: Seq<(u64, Option<(Tie, Seq<char>)>)>,
    a: int,
    b: int,
    fill: Seq<(u64, Option<(Tie, Seq<char>)>)>,
    t: int,
)
    requires
        0 <= a <= b,
        0 <= t,
        b + t < lines.len(),
        total_size(fill) == total_size(lines.subrange(a, b)),
        total_size(lines.take(a)) + total_size(fill) + total_size(lines.skip(b)) <= u64::MAX,
    ensures
        line_record(lines.take(a) + fill + lines.skip(b), a + fill.len() + t) == line_record(lines, b + t),
{
    let pre = lines.take(a);
    let post = lines.skip(b);
    let l2 = pre + fill + post;
    let j = a + fill.len() + t;
    assert(l2[j] == lines[b + t]);
    assert(l2.take(j) =~= pre + fill + post.take(t));
    assert(lines.take(b + t) =~= pre + lines.subrange(a, b) + post.take(t));
    lemma_total_size_concat(pre + fill, post.take(t));
    lemma_total_size_concat(pre, fill);
    lemma_total_size_concat(pre + lines.subrange(a, b), post.take(t));
    lemma_total_size_concat(pre, lines.subrange(a, b));
    lemma_total_size_concat(post.take(t), post.skip(t));
    assert(post.take(t) + post.skip(t) =~= post);
    lemma_total_size_nonneg(post.skip(t));
    lemma_total_size_nonneg(pre);
    lemma_scan_end_is_total(l2.take(j));
    lemma_scan_end_is_total(lines.take(b + t));
}

/// Replacing lines `a` up to `b`, none of which reads as an entry, by
/// `fill`, whose only entry can be its first line, the new line of the put
/// at the place of line `a`, keeps the lines consistent while the put is
/// under way.
proof fn lemma_replace_lines(
    lines: Seq<(u64, Option<(Tie, Seq<char>)>)>,
    m: Map<Seq<char>, Record>,
    key: Seq<char>,
    new: Record,
    a: int,
    b: int,
    fill: Seq<(u64, Option<(Tie, Seq<char>)>)>,
)
    requires
        lines_hold_during_put(lines, m, key, new),
        0 <= a <= b <= lines.len(),
        forall|j: int| a <= j < b ==> (#[trigger] lines[j]).1 is None || holds_key(lines[j], key, false),
        forall|j: int|
            0 <= j < fill.len() && (#[trigger] fill[j]).1 is Some ==> j == 0 && fill[0] == (
                new.size,
                Some((Tie::Live, key)),
            ) && new.tie == Tie::Live && scanned(lines.take(a)).2 == new.offset,
        b < lines.len() ==> total_size(fill) == total_size(lines.subrange(a, b)),
        total_size(lines.take(a)) + total_size(fill) + total_size(lines.skip(b)) <= u64::MAX,
        m.contains_key(key) && (exists|j: int| a <= j < b && holds_key(#[trigger] lines[j], key, false))
            ==> (exists|n: int|
            (0 <= n < a || b <= n < lines.len()) && holds_key(#[trigger] lines[n], key, false)),
    ensures
        lines_hold_during_put(lines.take(a) + fill + lines.skip(b), m, key, new),
{
    let pre = lines.take(a);
    let post = lines.skip(b);
    let l2 = pre + fill + post;
    assert forall|j: int|
        #![trigger line_record(l2, j)]
        0 <= j < l2.len() && l2[j].1 is Some implies line_holds_during_put(l2, m, key, new, j) by {
        lemma_replaced_line(lines, m, key, new, a, b, fill, j);
    }
    assert forall|k: Seq<char>| #[trigger] m.contains_key(k) implies has_line(l2, k, false) by {
        let j0 = choose|j: int| 0 <= j < lines.len() && holds_key(#[trigger] lines[j], k, false);
        let j = if a <= j0 < b {
            assert(lines[j0].1 is Some);
            assert(k == key);
            choose|n: int| (0 <= n < a || b <= n < lines.len()) && holds_key(#[trigger] lines[n], key, false)
        } else {
            j0
        };
        if j < a {
            assert(l2[j] == lines[j]);
            assert(holds_key(l2[j], k, false));
        } else {
            assert(j >= b);
            let t = j - b;
            assert(l2[a + fill.len() + t] == lines[j]);
            assert(holds_key(l2[a + fill.len() + t], k, false));
        }
    }
}

/// Line `j` reads as an entry that the put allows: of another key, the line
/// of its record; of `key`, its old line or the new one.
pub open spec fn line_holds_during_put(
    lines: Seq<(u64, Option<(Tie, Seq<char>)>)>,
    m: Map<Seq<char>, Record>,
    key: Seq<char>,
    new: Record,
    j: int,
) -> bool {
    let k = (lines[j].1->0).1;
    let r = line_record(lines, j);
    if k == key {
        r == new || (m.contains_key(key) && r.offset == m[key].offset && r.size == m[key].size)
    } else {
        m.contains_key(k) && m[k] == r
    }
}

/// Each line that reads as an entry, after lines `a` up to `b` are replaced
/// by `fill`, is one the put allows.
proof fn lemma_replaced_line(
    lines: Seq<(u64, Option<(Tie, Seq<char>)>)>,
    m: Map<Seq<char>, Record>,
    key: Seq<char>,
    new: Record,
    a: int,
    b: int,
    fill: Seq<(u64, Option<(Tie, Seq<char>)>)>,
    j: int,
)
    requires
        lines_hold_during_put(lines, m, key, new),
        0 <= a <= b <= lines.len(),
        forall|i: int|
            0 <= i < fill.len() && (#[trigger] fill[i]).1 is Some ==> i == 0 && fill[0] == (
                new.size,
                Some((Tie::Live, key)),
            ) && new.tie == Tie::Live && scanned(lines.take(a)).2 == new.offset,
        b < lines.len() ==> total_size(fill) == total_size(lines.subrange(a, b)),
        total_size(lines.take(a)) + total_size(fill) + total_size(lines.skip(b)) <= u64::MAX,
        0 <= j < (lines.take(a) + fill + lines.skip(b)).len(),
        (lines.take(a) + fill + lines.skip(b))[j].1 is Some,
    ensures
        line_holds_during_put(lines.take(a) + fill + lines.skip(b), m, key, new, j),
{
    let pre = lines.take(a);
    let post = lines.skip(b);
    let l2 = pre + fill + post;
    if j < a {
        assert(l2.take(j) =~= lines.take(j));
        assert(l2[j] == lines[j]);
        assert(line_record(l2, j) == line_record(lines, j));
        assert(lines[j].1 is Some);
    } else if j < a + fill.len() {
        assert(l2[j] == fill[j - a]);
        assert(fill[j - a].1 is Some);
        assert(l2.take(a) =~= pre);
    } else {
        let t = j - a - fill.len();
        lemma_shifted_record(lines, a, b, fill, t);
        assert(l2[j] == lines[b + t]);
        assert(lines[b + t].1 is Some);
    }
}

/// The last write of a put keeps the lines consistent: once a line of `key`
/// stands outside it, erasing the old line `i` of `key` (its bytes left as
/// lines `fill` of the same total size that read as no entry) leaves lines
/// that hold the records during the put.
pub proof fn law_erase_keeps_lines(
    lines: Seq<(u64, Option<(Tie, Seq<char>)>)>,
    m: Map<Seq<char>, Record>,
    key: Seq<char>,
    new: Record,
    i: int,
    n: int,
    fill: Seq<(u64, Option<(Tie, Seq<char>)>)>,
)
    requires
        lines_hold_during_put(lines, m, key, new),
        total_size(lines) <= u64::MAX,
        0 <= i < lines.len(),
        0 <= n < lines.len(),
        n != i,
        holds_key(lines[i], key, false),
        holds_key(lines[n], key, false),
        forall|j: int| 0 <= j < fill.len() ==> (#[trigger] fill[j]).1 is None,
        total_size(fill) == lines[i].0,
    ensures
        lines_hold_during_put(lines.take(i) + fill + lines.skip(i + 1), m, key, new),
{
    lemma_split_total(lines, i, i + 1);
    let one = lines.subrange(i, i + 1);
    assert(one.drop_last() =~= Seq::<(u64, Option<(Tie, Seq<char>)>)>::empty());
    assert(total_size(Seq::<(u64, Option<(Tie, Seq<char>)>)>::empty()) == 0);
    assert(one.last() == lines[i]);
    assert(holds_key(lines[n], key, false));
    lemma_replace_lines(lines, m, key, new, i, i + 1, fill);
}

/// When the put is over, the lines hold the new records: where the lines
/// hold the records during a put of `key`, the new line stands, and every
/// line of `key` is the new line, they hold `m` with `key` at its new line.
pub proof fn law_put_done_lines(
    lines: Seq<(u64, Option<(Tie, Seq<char>)>)>,
    m: Map<Seq<char>, Record>,
    key: Seq<char>,
    new: Record,
)
    requires
        lines_hold_during_put(lines, m, key, new),
        has_line(lines, key, false),
        forall|j: int|
            0 <= j < lines.len() && holds_key(#[trigger] lines[j], key, false) ==> line_record(lines, j) == new,
    ensures
        lines_hold(lines, m.insert(key, new)),
{
    let m2 = m.insert(key, new);
    assert forall|j: int|
        #![trigger line_record(lines, j)]
        0 <= j < lines.len() && lines[j].1 is Some implies m2.contains_key((lines[j].1->0).1)
            && m2[(lines[j].1->0).1] == line_record(lines, j) by {
        let k = (lines[j].1->0).1;
        if k == key {
            assert(holds_key(lines[j], key, false));
        }
    }
}

/// Cutting lines that read as no entry off the end keeps the lines holding
/// the records.
pub proof fn law_cut_free_lines(lines: Seq<(u64, Option<(Tie, Seq<char>)>)>, m: Map<Seq<char>, Record>, c: int)
    requires
        lines_hold(lines, m),
        0 <= c <= lines.len(),
        forall|j: int| c <= j < lines.len() ==> (#[trigger] lines[j]).1 is None,
    ensures
        lines_hold(lines.take(c), m),
{
    let l2 = lines.take(c);
    assert forall|j: int|
        #![trigger line_record(l2, j)]
        0 <= j < l2.len() && l2[j].1 is Some implies m.contains_key((l2[j].1->0).1) && m[(l2[j].1->0).1]
            == line_record(l2, j) by {
        assert(l2.take(j) =~= lines.take(j));
        assert(l2[j] == lines[j]);
        assert(line_record(l2, j) == line_record(lines, j));
    }
    assert forall|k: Seq<char>| #[trigger] m.contains_key(k) implies has_line(l2, k, false) by {
        let j = choose|j: int| 0 <= j < lines.len() && holds_key(#[trigger] lines[j], k, false);
        assert(j < c);
        assert(l2[j] == lines[j]);
    }
}

/// Lines of positive size start at strictly increasing offsets.
proof fn lemma_line_starts_increase(lines: Seq<(u64, Option<(Tie, Seq<char>)>)>, i: int, j: int)
    requires
        forall|q: int| 0 <= q < lines.len() ==> #[trigger] lines[q].0 > 0,
        total_size(lines) <= u64::MAX,
        0 <= i < j < lines.len(),
    ensures
        line_record(lines, i).offset < line_record(lines, j).offset,
{
    lemma_split_total(lines, i, j);
    lemma_split_total(lines, j, j);
    lemma_split_total(lines.take(j), i, i + 1);
    assert(lines.take(j).take(i) =~= lines.take(i));
    let one = lines.take(j).subrange(i, i + 1);
    assert(one.drop_last() =~= Seq::<(u64, Option<(Tie, Seq<char>)>)>::empty());
    assert(total_size(Seq::<(u64, Option<(Tie, Seq<char>)>)>::empty()) == 0);
    assert(one.last() == lines[i]);
    lemma_total_size_concat(lines.take(j), lines.skip(j));
    assert(lines.take(j) + lines.skip(j) =~= lines);
    lemma_scan_end_is_total(lines.take(i));
    lemma_scan_end_is_total(lines.take(j));
}

/// A delete keeps the lines consistent: where the lines hold the records,
/// erasing the line `i` of `key` (its bytes left as lines `fill` of the same
/// total size that read as no entry) leaves lines that hold the records
/// without `key`.
pub proof fn law_delete_lines(
    lines: Seq<(u64, Option<(Tie, Seq<char>)>)>,
    m: Map<Seq<char>, Record>,
    key: Seq<char>,
    i: int,
    fill: Seq<(u64, Option<(Tie, Seq<char>)>)>,
)
    requires
        lines_hold(lines, m),
        forall|q: int| 0 <= q < lines.len() ==> #[trigger] lines[q].0 > 0,
        total_size(lines) <= u64::MAX,
        0 <= i < lines.len(),
        holds_key(lines[i], key, false),
        forall|j: int| 0 <= j < fill.len() ==> (#[trigger] fill[j]).1 is None,
        total_size(fill) == lines[i].0,
    ensures
        lines_hold(lines.take(i) + fill + lines.skip(i + 1), m.remove(key)),
{
    let l2 = lines.take(i) + fill + lines.skip(i + 1);
    let m2 = m.remove(key);
    let new = m[key];
    assert(lines[i].1 is Some);
    // Every line of `key` is line `i`: lines start at distinct offsets.
    assert forall|j: int| 0 <= j < lines.len() && holds_key(#[trigger] lines[j], key, false) implies j == i by {
        assert(lines[j].1 is Some);
        assert(line_record(lines, j) == m[key]);
        assert(line_record(lines, i) == m[key]);
        if j < i {
            lemma_line_starts_increase(lines, j, i);
        } else if i < j {
            lemma_line_starts_increase(lines, i, j);
        }
    }
    // While the lines hold the records, they hold them during any put.
    assert forall|j: int|
        #![trigger line_record(lines, j)]
        0 <= j < lines.len() && lines[j].1 is Some implies line_holds_during_put(lines, m, key, new, j) by {
    }
    assert(lines_hold_during_put(lines, m, key, new));
    lemma_split_total(lines, i, i + 1);
    let one = lines.subrange(i, i + 1);
    assert(one.drop_last() =~= Seq::<(u64, Option<(Tie, Seq<char>)>)>::empty());
    assert(total_size(Seq::<(u64, Option<(Tie, Seq<char>)>)>::empty()) == 0);
    assert(one.last() == lines[i]);
    assert forall|j: int|
        #![trigger line_record(l2, j)]
        0 <= j < l2.len() && l2[j].1 is Some implies m2.contains_key((l2[j].1->0).1) && m2[(l2[j].1->0).1]
            == line_record(l2, j) by {
        lemma_replaced_line(lines, m, key, new, i, i + 1, fill, j);
        if j < i {
            assert(l2[j] == lines[j]);
        } else if j < i + fill.len() {
            assert(l2[j] == fill[j - i]);
        } else {
            assert(l2[j] == lines[j - fill.len() + 1]);
        }
    }
    assert forall|k: Seq<char>| #[trigger] m2.contains_key(k) implies has_line(l2, k, false) by {
        assert(has_line(lines, k, false));
        let j = choose|j: int| 0 <= j < lines.len() && holds_key(#[trigger] lines[j], k, false);
        assert(j != i);
        if j < i {
            assert(l2[j] == lines[j]);
            assert(holds_key(l2[j], k, false));
        } else {
            let t = j - i - 1;
            assert(l2[i + fill.len() + t] == lines[j]);
            assert(holds_key(l2[i + fill.len() + t], k, false));
        }
    }
}

} // verus!
