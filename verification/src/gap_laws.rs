//! What the operations on gaps do to the free space of the file.
use crate::gaps::{
    add_gap_spec, carve, disjoint_gaps, first_fit, is_first_fit, gaps_apart, gaps_sound, gaps_within, greatest_key,
    greatest_key_below, in_gap, is_greatest_key, is_greatest_key_below, is_least_key_from, join_next, join_prev, least_key_from, max_u64,
    region_clear, sat_add, sizes_positive, take_space_spec, truncated,
};
use vstd::prelude::*;

verus! {

/// Among finitely many offsets, where one is at least `lo`, a least one is.
proof fn lemma_least_key_from_exists(m: Map<u64, u64>, lo: u64, k: u64)
    requires
        m.dom().finite(),
        m.contains_key(k),
        lo <= k,
    ensures
        exists|j: u64| is_least_key_from(m, lo, j),
    decreases m.len(),
{
    let m1 = m.remove(k);
    if exists|j: u64| #[trigger] m1.contains_key(j) && lo <= j {
        let j = choose|j: u64| #[trigger] m1.contains_key(j) && lo <= j;
        lemma_least_key_from_exists(m1, lo, j);
        let l = choose|l: u64| is_least_key_from(m1, lo, l);
        if k < l {
            assert forall|i: u64| #[trigger] m.contains_key(i) && lo <= i implies k <= i by {
                if i != k {
                    assert(m1.contains_key(i));
                }
            }
            assert(is_least_key_from(m, lo, k));
        } else {
            assert forall|i: u64| #[trigger] m.contains_key(i) && lo <= i implies l <= i by {
                if i != k {
                    assert(m1.contains_key(i));
                }
            }
            assert(is_least_key_from(m, lo, l));
        }
    } else {
        assert forall|i: u64| #[trigger] m.contains_key(i) && lo <= i implies k <= i by {
            if i != k {
                assert(m1.contains_key(i));
            }
        }
        assert(is_least_key_from(m, lo, k));
    }
}

/// Among finitely many offsets, where one is below `hi`, a greatest one is.
proof fn lemma_greatest_key_below_exists(m: Map<u64, u64>, hi: u64, k: u64)
    requires
        m.dom().finite(),
        m.contains_key(k),
        k < hi,
    ensures
        exists|j: u64| is_greatest_key_below(m, hi, j),
    decreases m.len(),
{
    let m1 = m.remove(k);
    if exists|j: u64| #[trigger] m1.contains_key(j) && j < hi {
        let j = choose|j: u64| #[trigger] m1.contains_key(j) && j < hi;
        lemma_greatest_key_below_exists(m1, hi, j);
        let l = choose|l: u64| is_greatest_key_below(m1, hi, l);
        if k > l {
            assert forall|i: u64| #[trigger] m.contains_key(i) && i < hi implies i <= k by {
                if i != k {
                    assert(m1.contains_key(i));
                }
            }
            assert(is_greatest_key_below(m, hi, k));
        } else {
            assert forall|i: u64| #[trigger] m.contains_key(i) && i < hi implies i <= l by {
                if i != k {
                    assert(m1.contains_key(i));
                }
            }
            assert(is_greatest_key_below(m, hi, l));
        }
    } else {
        assert forall|i: u64| #[trigger] m.contains_key(i) && i < hi implies i <= k by {
            if i != k {
                assert(m1.contains_key(i));
            }
        }
        assert(is_greatest_key_below(m, hi, k));
    }
}

proof fn lemma_join_next(m: Map<u64, u64>, offset: u64, size: u64)
    requires
        m.dom().finite(),
        gaps_sound(m),
        size > 0,
        offset + size <= u64::MAX,
        region_clear(m, offset as int, size as int),
    ensures
        ({
            let (m1, s1) = join_next(m, offset, size);
            &&& gaps_sound(m1)
            &&& s1 >= size
            &&& offset + s1 <= u64::MAX
            &&& region_clear(m1, offset as int, s1 as int)
            &&& forall|k: u64| #[trigger] m1.contains_key(k) ==> m.contains_key(k) && m1[k] == m[k]
            &&& forall|x: int|
                in_gap(m1, x) || (offset <= x < offset + s1) <==> in_gap(m, x) || (offset <= x
                    < offset + size)
            &&& gaps_apart(m) ==> gaps_apart(m1)
            &&& gaps_apart(m) ==> forall|o: u64| #[trigger] m1.contains_key(o) && o > offset ==> offset + s1 < o
        }),
{
    let (m1, s1) = join_next(m, offset, size);
    if gaps_apart(m) {
        assert forall|a: u64, b: u64|
            #![trigger m1.contains_key(a), m1.contains_key(b)]
            m1.contains_key(a) && m1.contains_key(b) && a != b implies a + m1[a] < b || b + m1[b] < a by {
            assert(m.contains_key(a) && m.contains_key(b));
        }
    }
    match least_key_from(m, sat_add(offset, 1)) {
        Some(n) => {
            if gaps_apart(m) {
                assert forall|o: u64| #[trigger] m1.contains_key(o) && o > offset implies offset + s1 < o by {
                    assert(m.contains_key(o));
                    if sat_add(offset, size) >= n {
                        assert(o != n);
                        assert(m.contains_key(n));
                    }
                }
            }
            if sat_add(offset, size) >= n {
                assert(m.contains_key(n));
                assert(offset + size == n);
                assert(s1 == m[n] + size);
                assert forall|x: int|
                    in_gap(m1, x) || (offset <= x < offset + s1) <==> in_gap(m, x) || (offset <= x
                        < offset + size) by {
                    if in_gap(m, x) {
                        let o = choose|o: u64| #[trigger] m.contains_key(o) && o <= x < o + m[o];
                        if o != n {
                            assert(m1.contains_key(o));
                        }
                    }
                    if in_gap(m1, x) {
                        let o = choose|o: u64| #[trigger] m1.contains_key(o) && o <= x < o + m1[o];
                        assert(m.contains_key(o));
                    }
                }
                assert forall|o: u64| #[trigger] m1.contains_key(o) implies o + m1[o] <= offset
                    || offset + s1 <= o by {
                    assert(m.contains_key(o) && m.contains_key(n) && o != n);
                }
            }
        },
        None => {
            if gaps_apart(m) {
                assert forall|o: u64| #[trigger] m1.contains_key(o) && o > offset implies offset + s1 < o by {
                    assert(m.contains_key(o));
                    lemma_least_key_from_exists(m, sat_add(offset, 1), o);
                }
            }
        },
    }
}

proof fn lemma_join_prev(m1: Map<u64, u64>, offset: u64, s1: u64)
    requires
        m1.dom().finite(),
        gaps_sound(m1),
        s1 > 0,
        offset + s1 <= u64::MAX,
        region_clear(m1, offset as int, s1 as int),
    ensures
        ({
            let (o2, s2) = join_prev(m1, offset, s1);
            let m2 = m1.insert(o2, s2);
            &&& gaps_sound(m2)
            &&& o2 <= offset
            &&& o2 + s2 == offset + s1
            &&& forall|x: int| in_gap(m2, x) <==> in_gap(m1, x) || (offset <= x < offset + s1)
            &&& gaps_apart(m1) && (forall|o: u64| #[trigger] m1.contains_key(o) && o > offset ==> offset + s1 < o)
                ==> gaps_apart(m2)
        }),
{
    let (o2, s2) = join_prev(m1, offset, s1);
    let m2 = m1.insert(o2, s2);
    let mut joined = false;
    match greatest_key_below(m1, offset) {
        Some(p) => {
            assert(m1.contains_key(p) && p < offset);
            if sat_add(p, m1[p]) >= offset {
                assert(p + m1[p] == offset);
                joined = true;
            }
        },
        None => {},
    }
    assert(!m1.contains_key(offset));
    assert forall|a: u64, b: u64|
        #![trigger m2.contains_key(a), m2.contains_key(b)]
        m2.contains_key(a) && m2.contains_key(b) && a != b implies a + m2[a] <= b || b
            + m2[b] <= a by {
        if a == o2 {
            assert(m1.contains_key(b));
        } else if b == o2 {
            assert(m1.contains_key(a));
        } else {
            assert(m1.contains_key(b) && m1.contains_key(a));
        }
    }
    if gaps_apart(m1) && (forall|o: u64| #[trigger] m1.contains_key(o) && o > offset ==> offset + s1 < o) {
        assert forall|a: u64, b: u64|
            #![trigger m2.contains_key(a), m2.contains_key(b)]
            m2.contains_key(a) && m2.contains_key(b) && a != b implies a + m2[a] < b || b + m2[b] < a by {
            if a == o2 {
                assert(m1.contains_key(b));
                if b < offset && !joined {
                    lemma_greatest_key_below_exists(m1, offset, b);
                    let p = greatest_key_below(m1, offset)->0;
                    assert(m1.contains_key(p));
                    if b != p {
                        assert(m1.contains_key(b) && m1.contains_key(p));
                    }
                }
                if b < o2 && joined {
                    assert(m1.contains_key(b) && m1.contains_key(o2));
                }
            } else if b == o2 {
                assert(m1.contains_key(a));
                if a < offset && !joined {
                    lemma_greatest_key_below_exists(m1, offset, a);
                    let p = greatest_key_below(m1, offset)->0;
                    assert(m1.contains_key(p));
                    if a != p {
                        assert(m1.contains_key(a) && m1.contains_key(p));
                    }
                }
                if a < o2 && joined {
                    assert(m1.contains_key(a) && m1.contains_key(o2));
                }
            } else {
                assert(m1.contains_key(b) && m1.contains_key(a));
            }
        }
    }
    assert forall|x: int| in_gap(m2, x) <==> in_gap(m1, x) || (offset <= x < offset + s1) by {
        if in_gap(m1, x) {
            let o = choose|o: u64| #[trigger] m1.contains_key(o) && o <= x < o + m1[o];
            assert(m2.contains_key(o));
        }
        if offset <= x < offset + s1 {
            assert(m2.contains_key(o2));
        }
        if in_gap(m2, x) {
            let o = choose|o: u64| #[trigger] m2.contains_key(o) && o <= x < o + m2[o];
            if o != o2 {
                assert(m1.contains_key(o));
            } else if x < offset {
                assert(m1.contains_key(o2));
            }
        }
    }
}

/// Freeing a region that no gap covers adds exactly its bytes to the free
/// space, merged with the gaps it meets: the gaps stay well laid out and
/// within the file, and where no two gaps touched, none touch after.
pub proof fn law_add_gap_frees_region(m: Map<u64, u64>, end: u64, offset: u64, size: u64)
    requires
        m.dom().finite(),
        gaps_sound(m),
        size > 0,
        offset + size <= u64::MAX,
        region_clear(m, offset as int, size as int),
    ensures
        ({
            let (m2, e2) = add_gap_spec(m, end, offset, size);
            &&& gaps_sound(m2)
            &&& forall|x: int| in_gap(m2, x) <==> in_gap(m, x) || (offset <= x < offset + size)
            &&& gaps_apart(m) ==> gaps_apart(m2)
            &&& gaps_within(m, end as int) ==> e2 == max_u64(end, (offset + size) as u64)
                && gaps_within(m2, e2 as int)
        }),
{
    lemma_join_next(m, offset, size);
    let (m1, s1) = join_next(m, offset, size);
    lemma_join_prev(m1, offset, s1);
    let (o2, s2) = join_prev(m1, offset, s1);
    let (m2, e2) = add_gap_spec(m, end, offset, size);
    if gaps_within(m, end as int) {
        if s1 > size {
            let n = least_key_from(m, sat_add(offset, 1))->0;
            assert(m.contains_key(n));
        }
        assert forall|o: u64| #[trigger] m2.contains_key(o) implies o + m2[o] <= e2 by {
            if o != o2 {
                assert(m1.contains_key(o));
                assert(m.contains_key(o));
            }
        }
    }
}

/// Taking space hands out `requested` bytes that no gap keeps: bytes of one
/// gap, or bytes just past the old end of the file. The free space loses
/// exactly those bytes, and the gaps stay well laid out and within the file.
pub proof fn law_take_space_reserves(m: Map<u64, u64>, end: u64, requested: u64)
    requires
        gaps_sound(m),
        gaps_within(m, end as int),
        requested > 0,
        end + requested <= u64::MAX,
    ensures
        ({
            let (m2, e2, r) = take_space_spec(m, end, requested);
            &&& gaps_sound(m2)
            &&& gaps_within(m2, e2 as int)
            &&& region_clear(m2, r as int, requested as int)
            &&& r + requested <= e2
            &&& forall|x: int|
                in_gap(m2, x) <==> in_gap(m, x) && !(r <= x < r + requested)
            &&& (forall|x: int| r <= x < r + requested ==> in_gap(m, x)) || (r == end && e2 == end
                + requested)
            &&& e2 >= end
        }),
{
    let (m2, e2, r) = take_space_spec(m, end, requested);
    match first_fit(m, requested) {
        Some(o) => {
            assert(m.contains_key(o) && m[o] >= requested);
            if m[o] > requested {
                let t = (o + requested) as u64;
                assert(!m.contains_key(t)) by {
                    if m.contains_key(t) {
                        assert(m.contains_key(o) && t != o);
                    }
                }
            }
            assert forall|a: u64, b: u64|
                #![trigger m2.contains_key(a), m2.contains_key(b)]
                m2.contains_key(a) && m2.contains_key(b) && a != b implies a + m2[a] <= b || b
                    + m2[b] <= a by {
                if a == (o + requested) as u64 && m[o] > requested {
                    assert(m.contains_key(b) && m.contains_key(o) && b != o);
                } else if b == (o + requested) as u64 && m[o] > requested {
                    assert(m.contains_key(a) && m.contains_key(o) && a != o);
                } else {
                    assert(m.contains_key(a) && m.contains_key(b));
                }
            }
            assert forall|q: u64| #[trigger] m2.contains_key(q) implies q + m2[q] <= r || r
                + requested <= q by {
                if q != (o + requested) as u64 || m[o] <= requested {
                    assert(m.contains_key(q) && q != o);
                }
            }
            assert forall|x: int| in_gap(m2, x) <==> in_gap(m, x) && !(r <= x < r + requested) by {
                if in_gap(m, x) && !(r <= x < r + requested) {
                    let q = choose|q: u64| #[trigger] m.contains_key(q) && q <= x < q + m[q];
                    if q == o {
                        assert(m2.contains_key((o + requested) as u64));
                    } else {
                        assert(m2.contains_key(q));
                    }
                }
                if in_gap(m2, x) {
                    let q = choose|q: u64| #[trigger] m2.contains_key(q) && q <= x < q + m2[q];
                    if q == (o + requested) as u64 && m[o] > requested {
                        assert(m.contains_key(o));
                    } else {
                        assert(m.contains_key(q));
                    }
                }
            }
            assert forall|x: int| r <= x < r + requested implies in_gap(m, x) by {
                assert(m.contains_key(o));
            }
            assert forall|q: u64| #[trigger] m2.contains_key(q) implies q + m2[q] <= e2 by {
                if q == (o + requested) as u64 && m[o] > requested {
                    assert(m.contains_key(o));
                } else {
                    assert(m.contains_key(q));
                }
            }
        },
        None => {
            assert forall|q: u64| #[trigger] m2.contains_key(q) implies q + m2[q] <= r || r
                + requested <= q by {
                assert(m.contains_key(q));
            }
        },
    }
}

proof fn lemma_greatest_key_exists(m: Map<u64, u64>)
    requires
        m.dom().finite(),
        m.len() > 0,
    ensures
        exists|k: u64| is_greatest_key(m, k),
    decreases m.len(),
{
    let a = m.dom().choose();
    assert(m.contains_key(a));
    let m1 = m.remove(a);
    if m1.len() == 0 {
        assert forall|j: u64| #[trigger] m.contains_key(j) implies j <= a by {
            if j != a {
                assert(m1.contains_key(j));
            }
        }
        assert(is_greatest_key(m, a));
    } else {
        lemma_greatest_key_exists(m1);
        let k = choose|k: u64| is_greatest_key(m1, k);
        if a > k {
            assert forall|j: u64| #[trigger] m.contains_key(j) implies j <= a by {
                if j != a {
                    assert(m1.contains_key(j));
                }
            }
            assert(is_greatest_key(m, a));
        } else {
            assert forall|j: u64| #[trigger] m.contains_key(j) implies j <= k by {
                if j != a {
                    assert(m1.contains_key(j));
                }
            }
            assert(is_greatest_key(m, k));
        }
    }
}

/// Truncation cuts only free bytes off the end of the file: the bytes
/// between the new and the old end all lay in gaps, the gaps that stay are
/// unchanged, and afterwards no gap reaches the end of the file.
pub proof fn law_truncate_cuts_only_free_space(m: Map<u64, u64>, end: u64)
    requires
        m.dom().finite(),
        sizes_positive(m),
        disjoint_gaps(m),
        gaps_within(m, end as int),
    ensures
        ({
            let (m2, e2) = truncated(m, end);
            &&& e2 <= end
            &&& forall|x: int| e2 <= x < end ==> in_gap(m, x)
            &&& forall|o: u64| #[trigger] m2.contains_key(o) ==> m.contains_key(o) && m2[o] == m[o]
            &&& forall|o: u64| #[trigger] m2.contains_key(o) ==> o + m2[o] < e2
            &&& forall|x: int| in_gap(m2, x) <==> in_gap(m, x) && x < e2
        }),
    decreases m.len(),
{
    let (m2, e2) = truncated(m, end);
    match greatest_key(m) {
        Some(k) => {
            assert(m.contains_key(k));
            if sat_add(k, m[k]) >= end {
                let m1 = m.remove(k);
                assert(m1.len() < m.len());
                assert forall|o: u64| #[trigger] m1.contains_key(o) implies o + m1[o] <= k by {
                    assert(m.contains_key(o) && m.contains_key(k) && o != k);
                }
                law_truncate_cuts_only_free_space(m1, k);
                assert(truncated(m, end) == truncated(m1, k));
                assert forall|x: int| e2 <= x < end implies in_gap(m, x) by {
                    if x >= k {
                        assert(m.contains_key(k));
                    } else {
                        assert(in_gap(m1, x));
                        let q = choose|q: u64| #[trigger] m1.contains_key(q) && q <= x < q + m1[q];
                        assert(m.contains_key(q));
                    }
                }
                assert forall|x: int| in_gap(m2, x) <==> in_gap(m, x) && x < e2 by {
                    if in_gap(m, x) && x < e2 {
                        let q = choose|q: u64| #[trigger] m.contains_key(q) && q <= x < q + m[q];
                        assert(q != k);
                        assert(m1.contains_key(q));
                    }
                    if in_gap(m2, x) {
                        assert(in_gap(m1, x));
                        let q = choose|q: u64| #[trigger] m1.contains_key(q) && q <= x < q + m1[q];
                        assert(m.contains_key(q));
                    }
                }
            } else {
                assert forall|o: u64| #[trigger] m.contains_key(o) implies o + m[o] < end by {
                    if o != k {
                        assert(m.contains_key(k));
                    }
                }
            }
        },
        None => {
            if m.len() > 0 {
                lemma_greatest_key_exists(m);
            }
            assert(m.dom() =~= Set::empty());
        },
    }
}

/// Where every gap ends before the end of the file, truncation changes
/// nothing.
pub proof fn lemma_truncated_when_no_gap_reaches_end(m: Map<u64, u64>, end: u64)
    requires
        m.dom().finite(),
        forall|o: u64| #[trigger] m.contains_key(o) ==> o + m[o] < end,
    ensures
        truncated(m, end) == (m, end),
{
    match greatest_key(m) {
        Some(k) => {
            assert(m.contains_key(k));
        },
        None => {},
    }
}

/// Under gaps that lie apart, the gap of `g1` at `k` is a gap of `g2` at
/// `k`, at least as long, where both free the same bytes.
proof fn lemma_gap_found_in(g1: Map<u64, u64>, g2: Map<u64, u64>, k: u64)
    requires
        sizes_positive(g1),
        sizes_positive(g2),
        gaps_apart(g1),
        gaps_apart(g2),
        forall|x: int| in_gap(g1, x) <==> in_gap(g2, x),
        g1.contains_key(k),
    ensures
        g2.contains_key(k),
        g1[k] <= g2[k],
{
    assert(in_gap(g1, k as int));
    assert(in_gap(g2, k as int));
    let o2 = choose|o: u64| #[trigger] g2.contains_key(o) && o <= k < o + g2[o];
    if o2 < k {
        let x = k - 1;
        assert(in_gap(g2, x));
        assert(in_gap(g1, x));
        let o1 = choose|o: u64| #[trigger] g1.contains_key(o) && o <= x < o + g1[o];
        assert(g1.contains_key(o1) && g1.contains_key(k) && o1 != k);
    }
    assert(o2 == k);
    if g2[k] < g1[k] {
        let x = k + g2[k];
        assert(in_gap(g1, x));
        assert(in_gap(g2, x));
        let o = choose|o: u64| #[trigger] g2.contains_key(o) && o <= x < o + g2[o];
        assert(g2.contains_key(o) && g2.contains_key(k) && o != k);
    }
}

/// Gaps that lie apart are fixed by the bytes they free: two maps of such
/// gaps that free the same bytes are the same map.
pub proof fn law_free_bytes_fix_the_gaps(g1: Map<u64, u64>, g2: Map<u64, u64>)
    requires
        sizes_positive(g1),
        sizes_positive(g2),
        gaps_apart(g1),
        gaps_apart(g2),
        forall|x: int| in_gap(g1, x) <==> in_gap(g2, x),
    ensures
        g1 == g2,
{
    assert forall|k: u64| g1.contains_key(k) implies g2.contains_key(k) && g1[k] == g2[k] by {
        lemma_gap_found_in(g1, g2, k);
        lemma_gap_found_in(g2, g1, k);
    }
    assert forall|k: u64| g2.contains_key(k) implies g1.contains_key(k) by {
        lemma_gap_found_in(g2, g1, k);
    }
    assert(g1 =~= g2);
}

/// Taking space keeps the gaps apart, and where every gap ended before the
/// end of the file, every gap still does.
pub proof fn lemma_take_space_keeps_apart(m: Map<u64, u64>, end: u64, requested: u64)
    requires
        gaps_sound(m),
        gaps_apart(m),
        forall|o: u64| #[trigger] m.contains_key(o) ==> o + m[o] < end,
        requested > 0,
        end + requested <= u64::MAX,
    ensures
        ({
            let (m2, e2, r) = take_space_spec(m, end, requested);
            &&& gaps_apart(m2)
            &&& forall|o: u64| #[trigger] m2.contains_key(o) ==> o + m2[o] < e2
        }),
{
    let (m2, e2, r) = take_space_spec(m, end, requested);
    match first_fit(m, requested) {
        Some(o) => {
            assert(m.contains_key(o) && m[o] >= requested);
            let t = (o + requested) as u64;
            assert(m2 == carve(m, o, requested));
            assert forall|a: u64, b: u64|
                #![trigger m2.contains_key(a), m2.contains_key(b)]
                m2.contains_key(a) && m2.contains_key(b) && a != b implies a + m2[a] < b || b
                    + m2[b] < a by {
                if a == t && m[o] > requested {
                    assert(m.contains_key(b) && m.contains_key(o) && b != o);
                } else if b == t && m[o] > requested {
                    assert(m.contains_key(a) && m.contains_key(o) && a != o);
                } else {
                    assert(m.contains_key(a) && m.contains_key(b));
                }
            }
            assert forall|q: u64| #[trigger] m2.contains_key(q) implies q + m2[q] < e2 by {
                if q == t && m[o] > requested {
                    assert(m.contains_key(o));
                } else {
                    assert(m.contains_key(q));
                }
            }
        },
        None => {
            assert forall|q: u64| #[trigger] m2.contains_key(q) implies q + m2[q] < e2 by {
                assert(m.contains_key(q));
            }
        },
    }
}

/// Taking space reuses the lowest gap that holds the request, whatever its
/// size: where the gap at `o` holds at least `requested` bytes and no gap
/// below it does, the space taken starts at `o` and the file does not grow.
pub proof fn law_take_space_uses_lowest_fitting_gap(m: Map<u64, u64>, end: u64, requested: u64, o: u64)
    requires
        m.contains_key(o),
        m[o] >= requested,
        forall|j: u64| #[trigger] m.contains_key(j) && j < o ==> m[j] < requested,
    ensures
        take_space_spec(m, end, requested).2 == o,
        take_space_spec(m, end, requested).1 == end,
{
    assert(is_first_fit(m, requested, o));
    let f = choose|q: u64| is_first_fit(m, requested, q);
    assert(is_first_fit(m, requested, f));
    if f < o {
        assert(m.contains_key(f));
    } else if o < f {
        assert(m.contains_key(o));
    }
    assert(first_fit(m, requested) == Some(o));
}

/// Taking space grows the file only where no gap holds the request: then
/// the space taken starts at the old end and the file grows by the request.
pub proof fn law_take_space_grows_only_without_fit(m: Map<u64, u64>, end: u64, requested: u64)
    requires
        forall|j: u64| #[trigger] m.contains_key(j) ==> m[j] < requested,
    ensures
        take_space_spec(m, end, requested).2 == end,
        take_space_spec(m, end, requested).1 == sat_add(end, requested),
{
    if exists|q: u64| is_first_fit(m, requested, q) {
        let q = choose|q: u64| is_first_fit(m, requested, q);
        assert(m.contains_key(q));
    }
}

} // verus!
