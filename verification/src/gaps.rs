//! Free space of the database file: a set of gaps, each an offset and a
//! nonzero size, and the offset one past the last byte of the file.
use std::collections::BTreeMap;
use vstd::prelude::*;
use vstd::std_specs::cmp::OrdSpec;
use vstd::std_specs::iter::IteratorSpec;

verus! {

/// `a + b`, held at `u64::MAX` where it would pass it.
pub open spec fn sat_add(a: u64, b: u64) -> u64 {
    if a + b > u64::MAX {
        u64::MAX
    } else {
        (a + b) as u64
    }
}

/// `a - b`, held at zero where it would pass it.
pub open spec fn sat_sub(a: u64, b: u64) -> u64 {
    if a < b {
        0
    } else {
        (a - b) as u64
    }
}

/// The smaller of `a` and `b`.
pub open spec fn min_u64(a: u64, b: u64) -> u64 {
    if a <= b {
        a
    } else {
        b
    }
}

/// The larger of `a` and `b`.
pub open spec fn max_u64(a: u64, b: u64) -> u64 {
    if a >= b {
        a
    } else {
        b
    }
}

/// Every gap has a nonzero size.
pub open spec fn sizes_positive(m: Map<u64, u64>) -> bool {
    forall|k: u64| #[trigger] m.contains_key(k) ==> m[k] > 0
}

/// `k` is the smallest offset of `m` that is at least `lo`.
pub open spec fn is_least_key_from(m: Map<u64, u64>, lo: u64, k: u64) -> bool {
    &&& m.contains_key(k)
    &&& lo <= k
    &&& forall|j: u64| #[trigger] m.contains_key(j) && lo <= j ==> k <= j
}

/// The smallest offset of `m` that is at least `lo`, if there is one.
pub open spec fn least_key_from(m: Map<u64, u64>, lo: u64) -> Option<u64> {
    if exists|k: u64| is_least_key_from(m, lo, k) {
        Some(choose|k: u64| is_least_key_from(m, lo, k))
    } else {
        None
    }
}

/// `k` is the largest offset of `m`.
pub open spec fn is_greatest_key(m: Map<u64, u64>, k: u64) -> bool {
    &&& m.contains_key(k)
    &&& forall|j: u64| #[trigger] m.contains_key(j) ==> j <= k
}

/// The largest offset of `m`, if `m` is not empty.
pub open spec fn greatest_key(m: Map<u64, u64>) -> Option<u64> {
    if exists|k: u64| is_greatest_key(m, k) {
        Some(choose|k: u64| is_greatest_key(m, k))
    } else {
        None
    }
}

/// `o` is the lowest offset whose gap holds at least `requested` bytes.
pub open spec fn is_first_fit(m: Map<u64, u64>, requested: u64, o: u64) -> bool {
    &&& m.contains_key(o)
    &&& m[o] >= requested
    &&& forall|j: u64| #[trigger] m.contains_key(j) && j < o ==> m[j] < requested
}

/// The lowest offset whose gap holds at least `requested` bytes, if any does.
pub open spec fn first_fit(m: Map<u64, u64>, requested: u64) -> Option<u64> {
    if exists|o: u64| is_first_fit(m, requested, o) {
        Some(choose|o: u64| is_first_fit(m, requested, o))
    } else {
        None
    }
}

/// The gaps after `requested` bytes were taken from the gap at `o`: the gap
/// leaves the map, and what it held beyond the request stays as a gap.
pub open spec fn carve(m: Map<u64, u64>, o: u64, requested: u64) -> Map<u64, u64> {
    if m[o] > requested {
        m.remove(o).insert((o + requested) as u64, (m[o] - requested) as u64)
    } else {
        m.remove(o)
    }
}

/// The gaps and file end after a call of `take_space(requested)`, and the
/// offset it returns.
pub open spec fn take_space_spec(m: Map<u64, u64>, end: u64, requested: u64) -> (
    Map<u64, u64>,
    u64,
    u64,
) {
    match first_fit(m, requested) {
        Some(o) => (carve(m, o, requested), end, o),
        None => (m, sat_add(end, requested), end),
    }
}

/// The gap at `offset` of `size` bytes after it was joined with the gap that
/// starts just after `offset`, where they meet or overlap; that gap leaves
/// the map. Returns the map and the new size.
pub open spec fn join_next(m: Map<u64, u64>, offset: u64, size: u64) -> (Map<u64, u64>, u64) {
    match least_key_from(m, sat_add(offset, 1)) {
        Some(n) => if sat_add(offset, size) >= n {
            let distance = sat_sub(n, offset);
            let fill = if distance != 0 {
                min_u64(size, distance)
            } else {
                size
            };
            (m.remove(n), max_u64(size, sat_add(m[n], fill)))
        } else {
            (m, size)
        },
        None => (m, size),
    }
}

/// `k` is the largest offset of `m` below `hi`.
pub open spec fn is_greatest_key_below(m: Map<u64, u64>, hi: u64, k: u64) -> bool {
    &&& m.contains_key(k)
    &&& k < hi
    &&& forall|j: u64| #[trigger] m.contains_key(j) && j < hi ==> j <= k
}

/// The largest offset of `m` below `hi`, if there is one.
pub open spec fn greatest_key_below(m: Map<u64, u64>, hi: u64) -> Option<u64> {
    if exists|k: u64| is_greatest_key_below(m, hi, k) {
        Some(choose|k: u64| is_greatest_key_below(m, hi, k))
    } else {
        None
    }
}

/// The start and size of the gap at `offset` of `size` bytes after it was
/// joined with the gap just before it, where that gap reaches `offset`. The
/// joined gap covers both, so it is never smaller than either.
pub open spec fn join_prev(m: Map<u64, u64>, offset: u64, size: u64) -> (u64, u64) {
    match greatest_key_below(m, offset) {
        Some(p) => if sat_add(p, m[p]) >= offset {
            (p, max_u64(m[p], sat_add(sat_sub(offset, p), size)))
        } else {
            (offset, size)
        },
        None => (offset, size),
    }
}

/// The gaps and file end after a call of `add_gap(offset, size)`.
pub open spec fn add_gap_spec(m: Map<u64, u64>, end: u64, offset: u64, size: u64) -> (
    Map<u64, u64>,
    u64,
) {
    let (m1, size1) = join_next(m, offset, size);
    let (offset2, size2) = join_prev(m1, offset, size1);
    (m1.insert(offset2, size2), max_u64(end, sat_add(offset2, size2)))
}

/// The gaps and file end after a call of `truncate`: while the last gap
/// reaches the end of the file, it leaves the map and the file ends where
/// it started.
pub open spec fn truncated(m: Map<u64, u64>, end: u64) -> (Map<u64, u64>, u64)
    decreases m.len(),
{
    if m.dom().finite() {
        match greatest_key(m) {
            Some(k) => if sat_add(k, m[k]) >= end {
                truncated(m.remove(k), k)
            } else {
                (m, end)
            },
            None => (m, end),
        }
    } else {
        (m, end)
    }
}

/// Byte `x` lies in a gap of `m`.
pub open spec fn in_gap(m: Map<u64, u64>, x: int) -> bool {
    exists|o: u64| #[trigger] m.contains_key(o) && o <= x < o + m[o]
}

/// No two gaps of `m` share a byte.
pub open spec fn disjoint_gaps(m: Map<u64, u64>) -> bool {
    forall|a: u64, b: u64|
        #![trigger m.contains_key(a), m.contains_key(b)]
        m.contains_key(a) && m.contains_key(b) && a != b ==> a + m[a] <= b || b + m[b] <= a
}

/// No two gaps of `m` share or touch a byte: between two gaps lies at least
/// one byte that is not free, so every run of free bytes is one gap.
pub open spec fn gaps_apart(m: Map<u64, u64>) -> bool {
    forall|a: u64, b: u64|
        #![trigger m.contains_key(a), m.contains_key(b)]
        m.contains_key(a) && m.contains_key(b) && a != b ==> a + m[a] < b || b + m[b] < a
}

/// Every gap of `m` ends at or before `end`.
pub open spec fn gaps_within(m: Map<u64, u64>, end: int) -> bool {
    forall|o: u64| #[trigger] m.contains_key(o) ==> o + m[o] <= end
}

/// No gap of `m` shares a byte with the `size` bytes at `offset`.
pub open spec fn region_clear(m: Map<u64, u64>, offset: int, size: int) -> bool {
    forall|o: u64| #[trigger] m.contains_key(o) ==> o + m[o] <= offset || offset + size <= o
}

/// The gaps of `m` are well laid out: no zero size, no shared byte, no end
/// past `u64::MAX`.
pub open spec fn gaps_sound(m: Map<u64, u64>) -> bool {
    &&& sizes_positive(m)
    &&& disjoint_gaps(m)
    &&& gaps_within(m, u64::MAX as int)
}

/// Adding a gap of nonzero size leaves no gap of size zero.
pub proof fn lemma_add_gap_sizes_positive(m: Map<u64, u64>, end: u64, offset: u64, size: u64)
    requires
        sizes_positive(m),
        size > 0,
    ensures
        sizes_positive(add_gap_spec(m, end, offset, size).0),
{
    let (m1, s1) = join_next(m, offset, size);
    let (o2, s2) = join_prev(m1, offset, s1);
    assert(sizes_positive(m1));
    assert(s1 >= size);
    assert(s2 >= s1);
}

/// Taking space leaves no gap of size zero.
pub proof fn lemma_take_space_sizes_positive(m: Map<u64, u64>, end: u64, requested: u64)
    requires
        sizes_positive(m),
    ensures
        sizes_positive(take_space_spec(m, end, requested).0),
{
}

/// Truncation only drops gaps: each gap it keeps is unchanged.
pub proof fn lemma_truncated_keeps_gaps(m: Map<u64, u64>, end: u64)
    ensures
        forall|k: u64| #[trigger]
            truncated(m, end).0.contains_key(k) ==> m.contains_key(k) && truncated(m, end).0[k]
                == m[k],
    decreases m.len(),
{
    if m.dom().finite() {
        match greatest_key(m) {
            Some(k) => {
                if sat_add(k, m[k]) >= end {
                    assert(m.contains_key(k));
                    assert(m.remove(k).len() < m.len());
                    assert(truncated(m, end) == truncated(m.remove(k), k));
                    lemma_truncated_keeps_gaps(m.remove(k), k);
                }
            },
            None => {},
        }
    }
}

/// Whether `s` lists the entries of `m` by strictly increasing offset.
pub open spec fn lists_in_order(s: Seq<(u64, u64)>, m: Map<u64, u64>) -> bool {
    &&& forall|i: int, j: int| 0 <= i < j < s.len() ==> s[i].0 < s[j].0
    &&& forall|i: int|
        0 <= i < s.len() ==> #[trigger] m.contains_key(s[i].0) && m[s[i].0] == s[i].1
    &&& forall|k: u64| #[trigger]
        m.contains_key(k) ==> exists|i: int| 0 <= i < s.len() && s[i].0 == k
}

fn entries_in_order(m: &BTreeMap<u64, u64>) -> (v: Vec<(u64, u64)>)
    ensures
        lists_in_order(v@, m@),
{
    let iter = m.iter();
    let ghost all = iter.remaining();
    let mut v: Vec<(u64, u64)> = Vec::new();
    for kv in it: iter
        invariant
            it.seq() == all,
            v@.len() == it.index(),
            forall|i: int| 0 <= i < v@.len() ==> v@[i] == (*all[i].0, *all[i].1),
    {
        v.push((*kv.0, *kv.1));
    }
    assert(v@.len() == all.len());
    proof {
        let ghost keys = all.map_values(|kv: (&u64, &u64)| *kv.0);
        assert(vstd::laws_cmp::obeys_cmp::<u64>());
        assert(vstd::std_specs::btree::increasing_seq(keys));
        assert forall|i: int, j: int| 0 <= i < j < v@.len() implies v@[i].0 < v@[j].0 by {
            assert(keys[i] == v@[i].0);
            assert(keys[j] == v@[j].0);
            assert(keys[i].cmp_spec(&keys[j]) is Less);
        }
        assert forall|k: u64| #[trigger] m@.contains_key(k) implies exists|i: int|
            0 <= i < v@.len() && v@[i].0 == k by {
            assert(all.contains((&k, &m@[k])));
            let i = choose|i: int| 0 <= i < all.len() && all[i] == (&k, &m@[k]);
            assert(v@[i].0 == k);
        }
    }
    v
}

/// The first listed entry whose offset is at least `lo`.
fn first_from(v: &Vec<(u64, u64)>, lo: u64, Ghost(m): Ghost<Map<u64, u64>>) -> (r: Option<
    (u64, u64),
>)
    requires
        lists_in_order(v@, m),
    ensures
        r == (match least_key_from(m, lo) {
            Some(k) => Some((k, m[k])),
            None => None,
        }),
{
    let mut i: usize = 0;
    while i < v.len()
        invariant
            i <= v@.len(),
            lists_in_order(v@, m),
            forall|j: int| 0 <= j < i ==> v@[j].0 < lo,
        decreases v@.len() - i,
    {
        if v[i].0 >= lo {
            let e = v[i];
            proof {
                assert forall|j: u64| #[trigger] m.contains_key(j) && lo <= j implies e.0 <= j by {
                    let x = choose|x: int| 0 <= x < v@.len() && v@[x].0 == j;
                    if x < i {
                    } else if x > i {
                    }
                }
                assert(is_least_key_from(m, lo, e.0));
            }
            return Some(e);
        }
        i = i + 1;
    }
    proof {
        assert forall|k: u64| !is_least_key_from(m, lo, k) by {
            if m.contains_key(k) && lo <= k {
                let x = choose|x: int| 0 <= x < v@.len() && v@[x].0 == k;
            }
        }
    }
    None
}

/// The last listed entry whose offset is below `hi`.
fn last_below(v: &Vec<(u64, u64)>, hi: u64, Ghost(m): Ghost<Map<u64, u64>>) -> (r: Option<
    (u64, u64),
>)
    requires
        lists_in_order(v@, m),
    ensures
        r == (match greatest_key_below(m, hi) {
            Some(k) => Some((k, m[k])),
            None => None,
        }),
{
    let mut i: usize = 0;
    while i < v.len() && v[i].0 < hi
        invariant
            i <= v@.len(),
            lists_in_order(v@, m),
            forall|j: int| 0 <= j < i ==> v@[j].0 < hi,
        decreases v@.len() - i,
    {
        i = i + 1;
    }
    proof {
        assert forall|j: int| i <= j < v@.len() implies v@[j].0 >= hi by {
            if j > i {
                assert(v@[i as int].0 < v@[j].0);
            }
        }
    }
    if i == 0 {
        proof {
            assert forall|k: u64| !is_greatest_key_below(m, hi, k) by {
                if m.contains_key(k) && k < hi {
                    let x = choose|x: int| 0 <= x < v@.len() && v@[x].0 == k;
                }
            }
        }
        None
    } else {
        let e = v[i - 1];
        proof {
            assert forall|j: u64| #[trigger] m.contains_key(j) && j < hi implies j <= e.0 by {
                let x = choose|x: int| 0 <= x < v@.len() && v@[x].0 == j;
                if x > i - 1 {
                    assert(x < i);
                }
                if x < i - 1 {
                    assert(v@[x].0 < v@[i - 1].0);
                }
            }
            assert(is_greatest_key_below(m, hi, e.0));
        }
        Some(e)
    }
}

/// Free space of the database file.
#[derive(Debug, PartialEq)]
pub struct Gaps {
    /// The gaps, each a size keyed by its offset. No size is zero.
    pub map: BTreeMap<u64, u64>,
    /// One past the last byte of the file.
    pub file_end: u64,
}

impl Default for Gaps {
    fn default() -> (g: Self)
        ensures
            g.map@ == Map::<u64, u64>::empty(),
            g.file_end == 0,
    {
        Gaps { map: BTreeMap::new(), file_end: 0 }
    }
}

impl Gaps {
    /// The gaps hold no zero size.
    pub open spec fn wf(&self) -> bool {
        sizes_positive(self.map@)
    }

    /// The lowest gap that holds at least `requested` bytes.
    fn find_gap(&self, requested: u64) -> (r: Option<(u64, u64)>)
        ensures
            r == (match first_fit(self.map@, requested) {
                Some(o) => Some((o, self.map@[o])),
                None => None,
            }),
    {
        let v = entries_in_order(&self.map);
        let mut i: usize = 0;
        while i < v.len()
            invariant
                i <= v@.len(),
                lists_in_order(v@, self.map@),
                forall|j: int| 0 <= j < i ==> v@[j].1 < requested,
            decreases v@.len() - i,
        {
            if v[i].1 >= requested {
                let e = v[i];
                proof {
                    assert forall|j: u64| #[trigger]
                        self.map@.contains_key(j) && j < e.0 implies self.map@[j] < requested by {
                        let x = choose|x: int| 0 <= x < v@.len() && v@[x].0 == j;
                        if x > i {
                            assert(v@[i as int].0 < v@[x].0);
                        }
                        assert(x != i);
                        assert(x < i);
                        assert(v@[x].1 < requested);
                        assert(self.map@[v@[x].0] == v@[x].1);
                    }
                    assert(is_first_fit(self.map@, requested, e.0));
                }
                return Some(e);
            }
            i = i + 1;
        }
        proof {
            assert forall|o: u64| !is_first_fit(self.map@, requested, o) by {
                if self.map@.contains_key(o) {
                    let x = choose|x: int| 0 <= x < v@.len() && v@[x].0 == o;
                }
            }
        }
        None
    }

    /// Whether `take_space(requested)` stays within `u64`: the gap it would
    /// split does not pass `u64::MAX` at the split.
    pub fn can_take(&self, requested: u64) -> (b: bool)
        ensures
            b <==> forall|o: u64|
                is_first_fit(self.map@, requested, o) && self.map@[o] > requested ==> o + requested
                    <= u64::MAX,
    {
        match self.find_gap(requested) {
            Some((offset, size)) => size <= requested || offset <= u64::MAX - requested,
            None => true,
        }
    }

    /// Takes `requested` bytes from the lowest gap that holds them, else
    /// from the end of the file, and returns their offset.
    pub fn take_space(&mut self, requested: u64) -> (offset: u64)
        requires
            requested > 0,
            forall|o: u64|
                is_first_fit(old(self).map@, requested, o) && old(self).map@[o] > requested
                    ==> o + requested <= u64::MAX,
        ensures
            (final(self).map@, final(self).file_end, offset) == take_space_spec(
                old(self).map@,
                old(self).file_end,
                requested,
            ),
    {
        if let Some((offset, size)) = self.find_gap(requested) {
            self.map.remove(&offset);
            let remaining = size.saturating_sub(requested);
            if remaining != 0 {
                self.map.insert(offset + requested, remaining);
            }
            proof {
                assert(self.map@ =~= carve(old(self).map@, offset, requested));
            }
            offset
        } else {
            let offset = self.file_end;
            self.file_end = offset.saturating_add(requested);
            offset
        }
    }

    /// Marks `size` bytes at `offset` as free, joining them with the gap
    /// that follows and with the gap before, where those meet them.
    pub fn add_gap(&mut self, offset: u64, size: u64)
        requires
            size > 0,
        ensures
            (final(self).map@, final(self).file_end) == add_gap_spec(
                old(self).map@,
                old(self).file_end,
                offset,
                size,
            ),
            gaps_sound(old(self).map@) && region_clear(old(self).map@, offset as int, size as int)
                && offset + size <= u64::MAX ==> {
                &&& gaps_sound(final(self).map@)
                &&& forall|x: int|
                    in_gap(final(self).map@, x) <==> in_gap(old(self).map@, x) || (offset <= x < offset
                        + size)
                &&& gaps_apart(old(self).map@) ==> gaps_apart(final(self).map@)
                &&& gaps_within(old(self).map@, old(self).file_end as int) ==> final(self).file_end
                    == max_u64(old(self).file_end, (offset + size) as u64)
            },
    {
        proof {
            assert(self.map@.dom().finite());
            if gaps_sound(self.map@) && region_clear(self.map@, offset as int, size as int) && offset
                + size <= u64::MAX {
                crate::gap_laws::law_add_gap_frees_region(self.map@, self.file_end, offset, size);
            }
        }
        let ghost m = self.map@;
        let ghost o0 = offset;
        let ghost s0 = size;
        let v = entries_in_order(&self.map);
        let mut offset = offset;
        let mut size = size;
        let next = first_from(&v, offset.saturating_add(1), Ghost(m));
        if let Some((next_offset, next_size)) = next {
            if offset.saturating_add(size) >= next_offset {
                let distance = next_offset.saturating_sub(offset);
                let fill = if distance != 0 {
                    if size <= distance {
                        size
                    } else {
                        distance
                    }
                } else {
                    size
                };
                let joined = next_size.saturating_add(fill);
                if joined > size {
                    size = joined;
                }
                self.map.remove(&next_offset);
            }
        }
        assert((self.map@, size) == join_next(m, o0, s0));
        let ghost m1 = self.map@;
        let ghost s1 = size;
        assert forall|k: u64| k < o0 implies m1.contains_key(k) == m.contains_key(k) && m1[k]
            == m[k] by {
            if let Some(n) = least_key_from(m, sat_add(o0, 1)) {
                assert(n >= o0);
            }
        }
        let prev = last_below(&v, offset, Ghost(m));
        proof {
            match greatest_key_below(m, o0) {
                Some(p) => {
                    assert(m1.contains_key(p) && m1[p] == m[p]);
                    assert forall|j: u64| #[trigger] m1.contains_key(j) && j < o0 implies j <= p by {
                        assert(m.contains_key(j));
                    }
                    assert(is_greatest_key_below(m1, o0, p));
                },
                None => {
                    assert forall|k: u64| !is_greatest_key_below(m1, o0, k) by {
                        if is_greatest_key_below(m1, o0, k) {
                            assert(m.contains_key(k));
                            assert forall|j: u64| #[trigger] m.contains_key(j) && j < o0 implies j <= k by {
                                assert(m1.contains_key(j));
                            }
                            assert(is_greatest_key_below(m, o0, k));
                        }
                    }
                },
            }
            assert(greatest_key_below(m1, o0) == greatest_key_below(m, o0));
        }
        if let Some((prev_offset, prev_size)) = prev {
            if prev_offset.saturating_add(prev_size) >= offset {
                let joined = (offset - prev_offset).saturating_add(size);
                size = if prev_size >= joined {
                    prev_size
                } else {
                    joined
                };
                offset = prev_offset;
            }
        }
        assert((offset, size) == join_prev(m1, o0, s1));
        self.map.insert(offset, size);
        let end = offset.saturating_add(size);
        if end > self.file_end {
            self.file_end = end;
        }
    }

    /// Removes the gaps at the end of the file, last first, while the last
    /// gap reaches the end, and returns the new end of the file.
    pub fn truncate(&mut self) -> (end: u64)
        ensures
            (final(self).map@, final(self).file_end) == truncated(
                old(self).map@,
                old(self).file_end,
            ),
            end == final(self).file_end,
    {
        let v = entries_in_order(&self.map);
        let mut i: usize = v.len();
        let mut done = false;
        assert(v@.take(i as int) =~= v@);
        while i > 0 && !done
            invariant
                i <= v@.len(),
                lists_in_order(v@.take(i as int), self.map@),
                done ==> truncated(self.map@, self.file_end) == (self.map@, self.file_end),
                truncated(self.map@, self.file_end) == truncated(
                    old(self).map@,
                    old(self).file_end,
                ),
            decreases i, (if done { 0int } else { 1int }),
        {
            let (offset, size) = v[i - 1];
            let ghost cur = self.map@;
            proof {
                assert(v@.take(i as int)[i - 1] == v@[i - 1]);
                assert forall|j: u64| #[trigger] cur.contains_key(j) implies j <= offset by {
                    let x = choose|x: int| 0 <= x < i && v@.take(i as int)[x].0 == j;
                    if x < i - 1 {
                        assert(v@.take(i as int)[x] == v@[x]);
                    }
                }
                assert(is_greatest_key(cur, offset));
                assert(cur.dom().finite());
            }
            let ghost before = v@.take(i as int);
            if offset.saturating_add(size) >= self.file_end {
                self.map.remove(&offset);
                self.file_end = offset;
                i = i - 1;
                proof {
                    assert forall|k: u64| #[trigger] self.map@.contains_key(k) implies exists|x: int|
                        0 <= x < i && v@.take(i as int)[x].0 == k by {
                        let x = choose|x: int| 0 <= x < before.len() && before[x].0 == k;
                        assert(before[x] == v@[x]);
                        assert(v@.take(i as int)[x] == v@[x]);
                    }
                    assert(lists_in_order(v@.take(i as int), self.map@));
                }
            } else {
                done = true;
            }
        }
        proof {
            if !done {
                assert(self.map@.dom() =~= Set::empty()) by {
                    assert forall|k: u64| !self.map@.contains_key(k) by {
                        if self.map@.contains_key(k) {
                            let x = choose|x: int| 0 <= x < i && v@.take(i as int)[x].0 == k;
                        }
                    }
                }
                assert(greatest_key(self.map@) is None);
            }
        }
        self.file_end
    }
}

} // verus!
