//! A map from string keys to values that keeps its entries ordered by key.
use crate::keys::{
    compare_keys, has_prefix, key_bytes, key_le, key_lt, lemma_key_order, lemma_prefix_at_or_above,
    lemma_prefix_between, KeyOrder,
};
use vstd::prelude::*;

verus! {

/// The keys of `s` strictly increase.
pub open spec fn ascending<V>(s: Seq<(Seq<char>, V)>) -> bool {
    forall|i: int, j: int| 0 <= i < j < s.len() ==> key_lt(#[trigger] s[i].0, #[trigger] s[j].0)
}

/// The value that `s` holds for `k`.
pub open spec fn lookup<V>(s: Seq<(Seq<char>, V)>, k: Seq<char>) -> Option<V> {
    if exists|i: int| 0 <= i < s.len() && #[trigger] s[i].0 == k {
        Some(s[choose|i: int| 0 <= i < s.len() && #[trigger] s[i].0 == k].1)
    } else {
        None
    }
}

/// One end of a range of keys.
#[derive(Debug, Clone, Copy)]
pub enum KeyBound<'a> {
    Included(&'a str),
    Excluded(&'a str),
    Unbounded,
}

/// `k` lies at or above the lower end `lo`.
pub open spec fn above<'a>(k: Seq<char>, lo: KeyBound<'a>) -> bool {
    match lo {
        KeyBound::Included(s) => key_le(s@, k),
        KeyBound::Excluded(s) => key_lt(s@, k),
        KeyBound::Unbounded => true,
    }
}

/// `k` lies at or below the upper end `hi`.
pub open spec fn below<'a>(k: Seq<char>, hi: KeyBound<'a>) -> bool {
    match hi {
        KeyBound::Included(s) => key_le(k, s@),
        KeyBound::Excluded(s) => key_lt(k, s@),
        KeyBound::Unbounded => true,
    }
}

/// The ends of a range are in order: the start is not past the end, and
/// they are not one key excluded at both ends.
pub open spec fn range_ordered<'a>(lo: KeyBound<'a>, hi: KeyBound<'a>) -> bool {
    match (lo, hi) {
        (KeyBound::Included(a), KeyBound::Included(b)) => key_le(a@, b@),
        (KeyBound::Included(a), KeyBound::Excluded(b)) => key_le(a@, b@),
        (KeyBound::Excluded(a), KeyBound::Included(b)) => key_le(a@, b@),
        (KeyBound::Excluded(a), KeyBound::Excluded(b)) => key_lt(a@, b@),
        _ => true,
    }
}

/// Whether the ends of a range are in order (`range_ordered`).
pub fn range_is_ordered(lo: KeyBound, hi: KeyBound) -> (b: bool)
    ensures
        b == range_ordered(lo, hi),
{
    let (a, b, both_excluded) = match (lo, hi) {
        (KeyBound::Included(a), KeyBound::Included(b)) => (a, b, false),
        (KeyBound::Included(a), KeyBound::Excluded(b)) => (a, b, false),
        (KeyBound::Excluded(a), KeyBound::Included(b)) => (a, b, false),
        (KeyBound::Excluded(a), KeyBound::Excluded(b)) => (a, b, true),
        _ => {
            return true;
        },
    };
    let ord = compare_keys(a, b);
    if both_excluded {
        ord == KeyOrder::Less
    } else {
        ord != KeyOrder::Greater
    }
}

/// A range that holds some key is in order: whatever its ends, where a
/// key lies at or above the start and at or below the end, listing the
/// range is accepted.
pub proof fn law_range_with_a_key_is_ordered<'a>(lo: KeyBound<'a>, hi: KeyBound<'a>, k: Seq<char>)
    requires
        above(k, lo),
        below(k, hi),
    ensures
        range_ordered(lo, hi),
{
    match (lo, hi) {
        (KeyBound::Included(a), KeyBound::Included(b)) => {
            lemma_key_order(a@, k, b@);
        },
        (KeyBound::Included(a), KeyBound::Excluded(b)) => {
            lemma_key_order(a@, k, b@);
        },
        (KeyBound::Excluded(a), KeyBound::Included(b)) => {
            lemma_key_order(a@, k, b@);
        },
        (KeyBound::Excluded(a), KeyBound::Excluded(b)) => {
            lemma_key_order(a@, k, b@);
        },
        _ => {},
    }
}

/// A range with an unbounded end is always in order, whatever its other
/// end.
pub proof fn law_unbounded_range_is_ordered<'a>(lo: KeyBound<'a>, hi: KeyBound<'a>)
    ensures
        range_ordered(lo, KeyBound::Unbounded),
        range_ordered(KeyBound::Unbounded, hi),
{
}

/// The ends of a range are out of order exactly where its start lies past
/// its end in key order, or where one key is excluded at both ends: so
/// every range `a..b`, `a..=b`, with `a` at or below `b`, is accepted.
pub proof fn law_range_out_of_order<'a>(a: &'a str, b: &'a str)
    ensures
        !range_ordered(KeyBound::Included(a), KeyBound::Included(b)) <==> key_lt(b@, a@),
        !range_ordered(KeyBound::Included(a), KeyBound::Excluded(b)) <==> key_lt(b@, a@),
        !range_ordered(KeyBound::Excluded(a), KeyBound::Included(b)) <==> key_lt(b@, a@),
        !range_ordered(KeyBound::Excluded(a), KeyBound::Excluded(b)) <==> key_lt(b@, a@) || a@ == b@,
{
    lemma_key_order(a@, b@, a@);
    lemma_key_order(b@, a@, b@);
}

/// `x` lies past `k`, or at it where `strict` is false.
pub open spec fn passes(x: Seq<char>, k: Seq<char>, strict: bool) -> bool {
    if strict {
        key_lt(k, x)
    } else {
        key_le(k, x)
    }
}

/// The key bytes of `k` begin with those of `p`.
pub open spec fn starts_with(k: Seq<char>, p: Seq<char>) -> bool {
    key_bytes(p).is_prefix_of(key_bytes(k))
}

/// `r` is the run of entries `a..b` of `s`, and those are exactly the
/// entries whose keys satisfy `keep`.
pub open spec fn is_run<V>(r: Seq<(Seq<char>, V)>, s: Seq<(Seq<char>, V)>, keep: spec_fn(Seq<char>) -> bool) -> bool {
    exists|a: int, b: int|
        {
            &&& 0 <= a <= b <= s.len()
            &&& r == s.subrange(a, b)
            &&& forall|j: int| 0 <= j < s.len() ==> (a <= j < b <==> keep(#[trigger] s[j].0))
        }
}

/// The keys and values of a list of entries.
pub open spec fn entries_view<V>(v: Seq<(String, V)>) -> Seq<(Seq<char>, V)> {
    v.map_values(|e: (String, V)| (e.0@, e.1))
}

proof fn lemma_passes_monotone<V>(s: Seq<(Seq<char>, V)>, k: Seq<char>, strict: bool, i: int, j: int)
    requires
        ascending(s),
        0 <= i < j < s.len(),
        passes(s[i].0, k, strict),
    ensures
        passes(s[j].0, k, strict),
{
    lemma_key_order(k, s[i].0, s[j].0);
}

/// In an ascending list, the entry at `i` is the one `lookup` finds for
/// its key.
pub proof fn lemma_lookup_at<V>(s: Seq<(Seq<char>, V)>, i: int)
    requires
        ascending(s),
        0 <= i < s.len(),
    ensures
        lookup(s, s[i].0) == Some(s[i].1),
{
    let j = choose|j: int| 0 <= j < s.len() && #[trigger] s[j].0 == s[i].0;
    if j < i {
        lemma_key_order(s[j].0, s[i].0, s[i].0);
    } else if i < j {
        lemma_key_order(s[i].0, s[j].0, s[j].0);
    }
}

proof fn lemma_update_keeps_order<V>(s: Seq<(Seq<char>, V)>, t: Seq<(Seq<char>, V)>, i: int, k: Seq<char>, v: V)
    requires
        ascending(s),
        0 <= i < s.len(),
        s[i].0 == k,
        t == s.update(i, (k, v)),
    ensures
        ascending(t),
        forall|x: Seq<char>|
            #[trigger] lookup(t, x) == if x == k {
                Some(v)
            } else {
                lookup(s, x)
            },
{
    assert forall|x: Seq<char>| #[trigger] lookup(t, x) == if x == k {
        Some(v)
    } else {
        lookup(s, x)
    } by {
        if exists|j: int| 0 <= j < t.len() && #[trigger] t[j].0 == x {
            let j = choose|j: int| 0 <= j < t.len() && #[trigger] t[j].0 == x;
            lemma_lookup_at(t, j);
            if j != i {
                lemma_lookup_at(s, j);
            }
        } else {
            if x == k {
                assert(t[i].0 == x);
            }
            assert forall|j: int| 0 <= j < s.len() implies #[trigger] s[j].0 != x by {
                assert(t[j].0 != x);
            }
        }
    }
}

proof fn lemma_insert_keeps_order<V>(s: Seq<(Seq<char>, V)>, t: Seq<(Seq<char>, V)>, i: int, k: Seq<char>, v: V)
    requires
        ascending(s),
        0 <= i <= s.len(),
        forall|j: int| 0 <= j < i ==> key_lt(#[trigger] s[j].0, k),
        forall|j: int| i <= j < s.len() ==> key_le(k, #[trigger] s[j].0),
        lookup(s, k) is None,
        t == s.insert(i, (k, v)),
    ensures
        ascending(t),
        forall|x: Seq<char>|
            #[trigger] lookup(t, x) == if x == k {
                Some(v)
            } else {
                lookup(s, x)
            },
{
    assert forall|j: int| i <= j < s.len() implies key_lt(k, #[trigger] s[j].0) by {
        if s[j].0 == k {
            assert(lookup(s, k) is Some);
        }
    }
    assert forall|a: int, b: int| 0 <= a < b < t.len() implies key_lt(
        #[trigger] t[a].0,
        #[trigger] t[b].0,
    ) by {
        if b < i {
        } else if b == i {
        } else if a < i {
            lemma_key_order(t[a].0, k, t[b].0);
        } else if a == i {
        } else {
            assert(t[a] == s[a - 1] && t[b] == s[b - 1]);
        }
    }
    assert forall|x: Seq<char>| #[trigger] lookup(t, x) == if x == k {
        Some(v)
    } else {
        lookup(s, x)
    } by {
        if exists|j: int| 0 <= j < t.len() && #[trigger] t[j].0 == x {
            let j = choose|j: int| 0 <= j < t.len() && #[trigger] t[j].0 == x;
            lemma_lookup_at(t, j);
            if j < i {
                lemma_lookup_at(s, j);
            } else if j > i {
                lemma_lookup_at(s, j - 1);
            }
        } else {
            if x == k {
                assert(t[i].0 == x);
            }
            assert forall|j: int| 0 <= j < s.len() implies #[trigger] s[j].0 != x by {
                if j < i {
                    assert(t[j].0 != x);
                } else {
                    assert(t[j + 1].0 != x);
                }
            }
        }
    }
}

proof fn lemma_remove_keeps_order<V>(s: Seq<(Seq<char>, V)>, t: Seq<(Seq<char>, V)>, i: int)
    requires
        ascending(s),
        0 <= i < s.len(),
        t == s.remove(i),
    ensures
        ascending(t),
        forall|x: Seq<char>|
            #[trigger] lookup(t, x) == if x == s[i].0 {
                None
            } else {
                lookup(s, x)
            },
{
    assert forall|a: int, b: int| 0 <= a < b < t.len() implies key_lt(
        #[trigger] t[a].0,
        #[trigger] t[b].0,
    ) by {
        if a < i && b >= i {
            assert(t[b] == s[b + 1]);
        } else if a >= i {
            assert(t[a] == s[a + 1] && t[b] == s[b + 1]);
        }
    }
    assert forall|x: Seq<char>| #[trigger] lookup(t, x) == if x == s[i].0 {
        None
    } else {
        lookup(s, x)
    } by {
        if exists|j: int| 0 <= j < t.len() && #[trigger] t[j].0 == x {
            let j = choose|j: int| 0 <= j < t.len() && #[trigger] t[j].0 == x;
            lemma_lookup_at(t, j);
            if j < i {
                lemma_lookup_at(s, j);
                lemma_key_order(s[j].0, s[i].0, s[i].0);
            } else {
                lemma_lookup_at(s, j + 1);
                lemma_key_order(s[i].0, s[j + 1].0, s[j + 1].0);
            }
        } else if x != s[i].0 {
            assert forall|j: int| 0 <= j < s.len() implies #[trigger] s[j].0 != x by {
                if j < i {
                    assert(t[j].0 != x);
                } else if j > i {
                    assert(t[j - 1].0 != x);
                }
            }
        }
    }
}

/// Entries ordered by key.
#[derive(Debug, PartialEq)]
pub struct KeyMap<V> {
    entries: Vec<(String, V)>,
}

impl<V> View for KeyMap<V> {
    type V = Seq<(Seq<char>, V)>;

    closed spec fn view(&self) -> Seq<(Seq<char>, V)> {
        entries_view(self.entries@)
    }
}

impl<V> KeyMap<V> {
    /// The keys strictly increase.
    #[verifier::type_invariant]
    spec fn keys_ascend(self) -> bool {
        ascending(entries_view(self.entries@))
    }

    /// An empty map.
    pub fn new() -> (m: Self)
        ensures
            m@ == Seq::<(Seq<char>, V)>::empty(),
    {
        let m = KeyMap { entries: Vec::new() };
        assert(m@ =~= Seq::<(Seq<char>, V)>::empty());
        m
    }

    /// The number of entries.
    pub fn len(&self) -> (n: usize)
        ensures
            n == self@.len(),
    {
        self.entries.len()
    }

    /// The first position whose key lies past `key` (or at it, where
    /// `strict` is false).
    fn search(&self, key: &str, strict: bool) -> (i: usize)
        ensures
            i <= self@.len(),
            forall|j: int| 0 <= j < i ==> !passes(#[trigger] self@[j].0, key@, strict),
            forall|j: int| i <= j < self@.len() ==> passes(#[trigger] self@[j].0, key@, strict),
    {
        proof {
            use_type_invariant(self);
        }
        let mut lo: usize = 0;
        let mut hi: usize = self.entries.len();
        while lo < hi
            invariant
                ascending(self@),
                lo <= hi <= self@.len(),
                self@.len() == self.entries@.len(),
                forall|j: int| 0 <= j < lo ==> !passes(#[trigger] self@[j].0, key@, strict),
                forall|j: int| hi <= j < self@.len() ==> passes(#[trigger] self@[j].0, key@, strict),
            decreases hi - lo,
        {
            let mid = lo + (hi - lo) / 2;
            let ord = compare_keys(self.entries[mid].0.as_str(), key);
            let ghost x = self@[mid as int].0;
            assert(x == self.entries@[mid as int].0@);
            let pass = if strict {
                ord == KeyOrder::Greater
            } else {
                ord != KeyOrder::Less
            };
            proof {
                lemma_key_order(x, key@, x);
                lemma_key_order(key@, x, key@);
                assert(pass == passes(x, key@, strict));
            }
            if pass {
                proof {
                    assert forall|j: int| mid <= j < self@.len() implies passes(
                        #[trigger] self@[j].0,
                        key@,
                        strict,
                    ) by {
                        if mid < j {
                            lemma_passes_monotone(self@, key@, strict, mid as int, j);
                        }
                    }
                }
                hi = mid;
            } else {
                proof {
                    assert forall|j: int| 0 <= j < mid + 1 implies !passes(
                        #[trigger] self@[j].0,
                        key@,
                        strict,
                    ) by {
                        if j < mid && passes(self@[j].0, key@, strict) {
                            lemma_passes_monotone(self@, key@, strict, j, mid as int);
                        }
                    }
                }
                lo = mid + 1;
            }
        }
        lo
    }

    /// The position of `key`, if the map holds it.
    fn find(&self, key: &str) -> (r: (usize, bool))
        ensures
            r.0 <= self@.len(),
            forall|j: int| 0 <= j < r.0 ==> key_lt(#[trigger] self@[j].0, key@),
            forall|j: int| r.0 <= j < self@.len() ==> key_le(key@, #[trigger] self@[j].0),
            r.1 <==> r.0 < self@.len() && self@[r.0 as int].0 == key@,
            r.1 <==> lookup(self@, key@) is Some,
    {
        proof {
            use_type_invariant(self);
        }
        let i = self.search(key, false);
        let found = i < self.entries.len() && compare_keys(self.entries[i].0.as_str(), key)
            == KeyOrder::Equal;
        proof {
            assert forall|j: int| 0 <= j < i implies key_lt(#[trigger] self@[j].0, key@) by {
                assert(!passes(self@[j].0, key@, false));
                lemma_key_order(self@[j].0, key@, key@);
            }
            if found {
                assert(self@[i as int].0 == self.entries@[i as int].0@);
                assert(0 <= i < self@.len() && self@[i as int].0 == key@);
            } else if exists|j: int| 0 <= j < self@.len() && #[trigger] self@[j].0 == key@ {
                let j = choose|j: int| 0 <= j < self@.len() && #[trigger] self@[j].0 == key@;
                lemma_key_order(key@, key@, key@);
                if j < i {
                } else if j > i {
                    assert(passes(self@[i as int].0, key@, false));
                    lemma_key_order(self@[i as int].0, self@[j].0, key@);
                } else {
                    assert(self@[i as int].0 == self.entries@[i as int].0@);
                }
            }
        }
        (i, found)
    }

    /// The value held for `key`.
    pub fn get(&self, key: &str) -> (r: Option<&V>)
        ensures
            match r {
                Some(v) => lookup(self@, key@) == Some(*v),
                None => lookup(self@, key@) is None,
            },
    {
        proof {
            use_type_invariant(self);
        }
        let (i, found) = self.find(key);
        if found {
            proof {
                lemma_lookup_at(self@, i as int);
            }
            Some(&self.entries[i].1)
        } else {
            None
        }
    }

    /// Sets the value of `key`, and returns the value it held before.
    pub fn insert(&mut self, key: String, value: V) -> (r: Option<V>)
        ensures
            ascending(final(self)@),
            r == lookup(old(self)@, key@),
            final(self)@.len() == old(self)@.len() + if r is Some {
                0int
            } else {
                1int
            },
            forall|k: Seq<char>|
                #[trigger] lookup(final(self)@, k) == if k == key@ {
                    Some(value)
                } else {
                    lookup(old(self)@, k)
                },
    {
        proof {
            use_type_invariant(&*self);
        }
        let ghost s = self@;
        let ghost kv = key@;
        let (i, found) = self.find(key.as_str());
        let mut entries: Vec<(String, V)> = Vec::new();
        std::mem::swap(&mut entries, &mut self.entries);
        assert(entries_view(entries@) == s);
        if found {
            proof {
                lemma_lookup_at(s, i as int);
            }
            let (_, previous) = entries.remove(i);
            entries.insert(i, (key, value));
            proof {
                assert(entries_view(entries@) =~= s.update(i as int, (kv, value)));
                lemma_update_keeps_order(s, entries_view(entries@), i as int, kv, value);
            }
            self.entries = entries;
            Some(previous)
        } else {
            entries.insert(i, (key, value));
            proof {
                assert(entries_view(entries@) =~= s.insert(i as int, (kv, value)));
                lemma_insert_keeps_order(s, entries_view(entries@), i as int, kv, value);
            }
            self.entries = entries;
            None
        }
    }

    /// Removes `key`, and returns the value it held.
    pub fn remove(&mut self, key: &str) -> (r: Option<V>)
        ensures
            ascending(final(self)@),
            r == lookup(old(self)@, key@),
            forall|k: Seq<char>|
                #[trigger] lookup(final(self)@, k) == if k == key@ {
                    None
                } else {
                    lookup(old(self)@, k)
                },
    {
        proof {
            use_type_invariant(&*self);
        }
        let ghost s = self@;
        let (i, found) = self.find(key);
        if found {
            proof {
                lemma_lookup_at(s, i as int);
            }
            let mut entries: Vec<(String, V)> = Vec::new();
            std::mem::swap(&mut entries, &mut self.entries);
            assert(entries_view(entries@) == s);
            let (_, previous) = entries.remove(i);
            proof {
                assert(entries_view(entries@) =~= s.remove(i as int));
                lemma_remove_keeps_order(s, entries_view(entries@), i as int);
            }
            self.entries = entries;
            Some(previous)
        } else {
            None
        }
    }

    /// All entries in key order, taking the map apart.
    pub fn into_entries(self) -> (r: Vec<(String, V)>)
        ensures
            entries_view(r@) == self@,
    {
        self.entries
    }

    /// The first entry, taking the map apart.
    pub fn take_first(self) -> (e: (String, V))
        requires
            self@.len() > 0,
        ensures
            self@[0] == (e.0@, e.1),
            forall|i: int| 0 <= i < self@.len() ==> key_le(e.0@, #[trigger] self@[i].0),
    {
        proof {
            use_type_invariant(&self);
            assert forall|i: int| 0 <= i < self@.len() implies key_le(
                self@[0].0,
                #[trigger] self@[i].0,
            ) by {
                if i > 0 {
                    assert(key_lt(self@[0].0, self@[i].0));
                }
            }
        }
        let mut entries = self.entries;
        entries.swap_remove(0)
    }
}

impl<V: Copy> KeyMap<V> {
    /// Copies of the entries from position `a` up to `b`.
    fn copy_run(&self, a: usize, b: usize) -> (r: Vec<(String, V)>)
        requires
            a <= b <= self@.len(),
        ensures
            entries_view(r@) == self@.subrange(a as int, b as int),
            ascending(entries_view(r@)),
    {
        proof {
            use_type_invariant(self);
        }
        let mut r: Vec<(String, V)> = Vec::new();
        let mut j = a;
        while j < b
            invariant
                a <= j <= b <= self@.len(),
                self@.len() == self.entries@.len(),
                entries_view(r@) == self@.subrange(a as int, j as int),
            decreases b - j,
        {
            let k = self.entries[j].0.clone();
            let v = self.entries[j].1;
            let ghost before = r@;
            r.push((k, v));
            proof {
                assert(r@ == before.push((k, v)));
                assert(entries_view(r@) =~= entries_view(before).push((k@, v)));
                assert(self@[j as int] == (self.entries@[j as int].0@, self.entries@[j as int].1));
                assert(self@.subrange(a as int, j + 1) =~= self@.subrange(a as int, j as int).push(
                    self@[j as int],
                ));
            }
            j = j + 1;
        }
        assert(ascending(entries_view(r@))) by {
            let t = entries_view(r@);
            assert forall|x: int, y: int| 0 <= x < y < t.len() implies key_lt(
                #[trigger] t[x].0,
                #[trigger] t[y].0,
            ) by {
                assert(t[x] == self@[a + x] && t[y] == self@[a + y]);
            }
        }
        r
    }

    /// The entries whose keys lie between `lo` and `hi`, in key order.
    pub fn range(&self, lo: KeyBound, hi: KeyBound) -> (r: Vec<(String, V)>)
        requires
            range_ordered(lo, hi),
        ensures
            is_run(entries_view(r@), self@, |k: Seq<char>| above(k, lo) && below(k, hi)),
            ascending(entries_view(r@)),
    {
        proof {
            use_type_invariant(self);
        }
        let a = match lo {
            KeyBound::Included(s) => self.search(s, false),
            KeyBound::Excluded(s) => self.search(s, true),
            KeyBound::Unbounded => 0,
        };
        let b = match hi {
            KeyBound::Included(s) => self.search(s, true),
            KeyBound::Excluded(s) => self.search(s, false),
            KeyBound::Unbounded => self.entries.len(),
        };
        let b = if b < a {
            a
        } else {
            b
        };
        let r = self.copy_run(a, b);
        proof {
            let keep = |k: Seq<char>| above(k, lo) && below(k, hi);
            assert forall|j: int| 0 <= j < self@.len() implies (a <= j < b <==> keep(
                #[trigger] self@[j].0,
            )) by {
                let k = self@[j].0;
                match lo {
                    KeyBound::Included(s) => {},
                    KeyBound::Excluded(s) => {},
                    KeyBound::Unbounded => {},
                }
                match hi {
                    KeyBound::Included(s) => {
                        lemma_key_order(k, s@, k);
                    },
                    KeyBound::Excluded(s) => {
                        lemma_key_order(k, s@, k);
                    },
                    KeyBound::Unbounded => {},
                }
            }
        }
        r
    }

    /// The entries whose key bytes begin with those of `prefix`, in key
    /// order.
    pub fn prefix(&self, prefix: &str) -> (r: Vec<(String, V)>)
        ensures
            is_run(entries_view(r@), self@, |k: Seq<char>| starts_with(k, prefix@)),
            ascending(entries_view(r@)),
    {
        proof {
            use_type_invariant(self);
        }
        let a = self.search(prefix, false);
        let mut b = a;
        while b < self.entries.len() && has_prefix(self.entries[b].0.as_str(), prefix)
            invariant
                a <= b <= self@.len(),
                self@.len() == self.entries@.len(),
                forall|j: int| a <= j < b ==> starts_with(#[trigger] self@[j].0, prefix@),
            decreases self@.len() - b,
        {
            assert(self@[b as int].0 == self.entries@[b as int].0@);
            b = b + 1;
        }
        let r = self.copy_run(a, b);
        proof {
            assert forall|j: int| 0 <= j < self@.len() implies (a <= j < b <==> starts_with(
                #[trigger] self@[j].0,
                prefix@,
            )) by {
                let k = self@[j].0;
                if j < a && starts_with(k, prefix@) {
                    lemma_prefix_at_or_above(prefix@, k);
                    lemma_key_order(k, prefix@, k);
                }
                if j >= b && starts_with(k, prefix@) {
                    assert(self@[b as int].0 == self.entries@[b as int].0@);
                    if j > b {
                        lemma_prefix_between(prefix@, self@[b as int].0, k);
                    }
                }
            }
        }
        r
    }
}

} // verus!
