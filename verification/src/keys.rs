//! Keys are ordered as `str` orders them: byte by byte over their UTF-8
//! encoding, a proper prefix before any longer key.
use vstd::prelude::*;
use vstd::utf8::{encode_utf8, encode_utf8_decode_utf8};

verus! {

/// The bytes of a key: its UTF-8 encoding.
pub open spec fn key_bytes(k: Seq<char>) -> Seq<u8> {
    encode_utf8(k)
}

/// The first `i` bytes of `a` and `b` agree.
pub open spec fn agree_upto(a: Seq<u8>, b: Seq<u8>, i: int) -> bool {
    &&& 0 <= i <= a.len()
    &&& i <= b.len()
    &&& forall|j: int| 0 <= j < i ==> a[j] == b[j]
}

/// `a` and `b` first differ at byte `i`, and `a` is the smaller there: it
/// has the lower byte, or it has ended.
pub open spec fn lt_at(a: Seq<u8>, b: Seq<u8>, i: int) -> bool {
    &&& agree_upto(a, b, i)
    &&& i < b.len()
    &&& (i == a.len() || a[i] < b[i])
}

/// Lexicographic order of byte strings.
pub open spec fn bytes_lt(a: Seq<u8>, b: Seq<u8>) -> bool {
    exists|i: int| lt_at(a, b, i)
}

/// The order of keys.
pub open spec fn key_lt(a: Seq<char>, b: Seq<char>) -> bool {
    bytes_lt(key_bytes(a), key_bytes(b))
}

/// The order of keys, or equality.
pub open spec fn key_le(a: Seq<char>, b: Seq<char>) -> bool {
    key_lt(a, b) || a == b
}

/// Distinct keys have distinct bytes.
pub proof fn lemma_key_bytes_injective(a: Seq<char>, b: Seq<char>)
    ensures
        key_bytes(a) == key_bytes(b) <==> a == b,
{
    encode_utf8_decode_utf8(a);
    encode_utf8_decode_utf8(b);
}

/// No byte string is below itself, and of two byte strings at most one is
/// below the other.
pub proof fn lemma_bytes_lt_asymmetric(a: Seq<u8>, b: Seq<u8>)
    ensures
        bytes_lt(a, b) ==> !bytes_lt(b, a),
        !bytes_lt(a, a),
{
    if bytes_lt(a, b) && bytes_lt(b, a) {
        let i = choose|i: int| lt_at(a, b, i);
        let j = choose|j: int| lt_at(b, a, j);
        if i < j {
            assert(a[i] == b[i]);
        } else if j < i {
            assert(a[j] == b[j]);
        }
    }
    if bytes_lt(a, a) {
        let i = choose|i: int| lt_at(a, a, i);
    }
}

/// The order of byte strings is transitive.
pub proof fn lemma_bytes_lt_transitive(a: Seq<u8>, b: Seq<u8>, c: Seq<u8>)
    requires
        bytes_lt(a, b),
        bytes_lt(b, c),
    ensures
        bytes_lt(a, c),
{
    let i = choose|i: int| lt_at(a, b, i);
    let j = choose|j: int| lt_at(b, c, j);
    if i < j {
        assert(lt_at(a, c, i));
    } else if j < i {
        assert(lt_at(a, c, j));
    } else {
        assert(lt_at(a, c, i));
    }
}

/// Two distinct byte strings are ordered one way or the other.
pub proof fn lemma_bytes_lt_total(a: Seq<u8>, b: Seq<u8>)
    requires
        a != b,
    ensures
        bytes_lt(a, b) || bytes_lt(b, a),
{
    let n = if a.len() <= b.len() {
        a.len() as int
    } else {
        b.len() as int
    };
    if forall|j: int| 0 <= j < n ==> a[j] == b[j] {
        if a.len() == b.len() {
            assert(a =~= b);
        } else if a.len() < b.len() {
            assert(lt_at(a, b, n));
        } else {
            assert(lt_at(b, a, n));
        }
    } else {
        let k = choose|k: int| 0 <= k < n && a[k] != b[k];
        lemma_first_difference(a, b, k);
    }
}

proof fn lemma_first_difference(a: Seq<u8>, b: Seq<u8>, k: int)
    requires
        0 <= k < a.len(),
        k < b.len(),
        a[k] != b[k],
    ensures
        bytes_lt(a, b) || bytes_lt(b, a),
    decreases k,
{
    if forall|j: int| 0 <= j < k ==> a[j] == b[j] {
        if a[k] < b[k] {
            assert(lt_at(a, b, k));
        } else {
            assert(lt_at(b, a, k));
        }
    } else {
        let k2 = choose|k2: int| 0 <= k2 < k && a[k2] != b[k2];
        lemma_first_difference(a, b, k2);
    }
}

/// The order of keys is a strict total order.
pub proof fn lemma_key_order(a: Seq<char>, b: Seq<char>, c: Seq<char>)
    ensures
        !key_lt(a, a),
        key_lt(a, b) ==> !key_lt(b, a),
        key_lt(a, b) && key_lt(b, c) ==> key_lt(a, c),
        a != b ==> key_lt(a, b) || key_lt(b, a),
{
    lemma_bytes_lt_asymmetric(key_bytes(a), key_bytes(b));
    if key_lt(a, b) && key_lt(b, c) {
        lemma_bytes_lt_transitive(key_bytes(a), key_bytes(b), key_bytes(c));
    }
    if a != b {
        lemma_key_bytes_injective(a, b);
        lemma_bytes_lt_total(key_bytes(a), key_bytes(b));
    }
}

/// A key whose bytes begin with those of `p` lies at or above `p`.
pub proof fn lemma_prefix_at_or_above(p: Seq<char>, k: Seq<char>)
    requires
        key_bytes(p).is_prefix_of(key_bytes(k)),
    ensures
        key_le(p, k),
{
    let pb = key_bytes(p);
    let kb = key_bytes(k);
    if pb.len() == kb.len() {
        assert(pb =~= kb);
        lemma_key_bytes_injective(p, k);
    } else {
        assert(lt_at(pb, kb, pb.len() as int));
    }
}

/// Keys with a common prefix sit together in key order: a key between `p`
/// and a key that begins with `p` begins with `p` too.
pub proof fn lemma_prefix_between(p: Seq<char>, x: Seq<char>, y: Seq<char>)
    requires
        key_le(p, x),
        key_lt(x, y),
        key_bytes(p).is_prefix_of(key_bytes(y)),
    ensures
        key_bytes(p).is_prefix_of(key_bytes(x)),
{
    let pb = key_bytes(p);
    let xb = key_bytes(x);
    let yb = key_bytes(y);
    if p == x {
    } else {
        let i = choose|i: int| lt_at(pb, xb, i);
        let j = choose|j: int| lt_at(xb, yb, j);
        if i < pb.len() {
            if j < i {
                assert(xb[j] == pb[j]);
                assert(yb[j] == pb[j]);
            } else if j == i {
                assert(yb[i] == pb[i]);
            } else {
                assert(xb[i] == yb[i]);
                assert(yb[i] == pb[i]);
            }
        } else {
            assert(pb =~= xb.take(pb.len() as int));
        }
    }
}

/// The outcome of comparing two keys.
#[derive(Debug, Clone, Copy, PartialEq, Eq, Structural)]
pub enum KeyOrder {
    Less,
    Equal,
    Greater,
}

/// Compares two keys as `str` does.
pub fn compare_keys(a: &str, b: &str) -> (r: KeyOrder)
    ensures
        r == KeyOrder::Less <==> key_lt(a@, b@),
        r == KeyOrder::Equal <==> a@ == b@,
        r == KeyOrder::Greater <==> key_lt(b@, a@),
{
    let x = a.as_bytes();
    let y = b.as_bytes();
    let ghost xs = key_bytes(a@);
    let ghost ys = key_bytes(b@);
    assert(x@ == xs && y@ == ys);
    let mut i: usize = 0;
    while i < x.len() && i < y.len()
        invariant
            x@ == xs,
            y@ == ys,
            xs == key_bytes(a@),
            ys == key_bytes(b@),
            agree_upto(xs, ys, i as int),
        decreases x@.len() - i,
    {
        if x[i] < y[i] {
            assert(lt_at(xs, ys, i as int));
            proof {
                lemma_key_order(a@, b@, b@);
            }
            return KeyOrder::Less;
        } else if x[i] > y[i] {
            assert(lt_at(ys, xs, i as int));
            proof {
                lemma_key_order(b@, a@, a@);
            }
            return KeyOrder::Greater;
        }
        i = i + 1;
    }
    if x.len() < y.len() {
        assert(lt_at(xs, ys, i as int));
        proof {
            lemma_key_order(a@, b@, b@);
        }
        KeyOrder::Less
    } else if y.len() < x.len() {
        assert(lt_at(ys, xs, i as int));
        proof {
            lemma_key_order(b@, a@, a@);
        }
        KeyOrder::Greater
    } else {
        assert(xs =~= ys);
        proof {
            lemma_key_bytes_injective(a@, b@);
            lemma_key_order(a@, b@, b@);
        }
        KeyOrder::Equal
    }
}

/// Whether the bytes of `key` begin with the bytes of `prefix`, as
/// `str::starts_with` decides it.
pub fn has_prefix(key: &str, prefix: &str) -> (r: bool)
    ensures
        r == key_bytes(prefix@).is_prefix_of(key_bytes(key@)),
{
    let x = key.as_bytes();
    let p = prefix.as_bytes();
    if p.len() > x.len() {
        return false;
    }
    let mut i: usize = 0;
    while i < p.len()
        invariant
            x@ == key_bytes(key@),
            p@ == key_bytes(prefix@),
            p@.len() <= x@.len(),
            i <= p@.len(),
            forall|j: int| 0 <= j < i ==> p@[j] == x@[j],
        decreases p@.len() - i,
    {
        if p[i] != x[i] {
            return false;
        }
        i = i + 1;
    }
    assert(p@ =~= x@.take(p@.len() as int));
    true
}

} // verus!
