//! The lines of the file's bytes: where each ends, and what a write of a
//! whole line at the start of a line does to them.
use crate::allocator::scanned;
use crate::gaps::truncated;
use crate::layout::total_size;
use crate::record::{Record, Tie};
use crate::layout::holds_key;
use crate::reopen::{
    law_cut_free_lines, law_delete_lines, law_erase_keeps_lines, law_reopen_gives_writer_state, law_unstage_keeps_lines,
    law_write_keeps_lines,
    lemma_scan_end_is_total, lemma_total_size_concat, lines_hold, lines_hold_during_put, writer_sound,
};
use vstd::prelude::*;

verus! {

/// The newline byte, which ends a line.
pub open spec fn newline() -> u8 {
    10
}

/// The position of the first newline of `f`, or its length where it holds
/// none.
pub open spec fn first_newline(f: Seq<u8>) -> int
    decreases f.len(),
{
    if f.len() == 0 {
        0
    } else if f[0] == newline() {
        0
    } else {
        1 + first_newline(f.drop_first())
    }
}

/// Where the first newline of `f` lies: no newline comes before it.
pub proof fn lemma_first_newline(f: Seq<u8>)
    ensures
        0 <= first_newline(f) <= f.len(),
        first_newline(f) < f.len() ==> f[first_newline(f)] == newline(),
        forall|i: int| 0 <= i < first_newline(f) ==> f[i] != newline(),
    decreases f.len(),
{
    if f.len() > 0 && f[0] != newline() {
        lemma_first_newline(f.drop_first());
        assert forall|i: int| 0 <= i < first_newline(f) implies f[i] != newline() by {
            if i > 0 {
                assert(f[i] == f.drop_first()[i - 1]);
            }
        }
    }
}

/// The length of the first line of a nonempty `f`: up to and with its
/// first newline, or all of `f`.
pub open spec fn first_line_len(f: Seq<u8>) -> int {
    if first_newline(f) < f.len() {
        first_newline(f) + 1
    } else {
        f.len() as int
    }
}

/// The lines of `f`, in order: each ends with a newline, but the last,
/// where `f` does not end with one.
pub open spec fn split_lines(f: Seq<u8>) -> Seq<Seq<u8>>
    decreases f.len(),
{
    if f.len() == 0 {
        Seq::empty()
    } else {
        proof {
            lemma_first_newline(f);
        }
        let n = first_line_len(f);
        seq![f.take(n)].add(split_lines(f.skip(n)))
    }
}

/// `w` is one whole line: it ends with its only newline.
pub open spec fn is_line(w: Seq<u8>) -> bool {
    &&& w.len() > 0
    &&& w.last() == newline()
    &&& forall|i: int| 0 <= i < w.len() - 1 ==> w[i] != newline()
}

/// Bytes that end with a newline, or none at all, end at a line boundary.
pub open spec fn ends_a_line(f: Seq<u8>) -> bool {
    f.len() == 0 || f.last() == newline()
}

/// A run of bytes that ends a line splits on its own: the lines of it
/// followed by more bytes are its lines, then theirs.
pub proof fn lemma_split_concat(a: Seq<u8>, b: Seq<u8>)
    requires
        ends_a_line(a),
    ensures
        split_lines(a + b) == split_lines(a) + split_lines(b),
    decreases a.len(),
{
    if a.len() == 0 {
        assert(a + b =~= b);
        assert(split_lines(a) =~= Seq::<Seq<u8>>::empty());
        assert(split_lines(a) + split_lines(b) =~= split_lines(b));
    } else {
        let f = a + b;
        lemma_first_newline(a);
        lemma_first_newline(f);
        let na = first_newline(a);
        assert(a[a.len() - 1] == newline());
        assert(na < a.len());
        assert forall|i: int| 0 <= i <= na implies f[i] == a[i] by {}
        assert(first_newline(f) == na) by {
            if first_newline(f) < na {
                assert(f[first_newline(f)] == a[first_newline(f)]);
            } else if first_newline(f) > na {
                assert(f[na] == newline());
            }
        }
        let n = na + 1;
        assert(first_line_len(f) == n);
        assert(first_line_len(a) == n);
        assert(f.take(n) =~= a.take(n));
        assert(f.skip(n) =~= a.skip(n) + b);
        let rest = a.skip(n);
        if rest.len() > 0 {
            assert(rest.last() == a.last());
        }
        lemma_split_concat(rest, b);
        assert(split_lines(f) == seq![f.take(n)] + split_lines(f.skip(n)));
        assert(split_lines(a) == seq![a.take(n)] + split_lines(a.skip(n)));
        assert(split_lines(f) =~= split_lines(a) + split_lines(b));
    }
}

/// A whole line splits into itself alone.
pub proof fn lemma_split_line(w: Seq<u8>)
    requires
        is_line(w),
    ensures
        split_lines(w) == seq![w],
{
    lemma_first_newline(w);
    assert(first_newline(w) == w.len() - 1) by {
        if first_newline(w) < w.len() - 1 {
            assert(w[first_newline(w)] == newline());
        } else if first_newline(w) == w.len() {
            assert(w[w.len() - 1] == newline());
        }
    }
    assert(w.take(w.len() as int) =~= w);
    assert(w.skip(w.len() as int) =~= Seq::<u8>::empty());
    assert(split_lines(Seq::<u8>::empty()) =~= Seq::<Seq<u8>>::empty());
    assert(split_lines(w) =~= seq![w]);
}

/// Writing a whole line `w` where a line starts, over bytes `r` that end a
/// line and are at least as long, splits the file into the lines before,
/// the new line, the lines of what stays of `r`, and the lines after.
pub proof fn law_write_line_splits(p: Seq<u8>, r: Seq<u8>, s: Seq<u8>, w: Seq<u8>)
    requires
        ends_a_line(p),
        ends_a_line(r),
        is_line(w),
        w.len() <= r.len(),
    ensures
        split_lines(p + (w + r.skip(w.len() as int)) + s) == split_lines(p) + seq![w] + split_lines(
            r.skip(w.len() as int),
        ) + split_lines(s),
{
    let rest = r.skip(w.len() as int);
    if rest.len() > 0 {
        assert(rest.last() == r.last());
    }
    assert(w.last() == newline());
    lemma_split_concat(p, (w + rest) + s);
    assert((w + rest) + s =~= w + (rest + s));
    lemma_split_concat(w, rest + s);
    lemma_split_concat(rest, s);
    lemma_split_line(w);
    assert(p + (w + rest) + s =~= p + ((w + rest) + s));
    assert(split_lines(p + (w + rest) + s) =~= split_lines(p) + seq![w] + split_lines(rest) + split_lines(s));
}

/// Writing a newline over the first byte of a whole line of more than one
/// byte splits it into the newline alone and the rest of the line.
pub proof fn law_erase_splits_line(p: Seq<u8>, w: Seq<u8>, s: Seq<u8>)
    requires
        ends_a_line(p),
        is_line(w),
        w.len() > 1,
    ensures
        split_lines(p + (seq![newline()] + w.drop_first()) + s) == split_lines(p) + seq![
            seq![newline()],
            w.drop_first(),
        ] + split_lines(s),
{
    let rest = w.drop_first();
    assert(rest.last() == w.last());
    assert forall|i: int| 0 <= i < rest.len() - 1 implies rest[i] != newline() by {
        assert(rest[i] == w[i + 1]);
    }
    lemma_split_line(rest);
    let nl = seq![newline()];
    assert(is_line(nl));
    lemma_split_line(nl);
    lemma_split_concat(p, (nl + rest) + s);
    lemma_split_concat(nl, rest + s);
    lemma_split_concat(rest, s);
    assert((nl + rest) + s =~= nl + (rest + s));
    assert(p + (nl + rest) + s =~= p + ((nl + rest) + s));
    assert(split_lines(p + (nl + rest) + s) =~= split_lines(p) + seq![nl, rest] + split_lines(s));
}

/// What the scan sees of the lines of `f`, where `reads` tells what entry,
/// if any, a line reads as: each line's length and entry.
pub open spec fn file_lines(f: Seq<u8>, reads: spec_fn(Seq<u8>) -> Option<(Tie, Seq<char>)>) -> Seq<
    (u64, Option<(Tie, Seq<char>)>),
> {
    split_lines(f).map_values(|l: Seq<u8>| (l.len() as u64, reads(l)))
}

/// The lines of `f` are nonempty, and their lengths add up to the length
/// of `f`.
pub proof fn lemma_file_lines_sizes(f: Seq<u8>, reads: spec_fn(Seq<u8>) -> Option<(Tie, Seq<char>)>)
    requires
        f.len() <= u64::MAX,
    ensures
        forall|i: int| 0 <= i < file_lines(f, reads).len() ==> #[trigger] file_lines(f, reads)[i].0 > 0,
        total_size(file_lines(f, reads)) == f.len(),
    decreases f.len(),
{
    if f.len() == 0 {
        assert(file_lines(f, reads) =~= Seq::<(u64, Option<(Tie, Seq<char>)>)>::empty());
    } else {
        lemma_first_newline(f);
        let n = first_line_len(f);
        let rest = f.skip(n);
        lemma_file_lines_sizes(rest, reads);
        let head = seq![(n as u64, reads(f.take(n)))];
        assert(split_lines(f) == seq![f.take(n)] + split_lines(rest));
        assert(file_lines(f, reads) =~= head + file_lines(rest, reads));
        lemma_total_size_concat(head, file_lines(rest, reads));
        assert(head.drop_last() =~= Seq::<(u64, Option<(Tie, Seq<char>)>)>::empty());
        assert(total_size(Seq::<(u64, Option<(Tie, Seq<char>)>)>::empty()) == 0);
        assert(head.last() == (n as u64, reads(f.take(n))));
        assert forall|i: int| 0 <= i < file_lines(f, reads).len() implies #[trigger] file_lines(f, reads)[i].0
            > 0 by {
            if i > 0 {
                assert(file_lines(f, reads)[i] == file_lines(rest, reads)[i - 1]);
            }
        }
    }
}

/// The lines of two runs of bytes, the first ending a line, are those of
/// the first, then those of the second.
pub proof fn lemma_file_lines_concat(
    a: Seq<u8>,
    b: Seq<u8>,
    reads: spec_fn(Seq<u8>) -> Option<(Tie, Seq<char>)>,
)
    requires
        ends_a_line(a),
    ensures
        file_lines(a + b, reads) == file_lines(a, reads) + file_lines(b, reads),
{
    lemma_split_concat(a, b);
    assert(file_lines(a + b, reads) =~= file_lines(a, reads) + file_lines(b, reads));
}

/// Reopening a file of a writer gives the writer's state: where the lines
/// of the file's bytes `f` hold the writer's records, and the file ends
/// where the writer's file ends, scanning them gives the writer's records,
/// gaps and end.
pub proof fn law_reopen_bytes_give_writer_state(
    f: Seq<u8>,
    reads: spec_fn(Seq<u8>) -> Option<(Tie, Seq<char>)>,
    m: Map<Seq<char>, Record>,
    g: Map<u64, u64>,
    end: u64,
)
    requires
        f.len() == end,
        writer_sound(m, g, end),
        lines_hold(file_lines(f, reads), m),
    ensures
        scanned(file_lines(f, reads)).0 == m,
        truncated(scanned(file_lines(f, reads)).1, scanned(file_lines(f, reads)).2) == (g, end),
{
    lemma_file_lines_sizes(f, reads);
    law_reopen_gives_writer_state(file_lines(f, reads), m, g, end);
}

/// No line of `f` reads as an entry.
pub open spec fn reads_nothing(f: Seq<u8>, reads: spec_fn(Seq<u8>) -> Option<(Tie, Seq<char>)>) -> bool {
    forall|i: int| 0 <= i < file_lines(f, reads).len() ==> (#[trigger] file_lines(f, reads)[i]).1 is None
}

/// The lines of three runs of bytes, the first two ending lines.
proof fn lemma_file_lines_three(
    p: Seq<u8>,
    r: Seq<u8>,
    s: Seq<u8>,
    reads: spec_fn(Seq<u8>) -> Option<(Tie, Seq<char>)>,
)
    requires
        ends_a_line(p),
        ends_a_line(r),
    ensures
        file_lines(p + r + s, reads) == file_lines(p, reads) + file_lines(r, reads) + file_lines(s, reads),
{
    lemma_file_lines_concat(p, r, reads);
    if r.len() > 0 {
        assert((p + r).last() == r.last());
    }
    lemma_file_lines_concat(p + r, s, reads);
}

/// Writing the new line of a put into free space keeps the file
/// consistent, over its bytes: where the lines of `p + r + s` hold the
/// records during a put of `key`, `p` ends a line, `r` is free space that
/// ends a line and reads as no entry, the new line `w` is a whole line no
/// longer than `r` that reads as the live entry of `key`, and what stays of
/// `r` after it reads as no entry, the lines of the file after `w` is
/// written at the end of `p` hold the records during the put.
pub proof fn law_write_bytes_keep_lines(
    p: Seq<u8>,
    r: Seq<u8>,
    s: Seq<u8>,
    w: Seq<u8>,
    reads: spec_fn(Seq<u8>) -> Option<(Tie, Seq<char>)>,
    m: Map<Seq<char>, Record>,
    key: Seq<char>,
)
    requires
        lines_hold_during_put(
            file_lines(p + r + s, reads),
            m,
            key,
            Record { tie: Tie::Live, offset: p.len() as u64, size: w.len() as u64 },
        ),
        (p + r + s).len() <= u64::MAX,
        ends_a_line(p),
        ends_a_line(r),
        is_line(w),
        w.len() <= r.len(),
        reads(w) == Some((Tie::Live, key)),
        reads_nothing(r, reads),
        reads_nothing(r.skip(w.len() as int), reads),
    ensures
        lines_hold_during_put(
            file_lines(p + (w + r.skip(w.len() as int)) + s, reads),
            m,
            key,
            Record { tie: Tie::Live, offset: p.len() as u64, size: w.len() as u64 },
        ),
{
    let new = Record { tie: Tie::Live, offset: p.len() as u64, size: w.len() as u64 };
    let rest = r.skip(w.len() as int);
    let lines = file_lines(p + r + s, reads);
    let fp = file_lines(p, reads);
    let fr = file_lines(r, reads);
    let fs = file_lines(s, reads);
    let frest = file_lines(rest, reads);
    lemma_file_lines_three(p, r, s, reads);
    let a = fp.len() as int;
    let b = a + fr.len();
    assert(lines.take(a) =~= fp);
    assert(lines.subrange(a, b) =~= fr);
    assert(lines.skip(b) =~= fs);
    assert forall|j: int| a <= j < b implies (#[trigger] lines[j]).1 is None by {
        assert(lines[j] == fr[j - a]);
    }
    lemma_file_lines_sizes(p, reads);
    lemma_file_lines_sizes(r, reads);
    lemma_file_lines_sizes(s, reads);
    lemma_file_lines_sizes(rest, reads);
    lemma_scan_end_is_total(fp);
    law_write_keeps_lines(lines, m, key, new, a, b, frest);
    law_write_line_splits(p, r, s, w);
    let l2 = file_lines(p + (w + rest) + s, reads);
    assert(l2 =~= fp + (seq![(new.size, Some((Tie::Live, key)))] + frest) + fs);
}

/// Erasing the old line of a put keeps the file consistent, over its
/// bytes: where the lines of `p + v + s` hold the records during a put of
/// `key`, `p` ends a line, `v` is a whole line of more than one byte that
/// reads as an entry of `key`, another line of `key` stands, and the newline
/// alone and the rest of `v` read as no entry, the lines of the file after a
/// newline is written over the first byte of `v` hold the records during
/// the put.
pub proof fn law_erase_bytes_keep_lines(
    p: Seq<u8>,
    v: Seq<u8>,
    s: Seq<u8>,
    reads: spec_fn(Seq<u8>) -> Option<(Tie, Seq<char>)>,
    m: Map<Seq<char>, Record>,
    key: Seq<char>,
    new: Record,
    n: int,
)
    requires
        lines_hold_during_put(file_lines(p + v + s, reads), m, key, new),
        (p + v + s).len() <= u64::MAX,
        ends_a_line(p),
        is_line(v),
        v.len() > 1,
        reads(v) matches Some((_, k)) && k == key,
        0 <= n < file_lines(p + v + s, reads).len(),
        n != file_lines(p, reads).len(),
        holds_key(file_lines(p + v + s, reads)[n], key, false),
        reads(seq![newline()]) is None,
        reads(v.drop_first()) is None,
    ensures
        lines_hold_during_put(file_lines(p + (seq![newline()] + v.drop_first()) + s, reads), m, key, new),
{
    let lines = file_lines(p + v + s, reads);
    let fp = file_lines(p, reads);
    let fs = file_lines(s, reads);
    lemma_file_lines_three(p, v, s, reads);
    lemma_split_line(v);
    let fv = file_lines(v, reads);
    assert(fv =~= seq![(v.len() as u64, reads(v))]);
    let i = fp.len() as int;
    assert(lines[i] == (v.len() as u64, reads(v)));
    assert(holds_key(lines[i], key, false));
    let fill = seq![(1u64, reads(seq![newline()])), ((v.len() - 1) as u64, reads(v.drop_first()))];
    assert(fill.drop_last() =~= seq![(1u64, reads(seq![newline()]))]);
    assert(fill.drop_last().drop_last() =~= Seq::<(u64, Option<(Tie, Seq<char>)>)>::empty());
    assert(total_size(Seq::<(u64, Option<(Tie, Seq<char>)>)>::empty()) == 0);
    assert(total_size(fill.drop_last()) == 1);
    assert(total_size(fill) == v.len());
    lemma_file_lines_sizes(p + v + s, reads);
    law_erase_keeps_lines(lines, m, key, new, i, n, fill);
    law_erase_splits_line(p, v, s);
    assert(lines.take(i) =~= fp);
    assert(lines.skip(i + 1) =~= fs);
    let l2 = file_lines(p + (seq![newline()] + v.drop_first()) + s, reads);
    assert(l2 =~= fp + fill + fs);
}

/// The first write of a put keeps the file consistent, over its bytes:
/// where the lines of `p + v + s` hold the records, `p` ends a line, and `v`
/// is a whole line of more than one byte that reads as an entry of `key`
/// and, with a tab over its first byte, as the unstaged entry of `key`, the
/// lines of the file after that tab is written hold the records during a
/// put of `key`.
pub proof fn law_unstage_bytes_keep_lines(
    p: Seq<u8>,
    v: Seq<u8>,
    s: Seq<u8>,
    reads: spec_fn(Seq<u8>) -> Option<(Tie, Seq<char>)>,
    m: Map<Seq<char>, Record>,
    key: Seq<char>,
    new: Record,
)
    requires
        lines_hold(file_lines(p + v + s, reads), m),
        ends_a_line(p),
        is_line(v),
        v.len() > 1,
        reads(v) matches Some((_, k)) && k == key,
        reads(seq![9u8] + v.drop_first()) == Some((Tie::Unstaged, key)),
    ensures
        lines_hold_during_put(file_lines(p + (seq![9u8] + v.drop_first()) + s, reads), m, key, new),
{
    let v2 = seq![9u8] + v.drop_first();
    assert(v2.last() == v.last());
    assert forall|j: int| 0 <= j < v2.len() - 1 implies v2[j] != newline() by {
        if j > 0 {
            assert(v2[j] == v[j]);
        }
    }
    lemma_file_lines_three(p, v, s, reads);
    lemma_file_lines_three(p, v2, s, reads);
    lemma_split_line(v);
    lemma_split_line(v2);
    let lines = file_lines(p + v + s, reads);
    let i = file_lines(p, reads).len() as int;
    assert(file_lines(v, reads) =~= seq![(v.len() as u64, reads(v))]);
    assert(file_lines(v2, reads) =~= seq![(v2.len() as u64, reads(v2))]);
    assert(lines[i] == (v.len() as u64, reads(v)));
    law_unstage_keeps_lines(lines, m, key, i, new);
    assert(file_lines(p + v2 + s, reads) =~= lines.update(i, (lines[i].0, Some((Tie::Unstaged, key)))));
}

/// Cutting the file at a line boundary `e`, where the lines after it read
/// as no entry, keeps its lines holding the records.
pub proof fn law_cut_bytes_keep_lines(
    f: Seq<u8>,
    e: int,
    reads: spec_fn(Seq<u8>) -> Option<(Tie, Seq<char>)>,
    m: Map<Seq<char>, Record>,
)
    requires
        lines_hold(file_lines(f, reads), m),
        0 <= e <= f.len(),
        ends_a_line(f.take(e)),
        reads_nothing(f.skip(e), reads),
    ensures
        lines_hold(file_lines(f.take(e), reads), m),
{
    lemma_file_lines_concat(f.take(e), f.skip(e), reads);
    assert(f.take(e) + f.skip(e) =~= f);
    let lines = file_lines(f, reads);
    let c = file_lines(f.take(e), reads).len() as int;
    assert forall|j: int| c <= j < lines.len() implies (#[trigger] lines[j]).1 is None by {
        assert(lines[j] == file_lines(f.skip(e), reads)[j - c]);
    }
    law_cut_free_lines(lines, m, c);
    assert(lines.take(c) =~= file_lines(f.take(e), reads));
}

/// A delete keeps the file consistent, over its bytes: where the lines of
/// `p + v + s` hold the records, `p` ends a line, `v` is a whole line of
/// more than one byte that reads as an entry of `key`, and the newline
/// alone and the rest of `v` read as no entry, the lines of the file after
/// a newline is written over the first byte of `v` hold the records
/// without `key`.
pub proof fn law_delete_bytes_keep_lines(
    p: Seq<u8>,
    v: Seq<u8>,
    s: Seq<u8>,
    reads: spec_fn(Seq<u8>) -> Option<(Tie, Seq<char>)>,
    m: Map<Seq<char>, Record>,
    key: Seq<char>,
)
    requires
        lines_hold(file_lines(p + v + s, reads), m),
        (p + v + s).len() <= u64::MAX,
        ends_a_line(p),
        is_line(v),
        v.len() > 1,
        reads(v) matches Some((_, k)) && k == key,
        reads(seq![newline()]) is None,
        reads(v.drop_first()) is None,
    ensures
        lines_hold(file_lines(p + (seq![newline()] + v.drop_first()) + s, reads), m.remove(key)),
{
    let lines = file_lines(p + v + s, reads);
    let fp = file_lines(p, reads);
    let fs = file_lines(s, reads);
    lemma_file_lines_three(p, v, s, reads);
    lemma_split_line(v);
    assert(file_lines(v, reads) =~= seq![(v.len() as u64, reads(v))]);
    let i = fp.len() as int;
    assert(lines[i] == (v.len() as u64, reads(v)));
    assert(holds_key(lines[i], key, false));
    let fill = seq![(1u64, reads(seq![newline()])), ((v.len() - 1) as u64, reads(v.drop_first()))];
    assert(fill.drop_last() =~= seq![(1u64, reads(seq![newline()]))]);
    assert(fill.drop_last().drop_last() =~= Seq::<(u64, Option<(Tie, Seq<char>)>)>::empty());
    assert(total_size(Seq::<(u64, Option<(Tie, Seq<char>)>)>::empty()) == 0);
    assert(total_size(fill.drop_last()) == 1);
    assert(total_size(fill) == v.len());
    lemma_file_lines_sizes(p + v + s, reads);
    law_delete_lines(lines, m, key, i, fill);
    law_erase_splits_line(p, v, s);
    assert(lines.take(i) =~= fp);
    assert(lines.skip(i + 1) =~= fs);
    let l2 = file_lines(p + (seq![newline()] + v.drop_first()) + s, reads);
    assert(l2 =~= fp + fill + fs);
}

} // verus!
