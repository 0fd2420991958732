//! The lines of the database file: where a key's line lies, and how a line
//! is framed.
use crate::keymap::KeyMap;
use crate::keys::key_le;
use vstd::prelude::*;
use vstd::string::{StrSliceExecFns, StringExecFns};

verus! {

/// Which of two lines for one key wins: a line that begins with a space is
/// live; one that begins with a tab was unstaged before a newer line was
/// written.
#[derive(Debug, Clone, Copy, PartialEq, Eq, Structural)]
pub enum Tie {
    Live,
    Unstaged,
}

/// Where a key's line lies in the file.
#[derive(Debug, Clone, Copy, PartialEq, Eq, Structural)]
pub struct Record {
    pub tie: Tie,
    pub offset: u64,
    /// The length of the line in bytes, its newline included; never zero.
    pub size: u64,
}

impl Record {
    /// A live record of `size` bytes at `offset`.
    pub fn new(offset: u64, size: u64) -> (r: Self)
        requires
            size > 0,
        ensures
            r == (Record { tie: Tie::Live, offset, size }),
    {
        Record { tie: Tie::Live, offset, size }
    }
}

/// What `Tie::detect` finds in a line: the tie its first character marks,
/// and the rest of the line.
pub open spec fn detect_spec(line: Seq<char>) -> Option<(Tie, Seq<char>)> {
    if line.len() > 0 && line[0] == ' ' {
        Some((Tie::Live, line.drop_first()))
    } else if line.len() > 0 && line[0] == '\t' {
        Some((Tie::Unstaged, line.drop_first()))
    } else {
        None
    }
}

impl Tie {
    /// Reads the tie that the first character of a line marks, and returns
    /// it with the rest of the line.
    pub fn detect(record: &str) -> (r: Option<(Tie, &str)>)
        ensures
            match r {
                Some((tie, rest)) => detect_spec(record@) == Some((tie, rest@)),
                None => detect_spec(record@) is None,
            },
    {
        let n = record.unicode_len();
        if n == 0 {
            return None;
        }
        let c = record.get_char(0);
        let tie = if c == ' ' {
            Tie::Live
        } else if c == '\t' {
            Tie::Unstaged
        } else {
            return None;
        };
        let rest = record.substring_char(1, n);
        assert(rest@ =~= record@.drop_first());
        Some((tie, rest))
    }
}

/// A line as the file holds it: a space, the JSON text, a newline.
pub open spec fn framed(json: Seq<char>) -> Seq<char> {
    seq![' '] + json + seq!['\n']
}

/// Frames the JSON text of an entry as a live line of the file.
pub fn frame_line(json: &str) -> (line: String)
    ensures
        line@ == framed(json@),
{
    let mut line = String::from_str(" ");
    line.append(json);
    line.append("\n");
    proof {
        reveal_strlit(" ");
        reveal_strlit("\n");
        assert(line@ =~= framed(json@));
    }
    line
}

/// A framed line reads back as live, its JSON text followed by the newline.
pub proof fn law_framed_line_is_live(json: Seq<char>)
    ensures
        detect_spec(framed(json)) == Some((Tie::Live, json + seq!['\n'])),
{
    assert(framed(json).drop_first() =~= json + seq!['\n']);
}

/// One key and its value, as a line of the file holds them.
pub struct Entry<T> {
    pub data: KeyMap<T>,
}

impl<T> Entry<T> {
    /// An entry that maps `key` to `value`.
    pub fn new(key: String, value: T) -> (e: Self)
        ensures
            e.data@ == seq![(key@, value)],
    {
        let mut data = KeyMap::new();
        let ghost k = key@;
        data.insert(key, value);
        proof {
            assert(data@.len() == 1);
            crate::keymap::lemma_lookup_at(data@, 0);
            assert(data@[0] == (k, value));
            assert(data@ =~= seq![(k, value)]);
        }
        Entry { data }
    }

    /// The least key of the entry, which comes first.
    pub fn key(self) -> (k: String)
        requires
            self.data@.len() > 0,
        ensures
            k@ == self.data@[0].0,
            forall|i: int| 0 <= i < self.data@.len() ==> key_le(k@, #[trigger] self.data@[i].0),
    {
        self.data.take_first().0
    }

    /// The value of the first key of the entry.
    pub fn value(self) -> (v: T)
        requires
            self.data@.len() > 0,
        ensures
            v == self.data@[0].1,
    {
        self.data.take_first().1
    }
}

} // verus!
