//! A single-lookahead cursor over a source string.
//!
//! The cursor tracks two positions at once: the index of the next unread
//! character and the byte offset at which that character starts.  All ranges
//! reported by the parser are byte offsets, so multi-byte characters advance
//! the byte offset by their encoded length.

use vstd::prelude::*;
use vstd::string::StrSliceExecFns;

verus! {

/// UTF-8 encoded length of one character: scalar values below 0x80 take one
/// byte, below 0x800 two, below 0x10000 three, and all others four.
pub open spec fn byte_len(c: char) -> nat {
    if (c as u32) < 0x80 {
        1
    } else if (c as u32) < 0x800 {
        2
    } else if (c as u32) < 0x10000 {
        3
    } else {
        4
    }
}

/// Byte offset at which the character with index `i` starts, i.e. the UTF-8
/// encoded length of the first `i` characters of `s`.
pub open spec fn byte_pos(s: Seq<char>, i: int) -> nat
    decreases i,
{
    if i <= 0 {
        0
    } else {
        byte_pos(s, i - 1) + byte_len(s[i - 1])
    }
}

/// Byte offsets grow strictly with the character index, by one to four bytes
/// per character.
pub proof fn lemma_byte_pos_mono(s: Seq<char>, i: int, j: int)
    requires
        0 <= i <= j,
    ensures
        byte_pos(s, i) + (j - i) <= byte_pos(s, j),
        byte_pos(s, j) <= byte_pos(s, i) + 4 * (j - i),
    decreases j - i,
{
    if i < j {
        lemma_byte_pos_mono(s, i, j - 1);
    }
}

/// Executable counterpart of `byte_len`.
fn char_len(c: char) -> (n: usize)
    ensures
        n == byte_len(c),
{
    let u = c as u32;
    if u < 0x80 {
        1
    } else if u < 0x800 {
        2
    } else if u < 0x10000 {
        3
    } else {
        4
    }
}

/// Position of the next unread character of the source: `pos` counts
/// characters, `byte` is the byte offset at which that character starts.
#[derive(Clone, Copy, Debug, PartialEq, Eq, Structural)]
pub struct Cursor {
    pub pos: usize,
    pub byte: usize,
}

impl Cursor {
    /// The two counters agree: `byte` is the byte offset of character `pos`.
    pub open spec fn wf(self, s: Seq<char>) -> bool {
        self.pos <= s.len() && self.byte == byte_pos(s, self.pos as int)
    }

    /// A cursor at the beginning of the source.
    pub fn start() -> (c: Cursor)
        ensures
            c.pos == 0,
            c.byte == 0,
    {
        Cursor { pos: 0, byte: 0 }
    }

    /// Whether the whole source has been read.
    pub fn at_end(self, s: &str) -> (r: bool)
        requires
            self.wf(s@),
        ensures
            r == (self.pos == s@.len()),
    {
        self.pos == s.unicode_len()
    }

    /// The next unread character, without consuming it.
    pub fn peek(self, s: &str) -> (c: char)
        requires
            self.wf(s@),
            self.pos < s@.len(),
        ensures
            c == s@[self.pos as int],
    {
        s.get_char(self.pos)
    }

    /// Consume one character, advancing the byte offset by its encoded length.
    pub fn advance(self, s: &str) -> (next: Cursor)
        requires
            self.wf(s@),
            self.pos < s@.len(),
            byte_pos(s@, s@.len() as int) <= usize::MAX,
        ensures
            next.pos == self.pos + 1,
            next.wf(s@),
    {
        let c = s.get_char(self.pos);
        proof {
            lemma_byte_pos_mono(s@, 0, s@.len() as int);
            lemma_byte_pos_mono(s@, self.pos as int + 1, s@.len() as int);
            assert(byte_pos(s@, self.pos as int + 1) == byte_pos(s@, self.pos as int) + byte_len(
                s@[self.pos as int],
            ));
        }
        Cursor { pos: self.pos + 1, byte: self.byte + char_len(c) }
    }
}

} // verus!
