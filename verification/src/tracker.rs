//! The character cursor with line-position tracking.
//!
//! `NonWhiteSpaceTracker` hands out the source one codepoint at a time,
//! paired with its byte offset, while counting how many non-whitespace
//! codepoints have been consumed since the most recent newline.  The newline
//! itself resets the count.

use vstd::prelude::*;
use vstd::string::StrSliceExecFns;

use crate::chars::byte_offset;
use crate::chars::is_whitespace;
use crate::chars::lemma_byte_offset_le_total;
use crate::chars::next_line_count;
use crate::chars::utf8_len;

verus! {

broadcast use {vstd::std_specs::vec::group_vec_axioms, vstd::seq::group_seq_axioms};

/// A cursor over the source: codepoints with their byte offsets, plus the
/// count of non-whitespace codepoints on the current line.
pub struct NonWhiteSpaceTracker {
    pairs: Vec<(usize, char)>,
    pos: usize,
    non_whitespace_on_current_line: usize,
}

impl NonWhiteSpaceTracker {
    /// The codepoints of the source.
    pub closed spec fn src(&self) -> Seq<char> {
        Seq::new(self.pairs@.len(), |i: int| self.pairs@[i].1)
    }

    /// How many codepoints have been consumed.
    pub closed spec fn pos(&self) -> int {
        self.pos as int
    }

    /// The count of non-whitespace codepoints consumed since the most recent
    /// newline.
    pub closed spec fn line_count(&self) -> nat {
        self.non_whitespace_on_current_line as nat
    }

    /// The cursor is consistent: within bounds, and each codepoint is paired
    /// with its byte offset.
    pub closed spec fn wf(&self) -> bool {
        &&& self.pos <= self.pairs@.len()
        &&& self.non_whitespace_on_current_line <= self.pos
        &&& forall|i: int|
            0 <= i < self.pairs@.len() ==> (#[trigger] self.pairs@[i]).0 == byte_offset(
                self.src(),
                i,
            )
    }

    /// The count of non-whitespace codepoints on the current line, the
    /// newline event itself not counted.
    pub fn non_whitespace_on_current_line(&self) -> (n: usize)
        ensures
            n == self.line_count(),
    {
        self.non_whitespace_on_current_line
    }

    /// Advances past one codepoint and returns it with its byte offset, or
    /// `None` at end of input.
    pub fn next(&mut self) -> (r: Option<(usize, char)>)
        requires
            old(self).wf(),
        ensures
            final(self).wf(),
            final(self).src() == old(self).src(),
            old(self).pos() < old(self).src().len() ==> {
                &&& final(self).pos() == old(self).pos() + 1
                &&& final(self).line_count() == next_line_count(
                    old(self).line_count(),
                    old(self).src()[old(self).pos()],
                )
                &&& r matches Some(p) && p.0 == byte_offset(old(self).src(), old(self).pos())
                    && p.1 == old(self).src()[old(self).pos()]
            },
            old(self).pos() >= old(self).src().len() ==> {
                &&& r is None
                &&& final(self).pos() == old(self).pos()
                &&& final(self).line_count() == old(self).line_count()
            },
    {
        if self.pos < self.pairs.len() {
            let p = self.pairs[self.pos];
            if p.1 == '\n' {
                self.non_whitespace_on_current_line = 0;
            } else if !is_whitespace(p.1) {
                self.non_whitespace_on_current_line = self.non_whitespace_on_current_line + 1;
            }
            self.pos = self.pos + 1;
            Some(p)
        } else {
            None
        }
    }
}

/// Builds the cursor for a source text: pairs every codepoint with its byte
/// offset and starts at the beginning of a fresh line.
pub fn wrap_in_non_whitespace_tracker(src: &str) -> (t: NonWhiteSpaceTracker)
    ensures
        t.wf(),
        t.src() == src@,
        t.pos() == 0,
        t.line_count() == 0,
{
    let n = src.unicode_len();
    let ghost total = vstd::utf8::encode_utf8(src@).len();
    let total_bytes = src.as_bytes().len();
    proof {
        broadcast use vstd::slice::axiom_spec_len;

        assert(total_bytes == total);
    }
    let mut pairs: Vec<(usize, char)> = Vec::new();
    let mut i: usize = 0;
    let mut off: usize = 0;
    while i < n
        invariant
            0 <= i <= n,
            n == src@.len(),
            pairs@.len() == i,
            off == byte_offset(src@, i as int),
            off <= total_bytes,
            total_bytes == vstd::utf8::encode_utf8(src@).len(),
            forall|k: int|
                0 <= k < i ==> (#[trigger] pairs@[k]).1 == src@[k] && pairs@[k].0 == byte_offset(
                    src@,
                    k,
                ),
        decreases n - i,
    {
        let c = src.get_char(i);
        pairs.push((off, c));
        proof {
            lemma_byte_offset_le_total(src@, i + 1);
        }
        off = off + utf8_len(c);
        i = i + 1;
    }
    let t = NonWhiteSpaceTracker { pairs, pos: 0, non_whitespace_on_current_line: 0 };
    proof {
        assert(t.src() =~= src@);
    }
    t
}

} // verus!
