//! A cursor over the decoded characters of one source text, with O(1)
//! advance: the lexer scans through it left to right.

use crate::chars::{
    class_holds, class_matches, lemma_run_len_bounds, lemma_run_len_exact, run_len, CharClass,
};
use vstd::prelude::*;

verus! {

/// Relies on Vec's FromIterator over str::chars: collects the characters
/// of the string, in order.
#[verifier::external_body]
fn decode_chars(input: &str) -> (v: Vec<char>)
    ensures
        v@ == input@,
{
    input.chars().collect()
}

/// Relies on String's FromIterator over characters: builds the string that
/// holds exactly the given characters, in order.
#[verifier::external_body]
pub(crate) fn string_from_chars(v: Vec<char>) -> (s: String)
    ensures
        s@ == v@,
{
    v.into_iter().collect()
}

/// The source text, decoded once, and the position the scan has reached.
pub struct InputBuffer {
    chars: Vec<char>,
    current_idx: usize,
}

impl InputBuffer {
    /// The whole decoded text.
    pub closed spec fn text(&self) -> Seq<char> {
        self.chars@
    }

    /// How many characters the scan has passed.
    pub closed spec fn pos(&self) -> nat {
        self.current_idx as nat
    }

    /// The scan never stands past the end of the text.
    pub open spec fn wf(&self) -> bool {
        self.pos() <= self.text().len()
    }

    /// The characters not yet consumed.
    pub open spec fn remaining(&self) -> Seq<char> {
        self.text().skip(self.pos() as int)
    }

    pub fn from_input(input: &str) -> (b: InputBuffer)
        ensures
            b.wf(),
            b.text() == input@,
            b.pos() == 0,
    {
        InputBuffer { chars: decode_chars(input), current_idx: 0 }
    }

    /// Whether any character remains to scan.
    pub fn has_chars_remaining(&self) -> (r: bool)
        requires
            self.wf(),
        ensures
            r == (self.remaining().len() > 0),
    {
        self.chars.len() > self.current_idx
    }

    /// Whether the next character falls in the given class.
    pub fn next_char_is(&self, look_for: CharClass) -> (r: bool)
        requires
            self.wf(),
            self.remaining().len() > 0,
        ensures
            r == class_holds(look_for, self.remaining()[0]),
    {
        let next_char = self.chars[self.current_idx];
        class_matches(&look_for, next_char)
    }

    /// Moves the scan past the given number of characters.
    pub fn skip(&mut self, num_chars_to_skip: usize)
        requires
            old(self).wf(),
            num_chars_to_skip <= old(self).remaining().len(),
        ensures
            final(self).wf(),
            final(self).text() == old(self).text(),
            final(self).pos() == old(self).pos() + num_chars_to_skip,
            final(self).remaining() == old(self).remaining().skip(num_chars_to_skip as int),
    {
        let text_len = self.chars.len();
        self.current_idx = self.current_idx + num_chars_to_skip;
        proof {
            assert(self.remaining() =~= old(self).remaining().skip(num_chars_to_skip as int));
        }
    }

    /// Consumes and returns the next character.
    pub fn take_next(&mut self) -> (c: char)
        requires
            old(self).wf(),
            old(self).remaining().len() > 0,
        ensures
            final(self).wf(),
            final(self).text() == old(self).text(),
            final(self).pos() == old(self).pos() + 1,
            final(self).remaining() == old(self).remaining().skip(1),
            c == old(self).remaining()[0],
    {
        let output = self.chars[self.current_idx];
        self.skip(1);
        output
    }

    /// Reads, without consuming, the longest run of characters in the class.
    pub fn read_while(&self, look_for: CharClass) -> (out: String)
        requires
            self.wf(),
        ensures
            out@ == self.remaining().take(run_len(self.remaining(), look_for) as int),
            out@.len() == run_len(self.remaining(), look_for),
    {
        let mut out: Vec<char> = Vec::new();
        let mut i: usize = self.current_idx;
        while i < self.chars.len() && class_matches(&look_for, self.chars[i])
            invariant
                self.wf(),
                self.current_idx <= i <= self.chars.len(),
                out@ =~= self.text().subrange(self.current_idx as int, i as int),
                forall|j: int|
                    self.current_idx <= j < i ==> class_holds(look_for, self.text()[j]),
            decreases self.chars.len() - i,
        {
            out.push(self.chars[i]);
            i = i + 1;
        }
        proof {
            let rem = self.remaining();
            let n = (i - self.current_idx) as nat;
            assert forall|k: int| 0 <= k < n implies class_holds(look_for, rem[k]) by {
                assert(rem[k] == self.text()[self.current_idx + k]);
            }
            if n < rem.len() {
                assert(rem[n as int] == self.text()[i as int]);
            }
            lemma_run_len_exact(rem, look_for, n);
            assert(out@ =~= rem.take(n as int));
        }
        string_from_chars(out)
    }

    /// Reads and consumes the longest run of characters in the class.
    pub fn take_while(&mut self, look_for: CharClass) -> (out: String)
        requires
            old(self).wf(),
        ensures
            final(self).wf(),
            final(self).text() == old(self).text(),
            out@ == old(self).remaining().take(
                run_len(old(self).remaining(), look_for) as int,
            ),
            final(self).pos() == old(self).pos() + run_len(old(self).remaining(), look_for),
    {
        proof {
            lemma_run_len_bounds(old(self).remaining(), look_for);
        }
        let output = self.read_while(look_for);
        let n = output.as_str().unicode_len();
        self.skip(n);
        output
    }
}

} // verus!
