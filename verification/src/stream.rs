//! Start-of-packet detection over a character stream: a halt is signalled
//! as soon as the last four characters seen are pairwise distinct.

use vstd::prelude::*;

use crate::shift::CircularBuffer;

verus! {

/// A stream fed one character at a time, remembering the last three.
pub struct Stream {
    history: CircularBuffer<3, char>,
    count: u32,
}

impl Stream {
    /// The last three characters, newest first.
    pub closed spec fn spec_history(self) -> Seq<char> {
        self.history.view()
    }

    /// Characters consumed so far.
    pub closed spec fn spec_count(self) -> nat {
        self.count as nat
    }

    pub closed spec fn wf(self) -> bool {
        self.history.wf()
    }

    /// Starts a stream from its first three raw bytes; the first byte is
    /// the oldest.
    pub fn new(first_three_chars: [u8; 3]) -> (s: Stream)
        ensures
            s.wf(),
            s.spec_count() == 3,
            s.spec_history() =~= seq![
                first_three_chars@[2] as char,
                first_three_chars@[1] as char,
                first_three_chars@[0] as char,
            ],
    {
        Stream {
            history: CircularBuffer::from_array(
                [
                    first_three_chars[2] as char,
                    first_three_chars[1] as char,
                    first_three_chars[0] as char,
                ],
            ),
            count: 3,
        }
    }

    /// Consumes one character and reports whether the four most recent
    /// characters (the incoming one and the remembered three) are pairwise
    /// distinct.
    pub fn eat(&mut self, c: char) -> (halt: bool)
        requires
            old(self).wf(),
            old(self).spec_count() < u32::MAX,
        ensures
            final(self).wf(),
            final(self).spec_count() == old(self).spec_count() + 1,
            final(self).spec_history() =~= seq![
                c,
                old(self).spec_history()[0],
                old(self).spec_history()[1],
            ],
            halt == {
                let h0 = old(self).spec_history()[0];
                let h1 = old(self).spec_history()[1];
                let h2 = old(self).spec_history()[2];
                &&& c != h0
                &&& c != h1
                &&& c != h2
                &&& h0 != h1
                &&& h0 != h2
                &&& h1 != h2
            },
    {
        self.count += 1;
        let pushed_out = *self.history.oldest();
        let h0 = *self.history.ith_newest(0);
        let h1 = *self.history.ith_newest(1);
        self.history.push(c);
        proof {
            old(self).history.lemma_view_len();
            self.history.lemma_view_len();
            assert(self.spec_history().len() == 3);
            assert(self.spec_history()[0] == c);
            assert(self.spec_history()[1] == old(self).spec_history()[0]);
            assert(self.spec_history()[2] == old(self).spec_history()[1]);
        }
        if pushed_out == c {
            // The evicted character matches the incoming one: the window
            // certainly repeats, so keep looking.
            return false;
        }
        // Otherwise the four most recent characters halt the stream exactly
        // when they are pairwise distinct.
        c != h0 && c != h1 && h0 != h1 && h0 != pushed_out && h1 != pushed_out
    }

    /// Characters consumed so far.
    pub fn count(&self) -> (n: u32)
        ensures
            n == self.spec_count(),
    {
        self.count
    }
}

} // verus!
