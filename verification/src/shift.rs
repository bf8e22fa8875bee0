//! A fixed-size circular buffer: pushing a value evicts the oldest entry,
//! and entries can be read by age in either direction.

use vstd::prelude::*;

verus! {

/// A circular buffer of `N` values, newest first.
#[derive(Debug)]
pub struct CircularBuffer<const N: usize, T> {
    inner: [T; N],
    start: usize,
}

impl<const N: usize, T> CircularBuffer<N, T> {
    /// The buffer contents in order of newest to oldest.
    pub closed spec fn view(self) -> Seq<T> {
        Seq::new(N as nat, |i: int| self.inner@[(self.start + i) % (N as int)])
    }

    /// The view always holds exactly `N` entries.
    pub proof fn lemma_view_len(self)
        ensures
            self.view().len() == N,
    {
    }

    pub closed spec fn wf(self) -> bool {
        &&& self.start < N
        &&& N < usize::MAX / 2
    }

    /// Wraps an array, its first element being the newest entry.
    pub fn from_array(inner: [T; N]) -> (b: CircularBuffer<N, T>)
        requires
            0 < N < usize::MAX / 2,
        ensures
            b.wf(),
            b.view() =~= inner@,
    {
        let b = CircularBuffer { inner, start: 0 };
        proof {
            assert forall|i: int| 0 <= i < N implies b.view()[i] == inner@[i] by {
                assert((0 + i) % (N as int) == i) by (nonlinear_arith)
                    requires
                        0 <= i < N as int,
                ;
            }
        }
        b
    }

    /// Pushes a value, evicting the oldest entry: the new value becomes the
    /// newest and every other entry ages by one place.
    pub fn push(&mut self, value: T)
        requires
            old(self).wf(),
        ensures
            final(self).wf(),
            final(self).view()[0] == value,
            forall|i: int| 1 <= i < N ==> final(self).view()[i] == old(self).view()[i - 1],
    {
        if self.start == 0 {
            self.start = N - 1;
        } else {
            self.start -= 1;
        }
        self.inner[self.start] = value;
        proof {
            let n = N as int;
            let s_old = old(self).start as int;
            let s_new = self.start as int;
            assert(s_new == if s_old == 0 {
                n - 1
            } else {
                s_old - 1
            });
            assert(final(self).view()[0] == value) by {
                assert((s_new + 0) % n == s_new) by (nonlinear_arith)
                    requires
                        0 <= s_new < n,
                ;
            }
            assert forall|i: int| 1 <= i < N implies final(self).view()[i] == old(
                self,
            ).view()[i - 1] by {
                assert((s_new + i) % n == (s_old + (i - 1)) % n) by (nonlinear_arith)
                    requires
                        0 < n,
                        1 <= i < n,
                        0 <= s_old < n,
                        s_new == if s_old == 0 {
                            n - 1
                        } else {
                            s_old - 1
                        },
                ;
                assert((s_new + i) % n != s_new) by (nonlinear_arith)
                    requires
                        0 < n,
                        1 <= i < n,
                        0 <= s_new < n,
                ;
            }
        }
    }

    /// The oldest entry.
    pub fn oldest(&self) -> (r: &T)
        requires
            self.wf(),
            N > 0,
        ensures
            *r == self.view()[N as int - 1],
    {
        proof {
            let n = N as int;
            let s = self.start as int;
            assert((s + (n - 1)) % n == if s == 0 {
                n - 1
            } else {
                s - 1
            }) by (nonlinear_arith)
                requires
                    0 < n,
                    0 <= s < n,
            ;
        }
        if self.start == 0 {
            &self.inner[N - 1]
        } else {
            &self.inner[self.start - 1]
        }
    }

    /// The `i`th entry in order of newest to oldest.
    pub fn ith_newest(&self, i: usize) -> (r: &T)
        requires
            self.wf(),
            i < N,
        ensures
            *r == self.view()[i as int],
    {
        &self.inner[(self.start + i) % N]
    }

    /// The `i`th entry in order of oldest to newest.
    pub fn ith_oldest(&self, i: usize) -> (r: &T)
        requires
            self.wf(),
            i < N,
        ensures
            *r == self.view()[N as int - 1 - i],
    {
        proof {
            let n = N as int;
            let s = self.start as int;
            let i = i as int;
            assert((s + n - 1 - i) % n == (s + (n - 1 - i)) % n);
        }
        &self.inner[(self.start + N - 1 - i) % N]
    }
}

} // verus!
