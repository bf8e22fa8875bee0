//! Stacks of crates: values are loaded onto the bottoms of numbered piles,
//! and two movers rearrange them, one carrying a single crate at a time
//! (reversing each batch) and one carrying whole batches in order.

use vstd::prelude::*;
use std::collections::VecDeque;

verus! {

/// Numbered piles of crates; the back of each queue is the top of the
/// pile.
#[derive(Clone)]
pub struct Piles {
    piles: Vec<VecDeque<char>>,
}

impl Piles {
    /// The pile contents, bottom first.
    pub closed spec fn view(self) -> Seq<Seq<char>> {
        self.piles@.map_values(|d: VecDeque<char>| d@)
    }

    /// `count` empty piles.
    pub fn new(count: usize) -> (p: Piles)
        ensures
            p.view().len() == count,
            forall|k: int| 0 <= k < count ==> (#[trigger] p.view()[k]).len() == 0,
    {
        let mut piles: Vec<VecDeque<char>> = Vec::new();
        let mut i: usize = 0;
        while i < count
            invariant
                i <= count,
                piles@.len() == i,
                forall|k: int| 0 <= k < i ==> (#[trigger] piles@[k])@.len() == 0,
            decreases count - i,
        {
            piles.push(VecDeque::new());
            i += 1;
        }
        let p = Piles { piles };
        proof {
            assert(forall|k: int| 0 <= k < count ==> (#[trigger] p.view()[k]) == p.piles@[k]@);
        }
        p
    }

    /// Slides a crate under pile `on`.
    pub fn put(&mut self, on: usize, value: char)
        requires
            on < old(self).view().len(),
        ensures
            final(self).view() == old(self).view().update(
                on as int,
                seq![value] + old(self).view()[on as int],
            ),
    {
        let mut pile = self.piles.remove(on);
        pile.push_front(value);
        self.piles.insert(on, pile);
        proof {
            assert(final(self).view() =~= old(self).view().update(
                on as int,
                seq![value] + old(self).view()[on as int],
            ));
        }
    }

    /// Moves `count` crates one at a time from the top of pile `from` to
    /// the top of pile `to`, reversing their order.
    pub fn shuffle(&mut self, count: u32, from: usize, to: usize)
        requires
            from < old(self).view().len(),
            to < old(self).view().len(),
            count as int <= old(self).view()[from as int].len(),
        ensures
            final(self).view().len() == old(self).view().len(),
            ({
                let l = old(self).view()[from as int].len() as int;
                if from == to {
                    final(self).view() == old(self).view()
                } else {
                    final(self).view() == old(self).view().update(
                        from as int,
                        old(self).view()[from as int].take(l - count),
                    ).update(
                        to as int,
                        old(self).view()[to as int] + old(self).view()[from as int].skip(
                            l - count,
                        ).reverse(),
                    )
                }
            }),
    {
        if from == to {
            // Each step would put the crate straight back where it came
            // from, so the piles do not change.
            return ;
        }
        let mut a = self.piles.remove(from);
        let to_shifted = if to > from {
            to - 1
        } else {
            to
        };
        let mut b = self.piles.remove(to_shifted);
        let ghost orig_a = a@;
        let ghost orig_b = b@;
        let ghost l = a@.len() as int;
        let mut i: usize = 0;
        while i < count as usize
            invariant
                i <= count as usize,
                count as int <= l,
                l == orig_a.len(),
                a@ == orig_a.take(l - i),
                b@ == orig_b + orig_a.skip(l - i).reverse(),
            decreases count as usize - i,
        {
            let v = match a.pop_back() {
                Some(v) => v,
                None => {
                    proof {
                        assert(false);
                    }
                    unreached()
                },
            };
            b.push_back(v);
            proof {
                assert(a@ =~= orig_a.take(l - i - 1));
                assert(b@ =~= orig_b + orig_a.skip(l - i - 1).reverse());
            }
            i += 1;
        }
        if to > from {
            let pile_a = a;
            self.piles.insert(to_shifted, b);
            self.piles.insert(from, pile_a);
        } else {
            let pile_b = b;
            self.piles.insert(to, pile_b);
            self.piles.insert(from, a);
        }
        proof {
            let expected = old(self).view().update(
                from as int,
                orig_a.take(l - count),
            ).update(to as int, orig_b + orig_a.skip(l - count).reverse());
            assert(final(self).view() =~= expected);
        }
    }

    /// Moves `count` crates from the top of pile `from` to the top of pile
    /// `to` in one batch, keeping their order.
    pub fn move_(&mut self, count: u32, from: usize, to: usize)
        requires
            from < old(self).view().len(),
            to < old(self).view().len(),
            count as int <= old(self).view()[from as int].len(),
        ensures
            final(self).view().len() == old(self).view().len(),
            ({
                let l = old(self).view()[from as int].len() as int;
                if from == to {
                    final(self).view() == old(self).view()
                } else {
                    final(self).view() == old(self).view().update(
                        from as int,
                        old(self).view()[from as int].take(l - count),
                    ).update(
                        to as int,
                        old(self).view()[to as int] + old(self).view()[from as int].skip(
                            l - count,
                        ),
                    )
                }
            }),
    {
        if from == to {
            // Removing the batch and putting it straight back changes
            // nothing.
            return ;
        }
        let mut a = self.piles.remove(from);
        let to_shifted = if to > from {
            to - 1
        } else {
            to
        };
        let mut b = self.piles.remove(to_shifted);
        let ghost orig_a = a@;
        let ghost orig_b = b@;
        let ghost l = a@.len() as int;
        let size = a.len();
        let start = size - count as usize;
        let mut i: usize = start;
        while i < size
            invariant
                start == l - count,
                start <= i <= size,
                size == orig_a.len(),
                a@ == orig_a,
                b@ == orig_b + orig_a.subrange(start as int, i as int),
            decreases size - i,
        {
            b.push_back(a[i]);
            proof {
                assert(b@ =~= orig_b + orig_a.subrange(start as int, i + 1));
            }
            i += 1;
        }
        a.truncate(start);
        proof {
            assert(a@ =~= orig_a.take(l - count));
            assert(orig_a.subrange(start as int, size as int) =~= orig_a.skip(l - count));
        }
        if to > from {
            let pile_a = a;
            self.piles.insert(to_shifted, b);
            self.piles.insert(from, pile_a);
        } else {
            let pile_b = b;
            self.piles.insert(to, pile_b);
            self.piles.insert(from, a);
        }
        proof {
            let expected = old(self).view().update(
                from as int,
                orig_a.take(l - count),
            ).update(to as int, orig_b + orig_a.skip(l - count));
            assert(final(self).view() =~= expected);
        }
    }

    /// The top crate of each pile, a space standing for an empty pile.
    pub fn tops(&self) -> (r: Vec<char>)
        ensures
            r@.len() == self.view().len(),
            forall|k: int|
                0 <= k < r@.len() ==> #[trigger] r@[k] == if self.view()[k].len() > 0 {
                    self.view()[k].last()
                } else {
                    ' '
                },
    {
        let mut r: Vec<char> = Vec::new();
        let mut k: usize = 0;
        while k < self.piles.len()
            invariant
                k <= self.piles@.len(),
                r@.len() == k,
                forall|j: int|
                    0 <= j < k ==> #[trigger] r@[j] == if self.view()[j].len() > 0 {
                        self.view()[j].last()
                    } else {
                        ' '
                    },
            decreases self.piles@.len() - k,
        {
            let pile = &self.piles[k];
            if pile.len() > 0 {
                proof {
                    assert(self.view()[k as int] == pile@);
                }
                r.push(pile[pile.len() - 1]);
            } else {
                r.push(' ');
            }
            k += 1;
        }
        r
    }
}

} // verus!
