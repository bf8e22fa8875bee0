//! Keeps the three largest totals seen so far, in descending order.

use vstd::prelude::*;

verus! {

/// The three largest values inserted so far, largest first.
pub struct TopThree {
    values: [u32; 3],
}

impl TopThree {
    pub closed spec fn view(self) -> Seq<u32> {
        self.values@
    }

    /// The slots are sorted in descending order.
    pub open spec fn wf(self) -> bool {
        &&& self.view().len() == 3
        &&& self.view()[0] >= self.view()[1] >= self.view()[2]
    }

    /// All three slots start at zero.
    pub fn new() -> (t: TopThree)
        ensures
            t.wf(),
            t.view() =~= seq![0u32, 0u32, 0u32],
    {
        TopThree { values: [0, 0, 0] }
    }

    /// Offers a value: it displaces the slots below its rank, and the
    /// smallest of the four values falls out.
    pub fn try_insert(&mut self, value: u32)
        requires
            old(self).wf(),
        ensures
            final(self).wf(),
            final(self).view() =~= {
                let v = old(self).view();
                if value >= v[0] {
                    seq![value, v[0], v[1]]
                } else if value >= v[1] {
                    seq![v[0], value, v[1]]
                } else if value > v[2] {
                    seq![v[0], v[1], value]
                } else {
                    v
                }
            },
    {
        if value >= self.values[0] {
            self.values[2] = self.values[1];
            self.values[1] = self.values[0];
            self.values[0] = value;
        } else if value >= self.values[1] {
            self.values[2] = self.values[1];
            self.values[1] = value;
        } else if value > self.values[2] {
            self.values[2] = value;
        }
    }

    /// The largest value seen.
    pub fn most(&self) -> (r: &u32)
        ensures
            *r == self.view()[0],
    {
        &self.values[0]
    }

    /// The sum of the three largest values.
    pub fn total(&self) -> (r: u32)
        requires
            self.view()[0] + self.view()[1] + self.view()[2] <= u32::MAX,
        ensures
            r == self.view()[0] + self.view()[1] + self.view()[2],
    {
        self.values[0] + self.values[1] + self.values[2]
    }
}

} // verus!
