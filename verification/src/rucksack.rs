//! Rucksack item bookkeeping: finding the item type duplicated between the
//! two halves of a rucksack, the item common to a group of three lines, and
//! the numeric priority of an item type.

use vstd::prelude::*;

verus! {

/// An item type, identified by its ASCII letter.
#[derive(Debug, Clone, Copy, PartialEq, Eq, Structural)]
pub struct ItemType {
    pub inner: u8,
}

/// The letter is one of `a`..`z` or `A`..`Z`.
pub open spec fn is_letter(b: u8) -> bool {
    (97 <= b <= 122) || (65 <= b <= 90)
}

/// The priority of a letter: `a`..`z` score 1 to 26, `A`..`Z` score 27 to
/// 52.
pub open spec fn spec_priority(b: u8) -> int {
    if b > 96 {
        b - 96
    } else {
        b - 64 + 26
    }
}

impl ItemType {
    /// The item's numeric priority.
    pub fn numeric(&self) -> (r: u8)
        requires
            is_letter(self.inner),
        ensures
            r == spec_priority(self.inner),
            1 <= r <= 52,
    {
        let ascii = self.inner;
        if ascii > 96 {
            ascii - 96
        } else {
            ascii - 64 + 26
        }
    }

    pub fn from_byte(byte: u8) -> (r: ItemType)
        ensures
            r.inner == byte,
    {
        ItemType { inner: byte }
    }
}

/// A rucksack: a line of items, its two compartments being the two halves.
pub struct Rucksack {
    items: Vec<u8>,
}

impl Rucksack {
    pub closed spec fn view(self) -> Seq<u8> {
        self.items@
    }

    /// Half the item count: the size of each compartment.
    pub open spec fn half(self) -> int {
        self.view().len() as int / 2
    }

    /// `b` is in the first compartment.
    pub open spec fn in_left(self, b: u8) -> bool {
        exists|i: int| 0 <= i < self.half() && self.view()[i] == b
    }

    /// `b` is in the second compartment.
    pub open spec fn in_right(self, b: u8) -> bool {
        exists|i: int| self.half() <= i < 2 * self.half() && self.view()[i] == b
    }

    pub fn new(items: Vec<u8>) -> (r: Rucksack)
        ensures
            r.view() == items@,
    {
        Rucksack { items }
    }

    /// The smallest item type present in both compartments; some duplicate
    /// must exist.
    pub fn duplicate(&self) -> (r: ItemType)
        requires
            exists|b: u8| self.in_left(b) && self.in_right(b),
        ensures
            self.in_left(r.inner) && self.in_right(r.inner),
            forall|b: u8| self.in_left(b) && self.in_right(b) ==> r.inner <= b,
    {
        let size = self.items.len() / 2;
        let mut best: u8 = 0;
        let mut found = false;
        let mut i: usize = 0;
        while i < size
            invariant
                size == self.half(),
                size * 2 <= self.view().len(),
                self.view().len() <= usize::MAX,
                i <= size,
                found ==> self.in_left(best) && self.in_right(best),
                forall|j: int|
                    0 <= j < i && self.in_right(#[trigger] self.view()[j]) ==> found && best
                        <= self.view()[j],
            decreases size - i,
        {
            let candidate = self.items[i];
            let mut j: usize = size;
            let mut hit = false;
            while j < 2 * size
                invariant
                    size == self.half(),
                    size * 2 <= self.view().len(),
                    self.view().len() <= usize::MAX,
                    size <= j <= 2 * size,
                    candidate == self.view()[i as int],
                    0 <= i < size,
                    hit == exists|m: int|
                        size <= m < j && #[trigger] self.view()[m] == candidate,
                decreases 2 * size - j,
            {
                if self.items[j] == candidate {
                    hit = true;
                }
                j += 1;
            }
            if hit && (!found || candidate < best) {
                best = candidate;
                found = true;
            }
            i += 1;
        }
        proof {
            if !found {
                let b = choose|b: u8| self.in_left(b) && self.in_right(b);
                let j = choose|j: int| 0 <= j < self.half() && self.view()[j] == b;
                assert(self.in_right(self.view()[j]));
            } else {
                assert forall|b: u8| self.in_left(b) && self.in_right(b) implies best <= b by {
                    let j = choose|j: int| 0 <= j < self.half() && self.view()[j] == b;
                    assert(self.in_right(self.view()[j]));
                }
            }
        }
        ItemType { inner: best }
    }
}

/// A group of three rucksack lines sharing one common item type.
pub struct Group {
    lines: [Vec<u8>; 3],
}

impl Group {
    pub closed spec fn line(self, n: int) -> Seq<u8> {
        self.lines@[n]@
    }

    /// `b` occurs in line `n`.
    pub open spec fn in_line(self, n: int, b: u8) -> bool {
        exists|i: int| 0 <= i < self.line(n).len() && self.line(n)[i] == b
    }

    pub fn new(lines: [Vec<u8>; 3]) -> (g: Group)
        ensures
            g.line(0) == lines@[0]@,
            g.line(1) == lines@[1]@,
            g.line(2) == lines@[2]@,
    {
        Group { lines }
    }

    /// Whether `b` occurs in line `n`.
    fn line_contains(&self, n: usize, b: u8) -> (r: bool)
        requires
            n < 3,
        ensures
            r == self.in_line(n as int, b),
    {
        let line = &self.lines[n];
        let mut i: usize = 0;
        while i < line.len()
            invariant
                line@ == self.line(n as int),
                i <= line@.len(),
                forall|j: int| 0 <= j < i ==> self.line(n as int)[j] != b,
            decreases line@.len() - i,
        {
            if line[i] == b {
                return true;
            }
            i += 1;
        }
        false
    }

    /// The smallest item type common to all three lines; some common item
    /// must exist.
    pub fn common(&self) -> (r: ItemType)
        requires
            exists|b: u8|
                self.in_line(0, b) && #[trigger] self.in_line(1, b) && self.in_line(2, b),
        ensures
            self.in_line(0, r.inner) && self.in_line(1, r.inner) && self.in_line(2, r.inner),
            forall|b: u8|
                self.in_line(0, b) && #[trigger] self.in_line(1, b) && self.in_line(2, b)
                    ==> r.inner <= b,
    {
        let first = &self.lines[0];
        let mut best: u8 = 0;
        let mut found = false;
        let mut i: usize = 0;
        while i < first.len()
            invariant
                first@ == self.line(0),
                i <= first@.len(),
                found ==> self.in_line(0, best) && self.in_line(1, best) && self.in_line(
                    2,
                    best,
                ),
                forall|j: int|
                    0 <= j < i && self.in_line(1, #[trigger] self.line(0)[j]) && self.in_line(
                        2,
                        self.line(0)[j],
                    ) ==> found && best <= self.line(0)[j],
            decreases first@.len() - i,
        {
            let candidate = first[i];
            if self.line_contains(1, candidate) && self.line_contains(2, candidate) {
                if !found || candidate < best {
                    best = candidate;
                    found = true;
                }
            }
            i += 1;
        }
        proof {
            if !found {
                let b = choose|b: u8|
                    self.in_line(0, b) && #[trigger] self.in_line(1, b) && self.in_line(2, b);
                let j = choose|j: int| 0 <= j < self.line(0).len() && self.line(0)[j] == b;
                assert(self.in_line(1, self.line(0)[j]) && self.in_line(2, self.line(0)[j]));
            } else {
                assert forall|b: u8|
                    self.in_line(0, b) && #[trigger] self.in_line(1, b) && self.in_line(2, b)
                        implies best <= b by {
                    let j = choose|j: int| 0 <= j < self.line(0).len() && self.line(0)[j] == b;
                    assert(self.in_line(1, self.line(0)[j]) && self.in_line(
                        2,
                        self.line(0)[j],
                    ));
                }
            }
        }
        ItemType { inner: best }
    }
}

} // verus!
