//! The priority frontier: the best-first open set, kept as an ordered
//! collection keyed by (priority, coordinate). It supports insertion,
//! extraction of the lexicographically smallest entry, and removal of one
//! exact stale entry, which together simulate decrease-key.

use vstd::prelude::*;

use crate::grid::Coordinate;

verus! {

/// One queued entry: an estimated total cost and the cell it belongs to.
#[derive(Debug, Clone, Copy, PartialEq, Eq, Structural)]
pub struct FrontierEntry {
    pub priority: usize,
    pub cell: Coordinate,
}

/// The ordering of entries: by priority, then by row, then by column, so
/// ties are broken deterministically.
pub open spec fn entry_le(a: FrontierEntry, b: FrontierEntry) -> bool {
    ||| a.priority < b.priority
    ||| (a.priority == b.priority && a.cell.row < b.cell.row)
    ||| (a.priority == b.priority && a.cell.row == b.cell.row && a.cell.col <= b.cell.col)
}

/// The best-first open set.
pub struct Frontier {
    entries: Vec<FrontierEntry>,
}

impl Frontier {
    /// The queued entries, in ascending order.
    pub closed spec fn entries(self) -> Seq<FrontierEntry> {
        self.entries@
    }

    /// The entries are sorted by `entry_le`.
    pub closed spec fn wf(self) -> bool {
        forall|i: int, j: int|
            0 <= i < j < self.entries@.len() ==> entry_le(
                #[trigger] self.entries@[i],
                #[trigger] self.entries@[j],
            )
    }

    /// An empty frontier.
    pub fn new() -> (f: Frontier)
        ensures
            f.wf(),
            f.entries() =~= Seq::<FrontierEntry>::empty(),
    {
        Frontier { entries: Vec::new() }
    }

    pub fn is_empty(&self) -> (r: bool)
        ensures
            r == (self.entries().len() == 0),
    {
        self.entries.len() == 0
    }

    fn le(a: &FrontierEntry, b: &FrontierEntry) -> (r: bool)
        ensures
            r == entry_le(*a, *b),
    {
        if a.priority < b.priority {
            true
        } else if a.priority == b.priority {
            if a.cell.row < b.cell.row {
                true
            } else {
                a.cell.row == b.cell.row && a.cell.col <= b.cell.col
            }
        } else {
            false
        }
    }

    /// The position at which `e` must be placed to keep the order, found
    /// by binary search.
    fn position_for(&self, e: &FrontierEntry) -> (k: usize)
        requires
            self.wf(),
        ensures
            k <= self.entries().len(),
            forall|i: int| 0 <= i < k ==> !entry_le(*e, #[trigger] self.entries()[i]),
            k < self.entries().len() ==> entry_le(*e, self.entries()[k as int]),
    {
        let mut lo: usize = 0;
        let mut hi: usize = self.entries.len();
        while lo < hi
            invariant
                self.wf(),
                lo <= hi <= self.entries@.len(),
                forall|i: int| 0 <= i < lo ==> !entry_le(*e, #[trigger] self.entries@[i]),
                forall|i: int|
                    hi <= i < self.entries@.len() ==> entry_le(*e, #[trigger] self.entries@[i]),
            decreases hi - lo,
        {
            let mid = lo + (hi - lo) / 2;
            if Self::le(e, &self.entries[mid]) {
                proof {
                    assert forall|i: int|
                        mid <= i < self.entries@.len() implies entry_le(
                        *e,
                        #[trigger] self.entries@[i],
                    ) by {
                        if i > mid {
                            assert(entry_le(self.entries@[mid as int], self.entries@[i]));
                        }
                    }
                }
                hi = mid;
            } else {
                proof {
                    assert forall|i: int| 0 <= i <= mid implies !entry_le(
                        *e,
                        #[trigger] self.entries@[i],
                    ) by {
                        if i < mid {
                            assert(entry_le(self.entries@[i], self.entries@[mid as int]));
                        }
                    }
                }
                lo = mid + 1;
            }
        }
        lo
    }

    /// Queues an entry, keeping the collection ordered.
    pub fn insert(&mut self, priority: usize, cell: Coordinate)
        requires
            old(self).wf(),
        ensures
            final(self).wf(),
            exists|k: int|
                0 <= k <= old(self).entries().len() && final(self).entries() == old(
                    self,
                ).entries().insert(k, FrontierEntry { priority, cell }),
    {
        let e = FrontierEntry { priority, cell };
        let k = self.position_for(&e);
        proof {
            assert(forall|i: int| 0 <= i < k ==> entry_le(#[trigger] self.entries@[i], e));
        }
        self.entries.insert(k, e);
        proof {
            let s = old(self).entries();
            assert(final(self).entries() == s.insert(k as int, e));
            assert forall|i: int, j: int|
                0 <= i < j < final(self).entries().len() implies entry_le(
                #[trigger] final(self).entries()[i],
                #[trigger] final(self).entries()[j],
            ) by {
                let t = final(self).entries();
                if j < k {
                    assert(t[i] == s[i] && t[j] == s[j]);
                } else if i > k {
                    assert(t[i] == s[i - 1] && t[j] == s[j - 1]);
                } else if i == k {
                    assert(t[i] == e && t[j] == s[j - 1]);
                } else if j == k {
                    assert(t[i] == s[i] && t[j] == e);
                } else {
                    assert(t[i] == s[i] && t[j] == s[j - 1]);
                    if i < k && k <= j - 1 {
                        if k < s.len() {
                            assert(entry_le(s[i], e) || entry_le(s[i], s[j - 1]));
                        }
                        assert(entry_le(s[i], s[j - 1]));
                    }
                }
            }
        }
    }

    /// Removes and returns the lexicographically smallest (priority, cell)
    /// entry.
    pub fn pop_min(&mut self) -> (r: FrontierEntry)
        requires
            old(self).wf(),
            old(self).entries().len() > 0,
        ensures
            final(self).wf(),
            r == old(self).entries()[0],
            final(self).entries() == old(self).entries().skip(1),
            forall|i: int| 0 <= i < old(self).entries().len() ==> entry_le(
                r,
                #[trigger] old(self).entries()[i],
            ),
    {
        let r = self.entries.remove(0);
        proof {
            assert(final(self).entries() =~= old(self).entries().skip(1));
            assert(entry_le(r, r));
        }
        r
    }

    /// Deletes one exact matching entry, if present, and reports the position
    /// it was removed from; used to invalidate a stale estimate before
    /// re-queueing an updated one.
    pub fn remove(&mut self, priority: usize, cell: Coordinate) -> (r: Option<usize>)
        requires
            old(self).wf(),
        ensures
            final(self).wf(),
            ({
                let e = FrontierEntry { priority, cell };
                match r {
                    Some(k) => 0 <= k < old(self).entries().len() && old(self).entries()[
                        k as int
                    ] == e && final(self).entries() == old(self).entries().remove(k as int),
                    None => !old(self).entries().contains(e) && final(self).entries() == old(
                        self,
                    ).entries(),
                }
            }),
    {
        let e = FrontierEntry { priority, cell };
        let mut k: usize = 0;
        while k < self.entries.len()
            invariant
                old(self).wf(),
                self == old(self),
                e == (FrontierEntry { priority, cell }),
                k <= self.entries@.len(),
                forall|i: int| 0 <= i < k ==> #[trigger] self.entries@[i] != e,
            decreases self.entries@.len() - k,
        {
            let candidate = self.entries[k];
            if candidate == e {
                proof {
                    assert(self.entries@[k as int] == e);
                    assert(old(self).entries().contains(e));
                }
                let ghost s = self.entries@;
                self.entries.remove(k);
                proof {
                    assert(s == old(self).entries());
                    assert(self.entries@ == s.remove(k as int));
                    assert forall|i: int, j: int|
                        0 <= i < j < self.entries@.len() implies entry_le(
                        #[trigger] self.entries@[i],
                        #[trigger] self.entries@[j],
                    ) by {
                        let t = self.entries@;
                        if j < k {
                            assert(t[i] == s[i] && t[j] == s[j]);
                        } else if i >= k {
                            assert(t[i] == s[i + 1] && t[j] == s[j + 1]);
                        } else {
                            assert(t[i] == s[i] && t[j] == s[j + 1]);
                        }
                    }
                }
                return Some(k);
            }
            k += 1;
        }
        proof {
            if old(self).entries().contains(e) {
                let i = choose|i: int|
                    0 <= i < old(self).entries().len() && old(self).entries()[i] == e;
                assert(self.entries@[i] != e);
            }
        }
        None
    }
}

} // verus!
