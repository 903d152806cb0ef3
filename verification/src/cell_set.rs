//! A set of cell coordinates, kept as a list in which no cell occurs twice.
//! The list keeps the order of insertion, so a member can be drawn by its
//! position.

use crate::algorithms::{at, listed};
use vstd::prelude::*;

verus! {

/// A set of cells; `view` gives the members as a mathematical set.
pub struct CellSet {
    pub cells: Vec<(usize, usize)>,
}

impl View for CellSet {
    type V = Set<(int, int)>;

    open spec fn view(&self) -> Set<(int, int)> {
        Set::new(|c: (int, int)| listed(self.cells@, c))
    }
}

impl CellSet {
    /// No cell occurs twice in the list.
    pub open spec fn wf(&self) -> bool {
        forall|i: int, j: int| 0 <= i < j < self.cells@.len() ==> self.cells@[i] != self.cells@[j]
    }

    /// The empty set.
    pub fn new() -> (s: CellSet)
        ensures
            s.wf(),
            s.cells@.len() == 0,
            s@ == Set::<(int, int)>::empty(),
    {
        let s = CellSet { cells: Vec::new() };
        proof {
            assert(s@ =~= Set::<(int, int)>::empty());
        }
        s
    }

    /// The number of members.
    pub fn len(&self) -> (n: usize)
        ensures
            n == self.cells@.len(),
            n == 0 <==> self@ == Set::<(int, int)>::empty(),
    {
        proof {
            if self.cells@.len() == 0 {
                assert(self@ =~= Set::<(int, int)>::empty());
            } else {
                assert(listed(self.cells@, at(self.cells@[0])));
                assert(self@.contains(at(self.cells@[0])));
            }
        }
        self.cells.len()
    }

    /// Whether the set has no member.
    pub fn is_empty(&self) -> (r: bool)
        ensures
            r == (self.cells@.len() == 0),
            r <==> self@ == Set::<(int, int)>::empty(),
    {
        self.len() == 0
    }

    /// Where in the list `p` stands, if it is a member.
    pub fn position(&self, p: &(usize, usize)) -> (r: Option<usize>)
        ensures
            match r {
                Some(i) => i < self.cells@.len() && self.cells@[i as int] == *p,
                None => !self@.contains(at(*p)),
            },
    {
        let mut i: usize = 0;
        while i < self.cells.len()
            invariant
                i <= self.cells@.len(),
                forall|k: int| 0 <= k < i ==> self.cells@[k] != *p,
            decreases self.cells@.len() - i,
        {
            let q = self.cells[i];
            if q.0 == p.0 && q.1 == p.1 {
                return Some(i);
            }
            i += 1;
        }
        proof {
            if listed(self.cells@, at(*p)) {
                let k = choose|k: int| 0 <= k < self.cells@.len() && at(#[trigger] self.cells@[k]) == at(*p);
                assert(self.cells@[k] == *p);
            }
        }
        None
    }

    /// Whether `p` is a member.
    pub fn contains(&self, p: &(usize, usize)) -> (r: bool)
        ensures
            r == self@.contains(at(*p)),
    {
        match self.position(p) {
            Some(i) => {
                proof {
                    assert(at(self.cells@[i as int]) == at(*p));
                }
                true
            },
            None => false,
        }
    }

    /// Adds `p` and says whether it was new.
    pub fn insert(&mut self, p: (usize, usize)) -> (r: bool)
        requires
            old(self).wf(),
        ensures
            final(self).wf(),
            final(self)@ == old(self)@.insert(at(p)),
            r == !old(self)@.contains(at(p)),
    {
        if self.contains(&p) {
            proof {
                assert(self@ =~= self@.insert(at(p)));
            }
            false
        } else {
            self.cells.push(p);
            proof {
                let before = old(self).cells@;
                assert forall|i: int, j: int| 0 <= i < j < self.cells@.len() implies self.cells@[i]
                    != self.cells@[j] by {
                    if j == before.len() {
                        assert(at(before[i]) != at(p));
                    }
                }
                assert forall|c: (int, int)| self@.contains(c) <==> old(self)@.insert(at(p)).contains(c) by {
                    if listed(self.cells@, c) {
                        let k = choose|k: int| 0 <= k < self.cells@.len() && at(#[trigger] self.cells@[k]) == c;
                        if k < before.len() {
                            assert(at(before[k]) == c);
                        }
                    }
                    if listed(before, c) {
                        let k = choose|k: int| 0 <= k < before.len() && at(#[trigger] before[k]) == c;
                        assert(at(self.cells@[k]) == c);
                    }
                    if c == at(p) {
                        assert(at(self.cells@[before.len() as int]) == c);
                    }
                }
                assert(self@ =~= old(self)@.insert(at(p)));
            }
            true
        }
    }

    /// Takes `p` out and says whether it was a member.
    pub fn remove(&mut self, p: &(usize, usize)) -> (r: bool)
        requires
            old(self).wf(),
        ensures
            final(self).wf(),
            final(self)@ == old(self)@.remove(at(*p)),
            r == old(self)@.contains(at(*p)),
    {
        match self.position(p) {
            Some(i) => {
                self.cells.remove(i);
                proof {
                    let before = old(self).cells@;
                    assert(at(before[i as int]) == at(*p));
                    assert forall|c: (int, int)| self@.contains(c) <==> old(self)@.remove(at(*p)).contains(c) by {
                        if listed(self.cells@, c) {
                            let k = choose|k: int| 0 <= k < self.cells@.len() && at(#[trigger] self.cells@[k]) == c;
                            if k < i {
                                assert(at(before[k]) == c);
                            } else {
                                assert(at(before[k + 1]) == c);
                            }
                        }
                        if listed(before, c) && c != at(*p) {
                            let k = choose|k: int| 0 <= k < before.len() && at(#[trigger] before[k]) == c;
                            if k < i {
                                assert(at(self.cells@[k]) == c);
                            } else {
                                assert(at(self.cells@[k - 1]) == c);
                            }
                        }
                    }
                    assert(self@ =~= old(self)@.remove(at(*p)));
                }
                true
            },
            None => {
                proof {
                    assert(self@ =~= self@.remove(at(*p)));
                }
                false
            },
        }
    }

    /// The member at position `idx` of the list.
    pub fn nth(&self, idx: usize) -> (r: (usize, usize))
        requires
            idx < self.cells@.len(),
        ensures
            r == self.cells@[idx as int],
            self@.contains(at(r)),
    {
        proof {
            assert(listed(self.cells@, at(self.cells@[idx as int])));
        }
        self.cells[idx]
    }
}

} // verus!
