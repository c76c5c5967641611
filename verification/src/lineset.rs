use vstd::prelude::*;
use crate::partition::LineId;

verus! {

/// A set of lines that the user marked by hand, each named by the offset at
/// which it starts. The offsets are kept in increasing order.
pub struct LineSet {
    items: Vec<LineId>,
}

/// The set after `id` was toggled: without it where it was there, with it
/// where it was not.
pub open spec fn toggled(set: Set<LineId>, id: LineId) -> Set<LineId> {
    if set.contains(id) {
        set.remove(id)
    } else {
        set.insert(id)
    }
}

/// Toggling a line twice gives the set back.
pub proof fn lemma_toggle_twice(set: Set<LineId>, id: LineId)
    ensures
        toggled(toggled(set, id), id) == set,
        toggled(toggled(set, id), id).contains(id) == set.contains(id),
{
    assert(toggled(toggled(set, id), id) =~= set);
}

impl LineSet {
    pub closed spec fn view(&self) -> Set<LineId> {
        Set::new(|id: LineId| self.items@.contains(id))
    }

    /// The invariant: the offsets strictly increase.
    pub closed spec fn wf(&self) -> bool {
        forall|i: int, j: int| 0 <= i < j < self.items@.len() ==> self.items@[i] < self.items@[j]
    }

    /// The empty set.
    pub fn new() -> (set: LineSet)
        ensures
            set.wf(),
            set@ == Set::<LineId>::empty(),
    {
        let set = LineSet { items: Vec::new() };
        assert(set@ =~= Set::<LineId>::empty());
        set
    }

    /// The number of offsets below `id`, which is where `id` stands or would
    /// stand.
    fn rank(&self, id: LineId) -> (at: usize)
        requires
            self.wf(),
        ensures
            at <= self.items@.len(),
            forall|i: int| 0 <= i < at ==> self.items@[i] < id,
            forall|i: int| at <= i < self.items@.len() ==> self.items@[i] >= id,
    {
        let mut lo: usize = 0;
        let mut hi: usize = self.items.len();
        while lo < hi
            invariant
                self.wf(),
                lo <= hi <= self.items@.len(),
                forall|i: int| 0 <= i < lo ==> self.items@[i] < id,
                forall|i: int| hi <= i < self.items@.len() ==> self.items@[i] >= id,
            decreases hi - lo,
        {
            let mid = lo + (hi - lo) / 2;
            if self.items[mid] < id {
                lo = mid + 1;
            } else {
                hi = mid;
            }
        }
        lo
    }

    /// Whether `id` is in the set.
    pub fn contains(&self, id: LineId) -> (found: bool)
        requires
            self.wf(),
        ensures
            found == self@.contains(id),
    {
        let at = self.rank(id);
        at < self.items.len() && self.items[at] == id
    }

    /// Whether the set holds an offset from `lo` up to, but not including,
    /// `hi`.
    pub fn any_in(&self, lo: LineId, hi: LineId) -> (found: bool)
        requires
            self.wf(),
        ensures
            found == exists|id: LineId| self@.contains(id) && lo <= id < hi,
    {
        let at = self.rank(lo);
        let found = at < self.items.len() && self.items[at] < hi;
        proof {
            if found {
                assert(self@.contains(self.items@[at as int]));
            } else {
                assert forall|id: LineId| self@.contains(id) implies !(lo <= id < hi) by {
                    let i = choose|i: int| 0 <= i < self.items@.len() && self.items@[i] == id;
                    if at <= i && at < self.items@.len() && at < i {
                        assert(self.items@[at as int] < self.items@[i]);
                    }
                }
            }
        }
        found
    }

    /// Puts `id` into the set where it is not there, takes it out where it
    /// is.
    pub fn toggle(&mut self, id: LineId)
        requires
            old(self).wf(),
        ensures
            final(self).wf(),
            final(self)@ == toggled(old(self)@, id),
    {
        let at = self.rank(id);
        let ghost before = self.items@;
        if at < self.items.len() && self.items[at] == id {
            self.items.remove(at);
            proof {
                let after = self.items@;
                assert forall|i: int, j: int| 0 <= i < j < after.len() implies after[i]
                    < after[j] by {
                    let a = if i < at {
                        i
                    } else {
                        i + 1
                    };
                    let b = if j < at {
                        j
                    } else {
                        j + 1
                    };
                    assert(after[i] == before[a] && after[j] == before[b]);
                }
                assert forall|x: LineId| self@.contains(x) == toggled(old(self)@, id).contains(
                    x,
                ) by {
                    if after.contains(x) {
                        let i = choose|i: int| 0 <= i < after.len() && after[i] == x;
                        let a = if i < at {
                            i
                        } else {
                            i + 1
                        };
                        assert(before[a] == x);
                        if a < at {
                            assert(before[a] < before[at as int]);
                        } else {
                            assert(before[at as int] < before[a]);
                        }
                    }
                    if before.contains(x) && x != id {
                        let a = choose|a: int| 0 <= a < before.len() && before[a] == x;
                        let i = if a < at {
                            a
                        } else {
                            a - 1
                        };
                        assert(after[i] == x);
                    }
                }
                assert(self@ =~= toggled(old(self)@, id));
            }
        } else {
            self.items.insert(at, id);
            proof {
                let after = self.items@;
                assert forall|i: int, j: int| 0 <= i < j < after.len() implies after[i]
                    < after[j] by {
                    if i < at && j > at {
                        assert(after[i] == before[i] && after[j] == before[j - 1]);
                    }
                }
                assert(!before.contains(id)) by {
                    if before.contains(id) {
                        let a = choose|a: int| 0 <= a < before.len() && before[a] == id;
                        if a > at {
                            assert(before[at as int] < before[a]);
                        }
                    }
                }
                assert forall|x: LineId| self@.contains(x) == toggled(old(self)@, id).contains(
                    x,
                ) by {
                    assert(after[at as int] == id);
                    if after.contains(x) && x != id {
                        let i = choose|i: int| 0 <= i < after.len() && after[i] == x;
                        let a = if i < at {
                            i
                        } else {
                            i - 1
                        };
                        assert(before[a] == x);
                    }
                    if before.contains(x) {
                        let a = choose|a: int| 0 <= a < before.len() && before[a] == x;
                        let i = if a < at {
                            a
                        } else {
                            a + 1
                        };
                        assert(after[i] == x);
                    }
                }
                assert(self@ =~= toggled(old(self)@, id));
            }
        }
    }
}

} // verus!
