//! Domains: the candidate values that a variable can still take.

use crate::constraint::Value;
use vstd::prelude::*;

verus! {

/// Each value is smaller than the next.
pub open spec fn ascending(s: Seq<Value>) -> bool {
    forall|i: int, j: int| 0 <= i < j < s.len() ==> s[i] < s[j]
}

/// A finite set of candidate values that can only shrink.
pub trait Domain {
    /// The candidates that remain, in ascending order.
    spec fn candidates(&self) -> Seq<Value>;

    /// The invariant of the representation.
    spec fn wf(&self) -> bool;

    /// Whether `v` is still a candidate.
    fn contains(&self, v: Value) -> (r: bool)
        requires
            self.wf(),
        ensures
            r == self.candidates().contains(v),
    ;

    /// Takes `v` out. Where `v` is no candidate, nothing changes.
    fn remove(&mut self, v: Value)
        requires
            old(self).wf(),
        ensures
            final(self).wf(),
            forall|w: Value|
                final(self).candidates().contains(w) <==> old(self).candidates().contains(w) && w
                    != v,
            !old(self).candidates().contains(v) ==> final(self).candidates() == old(
                self,
            ).candidates(),
            old(self).candidates().contains(v) ==> final(self).candidates().len() + 1 == old(
                self,
            ).candidates().len(),
    ;

    /// Whether no candidate is left.
    fn is_empty(&self) -> (r: bool)
        requires
            self.wf(),
        ensures
            r == (self.candidates().len() == 0),
    ;

    /// Whether exactly one candidate is left.
    fn is_singleton(&self) -> (r: bool)
        requires
            self.wf(),
        ensures
            r == (self.candidates().len() == 1),
    ;

    /// The remaining candidates, smallest first.
    fn values(&self) -> (vals: Vec<Value>)
        requires
            self.wf(),
        ensures
            vals@ == self.candidates(),
            ascending(vals@),
    ;
}

/// A domain of integers, kept as an ascending list.
pub struct IntDomain {
    vals: Vec<Value>,
}

impl IntDomain {
    /// The integers from `lo` up to, but not including, `hi`.
    pub fn from_range(lo: Value, hi: Value) -> (d: IntDomain)
        ensures
            d.wf(),
            d.candidates().len() == (if lo < hi {
                hi - lo
            } else {
                0
            }),
            forall|k: int| 0 <= k < d.candidates().len() ==> #[trigger] d.candidates()[k] == lo + k,
    {
        let mut vals: Vec<Value> = Vec::new();
        let mut v: Value = lo;
        while v < hi
            invariant
                lo <= v <= hi || (hi < lo && v == lo),
                vals@.len() == v - lo,
                forall|k: int| 0 <= k < vals@.len() ==> #[trigger] vals@[k] == lo + k,
            decreases hi - v,
        {
            vals.push(v);
            v = v + 1;
        }
        IntDomain { vals }
    }

    /// The position of `v` in the list, if it is there.
    fn position(&self, v: Value) -> (at: Option<usize>)
        requires
            self.wf(),
        ensures
            match at {
                Some(i) => i < self.vals@.len() && self.vals@[i as int] == v,
                None => !self.vals@.contains(v),
            },
    {
        let mut i: usize = 0;
        while i < self.vals.len()
            invariant
                i <= self.vals@.len(),
                forall|m: int| 0 <= m < i ==> self.vals@[m] != v,
            decreases self.vals@.len() - i,
        {
            if self.vals[i] == v {
                return Some(i);
            }
            i = i + 1;
        }
        None
    }
}

impl Domain for IntDomain {
    closed spec fn candidates(&self) -> Seq<Value> {
        self.vals@
    }

    closed spec fn wf(&self) -> bool {
        ascending(self.vals@)
    }

    fn contains(&self, v: Value) -> (r: bool) {
        self.position(v).is_some()
    }

    fn remove(&mut self, v: Value) {
        let ghost before = self.vals@;
        match self.position(v) {
            Some(i) => {
                self.vals.remove(i);
                proof {
                    let after = self.vals@;
                    assert(after =~= before.remove(i as int));
                    assert forall|w: Value| after.contains(w) <==> before.contains(w) && w != v by {
                        if after.contains(w) {
                            let m = choose|m: int| 0 <= m < after.len() && after[m] == w;
                            if m < i {
                                assert(before[m] == w);
                            } else {
                                assert(before[m + 1] == w);
                            }
                        }
                        if before.contains(w) && w != v {
                            let m = choose|m: int| 0 <= m < before.len() && before[m] == w;
                            if m < i {
                                assert(after[m] == w);
                            } else {
                                assert(after[m - 1] == w);
                            }
                        }
                    }
                }
            },
            None => {},
        }
    }

    fn is_empty(&self) -> (r: bool) {
        self.vals.len() == 0
    }

    fn is_singleton(&self) -> (r: bool) {
        self.vals.len() == 1
    }

    fn values(&self) -> (vals: Vec<Value>) {
        let mut vals: Vec<Value> = Vec::new();
        let mut i: usize = 0;
        while i < self.vals.len()
            invariant
                i <= self.vals@.len(),
                vals@ == self.vals@.take(i as int),
            decreases self.vals@.len() - i,
        {
            vals.push(self.vals[i]);
            assert(vals@ =~= self.vals@.take(i + 1));
            i = i + 1;
        }
        assert(vals@ =~= self.vals@);
        vals
    }
}

} // verus!
