//! The model of a constraint network by index: domains, scopes, consistency
//! and solutions, as the contracts of propagation and search speak of them.

use crate::constraint::{Constraint, Value};
use crate::domain::ascending;
use vstd::prelude::*;

verus! {

/// What propagation found.
#[derive(Clone, Copy, Debug, PartialEq, Eq, Structural)]
pub enum Status {
    /// Every domain holds exactly one candidate.
    Solved,
    /// No domain is empty and some domain holds more than one candidate.
    Reduced,
    /// Some domain is empty.
    Exhausted,
}

/// The candidate lists of all variables, by the variable's index.
pub open spec fn dview(doms: Vec<Vec<Value>>) -> Seq<Seq<Value>> {
    Seq::new(doms@.len(), |i: int| doms@[i]@)
}

/// The number of candidates that are left, over all variables.
pub open spec fn total(d: Seq<Seq<Value>>) -> int
    decreases d.len(),
{
    if d.len() == 0 {
        0
    } else {
        total(d.drop_last()) + d.last().len()
    }
}

/// Every scope names variables below `n`.
pub open spec fn scopes_ok(scopes: Seq<(usize, usize)>, n: int) -> bool {
    forall|j: int| 0 <= j < scopes.len() ==> (#[trigger] scopes[j]).0 < n && scopes[j].1 < n
}

/// Every constraint has a scope and can be evaluated.
pub open spec fn network_ok<C: Constraint>(
    cs: Seq<C>,
    scopes: Seq<(usize, usize)>,
    n: int,
) -> bool {
    &&& cs.len() == scopes.len()
    &&& scopes_ok(scopes, n)
    &&& forall|j: int| 0 <= j < cs.len() ==> (#[trigger] cs[j]).well_formed()
}

/// The relation of `c` seen from one of its two ends: from the first
/// variable when `flip` is false, from the last when it is true.
pub open spec fn pair_ok<C: Constraint>(c: &C, flip: bool, a: Value, b: Value) -> bool {
    if flip {
        c.holds(b, a)
    } else {
        c.holds(a, b)
    }
}

/// Value `a` has a partner among `other` under `c`.
pub open spec fn supported<C: Constraint>(c: &C, flip: bool, a: Value, other: Seq<Value>) -> bool {
    exists|k: int| 0 <= k < other.len() && pair_ok(c, flip, a, #[trigger] other[k])
}

/// Every value of `own` has a partner among `other` under `c`.
pub open spec fn all_supported<C: Constraint>(
    c: &C,
    flip: bool,
    own: Seq<Value>,
    other: Seq<Value>,
) -> bool {
    forall|k: int| 0 <= k < own.len() ==> supported(c, flip, #[trigger] own[k], other)
}

/// The variable that end `flip` of a scope governs: the first variable when
/// `flip` is false, the last when it is true.
pub open spec fn governed(scope: (usize, usize), flip: bool) -> int {
    if flip {
        scope.1 as int
    } else {
        scope.0 as int
    }
}

/// End `flip` of constraint `j` is consistent: each value of the governed
/// variable has a partner in the other variable's domain.
pub open spec fn end_ok<C: Constraint>(
    cs: Seq<C>,
    scopes: Seq<(usize, usize)>,
    d: Seq<Seq<Value>>,
    j: int,
    flip: bool,
) -> bool {
    all_supported(
        &cs[j],
        flip,
        d[governed(scopes[j], flip)],
        d[governed(scopes[j], !flip)],
    )
}

/// Both ends of constraint `j` are consistent.
pub open spec fn arc_ok<C: Constraint>(
    cs: Seq<C>,
    scopes: Seq<(usize, usize)>,
    d: Seq<Seq<Value>>,
    j: int,
) -> bool {
    end_ok(cs, scopes, d, j, false) && end_ok(cs, scopes, d, j, true)
}

/// Every constraint is consistent at both ends.
pub open spec fn arc_consistent<C: Constraint>(
    cs: Seq<C>,
    scopes: Seq<(usize, usize)>,
    d: Seq<Seq<Value>>,
) -> bool {
    forall|j: int| 0 <= j < cs.len() ==> arc_ok(cs, scopes, d, j)
}

/// Some domain is empty.
pub open spec fn has_empty(d: Seq<Seq<Value>>) -> bool {
    exists|i: int| 0 <= i < d.len() && (#[trigger] d[i]).len() == 0
}

/// Every domain holds exactly one candidate.
pub open spec fn all_singleton(d: Seq<Seq<Value>>) -> bool {
    forall|i: int| 0 <= i < d.len() ==> (#[trigger] d[i]).len() == 1
}

/// The status that belongs to the domains `d`.
pub open spec fn classify(d: Seq<Seq<Value>>) -> Status {
    if has_empty(d) {
        Status::Exhausted
    } else if all_singleton(d) {
        Status::Solved
    } else {
        Status::Reduced
    }
}

/// `a` gives every variable a value of its domain.
pub open spec fn within(a: Seq<Value>, d: Seq<Seq<Value>>) -> bool {
    &&& a.len() == d.len()
    &&& forall|i: int| 0 <= i < d.len() ==> (#[trigger] d[i]).contains(a[i])
}

/// `a` meets every constraint.
pub open spec fn satisfies<C: Constraint>(
    cs: Seq<C>,
    scopes: Seq<(usize, usize)>,
    a: Seq<Value>,
) -> bool {
    forall|j: int|
        0 <= j < cs.len() ==> (#[trigger] cs[j]).holds(
            a[scopes[j].0 as int],
            a[scopes[j].1 as int],
        )
}

/// `a` is a solution: values from the domains that meet every constraint.
pub open spec fn solution<C: Constraint>(
    cs: Seq<C>,
    scopes: Seq<(usize, usize)>,
    d: Seq<Seq<Value>>,
    a: Seq<Value>,
) -> bool {
    within(a, d) && satisfies(cs, scopes, a)
}

/// `after` holds, variable by variable, only candidates of `before`, and no
/// more of them.
pub open spec fn narrower(after: Seq<Seq<Value>>, before: Seq<Seq<Value>>) -> bool {
    &&& after.len() == before.len()
    &&& forall|i: int|
        0 <= i < after.len() ==> (#[trigger] after[i]).len() <= before[i].len()
    &&& forall|i: int, v: Value|
        0 <= i < after.len() && #[trigger] after[i].contains(v) ==> before[i].contains(v)
}

/// Each domain that was ascending in `before` is ascending in `after`.
pub open spec fn ordered(before: Seq<Seq<Value>>, after: Seq<Seq<Value>>) -> bool {
    forall|i: int|
        0 <= i < after.len() && i < before.len() && ascending(before[i]) ==> ascending(
            #[trigger] after[i],
        )
}

/// `inner` holds, variable by variable, only candidates of `outer`.
pub open spec fn sub_family(inner: Seq<Seq<Value>>, outer: Seq<Seq<Value>>) -> bool {
    &&& inner.len() == outer.len()
    &&& forall|i: int, v: Value|
        0 <= i < inner.len() && #[trigger] inner[i].contains(v) ==> outer[i].contains(v)
}

/// What propagation turns the domains `before` into: narrower domains that
/// keep every solution and every consistent family of domains within
/// `before`, and that are consistent themselves unless one of them is empty.
pub open spec fn propagated<C: Constraint>(
    cs: Seq<C>,
    scopes: Seq<(usize, usize)>,
    before: Seq<Seq<Value>>,
    after: Seq<Seq<Value>>,
    status: Status,
) -> bool {
    &&& narrower(after, before)
    &&& total(after) <= total(before)
    &&& forall|a: Seq<Value>| solution(cs, scopes, before, a) ==> within(a, after)
    &&& forall|inner: Seq<Seq<Value>>|
        #[trigger] sub_family(inner, before) && arc_consistent(cs, scopes, inner) ==> sub_family(
            inner,
            after,
        )
    &&& ordered(before, after)
    &&& status == classify(after)
    &&& status != Status::Exhausted ==> arc_consistent(cs, scopes, after)
    &&& (has_empty(before) || arc_consistent(cs, scopes, before)) ==> after == before
}

/// The total is not negative.
pub proof fn lemma_total_bounds(d: Seq<Seq<Value>>)
    ensures
        total(d) >= 0,
    decreases d.len(),
{
    if d.len() > 0 {
        lemma_total_bounds(d.drop_last());
    }
}

/// Replacing one domain changes the total by the difference of the lengths.
pub proof fn lemma_total_update(d: Seq<Seq<Value>>, i: int, s: Seq<Value>)
    requires
        0 <= i < d.len(),
    ensures
        total(d.update(i, s)) == total(d) - d[i].len() + s.len(),
    decreases d.len(),
{
    if i == d.len() - 1 {
        assert(d.update(i, s).drop_last() =~= d.drop_last());
    } else {
        lemma_total_update(d.drop_last(), i, s);
        assert(d.update(i, s).drop_last() =~= d.drop_last().update(i, s));
    }
}

/// A solution over wider domains that still lies within narrower ones is a
/// solution over those.
pub proof fn lemma_solutions_stay<C: Constraint>(
    cs: Seq<C>,
    scopes: Seq<(usize, usize)>,
    wide: Seq<Seq<Value>>,
    tight: Seq<Seq<Value>>,
)
    requires
        narrower(tight, wide),
    ensures
        forall|a: Seq<Value>| solution(cs, scopes, tight, a) ==> solution(cs, scopes, wide, a),
{
    assert forall|a: Seq<Value>| solution(cs, scopes, tight, a) implies solution(
        cs,
        scopes,
        wide,
        a,
    ) by {
        assert forall|i: int| 0 <= i < wide.len() implies (#[trigger] wide[i]).contains(a[i]) by {
            assert(tight[i].contains(a[i]));
        }
    }
}

/// No assignment lies within domains of which one is empty.
pub proof fn lemma_empty_blocks(d: Seq<Seq<Value>>, a: Seq<Value>)
    requires
        has_empty(d),
    ensures
        !within(a, d),
{
    let e = choose|e: int| 0 <= e < d.len() && (#[trigger] d[e]).len() == 0;
    if within(a, d) {
        assert(d[e].contains(a[e]));
    }
}

/// Two ascending lists with the same members are the same list.
pub proof fn lemma_same_members(s: Seq<Value>, t: Seq<Value>)
    requires
        ascending(s),
        ascending(t),
        forall|v: Value| s.contains(v) <==> t.contains(v),
    ensures
        s == t,
    decreases s.len(),
{
    if s.len() == 0 {
        if t.len() > 0 {
            assert(t.contains(t[0]));
        }
        assert(s =~= t);
    } else if t.len() == 0 {
        assert(s.contains(s[0]));
    } else {
        let a = s.last();
        let b = t.last();
        assert(s.contains(a));
        assert(t.contains(b));
        let m = choose|m: int| 0 <= m < t.len() && t[m] == a;
        let n = choose|n: int| 0 <= n < s.len() && s[n] == b;
        assert(a <= b) by {
            if m < t.len() - 1 {
                assert(t[m] < t[t.len() - 1]);
            }
        }
        assert(b <= a) by {
            if n < s.len() - 1 {
                assert(s[n] < s[s.len() - 1]);
            }
        }
        let s1 = s.drop_last();
        let t1 = t.drop_last();
        assert forall|v: Value| s1.contains(v) <==> t1.contains(v) by {
            if s1.contains(v) {
                let i = choose|i: int| 0 <= i < s1.len() && s1[i] == v;
                assert(s[i] == v && s[i] < s[s.len() - 1]);
                assert(s.contains(v));
                let q = choose|q: int| 0 <= q < t.len() && t[q] == v;
                assert(t1[q] == v);
            }
            if t1.contains(v) {
                let i = choose|i: int| 0 <= i < t1.len() && t1[i] == v;
                assert(t[i] == v && t[i] < t[t.len() - 1]);
                assert(t.contains(v));
                let q = choose|q: int| 0 <= q < s.len() && s[q] == v;
                assert(s1[q] == v);
            }
        }
        lemma_same_members(s1, t1);
        assert(s =~= s1.push(a));
        assert(t =~= t1.push(b));
    }
}

/// No assignment meets both a constraint that wants the first variable of
/// its scope to be `v` and one that wants the same variable to differ from
/// `v`.
pub proof fn lemma_equal_and_unequal<C: Constraint>(
    cs: Seq<C>,
    scopes: Seq<(usize, usize)>,
    a: Seq<Value>,
    j: int,
    k: int,
    v: Value,
)
    requires
        0 <= j < cs.len(),
        0 <= k < cs.len(),
        scopes[j].0 == scopes[k].0,
        forall|p: Value, q: Value| #[trigger] cs[j].holds(p, q) == (p == v),
        forall|p: Value, q: Value| #[trigger] cs[k].holds(p, q) == (p != v),
    ensures
        !satisfies(cs, scopes, a),
{
    if satisfies(cs, scopes, a) {
        assert(cs[j].holds(a[scopes[j].0 as int], a[scopes[j].1 as int]));
        assert(cs[k].holds(a[scopes[k].0 as int], a[scopes[k].1 as int]));
    }
}

} // verus!
