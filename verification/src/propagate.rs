//! Propagation: narrowing the domains to arc consistency with a worklist.

use crate::constraint::{Constraint, Value};
use crate::domain::ascending;
use crate::network::{
    all_singleton, all_supported, arc_consistent, arc_ok, classify, dview, end_ok, governed,
    has_empty, lemma_same_members, lemma_solutions_stay, lemma_total_bounds, lemma_total_update,
    narrower, network_ok, ordered, pair_ok, propagated, solution, sub_family, supported, total,
    within, Status,
};
use vstd::prelude::*;

verus! {

/// Whether `a` has a partner among `other`.
pub fn has_support<C: Constraint>(c: &C, flip: bool, a: Value, other: &Vec<Value>) -> (r: bool)
    requires
        c.well_formed(),
    ensures
        r == supported(c, flip, a, other@),
{
    let mut k: usize = 0;
    while k < other.len()
        invariant
            k <= other.len(),
            c.well_formed(),
            forall|m: int| 0 <= m < k ==> !pair_ok(c, flip, a, #[trigger] other@[m]),
        decreases other.len() - k,
    {
        let b = other[k];
        let ok = if flip {
            c.supports(b, a)
        } else {
            c.supports(a, b)
        };
        if ok {
            return true;
        }
        k = k + 1;
    }
    false
}

/// The values of `own` that have a partner among `other`, in their order.
pub fn revise<C: Constraint>(c: &C, flip: bool, own: &Vec<Value>, other: &Vec<Value>) -> (kept:
    Vec<Value>)
    requires
        c.well_formed(),
    ensures
        forall|v: Value|
            kept@.contains(v) <==> own@.contains(v) && supported(c, flip, v, other@),
        kept@.len() <= own@.len(),
        kept@.len() == own@.len() <==> all_supported(c, flip, own@, other@),
        kept@.len() == own@.len() ==> kept@ == own@,
        ascending(own@) ==> ascending(kept@),
{
    let mut kept: Vec<Value> = Vec::new();
    let mut i: usize = 0;
    while i < own.len()
        invariant
            i <= own.len(),
            c.well_formed(),
            kept@.len() <= i,
            forall|v: Value|
                kept@.contains(v) <==> own@.take(i as int).contains(v) && supported(
                    c,
                    flip,
                    v,
                    other@,
                ),
            kept@.len() == i <==> all_supported(c, flip, own@.take(i as int), other@),
            kept@.len() == i ==> kept@ == own@.take(i as int),
            ascending(own@) ==> ascending(kept@),
        decreases own.len() - i,
    {
        let v = own[i];
        let ghost before = kept@;
        let ghost seen = own@.take(i as int);
        let keep = has_support(c, flip, v, other);
        if keep {
            kept.push(v);
        }
        proof {
            let next = own@.take(i + 1);
            assert(next =~= seen.push(v));
            assert(forall|w: Value| next.contains(w) <==> seen.contains(w) || w == v) by {
                assert forall|w: Value| next.contains(w) implies seen.contains(w) || w == v by {
                    let m = choose|m: int| 0 <= m < next.len() && next[m] == w;
                    if m < seen.len() {
                        assert(seen[m] == w);
                    }
                }
                assert forall|w: Value| seen.contains(w) || w == v implies next.contains(w) by {
                    if seen.contains(w) {
                        let m = choose|m: int| 0 <= m < seen.len() && seen[m] == w;
                        assert(next[m] == w);
                    } else {
                        assert(next[i as int] == w);
                    }
                }
            }
            if keep && ascending(own@) {
                assert forall|p: int, q: int| 0 <= p < q < kept@.len() implies kept@[p]
                    < kept@[q] by {
                    if q == before.len() {
                        assert(before.contains(before[p]));
                        let m = choose|m: int| 0 <= m < seen.len() && seen[m] == before[p];
                        assert(own@[m] < own@[i as int]);
                    } else {
                        assert(before[p] < before[q]);
                    }
                }
            }
            if keep {
                assert(kept@ =~= before.push(v));
                assert(forall|w: Value| kept@.contains(w) <==> before.contains(w) || w == v) by {
                    assert forall|w: Value| kept@.contains(w) implies before.contains(w) || w
                        == v by {
                        let m = choose|m: int| 0 <= m < kept@.len() && kept@[m] == w;
                        if m < before.len() {
                            assert(before[m] == w);
                        }
                    }
                    assert forall|w: Value| before.contains(w) || w == v implies kept@.contains(
                        w,
                    ) by {
                        if before.contains(w) {
                            let m = choose|m: int| 0 <= m < before.len() && before[m] == w;
                            assert(kept@[m] == w);
                        } else {
                            assert(kept@[before.len() as int] == w);
                        }
                    }
                }
            }
            assert forall|w: Value|
                kept@.contains(w) <==> next.contains(w) && supported(c, flip, w, other@) by {
                assert(next.contains(w) <==> seen.contains(w) || w == v);
                assert(before.contains(w) <==> seen.contains(w) && supported(c, flip, w, other@));
                if keep {
                    assert(kept@.contains(w) <==> before.contains(w) || w == v);
                }
            }
            if all_supported(c, flip, seen, other@) && keep {
                assert forall|m: int| 0 <= m < next.len() implies supported(
                    c,
                    flip,
                    #[trigger] next[m],
                    other@,
                ) by {
                    if m < seen.len() {
                        assert(next[m] == seen[m]);
                    }
                }
            }
            if all_supported(c, flip, next, other@) {
                assert(supported(c, flip, next[i as int], other@));
                assert forall|m: int| 0 <= m < seen.len() implies supported(
                    c,
                    flip,
                    #[trigger] seen[m],
                    other@,
                ) by {
                    assert(next[m] == seen[m]);
                }
            }
        }
        i = i + 1;
    }
    proof {
        assert(own@.take(own@.len() as int) =~= own@);
    }
    kept
}

/// Whether some domain is empty.
pub fn any_empty(doms: &Vec<Vec<Value>>) -> (r: bool)
    ensures
        r == has_empty(dview(*doms)),
{
    let mut i: usize = 0;
    while i < doms.len()
        invariant
            i <= doms.len(),
            forall|m: int| 0 <= m < i ==> (#[trigger] dview(*doms)[m]).len() != 0,
        decreases doms.len() - i,
    {
        if doms[i].len() == 0 {
            assert(dview(*doms)[i as int].len() == 0);
            return true;
        }
        i = i + 1;
    }
    false
}

/// Whether every domain holds exactly one candidate.
pub fn every_singleton(doms: &Vec<Vec<Value>>) -> (r: bool)
    ensures
        r == all_singleton(dview(*doms)),
{
    let mut i: usize = 0;
    while i < doms.len()
        invariant
            i <= doms.len(),
            forall|m: int| 0 <= m < i ==> (#[trigger] dview(*doms)[m]).len() == 1,
        decreases doms.len() - i,
    {
        if doms[i].len() != 1 {
            assert(dview(*doms)[i as int].len() != 1);
            return false;
        }
        i = i + 1;
    }
    true
}

/// Revises one end of constraint `j`: the governed variable loses the
/// candidates that have no partner in the other variable's domain.
pub fn narrow<C: Constraint>(
    cs: &Vec<C>,
    scopes: &Vec<(usize, usize)>,
    doms: &mut Vec<Vec<Value>>,
    j: usize,
    flip: bool,
) -> (shrunk: bool)
    requires
        network_ok(cs@, scopes@, old(doms)@.len() as int),
        j < cs@.len(),
    ensures
        narrower(dview(*final(doms)), dview(*old(doms))),
        forall|a: Seq<Value>|
            solution(cs@, scopes@, dview(*old(doms)), a) ==> within(a, dview(*final(doms))),
        shrunk == !all_supported(
            &cs@[j as int],
            flip,
            dview(*old(doms))[governed(scopes@[j as int], flip)],
            dview(*old(doms))[governed(scopes@[j as int], !flip)],
        ),
        !shrunk ==> dview(*final(doms)) == dview(*old(doms)),
        forall|i: int|
            0 <= i < old(doms)@.len() && i != governed(scopes@[j as int], flip) ==> (
            #[trigger] dview(*final(doms))[i]) == dview(*old(doms))[i],
        shrunk ==> total(dview(*final(doms))) < total(dview(*old(doms))),
        governed(scopes@[j as int], flip) != governed(scopes@[j as int], !flip) ==> end_ok(
            cs@,
            scopes@,
            dview(*final(doms)),
            j as int,
            flip,
        ),
        forall|inner: Seq<Seq<Value>>|
            #[trigger] sub_family(inner, dview(*old(doms))) && end_ok(
                cs@,
                scopes@,
                inner,
                j as int,
                flip,
            ) ==> sub_family(inner, dview(*final(doms))),
        ordered(dview(*old(doms)), dview(*final(doms))),
{
    let s = scopes[j];
    let x = if flip {
        s.1
    } else {
        s.0
    };
    let y = if flip {
        s.0
    } else {
        s.1
    };
    let ghost before = dview(*doms);
    assert(cs@[j as int].well_formed());
    let kept = revise(&cs[j], flip, &doms[x], &doms[y]);
    if kept.len() < doms[x].len() {
        let ghost kv = kept@;
        doms.set(x, kept);
        proof {
            let after = dview(*doms);
            assert(after =~= before.update(x as int, kv));
            lemma_total_update(before, x as int, kv);
            assert forall|i: int|
                0 <= i < after.len() && ascending(before[i]) implies ascending(
                #[trigger] after[i],
            ) by {
                if i != x {
                    assert(after[i] == before[i]);
                }
            }
            assert forall|inner: Seq<Seq<Value>>|
                #[trigger] sub_family(inner, before) && end_ok(
                    cs@,
                    scopes@,
                    inner,
                    j as int,
                    flip,
                ) implies sub_family(inner, after) by {
                assert forall|i: int, v: Value|
                    0 <= i < inner.len() && #[trigger] inner[i].contains(v)
                    implies after[i].contains(v) by {
                    assert(before[i].contains(v));
                    if i == x {
                        let m = choose|m: int| 0 <= m < inner[i].len() && inner[i][m] == v;
                        assert(supported(&cs@[j as int], flip, inner[i][m], inner[y as int]));
                        let k = choose|k: int|
                            0 <= k < inner[y as int].len() && pair_ok(
                                &cs@[j as int],
                                flip,
                                v,
                                #[trigger] inner[y as int][k],
                            );
                        let w = inner[y as int][k];
                        assert(inner[y as int].contains(w));
                        assert(before[y as int].contains(w));
                        let q = choose|q: int|
                            0 <= q < before[y as int].len() && before[y as int][q] == w;
                        assert(pair_ok(&cs@[j as int], flip, v, before[y as int][q]));
                        assert(supported(&cs@[j as int], flip, v, before[y as int]));
                        assert(kv.contains(v));
                    } else {
                        assert(after[i] == before[i]);
                    }
                }
            }
            if x != y {
                assert forall|k: int| 0 <= k < kv.len() implies supported(
                    &cs@[j as int],
                    flip,
                    #[trigger] kv[k],
                    before[y as int],
                ) by {
                    assert(kv.contains(kv[k]));
                }
                assert(after[y as int] == before[y as int]);
            }
            assert forall|a: Seq<Value>| solution(cs@, scopes@, before, a) implies within(
                a,
                after,
            ) by {
                assert(before[x as int].contains(a[x as int]));
                assert(before[y as int].contains(a[y as int]));
                let k = choose|k: int|
                    0 <= k < before[y as int].len() && before[y as int][k] == a[y as int];
                assert(cs@[j as int].holds(a[s.0 as int], a[s.1 as int]));
                assert(pair_ok(&cs@[j as int], flip, a[x as int], before[y as int][k]));
                assert(supported(&cs@[j as int], flip, a[x as int], before[y as int]));
                assert(kv.contains(a[x as int]));
                assert forall|i: int| 0 <= i < after.len() implies (#[trigger] after[i]).contains(
                    a[i],
                ) by {
                    if i != x {
                        assert(after[i] == before[i]);
                    }
                }
            }
        }
        true
    } else {
        false
    }
}

/// What a list holds after one more element was put at its end.
pub proof fn lemma_pushed(s: Seq<(usize, bool)>, e: (usize, bool))
    ensures
        s.push(e).contains(e),
        forall|x: (usize, bool)| s.contains(x) ==> #[trigger] s.push(e).contains(x),
        forall|x: (usize, bool)| #[trigger] s.push(e).contains(x) ==> s.contains(x) || x == e,
{
    let t = s.push(e);
    assert(t[s.len() as int] == e);
    assert forall|x: (usize, bool)| s.contains(x) implies #[trigger] t.contains(x) by {
        let k = choose|k: int| 0 <= k < s.len() && s[k] == x;
        assert(t[k] == x);
    }
    assert forall|x: (usize, bool)| #[trigger] t.contains(x) implies s.contains(x) || x == e by {
        let k = choose|k: int| 0 <= k < t.len() && t[k] == x;
        if k < s.len() {
            assert(s[k] == x);
        }
    }
}

/// Values that all have a partner still have one after some of them left.
pub proof fn lemma_fewer_supported<C: Constraint>(
    c: &C,
    flip: bool,
    own: Seq<Value>,
    fewer: Seq<Value>,
    other: Seq<Value>,
)
    requires
        all_supported(c, flip, own, other),
        forall|v: Value| fewer.contains(v) ==> own.contains(v),
    ensures
        all_supported(c, flip, fewer, other),
{
    assert forall|k: int| 0 <= k < fewer.len() implies supported(
        c,
        flip,
        #[trigger] fewer[k],
        other,
    ) by {
        assert(fewer.contains(fewer[k]));
        let m = choose|m: int| 0 <= m < own.len() && own[m] == fewer[k];
        assert(supported(c, flip, own[m], other));
    }
}

/// Every worklist entry names a constraint.
pub open spec fn arcs_ok(work: Seq<(usize, bool)>, n: int) -> bool {
    forall|k: int| 0 <= k < work.len() ==> (#[trigger] work[k]).0 < n
}

/// Both ends of each of `n` constraints, the first constraint's on top.
pub fn all_arcs(n: usize) -> (work: Vec<(usize, bool)>)
    ensures
        arcs_ok(work@, n as int),
        forall|j: int, f: bool| 0 <= j < n ==> #[trigger] work@.contains((j as usize, f)),
{
    let mut work: Vec<(usize, bool)> = Vec::new();
    let mut j: usize = n;
    while j > 0
        invariant
            j <= n,
            arcs_ok(work@, n as int),
            forall|m: int, f: bool| j <= m < n ==> #[trigger] work@.contains((m as usize, f)),
        decreases j,
    {
        j = j - 1;
        proof {
            lemma_pushed(work@, (j, true));
            lemma_pushed(work@.push((j, true)), (j, false));
        }
        work.push((j, true));
        work.push((j, false));
    }
    work
}

/// Puts on the worklist every end of a constraint whose other variable is
/// `x`: the ends that a change of the domain of `x` can make inconsistent.
pub fn enqueue_dependents(scopes: &Vec<(usize, usize)>, work: &mut Vec<(usize, bool)>, x: usize)
    requires
        arcs_ok(old(work)@, scopes@.len() as int),
    ensures
        arcs_ok(final(work)@, scopes@.len() as int),
        forall|e: (usize, bool)| old(work)@.contains(e) ==> #[trigger] final(work)@.contains(e),
        forall|j: int, f: bool|
            0 <= j < scopes@.len() && governed(scopes@[j], !f) == x
                ==> #[trigger] final(work)@.contains((j as usize, f)),
{
    let mut j: usize = 0;
    while j < scopes.len()
        invariant
            j <= scopes@.len(),
            arcs_ok(work@, scopes@.len() as int),
            forall|e: (usize, bool)| old(work)@.contains(e) ==> #[trigger] work@.contains(e),
            forall|m: int, f: bool|
                0 <= m < j && governed(scopes@[m], !f) == x ==> #[trigger] work@.contains(
                    (m as usize, f),
                ),
        decreases scopes@.len() - j,
    {
        let s = scopes[j];
        if s.1 == x {
            proof {
                lemma_pushed(work@, (j, false));
            }
            work.push((j, false));
        }
        if s.0 == x {
            proof {
                lemma_pushed(work@, (j, true));
            }
            work.push((j, true));
        }
        j = j + 1;
    }
}

/// Every end of a constraint that is not on the worklist is consistent.
pub open spec fn settled<C: Constraint>(
    cs: Seq<C>,
    scopes: Seq<(usize, usize)>,
    d: Seq<Seq<Value>>,
    work: Seq<(usize, bool)>,
) -> bool {
    forall|j: int, f: bool|
        0 <= j < cs.len() && !work.contains((j as usize, f)) ==> #[trigger] end_ok(
            cs,
            scopes,
            d,
            j,
            f,
        )
}

/// Narrows the domains until every constraint is consistent at both ends, or
/// until a domain is empty. Domains that hold an empty one, or that are
/// consistent already, are left as they are.
///
/// A worklist holds the ends of constraints that are still to be revised,
/// all of them at first. An end is taken off and revised; where that shrinks
/// the domain of its variable, the ends that rest on that domain go back on
/// the list.
pub fn propagate<C: Constraint>(
    cs: &Vec<C>,
    scopes: &Vec<(usize, usize)>,
    doms: &mut Vec<Vec<Value>>,
) -> (status: Status)
    requires
        network_ok(cs@, scopes@, old(doms)@.len() as int),
    ensures
        propagated(cs@, scopes@, dview(*old(doms)), dview(*final(doms)), status),
{
    if any_empty(doms) {
        return Status::Exhausted;
    }
    let ghost orig = dview(*doms);
    let n = cs.len();
    let mut work = all_arcs(n);
    while work.len() > 0
        invariant
            n == cs@.len(),
            network_ok(cs@, scopes@, doms@.len() as int),
            arcs_ok(work@, cs@.len() as int),
            settled(cs@, scopes@, dview(*doms), work@),
            !has_empty(dview(*doms)),
            narrower(dview(*doms), orig),
            total(dview(*doms)) <= total(orig),
            forall|a: Seq<Value>| solution(cs@, scopes@, orig, a) ==> within(a, dview(*doms)),
            forall|inner: Seq<Seq<Value>>|
                #[trigger] sub_family(inner, orig) && arc_consistent(cs@, scopes@, inner)
                    ==> sub_family(inner, dview(*doms)),
            arc_consistent(cs@, scopes@, orig) ==> dview(*doms) == orig,
            ordered(orig, dview(*doms)),
            orig == dview(*old(doms)),
            !has_empty(orig),
        decreases total(dview(*doms)), work@.len(),
    {
        let ghost w0 = work@;
        let ghost d0 = dview(*doms);
        let arc = work.pop().unwrap();
        let ghost w1 = work@;
        let j = arc.0;
        let flip = arc.1;
        let s = scopes[j];
        let x = if flip {
            s.1
        } else {
            s.0
        };
        proof {
            assert(w0[w0.len() - 1] == arc);
            assert(w0 =~= w1.push(arc));
            lemma_pushed(w1, arc);
            lemma_solutions_stay(cs@, scopes@, orig, d0);
            lemma_total_bounds(d0);
            assert(arc_consistent(cs@, scopes@, orig) ==> arc_ok(cs@, scopes@, orig, j as int));
        }
        let shrunk = narrow(cs, scopes, doms, j, flip);
        proof {
            let d1 = dview(*doms);
            assert forall|inner: Seq<Seq<Value>>|
                #[trigger] sub_family(inner, orig) && arc_consistent(
                    cs@,
                    scopes@,
                    inner,
                ) implies sub_family(inner, d1) by {
                assert(sub_family(inner, d0));
                assert(arc_ok(cs@, scopes@, inner, j as int));
            }
        }
        if shrunk {
            if doms[x].len() == 0 {
                assert(dview(*doms)[x as int].len() == 0);
                return Status::Exhausted;
            }
            enqueue_dependents(scopes, &mut work, x);
            proof {
                let d1 = dview(*doms);
                lemma_total_bounds(d1);
                assert forall|i: int| 0 <= i < d1.len() implies (#[trigger] d1[i]).len() != 0 by {
                    if i != x {
                        assert(d1[i] == d0[i]);
                    }
                }
                assert forall|m: int, f: bool|
                    0 <= m < cs@.len() && !work@.contains((m as usize, f))
                    implies #[trigger] end_ok(cs@, scopes@, d1, m, f) by {
                    let g = governed(scopes@[m], f);
                    let o = governed(scopes@[m], !f);
                    assert(o != x);
                    assert(!w1.contains((m as usize, f)));
                    let e = (m as usize, f);
                    if e == arc {
                        assert(m == j && f == flip);
                    } else {
                        if w0.contains(e) {
                            assert(w1.push(arc).contains(e));
                        }
                        assert(!w0.contains(e));
                        assert(end_ok(cs@, scopes@, d0, m, f));
                        assert(d1[o] == d0[o]);
                        lemma_fewer_supported(&cs@[m], f, d0[g], d1[g], d0[o]);
                    }
                }
            }
        } else {
            proof {
                assert forall|m: int, f: bool|
                    0 <= m < cs@.len() && !w1.contains((m as usize, f)) implies #[trigger] end_ok(
                    cs@,
                    scopes@,
                    d0,
                    m,
                    f,
                ) by {
                    let e = (m as usize, f);
                    if e == arc {
                        assert(m == j && f == flip);
                        assert(end_ok(cs@, scopes@, d0, j as int, flip));
                    } else {
                        if w0.contains(e) {
                            assert(w1.push(arc).contains(e));
                        }
                        assert(!w0.contains(e));
                        assert(end_ok(cs@, scopes@, d0, m, f));
                    }
                }
            }
        }
    }
    proof {
        assert forall|m: int| 0 <= m < cs@.len() implies arc_ok(cs@, scopes@, dview(*doms), m) by {
            assert(!work@.contains((m as usize, false)));
            assert(!work@.contains((m as usize, true)));
        }
    }
    if every_singleton(doms) {
        Status::Solved
    } else {
        Status::Reduced
    }
}

/// Propagating what propagation returned changes nothing: the domains and
/// the status of the second run are those of the first.
pub proof fn lemma_propagation_idempotent<C: Constraint>(
    cs: Seq<C>,
    scopes: Seq<(usize, usize)>,
    start: Seq<Seq<Value>>,
    once: Seq<Seq<Value>>,
    first: Status,
    twice: Seq<Seq<Value>>,
    second: Status,
)
    requires
        propagated(cs, scopes, start, once, first),
        propagated(cs, scopes, once, twice, second),
    ensures
        twice == once,
        second == first,
{
}

/// After propagation that left no domain empty, every remaining value of
/// either variable of a constraint has a partner in the other's domain.
pub proof fn lemma_propagation_sound<C: Constraint>(
    cs: Seq<C>,
    scopes: Seq<(usize, usize)>,
    start: Seq<Seq<Value>>,
    after: Seq<Seq<Value>>,
    status: Status,
    j: int,
    v: Value,
)
    requires
        propagated(cs, scopes, start, after, status),
        status != Status::Exhausted,
        0 <= j < cs.len(),
    ensures
        after[scopes[j].0 as int].contains(v) ==> exists|w: Value|
            after[scopes[j].1 as int].contains(w) && cs[j].holds(v, w),
        after[scopes[j].1 as int].contains(v) ==> exists|w: Value|
            after[scopes[j].0 as int].contains(w) && cs[j].holds(w, v),
{
    let dx = after[scopes[j].0 as int];
    let dy = after[scopes[j].1 as int];
    assert(arc_ok(cs, scopes, after, j));
    if dx.contains(v) {
        let m = choose|m: int| 0 <= m < dx.len() && dx[m] == v;
        assert(supported(&cs[j], false, dx[m], dy));
        let k = choose|k: int| 0 <= k < dy.len() && pair_ok(&cs[j], false, v, #[trigger] dy[k]);
        assert(dy.contains(dy[k]) && cs[j].holds(v, dy[k]));
    }
    if dy.contains(v) {
        let m = choose|m: int| 0 <= m < dy.len() && dy[m] == v;
        assert(supported(&cs[j], true, dy[m], dx));
        let k = choose|k: int| 0 <= k < dx.len() && pair_ok(&cs[j], true, v, #[trigger] dx[k]);
        assert(dx.contains(dx[k]) && cs[j].holds(dx[k], v));
    }
}

/// Without constraints propagation changes nothing, and its status is that
/// of the domains it was given.
pub proof fn lemma_no_constraints<C: Constraint>(
    cs: Seq<C>,
    scopes: Seq<(usize, usize)>,
    before: Seq<Seq<Value>>,
    after: Seq<Seq<Value>>,
    status: Status,
)
    requires
        cs.len() == 0,
        propagated(cs, scopes, before, after, status),
    ensures
        after == before,
        status == classify(before),
{
}

/// Propagation has one result: two outcomes for the same ascending domains,
/// neither with an empty domain, are the same domains.
pub proof fn lemma_propagation_unique<C: Constraint>(
    cs: Seq<C>,
    scopes: Seq<(usize, usize)>,
    start: Seq<Seq<Value>>,
    one: Seq<Seq<Value>>,
    first: Status,
    other: Seq<Seq<Value>>,
    second: Status,
)
    requires
        propagated(cs, scopes, start, one, first),
        propagated(cs, scopes, start, other, second),
        first != Status::Exhausted,
        second != Status::Exhausted,
        forall|i: int| 0 <= i < start.len() ==> ascending(#[trigger] start[i]),
    ensures
        one == other,
        first == second,
{
    assert(sub_family(one, start));
    assert(sub_family(other, start));
    assert(sub_family(one, other));
    assert(sub_family(other, one));
    assert forall|i: int| 0 <= i < one.len() implies one[i] == other[i] by {
        assert(ascending(start[i]));
        assert(ascending(one[i]));
        assert(ascending(other[i]));
        assert forall|v: Value| one[i].contains(v) <==> other[i].contains(v) by {}
        lemma_same_members(one[i], other[i]);
    }
    assert(one =~= other);
}

} // verus!
