//! Backtracking search over the domains, with propagation after each
//! decision.

use crate::constraint::{Constraint, Value};
use crate::domain::ascending;
use crate::network::{
    all_singleton, arc_consistent, arc_ok, classify, dview, has_empty, lemma_empty_blocks,
    lemma_solutions_stay, lemma_total_bounds, lemma_total_update, narrower, network_ok, pair_ok,
    propagated, solution, supported, total, within, Status,
};
use crate::propagate::propagate;
use vstd::prelude::*;

verus! {

/// Variable `x` is the one to branch on: it has the fewest candidates among
/// the variables that have more than one, and the lowest index among those
/// with as few.
pub open spec fn is_choice(d: Seq<Seq<Value>>, x: int) -> bool {
    &&& 0 <= x < d.len()
    &&& d[x].len() > 1
    &&& forall|i: int|
        0 <= i < d.len() && (#[trigger] d[i]).len() > 1 ==> d[x].len() < d[i].len() || (d[x].len()
            == d[i].len() && x <= i)
}

/// Among all solutions over `d`, `a` gives the variable to branch on the
/// smallest value, where that variable's domain is ascending.
pub open spec fn least_on_choice<C: Constraint>(
    cs: Seq<C>,
    scopes: Seq<(usize, usize)>,
    d: Seq<Seq<Value>>,
    a: Seq<Value>,
) -> bool {
    forall|x: int, b: Seq<Value>|
        #![trigger is_choice(d, x), solution(cs, scopes, d, b)]
        is_choice(d, x) && ascending(d[x]) && solution(cs, scopes, d, b) ==> a[x] <= b[x]
}

/// Propagation turns `d` into `after`, over which `a` gives the variable to
/// branch on its smallest value.
pub open spec fn first_choice<C: Constraint>(
    cs: Seq<C>,
    scopes: Seq<(usize, usize)>,
    d: Seq<Seq<Value>>,
    after: Seq<Seq<Value>>,
    a: Seq<Value>,
) -> bool {
    propagated(cs, scopes, d, after, classify(after)) && least_on_choice(cs, scopes, after, a)
}

/// What `explore` finds over the domains `d`: a solution that, over the
/// propagated domains, gives the variable to branch on its smallest value;
/// or nothing, where there is no solution.
pub open spec fn explored<C: Constraint>(
    cs: Seq<C>,
    scopes: Seq<(usize, usize)>,
    d: Seq<Seq<Value>>,
    found: Option<Seq<Value>>,
) -> bool {
    match found {
        Some(a) => {
            &&& solution(cs, scopes, d, a)
            &&& exists|after: Seq<Seq<Value>>| #[trigger] first_choice(cs, scopes, d, after, a)
        },
        None => forall|a: Seq<Value>| !solution(cs, scopes, d, a),
    }
}

/// The variable to branch on, or `None` where no variable has more than one
/// candidate.
pub fn select_variable(doms: &Vec<Vec<Value>>) -> (pick: Option<usize>)
    ensures
        match pick {
            Some(x) => is_choice(dview(*doms), x as int),
            None => forall|i: int| 0 <= i < doms@.len() ==> (#[trigger] dview(*doms)[i]).len() <= 1,
        },
{
    let mut pick: Option<usize> = None;
    let mut i: usize = 0;
    while i < doms.len()
        invariant
            i <= doms.len(),
            match pick {
                Some(x) => is_choice(dview(*doms).take(i as int), x as int),
                None => forall|m: int| 0 <= m < i ==> (#[trigger] dview(*doms)[m]).len() <= 1,
            },
        decreases doms.len() - i,
    {
        let n = doms[i].len();
        let ghost seen = dview(*doms).take(i as int);
        let ghost next = dview(*doms).take(i + 1);
        let better = match pick {
            Some(x) => n > 1 && n < doms[x].len(),
            None => n > 1,
        };
        proof {
            assert(forall|m: int| 0 <= m < i ==> next[m] == seen[m]);
            assert(next[i as int] == dview(*doms)[i as int]);
        }
        if better {
            pick = Some(i);
        }
        i = i + 1;
    }
    proof {
        assert(dview(*doms).take(doms@.len() as int) =~= dview(*doms));
    }
    pick
}

/// A copy of the domains.
pub fn snapshot(doms: &Vec<Vec<Value>>) -> (copy: Vec<Vec<Value>>)
    ensures
        dview(copy) == dview(*doms),
{
    let mut copy: Vec<Vec<Value>> = Vec::new();
    let mut i: usize = 0;
    while i < doms.len()
        invariant
            i <= doms.len(),
            copy@.len() == i,
            forall|m: int| 0 <= m < i ==> (#[trigger] copy@[m])@ == doms@[m]@,
        decreases doms.len() - i,
    {
        let mut row: Vec<Value> = Vec::new();
        let mut k: usize = 0;
        while k < doms[i].len()
            invariant
                i < doms.len(),
                k <= doms@[i as int]@.len(),
                row@ == doms@[i as int]@.take(k as int),
            decreases doms@[i as int]@.len() - k,
        {
            row.push(doms[i][k]);
            assert(row@ =~= doms@[i as int]@.take(k + 1));
            k = k + 1;
        }
        assert(row@ =~= doms@[i as int]@);
        copy.push(row);
        i = i + 1;
    }
    assert(dview(copy) =~= dview(*doms));
    copy
}

/// The assignment that singleton domains leave: each variable's one value.
pub fn induced(doms: &Vec<Vec<Value>>) -> (a: Vec<Value>)
    requires
        all_singleton(dview(*doms)),
    ensures
        a@.len() == doms@.len(),
        forall|i: int| 0 <= i < doms@.len() ==> #[trigger] a@[i] == dview(*doms)[i][0],
{
    let mut a: Vec<Value> = Vec::new();
    let mut i: usize = 0;
    while i < doms.len()
        invariant
            i <= doms.len(),
            a@.len() == i,
            all_singleton(dview(*doms)),
            forall|m: int| 0 <= m < i ==> #[trigger] a@[m] == dview(*doms)[m][0],
        decreases doms.len() - i,
    {
        assert(dview(*doms)[i as int].len() == 1);
        a.push(doms[i][0]);
        i = i + 1;
    }
    a
}

/// Over singleton domains that are arc-consistent, the one assignment that
/// is left is a solution.
pub proof fn lemma_singletons_solve<C: Constraint>(
    cs: Seq<C>,
    scopes: Seq<(usize, usize)>,
    d: Seq<Seq<Value>>,
    a: Seq<Value>,
)
    requires
        network_ok(cs, scopes, d.len() as int),
        all_singleton(d),
        arc_consistent(cs, scopes, d),
        a.len() == d.len(),
        forall|i: int| 0 <= i < d.len() ==> #[trigger] a[i] == d[i][0],
    ensures
        solution(cs, scopes, d, a),
{
    assert forall|i: int| 0 <= i < d.len() implies (#[trigger] d[i]).contains(a[i]) by {
        assert(d[i].len() == 1);
        assert(d[i][0] == a[i]);
    }
    assert forall|j: int| 0 <= j < cs.len() implies (#[trigger] cs[j]).holds(
        a[scopes[j].0 as int],
        a[scopes[j].1 as int],
    ) by {
        let x = scopes[j].0 as int;
        let y = scopes[j].1 as int;
        assert(arc_ok(cs, scopes, d, j));
        assert(d[x].len() == 1 && d[y].len() == 1);
        assert(supported(&cs[j], false, d[x][0], d[y]));
        let k = choose|k: int|
            0 <= k < d[y].len() && pair_ok(&cs[j], false, d[x][0], #[trigger] d[y][k]);
        assert(k == 0);
        assert(a[x] == d[x][0] && a[y] == d[y][0]);
    }
}

/// Depth-first search with propagation after each decision. It branches on
/// the variable that `select_variable` picks and tries its candidates in the
/// domain's order, each on a copy of the domains.
pub fn search<C: Constraint>(
    cs: &Vec<C>,
    scopes: &Vec<(usize, usize)>,
    doms: &Vec<Vec<Value>>,
) -> (found: Option<Vec<Value>>)
    requires
        network_ok(cs@, scopes@, doms@.len() as int),
        !has_empty(dview(*doms)),
        arc_consistent(cs@, scopes@, dview(*doms)),
    ensures
        match found {
            Some(a) => solution(cs@, scopes@, dview(*doms), a@) && least_on_choice(
                cs@,
                scopes@,
                dview(*doms),
                a@,
            ),
            None => forall|a: Seq<Value>| !solution(cs@, scopes@, dview(*doms), a),
        },
    decreases total(dview(*doms)),
{
    let ghost d = dview(*doms);
    match select_variable(doms) {
        None => {
            assert forall|i: int| 0 <= i < d.len() implies (#[trigger] d[i]).len() == 1 by {}
            let a = induced(doms);
            proof {
                lemma_singletons_solve(cs@, scopes@, d, a@);
            }
            Some(a)
        },
        Some(x) => {
            let mut k: usize = 0;
            while k < doms[x].len()
                invariant
                    d == dview(*doms),
                    x < doms@.len(),
                    k <= d[x as int].len(),
                    is_choice(d, x as int),
                    network_ok(cs@, scopes@, doms@.len() as int),
                    forall|a: Seq<Value>, m: int|
                        #![trigger solution(cs@, scopes@, d, a), d[x as int][m]]
                        solution(cs@, scopes@, d, a) && 0 <= m < k ==> a[x as int]
                            != d[x as int][m],
                decreases d[x as int].len() - k,
            {
                let v = doms[x][k];
                let mut child = snapshot(doms);
                let mut one: Vec<Value> = Vec::new();
                one.push(v);
                let ghost ov = one@;
                child.set(x, one);
                let ghost c0 = dview(child);
                proof {
                    assert(ov =~= seq![v]);
                    assert(c0 =~= d.update(x as int, ov));
                    lemma_total_update(d, x as int, ov);
                    assert(d[x as int][k as int] == v);
                    assert(narrower(c0, d)) by {
                        assert forall|i: int, w: Value|
                            0 <= i < c0.len() && #[trigger] c0[i].contains(w) implies d[i].contains(
                            w,
                        ) by {
                            if i == x {
                                assert(w == v);
                            }
                        }
                    }
                    lemma_solutions_stay(cs@, scopes@, d, c0);
                }
                let status = propagate(cs, scopes, &mut child);
                let ghost c1 = dview(child);
                proof {
                    lemma_solutions_stay(cs@, scopes@, c0, c1);
                }
                match status {
                    Status::Exhausted => {
                        assert(has_empty(c1));
                    },
                    _ => {
                        proof {
                            lemma_total_bounds(c1);
                        }
                        let r = search(cs, scopes, &child);
                        if let Some(a) = r {
                            proof {
                                assert(c1[x as int].contains(a@[x as int]));
                                assert(c0[x as int].contains(a@[x as int]));
                                assert(a@[x as int] == v);
                                assert forall|y: int, b: Seq<Value>|
                                    #![trigger is_choice(d, y), solution(cs@, scopes@, d, b)]
                                    is_choice(d, y) && ascending(d[y]) && solution(
                                        cs@,
                                        scopes@,
                                        d,
                                        b,
                                    ) implies a@[y] <= b[y] by {
                                    assert(y == x);
                                    assert(d[y].contains(b[y]));
                                    let m = choose|m: int| 0 <= m < d[y].len() && d[y][m] == b[y];
                                    if m < k {
                                        assert(b[x as int] != d[x as int][m]);
                                    }
                                }
                            }
                            return Some(a);
                        }
                        assert(forall|a: Seq<Value>| !solution(cs@, scopes@, c1, a));
                    },
                }
                assert(has_empty(c1) || forall|a: Seq<Value>| !solution(cs@, scopes@, c1, a));
                proof {
                    assert forall|a: Seq<Value>|
                        solution(cs@, scopes@, d, a) implies a[x as int] != v by {
                        if a[x as int] == v {
                            assert forall|i: int| 0 <= i < c0.len() implies (
                            #[trigger] c0[i]).contains(a[i]) by {
                                if i == x {
                                    assert(c0[i][0] == v);
                                } else {
                                    assert(d[i].contains(a[i]));
                                }
                            }
                            assert(solution(cs@, scopes@, c0, a));
                            assert(within(a, c1));
                            if has_empty(c1) {
                                let e = choose|e: int|
                                    0 <= e < c1.len() && (#[trigger] c1[e]).len() == 0;
                                assert(c1[e].contains(a[e]));
                            } else {
                                assert(solution(cs@, scopes@, c1, a));
                            }
                        }
                    }
                }
                k = k + 1;
            }
            proof {
                assert forall|a: Seq<Value>| !solution(cs@, scopes@, d, a) by {
                    if solution(cs@, scopes@, d, a) {
                        assert(d[x as int].contains(a[x as int]));
                        let m = choose|m: int|
                            0 <= m < d[x as int].len() && d[x as int][m] == a[x as int];
                        assert(a[x as int] != d[x as int][m]);
                    }
                }
            }
            None
        },
    }
}

/// Propagates, then searches what is left: an assignment that meets every
/// constraint, or `None` where there is none. Where propagation empties a
/// domain, the search is not entered.
pub fn explore<C: Constraint>(
    cs: &Vec<C>,
    scopes: &Vec<(usize, usize)>,
    doms: Vec<Vec<Value>>,
) -> (found: Option<Vec<Value>>)
    requires
        network_ok(cs@, scopes@, doms@.len() as int),
    ensures
        explored(
            cs@,
            scopes@,
            dview(doms),
            match found {
                Some(a) => Some(a@),
                None => None,
            },
        ),
{
    let ghost d0 = dview(doms);
    let mut work = doms;
    let status = propagate(cs, scopes, &mut work);
    let ghost d1 = dview(work);
    proof {
        lemma_solutions_stay(cs@, scopes@, d0, d1);
    }
    match status {
        Status::Exhausted => {
            proof {
                assert forall|a: Seq<Value>| !solution(cs@, scopes@, d0, a) by {
                    lemma_empty_blocks(d1, a);
                }
            }
            None
        },
        _ => {
            let found = search(cs, scopes, &work);
            proof {
                if found.is_some() {
                    let a = found.unwrap()@;
                    assert(first_choice(cs@, scopes@, d0, d1, a));
                }
                if found.is_none() {
                    assert forall|a: Seq<Value>| !solution(cs@, scopes@, d0, a) by {
                        if solution(cs@, scopes@, d0, a) {
                            assert(solution(cs@, scopes@, d1, a));
                        }
                    }
                }
            }
            found
        },
    }
}

} // verus!
