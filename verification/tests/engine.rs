use csp::constraint::{
    AnyConstraint, BinaryConstraint, Constraint, EqualityConstraint, InequalityConstraint,
    UnaryConstraint, Value,
};
use csp::domain::{Domain, IntDomain};
use csp::network::Status;
use csp::propagate::{
    all_arcs, any_empty, enqueue_dependents, every_singleton, has_support, narrow, propagate,
    revise,
};
use csp::problem::{
    backtrack, find_entry, find_name, is_satisfied, reduce, resolve_scope, solve,
    ConfigurationError, Csp, SolverResult,
};
use csp::search::{explore, induced, search, select_variable, snapshot};

type Mixed = AnyConstraint<fn(Value) -> bool, fn(Value, Value) -> bool>;

fn name(s: &str) -> String {
    s.to_string()
}

fn square(x: Value, y: Value) -> bool {
    y == x * x
}

fn less(x: Value, y: Value) -> bool {
    x < y
}

fn even(x: Value) -> bool {
    x % 2 == 0
}

fn square_problem() -> Csp<IntDomain, BinaryConstraint<fn(Value, Value) -> bool>> {
    Csp {
        variables: vec![name("x"), name("y")],
        domains: vec![
            (name("x"), IntDomain::from_range(0, 10)),
            (name("y"), IntDomain::from_range(0, 10)),
        ],
        constraints: vec![BinaryConstraint(vec![name("x"), name("y")], square)],
    }
}

#[test]
fn end_to_end_square() {
    match solve(&square_problem()) {
        Ok(SolverResult::Solved(a)) => {
            assert_eq!(a.len(), 2);
            assert_eq!(a[1], a[0] * a[0]);
            assert!(0 <= a[0] && a[0] < 10);
            assert!(0 <= a[1] && a[1] < 10);
        }
        other => panic!("expected a solution, got {:?}", other),
    }
}

#[test]
fn search_takes_the_smallest_candidate_first() {
    match solve(&square_problem()) {
        Ok(SolverResult::Solved(a)) => assert_eq!(a, vec![0, 0]),
        other => panic!("expected a solution, got {:?}", other),
    }
}

#[test]
fn end_to_end_with_boxed_closure() {
    let pred: Box<dyn Fn(Value, Value) -> bool> = Box::new(|x, y| y == x * x && x > 1);
    let csp = Csp {
        variables: vec![name("x"), name("y")],
        domains: vec![
            (name("y"), IntDomain::from_range(0, 10)),
            (name("x"), IntDomain::from_range(0, 10)),
        ],
        constraints: vec![BinaryConstraint(vec![name("x"), name("y")], pred)],
    };
    match solve(&csp) {
        Ok(SolverResult::Solved(a)) => assert_eq!(a, vec![2, 4]),
        other => panic!("expected a solution, got {:?}", other),
    }
}

#[test]
fn propagation_leaves_only_supported_values() {
    let cs: Vec<BinaryConstraint<fn(Value, Value) -> bool>> =
        vec![BinaryConstraint(vec![name("x"), name("y")], square)];
    let scopes = vec![(0usize, 1usize)];
    let mut doms: Vec<Vec<Value>> = vec![(0..10).collect(), (0..10).collect()];
    let status = propagate(&cs, &scopes, &mut doms);
    assert_eq!(status, Status::Reduced);
    assert_eq!(doms, vec![vec![0, 1, 2, 3], vec![0, 1, 4, 9]]);
    for &x in &doms[0] {
        assert!(doms[1].iter().any(|&y| square(x, y)));
    }
    for &y in &doms[1] {
        assert!(doms[0].iter().any(|&x| square(x, y)));
    }
}

#[test]
fn propagation_twice_changes_nothing() {
    let cs: Vec<BinaryConstraint<fn(Value, Value) -> bool>> = vec![
        BinaryConstraint(vec![name("x"), name("y")], less),
        BinaryConstraint(vec![name("y"), name("z")], less),
    ];
    let scopes = vec![(0usize, 1usize), (1usize, 2usize)];
    let mut doms: Vec<Vec<Value>> = vec![(0..4).collect(), (0..4).collect(), (0..4).collect()];
    let first = propagate(&cs, &scopes, &mut doms);
    let once = doms.clone();
    assert_eq!(once, vec![vec![0, 1], vec![1, 2], vec![2, 3]]);
    let second = propagate(&cs, &scopes, &mut doms);
    assert_eq!(first, second);
    assert_eq!(doms, once);
}

#[test]
fn propagation_twice_after_exhaustion_changes_nothing() {
    let cs: Vec<BinaryConstraint<fn(Value, Value) -> bool>> =
        vec![BinaryConstraint(vec![name("x"), name("y")], less)];
    let scopes = vec![(0usize, 1usize)];
    let mut doms: Vec<Vec<Value>> = vec![vec![5, 6], vec![1, 2]];
    assert_eq!(propagate(&cs, &scopes, &mut doms), Status::Exhausted);
    let once = doms.clone();
    assert!(any_empty(&once));
    assert_eq!(propagate(&cs, &scopes, &mut doms), Status::Exhausted);
    assert_eq!(doms, once);
}

#[test]
fn propagation_can_solve() {
    let cs: Vec<Mixed> = vec![
        AnyConstraint::Equality(EqualityConstraint(vec![name("x")], 3)),
        AnyConstraint::Binary(BinaryConstraint(vec![name("x"), name("y")], square)),
    ];
    let scopes = vec![(0usize, 0usize), (0usize, 1usize)];
    let mut doms: Vec<Vec<Value>> = vec![(0..10).collect(), (0..10).collect()];
    assert_eq!(propagate(&cs, &scopes, &mut doms), Status::Solved);
    assert_eq!(doms, vec![vec![3], vec![9]]);
    assert!(every_singleton(&doms));
    assert_eq!(induced(&doms), vec![3, 9]);
}

#[test]
fn no_constraints_reduced_unchanged() {
    let csp: Csp<IntDomain, Mixed> = Csp {
        variables: vec![name("x"), name("y")],
        domains: vec![
            (name("x"), IntDomain::from_range(0, 3)),
            (name("y"), IntDomain::from_range(7, 8)),
        ],
        constraints: vec![],
    };
    match reduce(&csp) {
        Ok(SolverResult::Reduced(d)) => assert_eq!(d, vec![vec![0, 1, 2], vec![7]]),
        other => panic!("expected reduced domains, got {:?}", other),
    }
}

#[test]
fn no_constraints_all_singleton_is_solved() {
    let csp: Csp<IntDomain, Mixed> = Csp {
        variables: vec![name("x"), name("y")],
        domains: vec![
            (name("x"), IntDomain::from_range(4, 5)),
            (name("y"), IntDomain::from_range(7, 8)),
        ],
        constraints: vec![],
    };
    match solve(&csp) {
        Ok(SolverResult::Solved(a)) => assert_eq!(a, vec![4, 7]),
        other => panic!("expected a solution, got {:?}", other),
    }
    match reduce(&csp) {
        Ok(SolverResult::Solved(a)) => assert_eq!(a, vec![4, 7]),
        other => panic!("expected a solution, got {:?}", other),
    }
}

#[test]
fn equality_and_inequality_to_one_value_contradict() {
    let csp: Csp<IntDomain, Mixed> = Csp {
        variables: vec![name("x")],
        domains: vec![(name("x"), IntDomain::from_range(5, 6))],
        constraints: vec![
            AnyConstraint::Equality(EqualityConstraint(vec![name("x")], 5)),
            AnyConstraint::Inequality(InequalityConstraint(vec![name("x")], 5)),
        ],
    };
    assert!(matches!(solve(&csp), Ok(SolverResult::NoSolution)));
    assert!(matches!(reduce(&csp), Ok(SolverResult::NoSolution)));
    assert!(matches!(backtrack(csp), Ok(None)));
}

#[test]
fn empty_domain_gives_no_solution() {
    let csp: Csp<IntDomain, Mixed> = Csp {
        variables: vec![name("x"), name("y")],
        domains: vec![
            (name("x"), IntDomain::from_range(0, 3)),
            (name("y"), IntDomain::from_range(3, 3)),
        ],
        constraints: vec![],
    };
    assert!(matches!(solve(&csp), Ok(SolverResult::NoSolution)));
    assert!(matches!(reduce(&csp), Ok(SolverResult::NoSolution)));
}

#[test]
fn search_backtracks_over_failed_branches() {
    // x < y, y < z, z < x + 3 and x even over 1..6: the branch x = 1 is not
    // even, so x = 2, y = 3, z = 4.
    fn near(z: Value, x: Value) -> bool {
        z < x + 3
    }
    fn differ(x: Value, y: Value) -> bool {
        x != y
    }
    let csp: Csp<IntDomain, Mixed> = Csp {
        variables: vec![name("x"), name("y"), name("z")],
        domains: vec![
            (name("x"), IntDomain::from_range(1, 6)),
            (name("y"), IntDomain::from_range(1, 6)),
            (name("z"), IntDomain::from_range(1, 6)),
        ],
        constraints: vec![
            AnyConstraint::Binary(BinaryConstraint(vec![name("x"), name("y")], less)),
            AnyConstraint::Binary(BinaryConstraint(vec![name("y"), name("z")], less)),
            AnyConstraint::Binary(BinaryConstraint(vec![name("z"), name("x")], near)),
            AnyConstraint::Unary(UnaryConstraint(vec![name("x")], even)),
            AnyConstraint::Binary(BinaryConstraint(vec![name("x"), name("z")], differ)),
        ],
    };
    match solve(&csp) {
        Ok(SolverResult::Solved(a)) => assert_eq!(a, vec![2, 3, 4]),
        other => panic!("expected a solution, got {:?}", other),
    }
    match backtrack(csp) {
        Ok(Some(a)) => assert_eq!(a, vec![2, 3, 4]),
        other => panic!("expected a solution, got {:?}", other),
    }
}

#[test]
fn search_proves_unsatisfiable() {
    // Three variables over two values, all different: arc-consistent, yet
    // without a solution.
    fn differ(x: Value, y: Value) -> bool {
        x != y
    }
    let cs: Vec<BinaryConstraint<fn(Value, Value) -> bool>> = vec![
        BinaryConstraint(vec![name("a"), name("b")], differ),
        BinaryConstraint(vec![name("b"), name("c")], differ),
        BinaryConstraint(vec![name("a"), name("c")], differ),
    ];
    let scopes = vec![(0usize, 1usize), (1usize, 2usize), (0usize, 2usize)];
    let doms: Vec<Vec<Value>> = vec![vec![0, 1], vec![0, 1], vec![0, 1]];
    let mut work = snapshot(&doms);
    assert_eq!(work, doms);
    assert_eq!(propagate(&cs, &scopes, &mut work), Status::Reduced);
    assert_eq!(work, doms);
    assert_eq!(search(&cs, &scopes, &work), None);
    assert_eq!(explore(&cs, &scopes, doms), None);
}

#[test]
fn variable_with_fewest_candidates_is_chosen() {
    assert_eq!(select_variable(&vec![vec![1, 2, 3], vec![1, 2], vec![5], vec![7, 8]]), Some(1));
    assert_eq!(select_variable(&vec![vec![1], vec![2]]), None);
    assert_eq!(select_variable(&vec![]), None);
    assert_eq!(select_variable(&vec![vec![1], vec![1, 2, 3], vec![4, 5, 6]]), Some(1));
}

#[test]
fn revise_keeps_values_with_a_partner() {
    let c: BinaryConstraint<fn(Value, Value) -> bool> =
        BinaryConstraint(vec![name("x"), name("y")], less);
    assert_eq!(revise(&c, false, &vec![1, 2, 3, 4], &vec![2, 3]), vec![1, 2]);
    assert_eq!(revise(&c, true, &vec![1, 2, 3, 4], &vec![2, 3]), vec![3, 4]);
    assert!(has_support(&c, false, 1, &vec![0, 2]));
    assert!(!has_support(&c, true, 1, &vec![2, 3]));
    assert!(!has_support(&c, false, 1, &vec![]));
}

#[test]
fn narrow_reports_whether_the_domain_shrank() {
    let cs: Vec<BinaryConstraint<fn(Value, Value) -> bool>> =
        vec![BinaryConstraint(vec![name("x"), name("y")], less)];
    let scopes = vec![(0usize, 1usize)];
    let mut doms: Vec<Vec<Value>> = vec![vec![1, 2, 3], vec![1, 2, 3]];
    assert!(narrow(&cs, &scopes, &mut doms, 0, false));
    assert_eq!(doms, vec![vec![1, 2], vec![1, 2, 3]]);
    assert!(!narrow(&cs, &scopes, &mut doms, 0, false));
    assert!(narrow(&cs, &scopes, &mut doms, 0, true));
    assert_eq!(doms, vec![vec![1, 2], vec![2, 3]]);
}

#[test]
fn constraints_judge_pairs() {
    let u: UnaryConstraint<fn(Value) -> bool> = UnaryConstraint(vec![name("x")], even);
    assert!(u.supports(4, 7));
    assert!(!u.supports(3, 4));
    assert_eq!(u.scope_len(), 1);
    assert_eq!(u.scope_name(0), "x");
    let e = EqualityConstraint(vec![name("x")], 5);
    assert!(e.supports(5, 0));
    assert!(!e.supports(4, 5));
    let n = InequalityConstraint(vec![name("x")], 5);
    assert!(!n.supports(5, 0));
    assert!(n.supports(4, 5));
    let b: BinaryConstraint<fn(Value, Value) -> bool> =
        BinaryConstraint(vec![name("x"), name("y")], square);
    assert!(b.supports(3, 9));
    assert!(!b.supports(9, 3));
    assert_eq!(b.scope_len(), 2);
    assert_eq!(b.scope_name(1), "y");
}

#[test]
fn domain_operations() {
    let mut d = IntDomain::from_range(2, 5);
    assert_eq!(d.values(), vec![2, 3, 4]);
    assert!(d.contains(3));
    assert!(!d.contains(5));
    d.remove(3);
    assert_eq!(d.values(), vec![2, 4]);
    d.remove(3);
    assert_eq!(d.values(), vec![2, 4]);
    d.remove(9);
    assert_eq!(d.values(), vec![2, 4]);
    assert!(!d.is_singleton());
    d.remove(2);
    assert!(d.is_singleton());
    assert!(!d.is_empty());
    d.remove(4);
    assert!(d.is_empty());
    assert!(IntDomain::from_range(5, 2).is_empty());
    assert_eq!(IntDomain::from_range(-2, 1).values(), vec![-2, -1, 0]);
}

#[test]
fn names_are_found_at_their_first_place() {
    let names = vec![name("a"), name("b"), name("a")];
    assert_eq!(find_name(&names, &name("a")), Some(0));
    assert_eq!(find_name(&names, &name("b")), Some(1));
    assert_eq!(find_name(&names, &name("c")), None);
    let entries = vec![
        (name("y"), IntDomain::from_range(0, 1)),
        (name("x"), IntDomain::from_range(0, 2)),
        (name("x"), IntDomain::from_range(0, 3)),
    ];
    assert_eq!(find_entry(&entries, &name("x")), Some(1));
    assert_eq!(find_entry(&entries, &name("z")), None);
}

#[test]
fn scopes_resolve_to_indices() {
    let names = vec![name("x"), name("y")];
    let b: BinaryConstraint<fn(Value, Value) -> bool> =
        BinaryConstraint(vec![name("y"), name("x")], less);
    assert_eq!(resolve_scope(&names, &b), Ok((1, 0)));
    let e = EqualityConstraint(vec![name("y")], 1);
    assert_eq!(resolve_scope(&names, &e), Ok((1, 1)));
    let u = EqualityConstraint(vec![name("z")], 1);
    assert_eq!(resolve_scope(&names, &u), Err(ConfigurationError::UndeclaredVariable));
    let none = EqualityConstraint(vec![], 1);
    assert_eq!(resolve_scope(&names, &none), Err(ConfigurationError::MalformedScope));
    let three = EqualityConstraint(vec![name("x"), name("y"), name("x")], 1);
    assert_eq!(resolve_scope(&names, &three), Err(ConfigurationError::MalformedScope));
}

#[test]
fn undeclared_variable_is_refused() {
    let r = Csp::new(
        vec![name("x")],
        vec![(name("x"), IntDomain::from_range(0, 3))],
        vec![EqualityConstraint(vec![name("q")], 1)],
    );
    assert!(matches!(r, Err(ConfigurationError::UndeclaredVariable)));
    let csp = Csp {
        variables: vec![name("x")],
        domains: vec![(name("x"), IntDomain::from_range(0, 3))],
        constraints: vec![EqualityConstraint(vec![name("q")], 1)],
    };
    assert!(matches!(solve(&csp), Err(ConfigurationError::UndeclaredVariable)));
    assert!(matches!(reduce(&csp), Err(ConfigurationError::UndeclaredVariable)));
    assert!(matches!(backtrack(csp), Err(ConfigurationError::UndeclaredVariable)));
}

#[test]
fn missing_domain_is_refused() {
    let r = Csp::new(
        vec![name("x"), name("y")],
        vec![(name("x"), IntDomain::from_range(0, 3))],
        vec![EqualityConstraint(vec![name("q")], 1)],
    );
    assert!(matches!(r, Err(ConfigurationError::MissingDomain)));
}

#[test]
fn malformed_scope_is_refused() {
    let r = Csp::new(
        vec![name("x")],
        vec![(name("x"), IntDomain::from_range(0, 3))],
        vec![EqualityConstraint(vec![], 1), EqualityConstraint(vec![name("q")], 1)],
    );
    assert!(matches!(r, Err(ConfigurationError::MalformedScope)));
}

#[test]
fn valid_problem_is_built_and_compiled() {
    let csp = Csp::new(
        vec![name("x"), name("y")],
        vec![
            (name("y"), IntDomain::from_range(5, 7)),
            (name("x"), IntDomain::from_range(0, 3)),
        ],
        vec![InequalityConstraint(vec![name("y")], 5)],
    )
    .unwrap();
    let (scopes, doms) = csp.compile().unwrap();
    assert_eq!(scopes, vec![(1, 1)]);
    assert_eq!(doms, vec![vec![0, 1, 2], vec![5, 6]]);
    match reduce(&csp) {
        Ok(SolverResult::Reduced(d)) => assert_eq!(d, vec![vec![0, 1, 2], vec![6]]),
        other => panic!("expected reduced domains, got {:?}", other),
    }
    match solve(&csp) {
        Ok(SolverResult::Solved(a)) => assert_eq!(a, vec![0, 6]),
        other => panic!("expected a solution, got {:?}", other),
    }
}

#[test]
fn worklist_starts_with_every_end() {
    assert_eq!(all_arcs(0), vec![]);
    assert_eq!(all_arcs(2), vec![(1, true), (1, false), (0, true), (0, false)]);
}

#[test]
fn dependents_are_the_ends_that_rest_on_the_variable() {
    let scopes = vec![(0usize, 1usize), (1usize, 2usize), (2usize, 2usize)];
    let mut work = vec![(0usize, true)];
    enqueue_dependents(&scopes, &mut work, 1);
    assert_eq!(work, vec![(0, true), (0, false), (1, true)]);
    let mut work = Vec::new();
    enqueue_dependents(&scopes, &mut work, 2);
    assert_eq!(work, vec![(1, false), (2, false), (2, true)]);
    let mut work = Vec::new();
    enqueue_dependents(&scopes, &mut work, 7);
    assert_eq!(work, vec![]);
}

#[test]
fn propagation_follows_a_chain_of_constraints() {
    // z = y + 1, y = x + 1 and x = 0 over 0..5: the equality reaches z only
    // through the domains of x and y.
    fn succ(a: Value, b: Value) -> bool {
        b == a + 1
    }
    let cs: Vec<Mixed> = vec![
        AnyConstraint::Binary(BinaryConstraint(vec![name("y"), name("z")], succ)),
        AnyConstraint::Binary(BinaryConstraint(vec![name("x"), name("y")], succ)),
        AnyConstraint::Equality(EqualityConstraint(vec![name("x")], 0)),
    ];
    let scopes = vec![(1usize, 2usize), (0usize, 1usize), (0usize, 0usize)];
    let mut doms: Vec<Vec<Value>> = vec![(0..5).collect(), (0..5).collect(), (0..5).collect()];
    assert_eq!(propagate(&cs, &scopes, &mut doms), Status::Solved);
    assert_eq!(doms, vec![vec![0], vec![1], vec![2]]);
}

#[test]
fn constraint_on_one_variable_twice() {
    // b == a + 1 between x and itself has no solution, though each value
    // but the last has a partner at first.
    fn succ(a: Value, b: Value) -> bool {
        b == a + 1
    }
    let cs: Vec<BinaryConstraint<fn(Value, Value) -> bool>> =
        vec![BinaryConstraint(vec![name("x"), name("x")], succ)];
    let scopes = vec![(0usize, 0usize)];
    let mut doms: Vec<Vec<Value>> = vec![(0..4).collect()];
    assert_eq!(propagate(&cs, &scopes, &mut doms), Status::Exhausted);
    assert!(any_empty(&doms));
}

#[test]
fn satisfaction_needs_the_whole_scope() {
    let names = vec![name("x"), name("y")];
    let b: BinaryConstraint<fn(Value, Value) -> bool> =
        BinaryConstraint(vec![name("x"), name("y")], square);
    assert_eq!(is_satisfied(&names, &b, &vec![Some(3), Some(9)]), Ok(true));
    assert_eq!(is_satisfied(&names, &b, &vec![Some(3), Some(8)]), Ok(false));
    assert_eq!(
        is_satisfied(&names, &b, &vec![Some(3), None]),
        Err(ConfigurationError::IncompleteAssignment)
    );
    assert_eq!(
        is_satisfied(&names, &b, &vec![Some(3)]),
        Err(ConfigurationError::IncompleteAssignment)
    );
    let e = EqualityConstraint(vec![name("y")], 4);
    assert_eq!(is_satisfied(&names, &e, &vec![None, Some(4)]), Ok(true));
    assert_eq!(is_satisfied(&names, &e, &vec![None, Some(5)]), Ok(false));
    let u = EqualityConstraint(vec![name("q")], 4);
    assert_eq!(
        is_satisfied(&names, &u, &vec![Some(1), Some(4)]),
        Err(ConfigurationError::UndeclaredVariable)
    );
}

#[test]
fn constructors_build_the_same_constraints() {
    let b = BinaryConstraint::new(vec![name("x"), name("y")], |a: Value, b: Value| a + b == 4);
    assert_eq!(b.0, vec![name("x"), name("y")]);
    assert!(b.supports(1, 3));
    assert!(!b.supports(1, 2));
    let u = UnaryConstraint::new(vec![name("x")], |a: Value| a > 1);
    assert_eq!(u.0, vec![name("x")]);
    assert!(u.supports(2, 0));
    assert!(!u.supports(1, 0));
    let csp = Csp {
        variables: vec![name("x"), name("y")],
        domains: vec![
            (name("x"), IntDomain::from_range(0, 5)),
            (name("y"), IntDomain::from_range(0, 3)),
        ],
        constraints: vec![
            AnyConstraint::binary(b),
            AnyConstraint::unary(u),
            AnyConstraint::inequality(vec![name("x")], 2),
            AnyConstraint::equality(vec![name("y")], 1),
        ],
    };
    match solve(&csp) {
        Ok(SolverResult::Solved(a)) => assert_eq!(a, vec![3, 1]),
        other => panic!("expected a solution, got {:?}", other),
    }
}
