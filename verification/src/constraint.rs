//! Constraints: relations over the values of one or two variables.

use vstd::prelude::*;

verus! {

/// The identifier of a variable.
pub type Variable = String;

/// A candidate value of a variable.
pub type Value = i64;

/// The names in a list of variables, as mathematical strings.
pub open spec fn names_of(vars: Seq<Variable>) -> Seq<Seq<char>> {
    Seq::new(vars.len(), |i: int| vars[i]@)
}

/// A relation over the values of one or two variables.
///
/// A constraint over one variable `x` is read as a relation over the pair
/// `(x, x)` that ignores its second argument, so that every constraint is
/// judged by `holds(a, b)`, with `a` the value of the first variable of its
/// scope and `b` the value of the last.
pub trait Constraint {
    /// The names of the variables that the constraint touches, in order.
    spec fn scope(&self) -> Seq<Seq<char>>;

    /// The predicate can be evaluated on every pair of values, and has one
    /// answer for each.
    spec fn well_formed(&self) -> bool;

    /// Whether the pair `(a, b)` is allowed.
    spec fn holds(&self, a: Value, b: Value) -> bool;

    /// The number of variables in the scope.
    fn scope_len(&self) -> (n: usize)
        ensures
            n == self.scope().len(),
    ;

    /// The `k`-th variable of the scope.
    fn scope_name(&self, k: usize) -> (name: &Variable)
        requires
            k < self.scope().len(),
        ensures
            name@ == self.scope()[k as int],
    ;

    /// Whether value `a` of the first variable is compatible with value `b`
    /// of the last.
    fn supports(&self, a: Value, b: Value) -> (r: bool)
        requires
            self.well_formed(),
        ensures
            r == self.holds(a, b),
    ;
}

/// The predicate `f` accepts every value and answers each in one way only.
pub open spec fn total_unary<F: Fn(Value) -> bool>(f: F) -> bool {
    &&& forall|a: Value| #[trigger] call_requires(f, (a,))
    &&& forall|a: Value, r1: bool, r2: bool|
        #[trigger] call_ensures(f, (a,), r1) && #[trigger] call_ensures(f, (a,), r2) ==> r1 == r2
}

/// The predicate `f` accepts every pair and answers each in one way only.
pub open spec fn total_binary<F: Fn(Value, Value) -> bool>(f: F) -> bool {
    &&& forall|a: Value, b: Value| #[trigger] call_requires(f, (a, b))
    &&& forall|a: Value, b: Value, r1: bool, r2: bool|
        #[trigger] call_ensures(f, (a, b), r1) && #[trigger] call_ensures(f, (a, b), r2) ==> r1
            == r2
}

/// An arbitrary predicate on the value of one variable.
pub struct UnaryConstraint<F: Fn(Value) -> bool>(pub Vec<Variable>, pub F);

/// An arbitrary predicate on the values of two variables.
pub struct BinaryConstraint<F: Fn(Value, Value) -> bool>(pub Vec<Variable>, pub F);

/// The variable must take the given constant.
pub struct EqualityConstraint(pub Vec<Variable>, pub Value);

/// The variable must not take the given constant.
pub struct InequalityConstraint(pub Vec<Variable>, pub Value);

impl<F: Fn(Value) -> bool> UnaryConstraint<F> {
    /// The constraint that `f` holds of the value of the one variable in
    /// `vars`.
    pub fn new(vars: Vec<Variable>, f: F) -> (c: Self)
        ensures
            c.0 == vars,
            c.1 == f,
            c.scope() == names_of(vars@),
            c.well_formed() == total_unary(f),
            forall|a: Value, b: Value| #[trigger] c.holds(a, b) == call_ensures(f, (a,), true),
    {
        UnaryConstraint(vars, f)
    }
}

impl<F: Fn(Value, Value) -> bool> BinaryConstraint<F> {
    /// The constraint that `f` holds of the values of the two variables in
    /// `vars`.
    pub fn new(vars: Vec<Variable>, f: F) -> (c: Self)
        ensures
            c.0 == vars,
            c.1 == f,
            c.scope() == names_of(vars@),
            c.well_formed() == total_binary(f),
            forall|a: Value, b: Value| #[trigger] c.holds(a, b) == call_ensures(f, (a, b), true),
    {
        BinaryConstraint(vars, f)
    }
}

impl<F: Fn(Value) -> bool> Constraint for UnaryConstraint<F> {
    open spec fn scope(&self) -> Seq<Seq<char>> {
        names_of(self.0@)
    }

    open spec fn well_formed(&self) -> bool {
        total_unary(self.1)
    }

    open spec fn holds(&self, a: Value, b: Value) -> bool {
        call_ensures(self.1, (a,), true)
    }

    fn scope_len(&self) -> (n: usize) {
        self.0.len()
    }

    fn scope_name(&self, k: usize) -> (name: &Variable) {
        &self.0[k]
    }

    fn supports(&self, a: Value, b: Value) -> (r: bool) {
        let r = (self.1)(a);
        r
    }
}

impl<F: Fn(Value, Value) -> bool> Constraint for BinaryConstraint<F> {
    open spec fn scope(&self) -> Seq<Seq<char>> {
        names_of(self.0@)
    }

    open spec fn well_formed(&self) -> bool {
        total_binary(self.1)
    }

    open spec fn holds(&self, a: Value, b: Value) -> bool {
        call_ensures(self.1, (a, b), true)
    }

    fn scope_len(&self) -> (n: usize) {
        self.0.len()
    }

    fn scope_name(&self, k: usize) -> (name: &Variable) {
        &self.0[k]
    }

    fn supports(&self, a: Value, b: Value) -> (r: bool) {
        let r = (self.1)(a, b);
        r
    }
}

impl Constraint for EqualityConstraint {
    open spec fn scope(&self) -> Seq<Seq<char>> {
        names_of(self.0@)
    }

    open spec fn well_formed(&self) -> bool {
        true
    }

    open spec fn holds(&self, a: Value, b: Value) -> bool {
        a == self.1
    }

    fn scope_len(&self) -> (n: usize) {
        self.0.len()
    }

    fn scope_name(&self, k: usize) -> (name: &Variable) {
        &self.0[k]
    }

    fn supports(&self, a: Value, b: Value) -> (r: bool) {
        a == self.1
    }
}

impl Constraint for InequalityConstraint {
    open spec fn scope(&self) -> Seq<Seq<char>> {
        names_of(self.0@)
    }

    open spec fn well_formed(&self) -> bool {
        true
    }

    open spec fn holds(&self, a: Value, b: Value) -> bool {
        a != self.1
    }

    fn scope_len(&self) -> (n: usize) {
        self.0.len()
    }

    fn scope_name(&self, k: usize) -> (name: &Variable) {
        &self.0[k]
    }

    fn supports(&self, a: Value, b: Value) -> (r: bool) {
        a != self.1
    }
}

/// One constraint of any of the four kinds, so that a problem can mix them.
pub enum AnyConstraint<U: Fn(Value) -> bool, B: Fn(Value, Value) -> bool> {
    Unary(UnaryConstraint<U>),
    Binary(BinaryConstraint<B>),
    Equality(EqualityConstraint),
    Inequality(InequalityConstraint),
}

impl<U: Fn(Value) -> bool, B: Fn(Value, Value) -> bool> AnyConstraint<U, B> {
    /// `c` as one of a mixed list.
    pub fn unary(c: UnaryConstraint<U>) -> (r: Self)
        ensures
            r == AnyConstraint::<U, B>::Unary(c),
            r.scope() == c.scope(),
            r.well_formed() == c.well_formed(),
            forall|a: Value, b: Value| #[trigger] r.holds(a, b) == c.holds(a, b),
    {
        AnyConstraint::Unary(c)
    }

    /// `c` as one of a mixed list.
    pub fn binary(c: BinaryConstraint<B>) -> (r: Self)
        ensures
            r == AnyConstraint::<U, B>::Binary(c),
            r.scope() == c.scope(),
            r.well_formed() == c.well_formed(),
            forall|a: Value, b: Value| #[trigger] r.holds(a, b) == c.holds(a, b),
    {
        AnyConstraint::Binary(c)
    }

    /// The constraint that the one variable in `vars` takes `value`.
    pub fn equality(vars: Vec<Variable>, value: Value) -> (r: Self)
        ensures
            r == AnyConstraint::<U, B>::Equality(EqualityConstraint(vars, value)),
            r.scope() == names_of(vars@),
            r.well_formed(),
            forall|a: Value, b: Value| #[trigger] r.holds(a, b) == (a == value),
    {
        AnyConstraint::Equality(EqualityConstraint(vars, value))
    }

    /// The constraint that the one variable in `vars` does not take `value`.
    pub fn inequality(vars: Vec<Variable>, value: Value) -> (r: Self)
        ensures
            r == AnyConstraint::<U, B>::Inequality(InequalityConstraint(vars, value)),
            r.scope() == names_of(vars@),
            r.well_formed(),
            forall|a: Value, b: Value| #[trigger] r.holds(a, b) == (a != value),
    {
        AnyConstraint::Inequality(InequalityConstraint(vars, value))
    }
}

impl<U: Fn(Value) -> bool, B: Fn(Value, Value) -> bool> Constraint for AnyConstraint<U, B> {
    open spec fn scope(&self) -> Seq<Seq<char>> {
        match self {
            AnyConstraint::Unary(c) => c.scope(),
            AnyConstraint::Binary(c) => c.scope(),
            AnyConstraint::Equality(c) => c.scope(),
            AnyConstraint::Inequality(c) => c.scope(),
        }
    }

    open spec fn well_formed(&self) -> bool {
        match self {
            AnyConstraint::Unary(c) => c.well_formed(),
            AnyConstraint::Binary(c) => c.well_formed(),
            AnyConstraint::Equality(c) => c.well_formed(),
            AnyConstraint::Inequality(c) => c.well_formed(),
        }
    }

    open spec fn holds(&self, a: Value, b: Value) -> bool {
        match self {
            AnyConstraint::Unary(c) => c.holds(a, b),
            AnyConstraint::Binary(c) => c.holds(a, b),
            AnyConstraint::Equality(c) => c.holds(a, b),
            AnyConstraint::Inequality(c) => c.holds(a, b),
        }
    }

    fn scope_len(&self) -> (n: usize) {
        match self {
            AnyConstraint::Unary(c) => c.scope_len(),
            AnyConstraint::Binary(c) => c.scope_len(),
            AnyConstraint::Equality(c) => c.scope_len(),
            AnyConstraint::Inequality(c) => c.scope_len(),
        }
    }

    fn scope_name(&self, k: usize) -> (name: &Variable) {
        match self {
            AnyConstraint::Unary(c) => c.scope_name(k),
            AnyConstraint::Binary(c) => c.scope_name(k),
            AnyConstraint::Equality(c) => c.scope_name(k),
            AnyConstraint::Inequality(c) => c.scope_name(k),
        }
    }

    fn supports(&self, a: Value, b: Value) -> (r: bool) {
        match self {
            AnyConstraint::Unary(c) => c.supports(a, b),
            AnyConstraint::Binary(c) => c.supports(a, b),
            AnyConstraint::Equality(c) => c.supports(a, b),
            AnyConstraint::Inequality(c) => c.supports(a, b),
        }
    }
}

} // verus!
