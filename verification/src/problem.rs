//! Problems by name: their validation, and the drivers that solve them.

use crate::constraint::{names_of, Constraint, Value, Variable};
use crate::domain::Domain;
use crate::network::{
    all_singleton, classify, dview, has_empty, lemma_empty_blocks, lemma_solutions_stay, network_ok,
    propagated, solution, Status,
};
use crate::propagate::propagate;
use crate::search::{explore, explored, induced, lemma_singletons_solve};
use vstd::prelude::*;

verus! {

/// Why a problem is refused.
#[derive(Clone, Copy, Debug, PartialEq, Eq, Structural)]
pub enum ConfigurationError {
    /// A declared variable has no domain.
    MissingDomain,
    /// A constraint names no variable, or more than two.
    MalformedScope,
    /// A constraint names a variable that was not declared.
    UndeclaredVariable,
    /// A constraint was asked about an assignment that leaves a variable of
    /// its scope without a value.
    IncompleteAssignment,
}

/// A problem: the variables in their order, a domain for each by its name,
/// and the constraints. Where a name has several domain entries, the first
/// counts.
pub struct Csp<D: Domain, C: Constraint> {
    pub variables: Vec<Variable>,
    pub domains: Vec<(Variable, D)>,
    pub constraints: Vec<C>,
}

/// A value for each variable, in the order of declaration.
pub type Assignment = Vec<Value>;

/// The outcome of solving.
#[derive(Debug)]
pub enum SolverResult {
    /// An assignment that meets every constraint.
    Solved(Assignment),
    /// The narrowed domains of a problem that is not resolved, in the order
    /// of declaration.
    Reduced(Vec<Vec<Value>>),
    /// No assignment meets every constraint.
    NoSolution,
}

/// `i` is the first place at which `name` stands in `names`.
pub open spec fn first_at(names: Seq<Seq<char>>, name: Seq<char>, i: int) -> bool {
    &&& 0 <= i < names.len()
    &&& names[i] == name
    &&& forall|m: int| 0 <= m < i ==> names[m] != name
}

/// The first place at which `name` stands in `names`.
pub open spec fn position(names: Seq<Seq<char>>, name: Seq<char>) -> int {
    choose|i: int| first_at(names, name, i)
}

/// The first place of a name is the only one that `first_at` accepts.
pub proof fn lemma_position(names: Seq<Seq<char>>, name: Seq<char>, i: int)
    requires
        first_at(names, name, i),
    ensures
        position(names, name) == i,
{
    let p = position(names, name);
    assert(first_at(names, name, p));
    if p < i {
        assert(names[p] != name);
    } else if i < p {
        assert(names[i] != name);
    }
}

/// The names under which the domains are entered.
pub open spec fn entry_names<D: Domain>(entries: Seq<(Variable, D)>) -> Seq<Seq<char>> {
    Seq::new(entries.len(), |i: int| entries[i].0@)
}

/// The index of the first variable called `name`.
pub fn find_name(names: &Vec<Variable>, name: &Variable) -> (at: Option<usize>)
    ensures
        match at {
            Some(i) => first_at(names_of(names@), name@, i as int),
            None => !names_of(names@).contains(name@),
        },
{
    let mut i: usize = 0;
    while i < names.len()
        invariant
            i <= names@.len(),
            forall|m: int| 0 <= m < i ==> names_of(names@)[m] != name@,
        decreases names@.len() - i,
    {
        if names[i].eq(name) {
            return Some(i);
        }
        i = i + 1;
    }
    None
}

/// The index of the first domain entered under `name`.
pub fn find_entry<D: Domain>(entries: &Vec<(Variable, D)>, name: &Variable) -> (at: Option<usize>)
    ensures
        match at {
            Some(i) => first_at(entry_names(entries@), name@, i as int),
            None => !entry_names(entries@).contains(name@),
        },
{
    let mut i: usize = 0;
    while i < entries.len()
        invariant
            i <= entries@.len(),
            forall|m: int| 0 <= m < i ==> entry_names(entries@)[m] != name@,
        decreases entries@.len() - i,
    {
        if entries[i].0.eq(name) {
            return Some(i);
        }
        i = i + 1;
    }
    None
}

/// What is wrong with the scope of `c`, if anything.
pub open spec fn scope_fault<C: Constraint>(names: Seq<Seq<char>>, c: &C) -> Option<
    ConfigurationError,
> {
    let sc = c.scope();
    if sc.len() < 1 || sc.len() > 2 {
        Some(ConfigurationError::MalformedScope)
    } else if !names.contains(sc[0]) || !names.contains(sc[sc.len() - 1]) {
        Some(ConfigurationError::UndeclaredVariable)
    } else {
        None
    }
}

/// The indices of the first and the last variable in the scope of `c`.
pub open spec fn scope_at<C: Constraint>(names: Seq<Seq<char>>, c: &C) -> (usize, usize) {
    let sc = c.scope();
    (position(names, sc[0]) as usize, position(names, sc[sc.len() - 1]) as usize)
}

/// Turns the names in the scope of `c` into indices of variables.
pub fn resolve_scope<C: Constraint>(names: &Vec<Variable>, c: &C) -> (r: Result<
    (usize, usize),
    ConfigurationError,
>)
    ensures
        match r {
            Ok(s) => scope_fault(names_of(names@), c).is_none() && s == scope_at(
                names_of(names@),
                c,
            ) && s.0 < names@.len() && s.1 < names@.len(),
            Err(e) => scope_fault(names_of(names@), c) == Some(e),
        },
{
    let n = c.scope_len();
    if n < 1 || n > 2 {
        return Err(ConfigurationError::MalformedScope);
    }
    let x = match find_name(names, c.scope_name(0)) {
        Some(x) => x,
        None => {
            return Err(ConfigurationError::UndeclaredVariable);
        },
    };
    let y = match find_name(names, c.scope_name(n - 1)) {
        Some(y) => y,
        None => {
            return Err(ConfigurationError::UndeclaredVariable);
        },
    };
    proof {
        let ns = names_of(names@);
        lemma_position(ns, c.scope()[0], x as int);
        lemma_position(ns, c.scope()[n - 1], y as int);
        assert(ns.contains(ns[x as int]));
        assert(ns.contains(ns[y as int]));
    }
    Ok((x, y))
}

/// The partial assignment `partial` gives a value to both variables of the
/// scope `s`.
pub open spec fn covers(partial: Seq<Option<Value>>, s: (usize, usize)) -> bool {
    &&& s.0 < partial.len()
    &&& s.1 < partial.len()
    &&& partial[s.0 as int].is_some()
    &&& partial[s.1 as int].is_some()
}

/// Whether a partial assignment, which holds a value or none for each
/// variable by its index, meets the constraint `c`. It is an error to ask
/// where a variable of the scope has no value.
pub fn is_satisfied<C: Constraint>(
    names: &Vec<Variable>,
    c: &C,
    partial: &Vec<Option<Value>>,
) -> (r: Result<bool, ConfigurationError>)
    requires
        c.well_formed(),
    ensures
        match scope_fault(names_of(names@), c) {
            Some(e) => r == Err::<bool, ConfigurationError>(e),
            None => {
                let s = scope_at(names_of(names@), c);
                if covers(partial@, s) {
                    r == Ok::<bool, ConfigurationError>(
                        c.holds(partial@[s.0 as int].unwrap(), partial@[s.1 as int].unwrap()),
                    )
                } else {
                    r == Err::<bool, ConfigurationError>(ConfigurationError::IncompleteAssignment)
                }
            },
        },
{
    let s = match resolve_scope(names, c) {
        Ok(s) => s,
        Err(e) => {
            return Err(e);
        },
    };
    if s.0 >= partial.len() || s.1 >= partial.len() {
        return Err(ConfigurationError::IncompleteAssignment);
    }
    match (partial[s.0], partial[s.1]) {
        (Some(a), Some(b)) => Ok(c.supports(a, b)),
        _ => Err(ConfigurationError::IncompleteAssignment),
    }
}

impl<D: Domain, C: Constraint> Csp<D, C> {
    /// The names of the variables.
    pub open spec fn names(&self) -> Seq<Seq<char>> {
        names_of(self.variables@)
    }

    /// Some declared variable has no domain.
    pub open spec fn lacks_domain(&self) -> bool {
        exists|i: int|
            0 <= i < self.names().len() && !entry_names(self.domains@).contains(
                #[trigger] self.names()[i],
            )
    }

    /// Constraint `j` is the first whose scope is at fault.
    pub open spec fn first_fault(&self, j: int) -> bool {
        &&& 0 <= j < self.constraints@.len()
        &&& scope_fault(self.names(), &self.constraints@[j]).is_some()
        &&& forall|m: int|
            0 <= m < j ==> scope_fault(self.names(), &#[trigger] self.constraints@[m]).is_none()
    }

    /// The problem is refused with `e`: for a missing domain first, else for
    /// the first constraint whose scope is at fault.
    pub open spec fn rejects(&self, e: ConfigurationError) -> bool {
        if self.lacks_domain() {
            e == ConfigurationError::MissingDomain
        } else {
            exists|j: int|
                self.first_fault(j) && scope_fault(self.names(), &self.constraints@[j]) == Some(e)
        }
    }

    /// Every variable has a domain, and every constraint has one or two
    /// variables, all declared.
    pub open spec fn valid(&self) -> bool {
        &&& !self.lacks_domain()
        &&& forall|j: int|
            0 <= j < self.constraints@.len() ==> scope_fault(
                self.names(),
                &#[trigger] self.constraints@[j],
            ).is_none()
    }

    /// Every domain keeps its invariant and every predicate can be evaluated.
    pub open spec fn usable(&self) -> bool {
        &&& forall|i: int| 0 <= i < self.domains@.len() ==> (#[trigger] self.domains@[i]).1.wf()
        &&& forall|j: int|
            0 <= j < self.constraints@.len() ==> (#[trigger] self.constraints@[j]).well_formed()
    }

    /// The scopes of the constraints, as indices of variables.
    pub open spec fn scopes(&self) -> Seq<(usize, usize)> {
        Seq::new(self.constraints@.len(), |j: int| scope_at(self.names(), &self.constraints@[j]))
    }

    /// The candidates of each variable, in the order of declaration.
    pub open spec fn initial(&self) -> Seq<Seq<Value>> {
        Seq::new(
            self.variables@.len(),
            |i: int|
                self.domains@[position(
                    entry_names(self.domains@),
                    self.names()[i],
                )].1.candidates(),
        )
    }

    /// `a` gives each variable a candidate of its domain and meets every
    /// constraint.
    pub open spec fn is_solution(&self, a: Seq<Value>) -> bool {
        solution(self.constraints@, self.scopes(), self.initial(), a)
    }

    /// What the search finds: a solution that gives the first variable
    /// branched on its smallest value, or nothing where there is no solution.
    pub open spec fn finds(&self, found: Option<Seq<Value>>) -> bool {
        explored(self.constraints@, self.scopes(), self.initial(), found)
    }

    /// Checks the problem and lays it out by index: the scope of each
    /// constraint and the candidates of each variable.
    pub fn compile(&self) -> (r: Result<(Vec<(usize, usize)>, Vec<Vec<Value>>), ConfigurationError>)
        requires
            self.usable(),
        ensures
            match r {
                Ok((scopes, doms)) => {
                    &&& self.valid()
                    &&& scopes@ == self.scopes()
                    &&& dview(doms) == self.initial()
                    &&& network_ok(self.constraints@, scopes@, doms@.len() as int)
                },
                Err(e) => self.rejects(e),
            },
    {
        let mut doms: Vec<Vec<Value>> = Vec::new();
        let mut i: usize = 0;
        while i < self.variables.len()
            invariant
                i <= self.variables@.len(),
                self.usable(),
                doms@.len() == i,
                forall|m: int|
                    0 <= m < i ==> entry_names(self.domains@).contains(
                        #[trigger] self.names()[m],
                    ),
                forall|m: int| 0 <= m < i ==> (#[trigger] doms@[m])@ == self.initial()[m],
            decreases self.variables@.len() - i,
        {
            match find_entry(&self.domains, &self.variables[i]) {
                Some(p) => {
                    proof {
                        lemma_position(
                            entry_names(self.domains@),
                            self.names()[i as int],
                            p as int,
                        );
                    }
                    doms.push(self.domains[p].1.values());
                },
                None => {
                    assert(!entry_names(self.domains@).contains(self.names()[i as int]));
                    return Err(ConfigurationError::MissingDomain);
                },
            }
            i = i + 1;
        }
        assert(dview(doms) =~= self.initial());
        let mut scopes: Vec<(usize, usize)> = Vec::new();
        let mut j: usize = 0;
        while j < self.constraints.len()
            invariant
                j <= self.constraints@.len(),
                !self.lacks_domain(),
                scopes@.len() == j,
                forall|m: int|
                    0 <= m < j ==> scope_fault(
                        self.names(),
                        &#[trigger] self.constraints@[m],
                    ).is_none(),
                forall|m: int|
                    0 <= m < j ==> #[trigger] scopes@[m] == scope_at(
                        self.names(),
                        &self.constraints@[m],
                    ) && scopes@[m].0 < self.variables@.len() && scopes@[m].1
                        < self.variables@.len(),
            decreases self.constraints@.len() - j,
        {
            match resolve_scope(&self.variables, &self.constraints[j]) {
                Ok(s) => {
                    scopes.push(s);
                },
                Err(e) => {
                    assert(self.first_fault(j as int));
                    return Err(e);
                },
            }
            j = j + 1;
        }
        assert(scopes@ =~= self.scopes());
        Ok((scopes, doms))
    }
    /// Builds a problem and checks it.
    pub fn new(variables: Vec<Variable>, domains: Vec<(Variable, D)>, constraints: Vec<C>) -> (r:
        Result<Csp<D, C>, ConfigurationError>)
        requires
            (Csp { variables, domains, constraints }).usable(),
        ensures
            match r {
                Ok(csp) => csp == (Csp { variables, domains, constraints }) && csp.valid(),
                Err(e) => (Csp { variables, domains, constraints }).rejects(e),
            },
    {
        let csp = Csp { variables, domains, constraints };
        match csp.compile() {
            Ok(_) => Ok(csp),
            Err(e) => Err(e),
        }
    }
}

/// The domains in which each variable has the one value that `a` gives it.
pub open spec fn singletons(a: Seq<Value>) -> Seq<Seq<Value>> {
    Seq::new(a.len(), |i: int| seq![a[i]])
}

/// Checks the problem and propagates, without searching: the assignment
/// where every domain is down to one value, the narrowed domains where some
/// variable still has several candidates, `NoSolution` where a domain is
/// empty.
pub fn reduce<D: Domain, C: Constraint>(csp: &Csp<D, C>) -> (r: Result<
    SolverResult,
    ConfigurationError,
>)
    requires
        csp.usable(),
    ensures
        match r {
            Err(e) => csp.rejects(e),
            Ok(SolverResult::Solved(a)) => {
                &&& csp.valid()
                &&& csp.is_solution(a@)
                &&& propagated(
                    csp.constraints@,
                    csp.scopes(),
                    csp.initial(),
                    singletons(a@),
                    Status::Solved,
                )
            },
            Ok(SolverResult::Reduced(d)) => {
                &&& csp.valid()
                &&& propagated(
                    csp.constraints@,
                    csp.scopes(),
                    csp.initial(),
                    dview(d),
                    Status::Reduced,
                )
            },
            Ok(SolverResult::NoSolution) => {
                &&& csp.valid()
                &&& forall|a: Seq<Value>| !csp.is_solution(a)
                &&& exists|after: Seq<Seq<Value>>|
                    propagated(
                        csp.constraints@,
                        csp.scopes(),
                        csp.initial(),
                        after,
                        Status::Exhausted,
                    )
            },
        },
        csp.valid() && csp.constraints@.len() == 0 ==> match classify(csp.initial()) {
            Status::Solved => r matches Ok(SolverResult::Solved(a)) && singletons(a@)
                == csp.initial(),
            Status::Reduced => r matches Ok(SolverResult::Reduced(d)) && dview(d)
                == csp.initial(),
            Status::Exhausted => r matches Ok(SolverResult::NoSolution),
        },
{
    let (scopes, mut doms) = match csp.compile() {
        Ok(p) => p,
        Err(e) => {
            return Err(e);
        },
    };
    let ghost d0 = dview(doms);
    let status = propagate(&csp.constraints, &scopes, &mut doms);
    let ghost d1 = dview(doms);
    match status {
        Status::Exhausted => {
            proof {
                assert forall|a: Seq<Value>| !csp.is_solution(a) by {
                    lemma_empty_blocks(d1, a);
                }
            }
            Ok(SolverResult::NoSolution)
        },
        Status::Solved => {
            let a = induced(&doms);
            proof {
                lemma_singletons_solve(csp.constraints@, scopes@, d1, a@);
                lemma_solutions_stay(csp.constraints@, scopes@, d0, d1);
                assert(singletons(a@) =~= d1) by {
                    assert forall|i: int| 0 <= i < d1.len() implies singletons(a@)[i] == d1[i] by {
                        assert(d1[i].len() == 1);
                        assert(a@[i] == d1[i][0]);
                        assert(singletons(a@)[i] =~= d1[i]);
                    }
                }
            }
            Ok(SolverResult::Solved(a))
        },
        Status::Reduced => Ok(SolverResult::Reduced(doms)),
    }
}

/// Checks the problem, propagates and searches.
pub fn solve<D: Domain, C: Constraint>(csp: &Csp<D, C>) -> (r: Result<
    SolverResult,
    ConfigurationError,
>)
    requires
        csp.usable(),
    ensures
        match r {
            Err(e) => csp.rejects(e),
            Ok(SolverResult::Solved(a)) => csp.valid() && csp.is_solution(a@) && csp.finds(
                Some(a@),
            ),
            Ok(SolverResult::Reduced(_)) => false,
            Ok(SolverResult::NoSolution) => csp.valid() && forall|a: Seq<Value>|
                !csp.is_solution(a),
        },
        csp.valid() && has_empty(csp.initial()) ==> r matches Ok(SolverResult::NoSolution),
        csp.valid() && csp.constraints@.len() == 0 && all_singleton(csp.initial()) ==> (
        r matches Ok(SolverResult::Solved(a)) && singletons(a@) == csp.initial()),
{
    let (scopes, doms) = match csp.compile() {
        Ok(p) => p,
        Err(e) => {
            return Err(e);
        },
    };
    let ghost d0 = dview(doms);
    let found = explore(&csp.constraints, &scopes, doms);
    proof {
        if has_empty(d0) && found.is_some() {
            lemma_empty_blocks(d0, found.unwrap()@);
        }
        if csp.constraints@.len() == 0 && all_singleton(d0) {
            let w = Seq::new(d0.len(), |i: int| d0[i][0]);
            assert(solution(csp.constraints@, scopes@, d0, w)) by {
                assert forall|i: int| 0 <= i < d0.len() implies (#[trigger] d0[i]).contains(
                    w[i],
                ) by {
                    assert(d0[i].len() == 1);
                    assert(d0[i][0] == w[i]);
                }
            }
            let a = found.unwrap()@;
            assert(singletons(a) =~= d0) by {
                assert forall|i: int| 0 <= i < d0.len() implies singletons(a)[i] == d0[i] by {
                    assert(d0[i].len() == 1);
                    assert(d0[i].contains(a[i]));
                    assert(singletons(a)[i] =~= d0[i]);
                }
            }
        }
    }
    match found {
        Some(a) => Ok(SolverResult::Solved(a)),
        None => Ok(SolverResult::NoSolution),
    }
}

/// Searches the problem for an assignment that meets every constraint:
/// `None` where there is none.
pub fn backtrack<D: Domain, C: Constraint>(csp: Csp<D, C>) -> (r: Result<
    Option<Assignment>,
    ConfigurationError,
>)
    requires
        csp.usable(),
    ensures
        match r {
            Err(e) => csp.rejects(e),
            Ok(Some(a)) => csp.valid() && csp.is_solution(a@) && csp.finds(Some(a@)),
            Ok(None) => csp.valid() && forall|a: Seq<Value>| !csp.is_solution(a),
        },
{
    match csp.compile() {
        Ok((scopes, doms)) => Ok(explore(&csp.constraints, &scopes, doms)),
        Err(e) => Err(e),
    }
}

} // verus!
