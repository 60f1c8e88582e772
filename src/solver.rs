use vstd::prelude::*;

use std::marker::PhantomData;

verus! {

/// The computation applied to each record, given the shared data.
pub trait Solver {
    type GlobalData;
    type CaseData;
    type Solution;

    /// Whether `solution` is a result this solver may give for `case_data`.
    spec fn solves(&self, global_data: &Self::GlobalData, case_data: Self::CaseData, solution: Self::Solution) -> bool;

    fn solve_case(&self, global_data: &Self::GlobalData, case_data: Self::CaseData) -> (r: Self::Solution)
        ensures
            self.solves(global_data, case_data, r),
    ;
}

/// A solver made of a function of the record alone.
#[verifier::reject_recursive_types(CD)]
#[verifier::reject_recursive_types(S)]
pub struct FnSolver<F: Fn(CD) -> S, CD, S> {
    solver_fn: F,
    case_phantom: PhantomData<CD>,
    solution_phantom: PhantomData<S>,
}

impl<F: Fn(CD) -> S, CD, S> FnSolver<F, CD, S> {
    #[verifier::type_invariant]
    spec fn inv(&self) -> bool {
        forall|c: CD| self.solver_fn.requires((c,))
    }

    /// The function this solver applies.
    pub closed spec fn function(&self) -> F {
        self.solver_fn
    }
}

impl<F: Fn(CD) -> S, CD, S> Solver for FnSolver<F, CD, S> {
    type GlobalData = ();
    type CaseData = CD;
    type Solution = S;

    open spec fn solves(&self, global_data: &(), case_data: CD, solution: S) -> bool {
        self.function().ensures((case_data,), solution)
    }

    fn solve_case(&self, _global: &(), case_data: CD) -> (r: S) {
        proof {
            use_type_invariant(self);
        }
        (self.solver_fn)(case_data)
    }
}

/// A solver made of a function of the shared data and the record.
#[verifier::reject_recursive_types(GD)]
#[verifier::reject_recursive_types(CD)]
#[verifier::reject_recursive_types(S)]
pub struct GlobalFnSolver<F: Fn(&GD, CD) -> S, GD, CD, S> {
    solver_fn: F,
    global_phantom: PhantomData<GD>,
    case_phantom: PhantomData<CD>,
    solution_phantom: PhantomData<S>,
}

impl<F: Fn(&GD, CD) -> S, GD, CD, S> GlobalFnSolver<F, GD, CD, S> {
    #[verifier::type_invariant]
    spec fn inv(&self) -> bool {
        forall|g: &GD, c: CD| self.solver_fn.requires((g, c))
    }

    /// The function this solver applies.
    pub closed spec fn function(&self) -> F {
        self.solver_fn
    }
}

impl<F: Fn(&GD, CD) -> S, GD, CD, S> Solver for GlobalFnSolver<F, GD, CD, S> {
    type GlobalData = GD;
    type CaseData = CD;
    type Solution = S;

    open spec fn solves(&self, global_data: &GD, case_data: CD, solution: S) -> bool {
        self.function().ensures((global_data, case_data), solution)
    }

    fn solve_case(&self, global_data: &GD, case_data: CD) -> (r: S) {
        proof {
            use_type_invariant(self);
        }
        (self.solver_fn)(global_data, case_data)
    }
}

/// A result, or the message given when a record has none.
#[derive(Debug)]
pub enum MaybeImpossibleSolution<T> {
    Success(T),
    Failure(&'static str),
}

/// `Success` with the result when there is one, else `Failure` with `message`.
pub open spec fn settle<T>(result: Option<T>, message: &'static str) -> MaybeImpossibleSolution<T> {
    match result {
        Some(v) => MaybeImpossibleSolution::Success(v),
        None => MaybeImpossibleSolution::Failure(message),
    }
}

impl<T> MaybeImpossibleSolution<T> {
    /// The result when there is one, else the failure with `message`.
    pub fn from_option(result: Option<T>, message: &'static str) -> (r: MaybeImpossibleSolution<T>)
        ensures
            r == settle(result, message),
    {
        match result {
            Some(v) => MaybeImpossibleSolution::Success(v),
            None => MaybeImpossibleSolution::Failure(message),
        }
    }
}

/// A solver whose computation may find no result; such records get a
/// fixed message instead.
#[verifier::reject_recursive_types(S)]
pub struct MaybeImpossibleSolver<S, T: Solver<Solution = Option<S>>> {
    pub underlying: T,
    pub message: &'static str,
}

impl<S, T: Solver<Solution = Option<S>>> Solver for MaybeImpossibleSolver<S, T> {
    type GlobalData = T::GlobalData;
    type CaseData = T::CaseData;
    type Solution = MaybeImpossibleSolution<S>;

    open spec fn solves(
        &self,
        global_data: &T::GlobalData,
        case_data: T::CaseData,
        solution: MaybeImpossibleSolution<S>,
    ) -> bool {
        exists|found: Option<S>|
            self.underlying.solves(global_data, case_data, found) && solution == settle(
                found,
                self.message,
            )
    }

    fn solve_case(&self, global_data: &T::GlobalData, case_data: T::CaseData) -> (r: MaybeImpossibleSolution<S>) {
        MaybeImpossibleSolution::from_option(
            self.underlying.solve_case(global_data, case_data),
            self.message,
        )
    }
}

/// Gives the records without a result of `underlying` the text `message`.
pub fn or_else<S, T: Solver<Solution = Option<S>>>(underlying: T, message: &'static str) -> (r: MaybeImpossibleSolver<S, T>)
    ensures
        r.underlying == underlying,
        r.message == message,
{
    MaybeImpossibleSolver { underlying, message }
}

/// Wraps a function of the record alone as a solver.
pub fn solver<CD, S, F: Fn(CD) -> S>(solver_fn: F) -> (r: FnSolver<F, CD, S>)
    requires
        forall|c: CD| solver_fn.requires((c,)),
    ensures
        r.function() == solver_fn,
{
    FnSolver { solver_fn, case_phantom: PhantomData, solution_phantom: PhantomData }
}

/// Wraps a function of the shared data and the record as a solver.
pub fn global_solver<GD, CD, S, F: Fn(&GD, CD) -> S>(solver_fn: F) -> (r: GlobalFnSolver<F, GD, CD, S>)
    requires
        forall|g: &GD, c: CD| solver_fn.requires((g, c)),
    ensures
        r.function() == solver_fn,
{
    GlobalFnSolver {
        solver_fn,
        global_phantom: PhantomData,
        case_phantom: PhantomData,
        solution_phantom: PhantomData,
    }
}

} // verus!
