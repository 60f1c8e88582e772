use vstd::prelude::*;

use crate::case_index::CaseIndex;
use crate::global::{GlobalDataError, LoadGlobalData};
use crate::collection::{
    collection_error, lemma_many_len, lemma_many_prefix, lemma_many_snoc, many_spec,
};
use crate::group::{extends, fresh, lemma_split_fresh, Group, GroupError};
use crate::tokens::{consistent, RawToken};
use crate::printer::{Attempt, LoggingPrinter, Printer};
use crate::solver::Solver;
use crate::tokens::Tokens;

verus! {

/// What went wrong with one record.
#[derive(Debug, PartialEq, Eq)]
pub enum CaseErrorKind {
    /// Its data could not be read.
    Load(GroupError),
    /// Its result could not be delivered.
    Print(String),
}

/// A failure tied to the record where it happened.
#[derive(Debug, PartialEq, Eq)]
pub struct CaseError {
    pub case: CaseIndex,
    pub error: CaseErrorKind,
}

impl CaseError {
    pub fn new(case: CaseIndex, error: CaseErrorKind) -> (r: CaseError)
        ensures
            r.case == case,
            r.error == error,
    {
        CaseError { case, error }
    }

    pub fn load_error(case: CaseIndex, err: GroupError) -> (r: CaseError)
        ensures
            r.case == case,
            r.error == CaseErrorKind::Load(err),
    {
        CaseError::new(case, CaseErrorKind::Load(err))
    }

    pub fn print_error(case: CaseIndex, err: String) -> (r: CaseError)
        ensures
            r.case == case,
            r.error == CaseErrorKind::Print(err),
    {
        CaseError::new(case, CaseErrorKind::Print(err))
    }
}

/// Why a run stopped early.
#[derive(Debug, PartialEq, Eq)]
pub enum ExecutionError {
    Global(GlobalDataError),
    Case(CaseError),
}

impl ExecutionError {
    pub fn global_error(err: GlobalDataError) -> (r: ExecutionError)
        ensures
            r == ExecutionError::Global(err),
    {
        ExecutionError::Global(err)
    }

    pub fn load_error(case: CaseIndex, err: GroupError) -> (r: ExecutionError)
        ensures
            r == ExecutionError::Case(CaseError { case, error: CaseErrorKind::Load(err) }),
    {
        ExecutionError::Case(CaseError::load_error(case, err))
    }

    pub fn print_error(case: CaseIndex, err: String) -> (r: ExecutionError)
        ensures
            r == ExecutionError::Case(CaseError { case, error: CaseErrorKind::Print(err) }),
    {
        ExecutionError::Case(CaseError::print_error(case, err))
    }
}

/// Reading `count` records one after another, after the preamble at the
/// front of `s`.
pub open spec fn records_spec<L: LoadGlobalData, G: Group>(s: Seq<RawToken>, count: nat) -> (
    Result<Seq<G::V>, crate::group::CollectionError>,
    nat,
) {
    many_spec::<G>(s.skip(L::load_spec(s).1 as int), count, 0)
}

/// The first `k` attempts handed the results of records `1..=k`, in that
/// order, and the printer accepted each.
pub open spec fn delivered_in_order<S>(a: Seq<Attempt<S>>, k: nat) -> bool {
    &&& k <= a.len()
    &&& forall|j: int|
        0 <= j < k ==> (#[trigger] a[j]).case == CaseIndex((j + 1) as usize) && a[j].refusal
            is None
}

/// `value` is a result that `solver` may give for a record read as `record`.
pub open spec fn solved_by<V: Solver>(
    solver: &V,
    global: &V::GlobalData,
    record: <V::CaseData as View>::V,
    value: V::Solution,
) -> bool where V::CaseData: View {
    exists|x: V::CaseData| x@ == record && solver.solves(global, x, value)
}

/// For some shared data read as `global`, the first `k` attempts handed
/// results that `solver` may give for the records read as `records`.
pub open spec fn results_match<V: Solver>(
    solver: &V,
    global: <V::GlobalData as View>::V,
    records: Seq<<V::CaseData as View>::V>,
    a: Seq<Attempt<V::Solution>>,
    k: nat,
) -> bool where V::GlobalData: View, V::CaseData: View {
    exists|g: V::GlobalData|
        g@ == global && forall|j: int|
            0 <= j < k ==> solved_by(solver, &g, records[j], (#[trigger] a[j]).value)
}

/// Reads the preamble, then each record in turn, computes its result and
/// delivers it before the next record is read.
pub struct SequentialExecutor;

impl SequentialExecutor {
    /// Runs every record of the input. The printer is handed the results of
    /// records `1, 2, ...` in that order, each computed from its own record:
    /// all of them when the run succeeds; when reading record `c` fails,
    /// those before it; when the printer refuses record `c`, those up to it,
    /// the last one refused with the error that the run reports.
    pub fn execute<T: Tokens, P: Printer<S::Solution>, S: Solver>(
        tokens: &mut T,
        printer: &mut LoggingPrinter<P, S::Solution>,
        solver: &S,
    ) -> (r: Result<(), ExecutionError>) where S::GlobalData: LoadGlobalData, S::CaseData: Group
        ensures
            extends(old(tokens).taken(), final(tokens).taken()),
            final(tokens).origin() == old(tokens).origin(),
            consistent(*old(tokens)) ==> consistent(*final(tokens)),
            old(printer).attempts().len() <= final(printer).attempts().len(),
            final(printer).attempts().take(old(printer).attempts().len() as int) == old(
                printer,
            ).attempts(),
            ({
                let d = fresh(old(tokens).taken(), final(tokens).taken());
                let (pre, np) = S::GlobalData::load_spec(d);
                let reads = |c: nat| records_spec::<S::GlobalData, S::CaseData>(d, c);
                let a = final(printer).attempts().skip(old(printer).attempts().len() as int);
                match r {
                    Ok(()) => {
                        let n = pre->Ok_0.0 as nat;
                        &&& pre is Ok
                        &&& reads(n).0 is Ok
                        &&& np + reads(n).1 == d.len()
                        &&& a.len() == n
                        &&& delivered_in_order(a, n)
                        &&& results_match(solver, pre->Ok_0.1, reads(n).0->Ok_0, a, n)
                    },
                    Err(ExecutionError::Global(e)) => {
                        &&& pre == Err::<(usize, <S::GlobalData as View>::V), GlobalDataError>(e)
                        &&& np == d.len()
                        &&& a.len() == 0
                    },
                    Err(ExecutionError::Case(ce)) => {
                        let c = ce.case.0 as nat;
                        &&& pre is Ok
                        &&& 1 <= c <= pre->Ok_0.0
                        &&& np + reads(c).1 == d.len()
                        &&& match ce.error {
                            CaseErrorKind::Load(e) => {
                                &&& reads(c).0 == Err::<
                                    Seq<<S::CaseData as View>::V>,
                                    crate::group::CollectionError,
                                >(collection_error((c - 1) as nat, e))
                                &&& reads((c - 1) as nat).0 is Ok
                                &&& a.len() == c - 1
                                &&& delivered_in_order(a, (c - 1) as nat)
                                &&& results_match(
                                    solver,
                                    pre->Ok_0.1,
                                    reads((c - 1) as nat).0->Ok_0,
                                    a,
                                    (c - 1) as nat,
                                )
                            },
                            CaseErrorKind::Print(e) => {
                                &&& reads(c).0 is Ok
                                &&& a.len() == c
                                &&& delivered_in_order(a, (c - 1) as nat)
                                &&& a[c - 1].case == ce.case
                                &&& a[c - 1].refusal == Some(e)
                                &&& results_match(solver, pre->Ok_0.1, reads(c).0->Ok_0, a, c)
                            },
                        }
                    },
                }
            }),
    {
        let ghost l0 = tokens.taken();
        let ghost att0 = printer.attempts();
        let global = match S::GlobalData::from_tokens(tokens) {
            Ok(g) => g,
            Err(e) => {
                proof {
                    assert(printer.attempts().take(att0.len() as int) =~= att0);
                    assert(printer.attempts().skip(att0.len() as int) =~= Seq::<
                        Attempt<S::Solution>,
                    >::empty());
                }
                return Err(ExecutionError::global_error(e));
            },
        };
        let ghost l1 = tokens.taken();
        let n = global.num_cases;
        let mut i: usize = 0;
        proof {
            assert(fresh(l1, l1) =~= Seq::empty());
            assert(many_spec::<S::CaseData>(fresh(l1, l1), 0, 0).1 == 0);
            assert(l1.take(l1.len() as int) =~= l1);
            assert(fresh(l0, l1) + fresh(l1, l1) =~= fresh(l0, l1));
            assert(printer.attempts().take(att0.len() as int) =~= att0);
            assert(printer.attempts().skip(att0.len() as int) =~= Seq::<
                Attempt<S::Solution>,
            >::empty());
        }
        while i < n
            invariant
                l0 == old(tokens).taken(),
                tokens.origin() == old(tokens).origin(),
                consistent(*old(tokens)) ==> consistent(*tokens),
                att0 == old(printer).attempts(),
                n == global.num_cases,
                i <= n,
                extends(l0, l1),
                extends(l1, tokens.taken()),
                S::GlobalData::load_spec(fresh(l0, l1)) == (
                    Ok::<(usize, <S::GlobalData as View>::V), GlobalDataError>((n, global.data@)),
                    fresh(l0, l1).len(),
                ),
                many_spec::<S::CaseData>(fresh(l1, tokens.taken()), i as nat, 0).0 is Ok,
                many_spec::<S::CaseData>(fresh(l1, tokens.taken()), i as nat, 0).1 == fresh(
                    l1,
                    tokens.taken(),
                ).len(),
                printer.attempts().len() == att0.len() + i,
                printer.attempts().take(att0.len() as int) == att0,
                delivered_in_order(printer.attempts().skip(att0.len() as int), i as nat),
                forall|j: int|
                    0 <= j < i ==> solved_by(
                        solver,
                        &global.data,
                        many_spec::<S::CaseData>(fresh(l1, tokens.taken()), i as nat, 0).0->Ok_0[j],
                        (#[trigger] printer.attempts().skip(att0.len() as int)[j]).value,
                    ),
            decreases n - i,
        {
            let case = CaseIndex(i + 1);
            let ghost la = tokens.taken();
            let ghost a_before = printer.attempts().skip(att0.len() as int);
            let ghost vs = many_spec::<S::CaseData>(fresh(l1, la), i as nat, 0).0->Ok_0;
            proof {
                lemma_many_len::<S::CaseData>(fresh(l1, la), i as nat, 0);
                assert forall|j: int| 0 <= j < i implies solved_by(
                    solver,
                    &global.data,
                    vs[j],
                    #[trigger] a_before[j].value,
                ) by {
                    assert(a_before[j] == printer.attempts().skip(att0.len() as int)[j]);
                }
            }
            let rd = S::CaseData::from_tokens(tokens);
            let ghost lb = tokens.taken();
            proof {
                lemma_split_fresh(l1, la, lb);
                lemma_split_fresh(l0, l1, lb);
                S::GlobalData::lemma_load_prefix(fresh(l0, l1), fresh(l1, lb));
                let done = fresh(l1, la);
                let e = fresh(la, lb);
                lemma_many_prefix::<S::CaseData>(done, e, i as nat, 0);
                lemma_many_snoc::<S::CaseData>(done + e, i as nat, 0);
                assert((done + e).skip(done.len() as int) =~= e);
                assert(fresh(l0, lb).skip(fresh(l0, l1).len() as int) == fresh(l1, lb));
            }
            let data = match rd {
                Ok(d) => d,
                Err(e) => {
                    proof {
                        assert(results_match(solver, global.data@, vs, a_before, i as nat));
                    }
                    return Err(ExecutionError::load_error(case, e));
                },
            };
            let ghost record = data;
            let solution = solver.solve_case(&global.data, data);
            let ghost value = solution;
            let ghost vs2 = vs.push(record@);
            proof {
                assert(solved_by(solver, &global.data, record@, value));
            }
            let printed = printer.print(case, solution);
            proof {
                let a_after = printer.attempts().skip(att0.len() as int);
                assert(a_after =~= a_before.push(printer.attempts().last()));
                assert(printer.attempts().take(att0.len() as int) =~= att0);
                assert forall|j: int| 0 <= j < i + 1 implies solved_by(
                    solver,
                    &global.data,
                    vs2[j],
                    #[trigger] a_after[j].value,
                ) by {
                    if j < i {
                        assert(a_after[j] == a_before[j]);
                        assert(vs2[j] == vs[j]);
                    } else {
                        assert(a_after[j] == printer.attempts().last());
                        assert(a_after[j].value == value);
                        assert(vs2[j] == record@);
                    }
                }
                assert(results_match(solver, global.data@, vs2, a_after, (i + 1) as nat));
            }
            match printed {
                Ok(()) => {},
                Err(e) => {
                    return Err(ExecutionError::print_error(case, e));
                },
            }
            i = i + 1;
        }
        proof {
            lemma_split_fresh(l0, l1, tokens.taken());
            S::GlobalData::lemma_load_prefix(fresh(l0, l1), fresh(l1, tokens.taken()));
            let a = printer.attempts().skip(att0.len() as int);
            let vs = many_spec::<S::CaseData>(fresh(l1, tokens.taken()), n as nat, 0).0->Ok_0;
            lemma_many_len::<S::CaseData>(fresh(l1, tokens.taken()), n as nat, 0);
            assert forall|j: int| 0 <= j < n implies solved_by(
                solver,
                &global.data,
                vs[j],
                #[trigger] a[j].value,
            ) by {}
            assert(results_match(solver, global.data@, vs, a, n as nat));
        }
        Ok(())
    }
}

} // verus!
