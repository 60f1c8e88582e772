use vstd::prelude::*;

use crate::case_index::CaseIndex;

verus! {

/// Where each record's result goes.
pub trait Printer<S> {
    /// Delivers the result of record `case`.
    fn print_solution(&mut self, case: CaseIndex, solution: S) -> (r: Result<(), String>);

    /// Delivers the result of record `case` and gives the index after it.
    fn print_advance(&mut self, case: CaseIndex, solution: S) -> (r: Result<CaseIndex, String>)
        requires
            case.0 < usize::MAX,
        ensures
            r matches Ok(n) ==> n.0 == case.0 + 1,
    {
        match self.print_solution(case, solution) {
            Ok(()) => Ok(case.next()),
            Err(e) => Err(e),
        }
    }
}

/// One result handed to a printer: the record's index, the value, and the
/// printer's refusal if it did not accept it.
pub struct Attempt<S> {
    pub case: CaseIndex,
    pub value: S,
    pub refusal: Option<String>,
}

/// The error a printer answered with, if any.
pub open spec fn refusal_of(r: Result<(), String>) -> Option<String> {
    match r {
        Ok(()) => None,
        Err(e) => Some(e),
    }
}

/// A printer together with every result handed to it, in order, and what
/// became of each.
pub struct LoggingPrinter<P, S> {
    inner: P,
    log: Ghost<Seq<Attempt<S>>>,
}

impl<P, S> LoggingPrinter<P, S> {
    /// The results handed to `inner`, oldest first.
    pub closed spec fn attempts(&self) -> Seq<Attempt<S>> {
        self.log@
    }

    /// The printer that receives the results.
    pub closed spec fn target(&self) -> P {
        self.inner
    }

    pub fn new(inner: P) -> (r: LoggingPrinter<P, S>)
        ensures
            r.target() == inner,
            r.attempts().len() == 0,
    {
        LoggingPrinter { inner, log: Ghost(Seq::empty()) }
    }

    /// Hands the result of record `case` to the inner printer and gives back
    /// what the inner printer answered.
    pub fn print(&mut self, case: CaseIndex, solution: S) -> (r: Result<(), String>) where
        P: Printer<S>,

        ensures
            final(self).attempts() == old(self).attempts().push(
                Attempt {
                    case,
                    value: solution,
                    refusal: refusal_of(r),
                },
            ),
    {
        let ghost value = solution;
        let r = self.inner.print_solution(case, solution);
        let ghost refusal = refusal_of(r);
        self.log = Ghost(self.log@.push(Attempt { case, value, refusal }));
        r
    }

    pub fn inner(&self) -> (r: &P)
        ensures
            *r == self.target(),
    {
        &self.inner
    }

    pub fn into_inner(self) -> (r: P)
        ensures
            r == self.target(),
    {
        self.inner
    }
}

/// A printer that keeps every delivered result in memory.
#[derive(Debug)]
pub struct CollectingPrinter<S> {
    pub delivered: Vec<(CaseIndex, S)>,
}

impl<S> CollectingPrinter<S> {
    pub fn new() -> (r: CollectingPrinter<S>)
        ensures
            r.delivered@.len() == 0,
    {
        CollectingPrinter { delivered: Vec::new() }
    }
}

impl<S> Printer<S> for CollectingPrinter<S> {
    fn print_solution(&mut self, case: CaseIndex, solution: S) -> (r: Result<(), String>)
        ensures
            r is Ok,
            final(self).delivered@ == old(self).delivered@.push((case, solution)),
    {
        self.delivered.push((case, solution));
        Ok(())
    }
}

} // verus!
