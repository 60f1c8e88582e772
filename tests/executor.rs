use libcodejam::case_index::CaseIndex;
use libcodejam::executor::{CaseError, CaseErrorKind, ExecutionError, SequentialExecutor};
use libcodejam::global::{CountPrefix, GlobalDataError};
use libcodejam::group::{GroupError, TokenError};
use libcodejam::printer::{CollectingPrinter, LoggingPrinter, Printer};
use libcodejam::reorder::ReorderBuffer;
use libcodejam::solver::{global_solver, or_else, solver, MaybeImpossibleSolution, Solver};
use libcodejam::tokens::{LoadError, TokensReader};

fn indices<S>(p: &LoggingPrinter<CollectingPrinter<S>, S>) -> Vec<usize> {
    p.inner().delivered.iter().map(|d| d.0 .0).collect()
}

#[test]
fn sequential_run_delivers_every_record_in_order() {
    let mut r = TokensReader::from_text("4\n1\n2\n3\n4\n");
    let mut p = LoggingPrinter::new(CollectingPrinter::new());
    let s = solver(|x: u32| x * 10);
    assert_eq!(SequentialExecutor::execute(&mut r, &mut p, &s), Ok(()));
    assert_eq!(indices(&p), vec![1, 2, 3, 4]);
    let values: Vec<u32> = p.inner().delivered.iter().map(|d| d.1).collect();
    assert_eq!(values, vec![10, 20, 30, 40]);
}

#[test]
fn zero_records_deliver_nothing() {
    let mut r = TokensReader::from_text("0");
    let mut p = LoggingPrinter::new(CollectingPrinter::new());
    let s = solver(|x: u32| x);
    assert_eq!(SequentialExecutor::execute(&mut r, &mut p, &s), Ok(()));
    assert!(p.inner().delivered.is_empty());
}

#[test]
fn shared_data_reaches_every_record() {
    let mut r = TokensReader::from_text("3 100 1 2 3");
    let mut p = LoggingPrinter::new(CollectingPrinter::new());
    let s = global_solver(|g: &CountPrefix<u32>, x: u32| g.0 + x);
    assert_eq!(SequentialExecutor::execute(&mut r, &mut p, &s), Ok(()));
    let values: Vec<u32> = p.inner().delivered.iter().map(|d| d.1).collect();
    assert_eq!(values, vec![101, 102, 103]);
}

#[test]
fn malformed_record_stops_the_run() {
    let mut r = TokensReader::from_text("3 1 abc 3");
    let mut p = LoggingPrinter::new(CollectingPrinter::new());
    let s = solver(|x: u32| x);
    let e = SequentialExecutor::execute(&mut r, &mut p, &s);
    assert_eq!(
        e,
        Err(ExecutionError::Case(CaseError::load_error(
            CaseIndex(2),
            GroupError::Token(TokenError::ParseError { tok: "abc".to_string() })
        )))
    );
    assert_eq!(indices(&p), vec![1]);
}

#[test]
fn whitespace_only_records_fail_on_the_first_record() {
    let mut r = TokensReader::from_text("2   \n \t ");
    let mut p = LoggingPrinter::new(CollectingPrinter::new());
    let s = solver(|x: u32| x);
    let e = SequentialExecutor::execute(&mut r, &mut p, &s);
    assert_eq!(
        e,
        Err(ExecutionError::Case(CaseError::new(
            CaseIndex(1),
            CaseErrorKind::Load(GroupError::Token(TokenError::LoadError(LoadError::OutOfTokens)))
        )))
    );
    assert!(p.inner().delivered.is_empty());
}

#[test]
fn preamble_failure_is_a_global_error() {
    let mut r = TokensReader::from_text("   ");
    let mut p = LoggingPrinter::new(CollectingPrinter::new());
    let s = solver(|x: u32| x);
    let e = SequentialExecutor::execute(&mut r, &mut p, &s);
    assert_eq!(
        e,
        Err(ExecutionError::global_error(GlobalDataError::CountError(TokenError::LoadError(
            LoadError::OutOfTokens
        ))))
    );
}

struct FailingPrinter {
    accepted: usize,
    limit: usize,
}

impl Printer<u32> for FailingPrinter {
    fn print_solution(&mut self, _case: CaseIndex, _solution: u32) -> Result<(), String> {
        if self.accepted == self.limit {
            Err("disk full".to_string())
        } else {
            self.accepted += 1;
            Ok(())
        }
    }
}

#[test]
fn delivery_failure_stops_the_run() {
    let mut r = TokensReader::from_text("3 1 2 3");
    let mut p = LoggingPrinter::new(FailingPrinter { accepted: 0, limit: 2 });
    let s = solver(|x: u32| x);
    let e = SequentialExecutor::execute(&mut r, &mut p, &s);
    assert_eq!(
        e,
        Err(ExecutionError::print_error(CaseIndex(3), "disk full".to_string()))
    );
    assert_eq!(p.inner().accepted, 2);
}

#[test]
fn print_advance_gives_the_next_index() {
    let mut p = CollectingPrinter::new();
    assert_eq!(p.print_advance(CaseIndex(1), 5u8), Ok(CaseIndex(2)));
    assert_eq!(p.delivered, vec![(CaseIndex(1), 5u8)]);
}

#[test]
fn impossible_records_get_the_message() {
    let s = or_else(solver(|x: u32| if x % 2 == 0 { Some(x / 2) } else { None }), "IMPOSSIBLE");
    match s.solve_case(&(), 8) {
        MaybeImpossibleSolution::Success(v) => assert_eq!(v, 4),
        MaybeImpossibleSolution::Failure(m) => panic!("unexpected failure {}", m),
    }
    match s.solve_case(&(), 7) {
        MaybeImpossibleSolution::Failure(m) => assert_eq!(m, "IMPOSSIBLE"),
        MaybeImpossibleSolution::Success(_) => panic!("expected a failure"),
    }
}

fn sequential_output(input: &str) -> Vec<(CaseIndex, u64)> {
    let mut r = TokensReader::from_text(input);
    let mut p = LoggingPrinter::new(CollectingPrinter::new());
    let s = solver(|x: u64| x * x);
    SequentialExecutor::execute(&mut r, &mut p, &s).unwrap();
    p.into_inner().delivered
}

#[test]
fn reordered_completions_match_the_sequential_output() {
    let input = "5 3 1 4 1 5";
    let expected = sequential_output(input);
    let inputs = [3u64, 1, 4, 1, 5];
    let completion_order = [4usize, 2, 0, 3, 1];
    let mut buffer = ReorderBuffer::new();
    let mut out = Vec::new();
    for &i in completion_order.iter() {
        out.extend(buffer.receive(CaseIndex(i + 1), inputs[i] * inputs[i]));
    }
    assert!(buffer.is_drained());
    assert_eq!(out, expected);
}

#[test]
fn missing_result_becomes_the_failure_message() {
    match MaybeImpossibleSolution::from_option(Some(3u8), "none") {
        MaybeImpossibleSolution::Success(v) => assert_eq!(v, 3),
        MaybeImpossibleSolution::Failure(_) => panic!("expected a result"),
    }
    match MaybeImpossibleSolution::<u8>::from_option(None, "none") {
        MaybeImpossibleSolution::Failure(m) => assert_eq!(m, "none"),
        MaybeImpossibleSolution::Success(_) => panic!("expected the message"),
    }
}
