use libcodejam::case_index::{case_range, cases, CaseIndex};
use libcodejam::helpers::SpacePair;
use libcodejam::reorder::ReorderBuffer;

#[test]
fn out_of_order_completion_is_delivered_in_order() {
    let mut b = ReorderBuffer::new();
    assert!(b.receive(CaseIndex(3), "c").is_empty());
    assert!(!b.is_drained());
    assert!(b.receive(CaseIndex(2), "b").is_empty());
    let out = b.receive(CaseIndex(1), "a");
    assert_eq!(out, vec![(CaseIndex(1), "a"), (CaseIndex(2), "b"), (CaseIndex(3), "c")]);
    assert!(b.is_drained());
}

#[test]
fn in_order_completion_is_delivered_at_once() {
    let mut b = ReorderBuffer::new();
    assert_eq!(b.receive(CaseIndex(1), 10), vec![(CaseIndex(1), 10)]);
    assert_eq!(b.receive(CaseIndex(2), 20), vec![(CaseIndex(2), 20)]);
    assert!(b.is_drained());
}

#[test]
fn a_gap_holds_back_later_results() {
    let mut b = ReorderBuffer::new();
    assert_eq!(b.receive(CaseIndex(1), 1), vec![(CaseIndex(1), 1)]);
    assert!(b.receive(CaseIndex(3), 3).is_empty());
    assert!(b.receive(CaseIndex(5), 5).is_empty());
    assert_eq!(b.receive(CaseIndex(2), 2), vec![(CaseIndex(2), 2), (CaseIndex(3), 3)]);
    assert!(!b.is_drained());
    assert_eq!(b.receive(CaseIndex(4), 4), vec![(CaseIndex(4), 4), (CaseIndex(5), 5)]);
    assert!(b.is_drained());
}

#[test]
fn every_arrival_order_of_four_gives_one_order() {
    let orders = [[0, 1, 2, 3], [3, 2, 1, 0], [1, 3, 0, 2], [2, 0, 3, 1], [3, 0, 1, 2]];
    for order in orders.iter() {
        let mut b = ReorderBuffer::new();
        let mut out = Vec::new();
        for &i in order.iter() {
            out.extend(b.receive(CaseIndex(i + 1), i * 7));
        }
        assert_eq!(out, vec![(CaseIndex(1), 0), (CaseIndex(2), 7), (CaseIndex(3), 14), (CaseIndex(4), 21)]);
        assert!(b.is_drained());
    }
}

#[test]
fn case_indices_start_at_one() {
    assert_eq!(CaseIndex::start(), CaseIndex(1));
    assert_eq!(CaseIndex::default(), CaseIndex(1));
    assert_eq!(CaseIndex(1).next(), CaseIndex(2));
    assert_eq!(case_range(3), vec![CaseIndex(1), CaseIndex(2), CaseIndex(3)]);
    assert!(case_range(0).is_empty());
}

#[test]
fn unbounded_cases_count_up() {
    let mut c = cases();
    assert_eq!(c.next_case(), Some(CaseIndex(1)));
    assert_eq!(c.next_case(), Some(CaseIndex(2)));
    assert_eq!(c.next_case(), Some(CaseIndex(3)));
}

#[test]
fn space_pair_keeps_both_values() {
    let p = SpacePair::new(1, "two");
    assert_eq!(p.first, 1);
    assert_eq!(p.second, "two");
}

use libcodejam::printer::{CollectingPrinter, LoggingPrinter, Printer};

struct RefusingPrinter {
    accepted: Vec<usize>,
    refuse: usize,
}

impl Printer<u32> for RefusingPrinter {
    fn print_solution(&mut self, case: CaseIndex, _solution: u32) -> Result<(), String> {
        if case.0 == self.refuse {
            Err(format!("refused {}", case.0))
        } else {
            self.accepted.push(case.0);
            Ok(())
        }
    }
}

#[test]
fn deliver_hands_released_results_to_the_printer_in_order() {
    let mut b = ReorderBuffer::new();
    let mut p = LoggingPrinter::new(CollectingPrinter::new());
    assert_eq!(b.deliver(&mut p, CaseIndex(2), 20u32), Ok(()));
    assert!(p.inner().delivered.is_empty());
    assert_eq!(b.deliver(&mut p, CaseIndex(1), 10u32), Ok(()));
    assert_eq!(p.inner().delivered, vec![(CaseIndex(1), 10), (CaseIndex(2), 20)]);
    assert!(b.is_drained());
}

#[test]
fn deliver_stops_at_the_first_refusal() {
    let mut b = ReorderBuffer::new();
    let mut p = LoggingPrinter::new(RefusingPrinter { accepted: Vec::new(), refuse: 2 });
    assert_eq!(b.deliver(&mut p, CaseIndex(3), 3), Ok(()));
    assert_eq!(b.deliver(&mut p, CaseIndex(2), 2), Ok(()));
    assert_eq!(b.deliver(&mut p, CaseIndex(1), 1), Err((CaseIndex(2), "refused 2".to_string())));
    assert_eq!(p.inner().accepted, vec![1]);
}
