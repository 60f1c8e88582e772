use libcodejam::case_index::CaseIndex;
use libcodejam::global::GlobalData;
use std::cell::RefCell;
use libcodejam::global::{CountPrefix, CountSuffix, GlobalDataError, LoadGlobalData, NoGlobalData};
use libcodejam::group::{GroupError, TokenError};
use libcodejam::tokens::{LoadError, Tokens, TokensReader};

#[test]
fn count_then_data_preamble() {
    let mut r = TokensReader::from_text("5 42");
    let g = <CountPrefix<u32> as LoadGlobalData>::from_tokens(&mut r).unwrap();
    assert_eq!(g.num_cases, 5);
    assert_eq!(g.data.0, 42);
    assert_eq!(*g.data.as_ref(), 42);
}

#[test]
fn data_then_count_preamble() {
    let mut r = TokensReader::from_text("42 5");
    let g = <CountSuffix<u32> as LoadGlobalData>::from_tokens(&mut r).unwrap();
    assert_eq!(g.num_cases, 5);
    assert_eq!(*g.data.as_ref(), 42);
}

#[test]
fn count_only_preamble() {
    let mut r = TokensReader::from_text("7 8");
    let g = <NoGlobalData as LoadGlobalData>::from_tokens(&mut r).unwrap();
    assert_eq!(g.num_cases, 7);
    assert_eq!(r.next_raw(), Ok("8".to_string()));
    let mut r2 = TokensReader::from_text("3");
    let g2 = <() as LoadGlobalData>::from_tokens(&mut r2).unwrap();
    assert_eq!(g2.num_cases, 3);
}

#[test]
fn zero_cases_preamble() {
    let mut r = TokensReader::from_text("0");
    let g = <NoGlobalData as LoadGlobalData>::from_tokens(&mut r).unwrap();
    assert_eq!(g.num_cases, 0);
}

#[test]
fn preamble_count_error_is_kept_apart() {
    let mut r = TokensReader::from_text("x 42");
    let e = <CountPrefix<u32> as LoadGlobalData>::from_tokens(&mut r).unwrap_err();
    assert_eq!(
        e,
        GlobalDataError::CountError(TokenError::ParseError { tok: "x".to_string() })
    );
}

#[test]
fn preamble_data_error_is_kept_apart() {
    let mut r = TokensReader::from_text("5");
    let e = <CountPrefix<u32> as LoadGlobalData>::from_tokens(&mut r).unwrap_err();
    assert_eq!(
        e,
        GlobalDataError::DataError(GroupError::Token(TokenError::LoadError(
            LoadError::OutOfTokens
        )))
    );
    let mut r2 = TokensReader::from_text("y 5");
    let e2 = <CountSuffix<u32> as LoadGlobalData>::from_tokens(&mut r2).unwrap_err();
    assert_eq!(
        e2,
        GlobalDataError::DataError(GroupError::Token(TokenError::ParseError {
            tok: "y".to_string()
        }))
    );
}

#[test]
fn empty_input_fails_on_the_count() {
    let mut r = TokensReader::from_text("");
    let e = <NoGlobalData as LoadGlobalData>::from_tokens(&mut r).unwrap_err();
    assert_eq!(
        e,
        GlobalDataError::CountError(TokenError::LoadError(LoadError::OutOfTokens))
    );
}

#[test]
fn for_each_case_visits_records_in_order_until_a_failure() {
    let g = GlobalData { num_cases: 4, data: 10u32 };
    let seen = RefCell::new(Vec::new());
    let r: Result<(), String> = g.for_each_case(|c: CaseIndex, d: &u32| {
        seen.borrow_mut().push(c.0 as u32 + *d);
        Ok(())
    });
    assert_eq!(r, Ok(()));
    assert_eq!(*seen.borrow(), vec![11, 12, 13, 14]);
    let count = RefCell::new(0usize);
    let r2 = g.for_each_case(|c: CaseIndex, _d: &u32| {
        *count.borrow_mut() += 1;
        if c.0 == 2 { Err(format!("stop at {}", c.0)) } else { Ok(()) }
    });
    assert_eq!(r2, Err("stop at 2".to_string()));
    assert_eq!(*count.borrow(), 2);
}
