use libcodejam::collection::{collect, AutoSize};
use libcodejam::group::{CollectionError, Group, GroupError, TokenError, TupleGroupError};
use libcodejam::record::Data;
use libcodejam::tokens::{LoadError, Tokens, TokensReader};

fn reader(text: &str) -> TokensReader {
    TokensReader::from_text(text)
}

#[test]
fn pair_of_u32_from_text() {
    let mut r = reader("3 4");
    let v = <(u32, u32) as Group>::from_tokens(&mut r);
    assert_eq!(v, Ok((3, 4)));
    assert_eq!(r.next_raw(), Err(LoadError::OutOfTokens));
}

#[test]
fn length_prefixed_collection_from_text() {
    let mut r = reader("3 10 20 30");
    let v = <AutoSize<u32> as Group>::from_tokens(&mut r).unwrap();
    assert_eq!(v.count, 3);
    assert_eq!(v.collection, vec![10, 20, 30]);
    assert_eq!(v.into_inner(), vec![10, 20, 30]);
}

#[test]
fn empty_length_prefixed_collection() {
    let mut r = reader("0");
    let v = <AutoSize<u32> as Group>::from_tokens(&mut r).unwrap();
    assert_eq!(v.count, 0);
    assert!(v.collection.is_empty());
}

#[test]
fn collection_reads_exactly_its_count() {
    let mut r = reader("2 7 8 9");
    let v = <AutoSize<u64> as Group>::from_tokens(&mut r).unwrap();
    assert_eq!(v.collection, vec![7, 8]);
    assert_eq!(r.next_raw(), Ok("9".to_string()));
}

#[test]
fn malformed_u32_is_a_parse_error_with_the_token() {
    let mut r = reader("abc");
    let v = <u32 as Group>::from_tokens(&mut r);
    assert_eq!(
        v,
        Err(GroupError::Token(TokenError::ParseError { tok: "abc".to_string() }))
    );
}

#[test]
fn u32_overflow_is_a_parse_error() {
    let mut r = reader("4294967296 4294967295");
    assert_eq!(
        <u32 as Group>::from_tokens(&mut r),
        Err(GroupError::Token(TokenError::ParseError { tok: "4294967296".to_string() }))
    );
    assert_eq!(<u32 as Group>::from_tokens(&mut r), Ok(4294967295));
}

#[test]
fn unsigned_accepts_plus_and_rejects_minus() {
    let mut r = reader("+12 -1");
    assert_eq!(<u64 as Group>::from_tokens(&mut r), Ok(12));
    assert!(<u64 as Group>::from_tokens(&mut r).is_err());
}

#[test]
fn signed_values() {
    let mut r = reader("-42 +7 2147483648 -9223372036854775808");
    assert_eq!(<i32 as Group>::from_tokens(&mut r), Ok(-42));
    assert_eq!(<i32 as Group>::from_tokens(&mut r), Ok(7));
    assert!(<i32 as Group>::from_tokens(&mut r).is_err());
    assert_eq!(<i64 as Group>::from_tokens(&mut r), Ok(i64::MIN));
}

#[test]
fn string_is_the_token_itself() {
    let mut r = reader("hello");
    assert_eq!(<String as Group>::from_tokens(&mut r), Ok("hello".to_string()));
}

#[test]
fn unit_takes_no_token() {
    let mut r = reader("5");
    assert_eq!(<() as Group>::from_tokens(&mut r), Ok(()));
    assert_eq!(r.next_raw(), Ok("5".to_string()));
}

#[test]
fn missing_token_is_out_of_tokens() {
    let mut r = reader("  ");
    assert_eq!(
        <usize as Group>::from_tokens(&mut r),
        Err(GroupError::Token(TokenError::LoadError(LoadError::OutOfTokens)))
    );
}

#[test]
fn tuple_error_reports_the_failing_field() {
    let mut r = reader("1 x 3");
    let v = <(u32, u32, u32) as Group>::from_tokens(&mut r);
    assert_eq!(
        v,
        Err(GroupError::Tuple(TupleGroupError::new(
            1,
            GroupError::Token(TokenError::ParseError { tok: "x".to_string() })
        )))
    );
    assert_eq!(r.next_raw(), Ok("3".to_string()));
}

#[test]
fn tuple_error_on_first_field() {
    let mut r = reader("");
    let v = <(u32, String) as Group>::from_tokens(&mut r);
    match v {
        Err(GroupError::Tuple(e)) => assert_eq!(e.index, 0),
        other => panic!("unexpected {:?}", other),
    }
}

#[test]
fn collection_error_reports_the_failing_element() {
    let mut r = reader("3 10 oops 30");
    let v = <AutoSize<u32> as Group>::from_tokens(&mut r);
    assert_eq!(
        v.map(|a| a.collection),
        Err(GroupError::Collection(CollectionError {
            index: 1,
            error: Box::new(GroupError::Token(TokenError::ParseError {
                tok: "oops".to_string()
            })),
        }))
    );
    assert_eq!(r.next_raw(), Ok("30".to_string()));
}

#[test]
fn collection_count_error() {
    let mut r = reader("many 1 2");
    let v = <AutoSize<u32> as Group>::from_tokens(&mut r);
    assert_eq!(
        v.map(|a| a.count),
        Err(GroupError::Count(TokenError::ParseError { tok: "many".to_string() }))
    );
}

#[test]
fn collect_reads_a_given_count() {
    let mut r = reader("5 6 7");
    let v: Result<Vec<u32>, CollectionError> = collect(&mut r, 2);
    assert_eq!(v, Ok(vec![5, 6]));
}

#[test]
fn nested_tuple_of_collections() {
    let mut r = reader("2 1 2 word 1 9");
    let v = <(AutoSize<u32>, String, AutoSize<i64>) as Group>::from_tokens(&mut r).unwrap();
    assert_eq!(v.0.collection, vec![1, 2]);
    assert_eq!(v.1, "word");
    assert_eq!(v.2.collection, vec![9]);
}

#[test]
fn record_with_dependent_sizing() {
    let mut r = reader("3 5 0 2 99");
    let d = <Data as Group>::from_tokens(&mut r).unwrap();
    assert_eq!(d.num_columns, 3);
    assert_eq!(d.ball_counts, vec![5, 0, 2]);
    assert_eq!(r.next_raw(), Ok("99".to_string()));
}

#[test]
fn record_field_error_names_the_field() {
    let mut r = reader("2 5");
    match <Data as Group>::from_tokens(&mut r) {
        Err(GroupError::Struct(e)) => {
            assert_eq!(e.field, "ball_counts");
            match *e.error {
                GroupError::Collection(c) => {
                    assert_eq!(c.index, 1);
                    assert_eq!(
                        *c.error,
                        GroupError::Token(TokenError::LoadError(LoadError::OutOfTokens))
                    );
                }
                other => panic!("unexpected {:?}", other),
            }
        }
        other => panic!("unexpected {:?}", other),
    }
}

#[test]
fn record_count_field_error() {
    let mut r = reader("-1");
    match <Data as Group>::from_tokens(&mut r) {
        Err(GroupError::Struct(e)) => assert_eq!(e.field, "num_columns"),
        other => panic!("unexpected {:?}", other),
    }
}

#[test]
fn char_is_a_single_character_token() {
    let mut r = reader("x yz é");
    assert_eq!(<char as Group>::from_tokens(&mut r), Ok('x'));
    assert_eq!(
        <char as Group>::from_tokens(&mut r),
        Err(GroupError::Token(TokenError::ParseError { tok: "yz".to_string() }))
    );
    assert_eq!(<char as Group>::from_tokens(&mut r), Ok('é'));
}

#[test]
fn one_field_tuple() {
    let mut r = reader("9");
    assert_eq!(<(u8,) as Group>::from_tokens(&mut r), Ok((9u8,)));
}

#[test]
fn four_field_tuple_reports_the_last_field() {
    let mut r = reader("1 2 3 z");
    match <(u8, u16, i8, i16) as Group>::from_tokens(&mut r) {
        Err(GroupError::Tuple(e)) => assert_eq!(e.index, 3),
        other => panic!("unexpected {:?}", other),
    }
    let mut r2 = reader("1 -2 3 4");
    assert_eq!(<(u8, i16, u128, isize) as Group>::from_tokens(&mut r2), Ok((1, -2, 3, 4)));
}

#[test]
fn twelve_field_tuple_reports_a_middle_field() {
    let mut r = reader("1 2 3 4 5 x 7 8 9 10 11 12");
    let v = <(u8, u8, u8, u8, u8, u8, u8, u8, u8, u8, u8, u8) as Group>::from_tokens(&mut r);
    match v {
        Err(GroupError::Tuple(e)) => assert_eq!(e.index, 5),
        other => panic!("unexpected {:?}", other),
    }
    assert_eq!(r.next_raw(), Ok("7".to_string()));
}

#[test]
fn small_and_wide_integers() {
    let mut r = reader("256 -129 170141183460469231731687303715884105727 -5");
    assert!(<u8 as Group>::from_tokens(&mut r).is_err());
    assert!(<i8 as Group>::from_tokens(&mut r).is_err());
    assert_eq!(<i128 as Group>::from_tokens(&mut r), Ok(i128::MAX));
    assert_eq!(<isize as Group>::from_tokens(&mut r), Ok(-5));
}
