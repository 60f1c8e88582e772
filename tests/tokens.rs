use libcodejam::tokens::{LoadError, TokenScanner, Tokens, TokensFromIterator, TokensReader};

fn all_tokens(r: &mut TokensReader) -> Vec<String> {
    let mut out = Vec::new();
    loop {
        match r.next_raw() {
            Ok(t) => out.push(t),
            Err(LoadError::OutOfTokens) => return out,
            Err(e) => panic!("unexpected error {:?}", e),
        }
    }
}

#[test]
fn splits_on_any_ascii_whitespace() {
    let mut r = TokensReader::from_text("  3\t4\n\n5\r\n six\x0cseven  ");
    assert_eq!(all_tokens(&mut r), vec!["3", "4", "5", "six", "seven"]);
}

#[test]
fn empty_input_has_no_tokens() {
    let mut r = TokensReader::from_text("");
    assert_eq!(r.next_raw(), Err(LoadError::OutOfTokens));
    assert_eq!(r.next_raw(), Err(LoadError::OutOfTokens));
}

#[test]
fn whitespace_only_input_has_no_tokens() {
    let mut r = TokensReader::from_text(" \n\t \r\n ");
    assert_eq!(r.next_raw(), Err(LoadError::OutOfTokens));
}

#[test]
fn last_token_may_end_at_end_of_input() {
    let mut r = TokensReader::from_text("abc def");
    assert_eq!(r.next_raw(), Ok("abc".to_string()));
    assert_eq!(r.next_raw(), Ok("def".to_string()));
    assert_eq!(r.next_raw(), Err(LoadError::OutOfTokens));
}

#[test]
fn invalid_utf8_token_is_an_encoding_error() {
    let mut r = TokensReader::new(vec![b'a', b' ', 0xff, 0xfe, b' ', b'b']);
    assert_eq!(r.next_raw(), Ok("a".to_string()));
    assert_eq!(r.next_raw(), Err(LoadError::Utf8Error(vec![0xff, 0xfe])));
    assert_eq!(r.next_raw(), Ok("b".to_string()));
}

#[test]
fn multibyte_token_decodes() {
    let mut r = TokensReader::from_text("héllo wörld");
    assert_eq!(r.next_raw(), Ok("héllo".to_string()));
    assert_eq!(r.next_raw(), Ok("wörld".to_string()));
}

#[test]
fn scanner_joins_a_token_split_across_chunks() {
    let mut s = TokenScanner::new();
    let chunk1: &[u8] = b"   ab";
    let chunk2: &[u8] = b"cd";
    let chunk3: &[u8] = b"e  fg";
    assert_eq!(s.scan(chunk1, 0), (5, false));
    assert_eq!(s.scan(chunk2, 0), (2, false));
    assert_eq!(s.scan(chunk3, 0), (2, true));
    assert_eq!(s.finish(), Ok("abcde".to_string()));
    s.reset();
    assert_eq!(s.scan(chunk3, 2), (5, false));
    assert_eq!(s.finish(), Ok("fg".to_string()));
}

#[test]
fn scanner_skips_whitespace_across_chunks() {
    let mut s = TokenScanner::new();
    let blank: &[u8] = b" \n ";
    let word: &[u8] = b"\t42\n";
    assert_eq!(s.scan(blank, 0), (3, false));
    assert_eq!(s.scan(blank, 0), (3, false));
    assert_eq!(s.scan(word, 0), (4, true));
    assert_eq!(s.finish(), Ok("42".to_string()));
}

#[test]
fn scanner_with_nothing_seen_reports_end_of_input() {
    let mut s = TokenScanner::new();
    let blank: &[u8] = b"   ";
    assert_eq!(s.scan(blank, 0), (3, false));
    assert_eq!(s.finish(), Err(LoadError::OutOfTokens));
}

#[test]
fn tokens_from_iterator_hands_out_in_order() {
    let mut t = TokensFromIterator::new(vec!["x".to_string(), "y".to_string()]);
    assert_eq!(t.next_raw(), Ok("x".to_string()));
    assert_eq!(t.next_raw(), Ok("y".to_string()));
    assert_eq!(t.next_raw(), Err(LoadError::OutOfTokens));
}

#[test]
fn tokens_from_iterator_reports_the_error_that_ended_the_input() {
    let mut t = TokensFromIterator::with_end(vec!["x".to_string()], LoadError::Io("broken pipe".to_string()));
    assert_eq!(t.next_raw(), Ok("x".to_string()));
    assert_eq!(t.next_raw(), Err(LoadError::Io("broken pipe".to_string())));
    assert_eq!(t.next_raw(), Err(LoadError::OutOfTokens));
}
