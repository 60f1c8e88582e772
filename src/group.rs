use vstd::prelude::*;

use crate::text::{
    char_of_text, i128_of_text, i16_of_text, i32_of_text, i64_of_text, i8_of_text, isize_of_text, parse_char, parse_i128, parse_i16, parse_i32, parse_i64, parse_i8, parse_isize, parse_u128, parse_u16, parse_u32, parse_u64, parse_u8, parse_usize, u128_of_text, u16_of_text, u32_of_text, u64_of_text, u8_of_text, usize_of_text,
};
use crate::tokens::{consistent, lemma_consistent_push, LoadError, RawToken, Tokens};

verus! {

/// Why a single token gave no value.
#[derive(Debug, PartialEq, Eq)]
pub enum TokenError {
    /// No token could be had.
    LoadError(LoadError),
    /// The token's text is not a value of the wanted type.
    ParseError { tok: String },
}

/// A tuple field failed; `index` is its 0-based position.
#[derive(Debug, PartialEq, Eq)]
pub struct TupleGroupError {
    pub index: usize,
    pub error: Box<GroupError>,
}

/// An element of a collection failed; `index` is its 0-based position.
#[derive(Debug, PartialEq, Eq)]
pub struct CollectionError {
    pub index: usize,
    pub error: Box<GroupError>,
}

/// A named field of a record failed.
#[derive(Debug, PartialEq, Eq)]
pub struct StructGroupError {
    pub field: &'static str,
    pub error: Box<GroupError>,
}

/// Why a value could not be read; nested errors give the path from the
/// outermost value down to the token that failed.
#[derive(Debug, PartialEq, Eq)]
pub enum GroupError {
    Token(TokenError),
    Tuple(TupleGroupError),
    /// The count in front of a length-prefixed collection failed.
    Count(TokenError),
    Collection(CollectionError),
    Struct(StructGroupError),
}

impl TupleGroupError {
    pub fn new(index: usize, error: GroupError) -> (r: TupleGroupError)
        ensures
            r.index == index,
            *r.error == error,
    {
        TupleGroupError { index, error: Box::new(error) }
    }
}

impl StructGroupError {
    pub fn new(field: &'static str, error: GroupError) -> (r: StructGroupError)
        ensures
            r.field == field,
            *r.error == error,
    {
        StructGroupError { field, error: Box::new(error) }
    }
}

/// The outcomes that came after the first `before.len()`.
pub open spec fn fresh(before: Seq<RawToken>, after: Seq<RawToken>) -> Seq<RawToken> {
    after.skip(before.len() as int)
}

/// Whether `after` is `before` followed by more outcomes.
pub open spec fn extends(before: Seq<RawToken>, after: Seq<RawToken>) -> bool {
    before.len() <= after.len() && after.take(before.len() as int) == before
}

pub open spec fn result_view<G: View>(r: Result<G, GroupError>) -> Result<G::V, GroupError> {
    match r {
        Ok(v) => Ok(v@),
        Err(e) => Err(e),
    }
}

/// A value that reads itself from a token source.
///
/// `read_spec(s)` is what reading one value from the front of the outcomes
/// `s` gives, and how many outcomes that takes. Reading consumes exactly
/// those outcomes, in order.
pub trait Group: Sized + View {
    spec fn read_spec(s: Seq<RawToken>) -> (Result<Self::V, GroupError>, nat);

    /// What follows the outcomes a read needs does not change the read.
    proof fn lemma_read_prefix(s: Seq<RawToken>, t: Seq<RawToken>)
        requires
            Self::read_spec(s).1 <= s.len(),
        ensures
            Self::read_spec(s + t) == Self::read_spec(s),
    ;

    fn from_tokens<T: Tokens>(tokens: &mut T) -> (r: Result<Self, GroupError>)
        ensures
            extends(old(tokens).taken(), final(tokens).taken()),
            final(tokens).origin() == old(tokens).origin(),
            consistent(*old(tokens)) ==> consistent(*final(tokens)),
            Self::read_spec(fresh(old(tokens).taken(), final(tokens).taken())) == (
                result_view(r),
                (final(tokens).taken().len() - old(tokens).taken().len()) as nat,
            ),
    ;
}

/// Reading one token and converting its text with `conv`.
pub open spec fn token_spec<V>(s: Seq<RawToken>, conv: spec_fn(Seq<char>) -> Option<V>) -> (
    Result<V, TokenError>,
    nat,
) {
    if s.len() == 0 {
        (Err(TokenError::LoadError(LoadError::OutOfTokens)), 1)
    } else {
        match s[0] {
            Ok(t) => match conv(t@) {
                Some(v) => (Ok(v), 1),
                None => (Err(TokenError::ParseError { tok: t }), 1),
            },
            Err(e) => (Err(TokenError::LoadError(e)), 1),
        }
    }
}

pub open spec fn lift_token<V>(r: (Result<V, TokenError>, nat)) -> (Result<V, GroupError>, nat) {
    (
        match r.0 {
            Ok(v) => Ok(v),
            Err(e) => Err(GroupError::Token(e)),
        },
        r.1,
    )
}

proof fn lemma_token_prefix<V>(
    s: Seq<RawToken>,
    t: Seq<RawToken>,
    conv: spec_fn(Seq<char>) -> Option<V>,
)
    requires
        token_spec(s, conv).1 <= s.len(),
    ensures
        token_spec(s + t, conv) == token_spec(s, conv),
{
    assert((s + t)[0] == s[0]);
}

proof fn lemma_one_more(before: Seq<RawToken>, x: RawToken)
    ensures
        fresh(before, before.push(x)) == seq![x],
        extends(before, before.push(x)),
{
    assert(fresh(before, before.push(x)) =~= seq![x]);
    assert(before.push(x).take(before.len() as int) =~= before);
}

/// A value written as a single token.
pub trait Token: Sized {
    /// The value that the text `t` stands for, if it stands for one.
    spec fn from_text(t: Seq<char>) -> Option<Self>;

    fn from_raw(tok: &str) -> (r: Option<Self>)
        ensures
            r == Self::from_text(tok@),
    ;
}

/// Reading one token as a `G`.
pub open spec fn token_read<G: Token>(s: Seq<RawToken>) -> (Result<G, TokenError>, nat) {
    token_spec(s, |t: Seq<char>| G::from_text(t))
}

proof fn lemma_token_read_prefix<G: Token>(s: Seq<RawToken>, t: Seq<RawToken>)
    requires
        token_read::<G>(s).1 <= s.len(),
    ensures
        token_read::<G>(s + t) == token_read::<G>(s),
{
    assert((s + t)[0] == s[0]);
}

/// Reads one token and converts it to a `G`.
pub fn read_token<G: Token, T: Tokens>(tokens: &mut T) -> (r: Result<G, TokenError>)
    ensures
        extends(old(tokens).taken(), final(tokens).taken()),
        final(tokens).origin() == old(tokens).origin(),
        consistent(*old(tokens)) ==> consistent(*final(tokens)),
        token_read::<G>(fresh(old(tokens).taken(), final(tokens).taken())) == (
            r,
            (final(tokens).taken().len() - old(tokens).taken().len()) as nat,
        ),
{
    let ghost l0 = tokens.taken();
    let ghost t0 = *tokens;
    let raw = tokens.next_raw();
    proof {
        lemma_one_more(l0, raw);
        lemma_consistent_push(t0, *tokens, raw);
    }
    match raw {
        Ok(t) => match G::from_raw(t.as_str()) {
            Some(v) => Ok(v),
            None => Err(TokenError::ParseError { tok: t }),
        },
        Err(e) => Err(TokenError::LoadError(e)),
    }
}

/// Reads one token as an unsigned count.
pub fn read_count<T: Tokens>(tokens: &mut T) -> (r: Result<usize, TokenError>)
    ensures
        extends(old(tokens).taken(), final(tokens).taken()),
        final(tokens).origin() == old(tokens).origin(),
        consistent(*old(tokens)) ==> consistent(*final(tokens)),
        token_read::<usize>(fresh(old(tokens).taken(), final(tokens).taken())) == (
            r,
            (final(tokens).taken().len() - old(tokens).taken().len()) as nat,
        ),
{
    read_token::<usize, T>(tokens)
}

impl Token for usize {
    open spec fn from_text(t: Seq<char>) -> Option<usize> {
        usize_of_text(t)
    }

    fn from_raw(tok: &str) -> (r: Option<usize>) {
        parse_usize(tok)
    }
}

impl Group for usize {
    open spec fn read_spec(s: Seq<RawToken>) -> (Result<usize, GroupError>, nat) {
        lift_token(token_read::<usize>(s))
    }

    proof fn lemma_read_prefix(s: Seq<RawToken>, t: Seq<RawToken>) {
        lemma_token_read_prefix::<usize>(s, t);
    }

    fn from_tokens<T: Tokens>(tokens: &mut T) -> (r: Result<usize, GroupError>) {
        match read_token::<usize, T>(tokens) {
            Ok(v) => Ok(v),
            Err(e) => Err(GroupError::Token(e)),
        }
    }
}

impl Token for u32 {
    open spec fn from_text(t: Seq<char>) -> Option<u32> {
        u32_of_text(t)
    }

    fn from_raw(tok: &str) -> (r: Option<u32>) {
        parse_u32(tok)
    }
}

impl Group for u32 {
    open spec fn read_spec(s: Seq<RawToken>) -> (Result<u32, GroupError>, nat) {
        lift_token(token_read::<u32>(s))
    }

    proof fn lemma_read_prefix(s: Seq<RawToken>, t: Seq<RawToken>) {
        lemma_token_read_prefix::<u32>(s, t);
    }

    fn from_tokens<T: Tokens>(tokens: &mut T) -> (r: Result<u32, GroupError>) {
        match read_token::<u32, T>(tokens) {
            Ok(v) => Ok(v),
            Err(e) => Err(GroupError::Token(e)),
        }
    }
}

impl Token for u64 {
    open spec fn from_text(t: Seq<char>) -> Option<u64> {
        u64_of_text(t)
    }

    fn from_raw(tok: &str) -> (r: Option<u64>) {
        parse_u64(tok)
    }
}

impl Group for u64 {
    open spec fn read_spec(s: Seq<RawToken>) -> (Result<u64, GroupError>, nat) {
        lift_token(token_read::<u64>(s))
    }

    proof fn lemma_read_prefix(s: Seq<RawToken>, t: Seq<RawToken>) {
        lemma_token_read_prefix::<u64>(s, t);
    }

    fn from_tokens<T: Tokens>(tokens: &mut T) -> (r: Result<u64, GroupError>) {
        match read_token::<u64, T>(tokens) {
            Ok(v) => Ok(v),
            Err(e) => Err(GroupError::Token(e)),
        }
    }
}

impl Token for i32 {
    open spec fn from_text(t: Seq<char>) -> Option<i32> {
        i32_of_text(t)
    }

    fn from_raw(tok: &str) -> (r: Option<i32>) {
        parse_i32(tok)
    }
}

impl Group for i32 {
    open spec fn read_spec(s: Seq<RawToken>) -> (Result<i32, GroupError>, nat) {
        lift_token(token_read::<i32>(s))
    }

    proof fn lemma_read_prefix(s: Seq<RawToken>, t: Seq<RawToken>) {
        lemma_token_read_prefix::<i32>(s, t);
    }

    fn from_tokens<T: Tokens>(tokens: &mut T) -> (r: Result<i32, GroupError>) {
        match read_token::<i32, T>(tokens) {
            Ok(v) => Ok(v),
            Err(e) => Err(GroupError::Token(e)),
        }
    }
}

impl Token for i64 {
    open spec fn from_text(t: Seq<char>) -> Option<i64> {
        i64_of_text(t)
    }

    fn from_raw(tok: &str) -> (r: Option<i64>) {
        parse_i64(tok)
    }
}

impl Group for i64 {
    open spec fn read_spec(s: Seq<RawToken>) -> (Result<i64, GroupError>, nat) {
        lift_token(token_read::<i64>(s))
    }

    proof fn lemma_read_prefix(s: Seq<RawToken>, t: Seq<RawToken>) {
        lemma_token_read_prefix::<i64>(s, t);
    }

    fn from_tokens<T: Tokens>(tokens: &mut T) -> (r: Result<i64, GroupError>) {
        match read_token::<i64, T>(tokens) {
            Ok(v) => Ok(v),
            Err(e) => Err(GroupError::Token(e)),
        }
    }
}

impl Token for char {
    open spec fn from_text(t: Seq<char>) -> Option<char> {
        char_of_text(t)
    }

    fn from_raw(tok: &str) -> (r: Option<char>) {
        parse_char(tok)
    }
}

impl Group for char {
    open spec fn read_spec(s: Seq<RawToken>) -> (Result<char, GroupError>, nat) {
        lift_token(token_read::<char>(s))
    }

    proof fn lemma_read_prefix(s: Seq<RawToken>, t: Seq<RawToken>) {
        lemma_token_read_prefix::<char>(s, t);
    }

    fn from_tokens<T: Tokens>(tokens: &mut T) -> (r: Result<char, GroupError>) {
        match read_token::<char, T>(tokens) {
            Ok(v) => Ok(v),
            Err(e) => Err(GroupError::Token(e)),
        }
    }
}

impl Token for u8 {
    open spec fn from_text(t: Seq<char>) -> Option<u8> {
        u8_of_text(t)
    }

    fn from_raw(tok: &str) -> (r: Option<u8>) {
        parse_u8(tok)
    }
}

impl Group for u8 {
    open spec fn read_spec(s: Seq<RawToken>) -> (Result<u8, GroupError>, nat) {
        lift_token(token_read::<u8>(s))
    }

    proof fn lemma_read_prefix(s: Seq<RawToken>, t: Seq<RawToken>) {
        lemma_token_read_prefix::<u8>(s, t);
    }

    fn from_tokens<T: Tokens>(tokens: &mut T) -> (r: Result<u8, GroupError>) {
        match read_token::<u8, T>(tokens) {
            Ok(v) => Ok(v),
            Err(e) => Err(GroupError::Token(e)),
        }
    }
}

impl Token for u16 {
    open spec fn from_text(t: Seq<char>) -> Option<u16> {
        u16_of_text(t)
    }

    fn from_raw(tok: &str) -> (r: Option<u16>) {
        parse_u16(tok)
    }
}

impl Group for u16 {
    open spec fn read_spec(s: Seq<RawToken>) -> (Result<u16, GroupError>, nat) {
        lift_token(token_read::<u16>(s))
    }

    proof fn lemma_read_prefix(s: Seq<RawToken>, t: Seq<RawToken>) {
        lemma_token_read_prefix::<u16>(s, t);
    }

    fn from_tokens<T: Tokens>(tokens: &mut T) -> (r: Result<u16, GroupError>) {
        match read_token::<u16, T>(tokens) {
            Ok(v) => Ok(v),
            Err(e) => Err(GroupError::Token(e)),
        }
    }
}

impl Token for u128 {
    open spec fn from_text(t: Seq<char>) -> Option<u128> {
        u128_of_text(t)
    }

    fn from_raw(tok: &str) -> (r: Option<u128>) {
        parse_u128(tok)
    }
}

impl Group for u128 {
    open spec fn read_spec(s: Seq<RawToken>) -> (Result<u128, GroupError>, nat) {
        lift_token(token_read::<u128>(s))
    }

    proof fn lemma_read_prefix(s: Seq<RawToken>, t: Seq<RawToken>) {
        lemma_token_read_prefix::<u128>(s, t);
    }

    fn from_tokens<T: Tokens>(tokens: &mut T) -> (r: Result<u128, GroupError>) {
        match read_token::<u128, T>(tokens) {
            Ok(v) => Ok(v),
            Err(e) => Err(GroupError::Token(e)),
        }
    }
}

impl Token for i8 {
    open spec fn from_text(t: Seq<char>) -> Option<i8> {
        i8_of_text(t)
    }

    fn from_raw(tok: &str) -> (r: Option<i8>) {
        parse_i8(tok)
    }
}

impl Group for i8 {
    open spec fn read_spec(s: Seq<RawToken>) -> (Result<i8, GroupError>, nat) {
        lift_token(token_read::<i8>(s))
    }

    proof fn lemma_read_prefix(s: Seq<RawToken>, t: Seq<RawToken>) {
        lemma_token_read_prefix::<i8>(s, t);
    }

    fn from_tokens<T: Tokens>(tokens: &mut T) -> (r: Result<i8, GroupError>) {
        match read_token::<i8, T>(tokens) {
            Ok(v) => Ok(v),
            Err(e) => Err(GroupError::Token(e)),
        }
    }
}

impl Token for i16 {
    open spec fn from_text(t: Seq<char>) -> Option<i16> {
        i16_of_text(t)
    }

    fn from_raw(tok: &str) -> (r: Option<i16>) {
        parse_i16(tok)
    }
}

impl Group for i16 {
    open spec fn read_spec(s: Seq<RawToken>) -> (Result<i16, GroupError>, nat) {
        lift_token(token_read::<i16>(s))
    }

    proof fn lemma_read_prefix(s: Seq<RawToken>, t: Seq<RawToken>) {
        lemma_token_read_prefix::<i16>(s, t);
    }

    fn from_tokens<T: Tokens>(tokens: &mut T) -> (r: Result<i16, GroupError>) {
        match read_token::<i16, T>(tokens) {
            Ok(v) => Ok(v),
            Err(e) => Err(GroupError::Token(e)),
        }
    }
}

impl Token for i128 {
    open spec fn from_text(t: Seq<char>) -> Option<i128> {
        i128_of_text(t)
    }

    fn from_raw(tok: &str) -> (r: Option<i128>) {
        parse_i128(tok)
    }
}

impl Group for i128 {
    open spec fn read_spec(s: Seq<RawToken>) -> (Result<i128, GroupError>, nat) {
        lift_token(token_read::<i128>(s))
    }

    proof fn lemma_read_prefix(s: Seq<RawToken>, t: Seq<RawToken>) {
        lemma_token_read_prefix::<i128>(s, t);
    }

    fn from_tokens<T: Tokens>(tokens: &mut T) -> (r: Result<i128, GroupError>) {
        match read_token::<i128, T>(tokens) {
            Ok(v) => Ok(v),
            Err(e) => Err(GroupError::Token(e)),
        }
    }
}

impl Token for isize {
    open spec fn from_text(t: Seq<char>) -> Option<isize> {
        isize_of_text(t)
    }

    fn from_raw(tok: &str) -> (r: Option<isize>) {
        parse_isize(tok)
    }
}

impl Group for isize {
    open spec fn read_spec(s: Seq<RawToken>) -> (Result<isize, GroupError>, nat) {
        lift_token(token_read::<isize>(s))
    }

    proof fn lemma_read_prefix(s: Seq<RawToken>, t: Seq<RawToken>) {
        lemma_token_read_prefix::<isize>(s, t);
    }

    fn from_tokens<T: Tokens>(tokens: &mut T) -> (r: Result<isize, GroupError>) {
        match read_token::<isize, T>(tokens) {
            Ok(v) => Ok(v),
            Err(e) => Err(GroupError::Token(e)),
        }
    }
}

impl Group for String {
    open spec fn read_spec(s: Seq<RawToken>) -> (Result<Seq<char>, GroupError>, nat) {
        lift_token(token_spec(s, |t: Seq<char>| Some(t)))
    }

    proof fn lemma_read_prefix(s: Seq<RawToken>, t: Seq<RawToken>) {
        lemma_token_prefix(s, t, |t: Seq<char>| Some(t));
    }

    fn from_tokens<T: Tokens>(tokens: &mut T) -> (r: Result<String, GroupError>) {
        let ghost l0 = tokens.taken();
        let ghost t0 = *tokens;
        let raw = tokens.next_raw();
        proof {
            lemma_one_more(l0, raw);
            lemma_consistent_push(t0, *tokens, raw);
        }
        match raw {
            Ok(t) => Ok(t),
            Err(e) => Err(GroupError::Token(TokenError::LoadError(e))),
        }
    }
}

/// The value that takes no tokens and never fails.
impl Group for () {
    open spec fn read_spec(s: Seq<RawToken>) -> (Result<(), GroupError>, nat) {
        (Ok(()), 0)
    }

    proof fn lemma_read_prefix(s: Seq<RawToken>, t: Seq<RawToken>) {
    }

    fn from_tokens<T: Tokens>(tokens: &mut T) -> (r: Result<(), GroupError>) {
        proof {
            assert(fresh(tokens.taken(), tokens.taken()) =~= Seq::<RawToken>::empty());
            assert(tokens.taken().take(tokens.taken().len() as int) =~= tokens.taken());
        }
        Ok(())
    }
}

pub open spec fn tuple_error(index: usize, e: GroupError) -> GroupError {
    GroupError::Tuple(TupleGroupError { index, error: Box::new(e) })
}

/// Reading one field after another: the first outcomes go to `first`, the
/// rest to `second`.
pub proof fn lemma_split_fresh(l0: Seq<RawToken>, l1: Seq<RawToken>, l2: Seq<RawToken>)
    requires
        extends(l0, l1),
        extends(l1, l2),
    ensures
        extends(l0, l2),
        fresh(l0, l2) == fresh(l0, l1) + fresh(l1, l2),
        fresh(l0, l2).skip(fresh(l0, l1).len() as int) == fresh(l1, l2),
{
    assert(l2.take(l1.len() as int).take(l0.len() as int) =~= l2.take(l0.len() as int));
    assert(fresh(l0, l2) =~= fresh(l0, l1) + fresh(l1, l2)) by {
        assert forall|i: int| 0 <= i < fresh(l0, l1).len() implies fresh(l0, l2)[i] == fresh(
            l0,
            l1,
        )[i] by {
            assert(l2.take(l1.len() as int)[l0.len() + i] == l2[l0.len() + i]);
        }
    }
    assert(fresh(l0, l2).skip(fresh(l0, l1).len() as int) =~= fresh(l1, l2));
}

impl<A: Group, B: Group> Group for (A, B) {
    open spec fn read_spec(s: Seq<RawToken>) -> (Result<(A::V, B::V), GroupError>, nat) {
        let (ra, na) = A::read_spec(s);
        match ra {
            Err(e) => (Err(tuple_error(0, e)), na),
            Ok(a) => {
                let (rb, nb) = B::read_spec(s.skip(na as int));
                match rb {
                    Err(e) => (Err(tuple_error(1, e)), na + nb),
                    Ok(b) => (Ok((a, b)), na + nb),
                }
            },
        }
    }

    proof fn lemma_read_prefix(s: Seq<RawToken>, t: Seq<RawToken>) {
        let (ra, na) = A::read_spec(s);
        A::lemma_read_prefix(s, t);
        if ra is Ok {
            assert((s + t).skip(na as int) =~= s.skip(na as int) + t);
            B::lemma_read_prefix(s.skip(na as int), t);
        }
    }

    fn from_tokens<T: Tokens>(tokens: &mut T) -> (r: Result<(A, B), GroupError>) {
        let ghost l0 = tokens.taken();
        let a = match A::from_tokens(tokens) {
            Ok(a) => a,
            Err(e) => {
                return Err(GroupError::Tuple(TupleGroupError::new(0, e)));
            },
        };
        let ghost l1 = tokens.taken();
        let rb = B::from_tokens(tokens);
        let ghost l2 = tokens.taken();
        proof {
            lemma_split_fresh(l0, l1, l2);
            A::lemma_read_prefix(fresh(l0, l1), fresh(l1, l2));
        }
        match rb {
            Ok(b) => Ok((a, b)),
            Err(e) => Err(GroupError::Tuple(TupleGroupError::new(1, e))),
        }
    }
}

impl<A: Group, B: Group, C: Group> Group for (A, B, C) {
    open spec fn read_spec(s: Seq<RawToken>) -> (Result<(A::V, B::V, C::V), GroupError>, nat) {
        let (ra, na) = A::read_spec(s);
        match ra {
            Err(e) => (Err(tuple_error(0, e)), na),
            Ok(a) => {
                let (rb, nb) = B::read_spec(s.skip(na as int));
                match rb {
                    Err(e) => (Err(tuple_error(1, e)), na + nb),
                    Ok(b) => {
                        let (rc, nc) = C::read_spec(s.skip((na + nb) as int));
                        match rc {
                            Err(e) => (Err(tuple_error(2, e)), na + nb + nc),
                            Ok(c) => (Ok((a, b, c)), na + nb + nc),
                        }
                    },
                }
            },
        }
    }

    proof fn lemma_read_prefix(s: Seq<RawToken>, t: Seq<RawToken>) {
        let (ra, na) = A::read_spec(s);
        A::lemma_read_prefix(s, t);
        if ra is Ok {
            let (rb, nb) = B::read_spec(s.skip(na as int));
            assert((s + t).skip(na as int) =~= s.skip(na as int) + t);
            B::lemma_read_prefix(s.skip(na as int), t);
            if rb is Ok {
                assert((s + t).skip((na + nb) as int) =~= s.skip((na + nb) as int) + t);
                C::lemma_read_prefix(s.skip((na + nb) as int), t);
            }
        }
    }

    fn from_tokens<T: Tokens>(tokens: &mut T) -> (r: Result<(A, B, C), GroupError>) {
        let ghost l0 = tokens.taken();
        let a = match A::from_tokens(tokens) {
            Ok(a) => a,
            Err(e) => {
                return Err(GroupError::Tuple(TupleGroupError::new(0, e)));
            },
        };
        let ghost l1 = tokens.taken();
        let rb = B::from_tokens(tokens);
        let ghost l2 = tokens.taken();
        proof {
            lemma_split_fresh(l0, l1, l2);
            A::lemma_read_prefix(fresh(l0, l1), fresh(l1, l2));
        }
        let b = match rb {
            Ok(b) => b,
            Err(e) => {
                return Err(GroupError::Tuple(TupleGroupError::new(1, e)));
            },
        };
        let rc = C::from_tokens(tokens);
        let ghost l3 = tokens.taken();
        proof {
            let s = fresh(l0, l3);
            lemma_split_fresh(l0, l2, l3);
            lemma_split_fresh(l1, l2, l3);
            A::lemma_read_prefix(fresh(l0, l1), fresh(l1, l3));
            B::lemma_read_prefix(fresh(l1, l2), fresh(l2, l3));
            lemma_split_fresh(l0, l1, l3);
            assert(s.skip((fresh(l0, l1).len() + fresh(l1, l2).len()) as int) =~= fresh(l2, l3));
        }
        match rc {
            Ok(c) => Ok((a, b, c)),
            Err(e) => Err(GroupError::Tuple(TupleGroupError::new(2, e))),
        }
    }
}

impl<A0: Group> Group for (A0,) {
    open spec fn read_spec(s: Seq<RawToken>) -> (Result<(A0::V,), GroupError>, nat) {
        let (r, n) = A0::read_spec(s);
        (
            match r {
                Ok(a) => Ok((a,)),
                Err(e) => Err(tuple_error(0, e)),
            },
            n,
        )
    }

    proof fn lemma_read_prefix(s: Seq<RawToken>, t: Seq<RawToken>) {
        A0::lemma_read_prefix(s, t);
    }

    fn from_tokens<T: Tokens>(tokens: &mut T) -> (r: Result<(A0,), GroupError>) {
        match A0::from_tokens(tokens) {
            Ok(a) => Ok((a,)),
            Err(e) => Err(GroupError::Tuple(TupleGroupError::new(0, e))),
        }
    }
}

/// The first fields are read as a tuple of their own, whose errors keep
/// their indices; the last field fails with index 3.
impl<A0: Group, A1: Group, A2: Group, A3: Group> Group for (A0, A1, A2, A3) {
    open spec fn read_spec(s: Seq<RawToken>) -> (Result<(A0::V, A1::V, A2::V, A3::V), GroupError>, nat) {
        let (rf, nf) = <(A0, A1, A2) as Group>::read_spec(s);
        match rf {
            Err(e) => (Err(e), nf),
            Ok(f) => {
                let (rl, nl) = A3::read_spec(s.skip(nf as int));
                match rl {
                    Err(e) => (Err(tuple_error(3, e)), nf + nl),
                    Ok(l) => (Ok((f.0, f.1, f.2, l)), nf + nl),
                }
            },
        }
    }

    proof fn lemma_read_prefix(s: Seq<RawToken>, t: Seq<RawToken>) {
        let (rf, nf) = <(A0, A1, A2) as Group>::read_spec(s);
        <(A0, A1, A2) as Group>::lemma_read_prefix(s, t);
        if rf is Ok {
            assert((s + t).skip(nf as int) =~= s.skip(nf as int) + t);
            A3::lemma_read_prefix(s.skip(nf as int), t);
        }
    }

    fn from_tokens<T: Tokens>(tokens: &mut T) -> (r: Result<(A0, A1, A2, A3), GroupError>) {
        let ghost l0 = tokens.taken();
        let front = match <(A0, A1, A2) as Group>::from_tokens(tokens) {
            Ok(f) => f,
            Err(e) => {
                return Err(e);
            },
        };
        let ghost l1 = tokens.taken();
        let rl = A3::from_tokens(tokens);
        let ghost l2 = tokens.taken();
        proof {
            lemma_split_fresh(l0, l1, l2);
            <(A0, A1, A2) as Group>::lemma_read_prefix(fresh(l0, l1), fresh(l1, l2));
        }
        match rl {
            Ok(l) => {
                let (x0, x1, x2) = front;
                Ok((x0, x1, x2, l))
            },
            Err(e) => Err(GroupError::Tuple(TupleGroupError::new(3, e))),
        }
    }
}

/// The first fields are read as a tuple of their own, whose errors keep
/// their indices; the last field fails with index 4.
impl<A0: Group, A1: Group, A2: Group, A3: Group, A4: Group> Group for (A0, A1, A2, A3, A4) {
    open spec fn read_spec(s: Seq<RawToken>) -> (Result<(A0::V, A1::V, A2::V, A3::V, A4::V), GroupError>, nat) {
        let (rf, nf) = <(A0, A1, A2, A3) as Group>::read_spec(s);
        match rf {
            Err(e) => (Err(e), nf),
            Ok(f) => {
                let (rl, nl) = A4::read_spec(s.skip(nf as int));
                match rl {
                    Err(e) => (Err(tuple_error(4, e)), nf + nl),
                    Ok(l) => (Ok((f.0, f.1, f.2, f.3, l)), nf + nl),
                }
            },
        }
    }

    proof fn lemma_read_prefix(s: Seq<RawToken>, t: Seq<RawToken>) {
        let (rf, nf) = <(A0, A1, A2, A3) as Group>::read_spec(s);
        <(A0, A1, A2, A3) as Group>::lemma_read_prefix(s, t);
        if rf is Ok {
            assert((s + t).skip(nf as int) =~= s.skip(nf as int) + t);
            A4::lemma_read_prefix(s.skip(nf as int), t);
        }
    }

    fn from_tokens<T: Tokens>(tokens: &mut T) -> (r: Result<(A0, A1, A2, A3, A4), GroupError>) {
        let ghost l0 = tokens.taken();
        let front = match <(A0, A1, A2, A3) as Group>::from_tokens(tokens) {
            Ok(f) => f,
            Err(e) => {
                return Err(e);
            },
        };
        let ghost l1 = tokens.taken();
        let rl = A4::from_tokens(tokens);
        let ghost l2 = tokens.taken();
        proof {
            lemma_split_fresh(l0, l1, l2);
            <(A0, A1, A2, A3) as Group>::lemma_read_prefix(fresh(l0, l1), fresh(l1, l2));
        }
        match rl {
            Ok(l) => {
                let (x0, x1, x2, x3) = front;
                Ok((x0, x1, x2, x3, l))
            },
            Err(e) => Err(GroupError::Tuple(TupleGroupError::new(4, e))),
        }
    }
}

/// The first fields are read as a tuple of their own, whose errors keep
/// their indices; the last field fails with index 5.
impl<A0: Group, A1: Group, A2: Group, A3: Group, A4: Group, A5: Group> Group for (A0, A1, A2, A3, A4, A5) {
    open spec fn read_spec(s: Seq<RawToken>) -> (Result<(A0::V, A1::V, A2::V, A3::V, A4::V, A5::V), GroupError>, nat) {
        let (rf, nf) = <(A0, A1, A2, A3, A4) as Group>::read_spec(s);
        match rf {
            Err(e) => (Err(e), nf),
            Ok(f) => {
                let (rl, nl) = A5::read_spec(s.skip(nf as int));
                match rl {
                    Err(e) => (Err(tuple_error(5, e)), nf + nl),
                    Ok(l) => (Ok((f.0, f.1, f.2, f.3, f.4, l)), nf + nl),
                }
            },
        }
    }

    proof fn lemma_read_prefix(s: Seq<RawToken>, t: Seq<RawToken>) {
        let (rf, nf) = <(A0, A1, A2, A3, A4) as Group>::read_spec(s);
        <(A0, A1, A2, A3, A4) as Group>::lemma_read_prefix(s, t);
        if rf is Ok {
            assert((s + t).skip(nf as int) =~= s.skip(nf as int) + t);
            A5::lemma_read_prefix(s.skip(nf as int), t);
        }
    }

    fn from_tokens<T: Tokens>(tokens: &mut T) -> (r: Result<(A0, A1, A2, A3, A4, A5), GroupError>) {
        let ghost l0 = tokens.taken();
        let front = match <(A0, A1, A2, A3, A4) as Group>::from_tokens(tokens) {
            Ok(f) => f,
            Err(e) => {
                return Err(e);
            },
        };
        let ghost l1 = tokens.taken();
        let rl = A5::from_tokens(tokens);
        let ghost l2 = tokens.taken();
        proof {
            lemma_split_fresh(l0, l1, l2);
            <(A0, A1, A2, A3, A4) as Group>::lemma_read_prefix(fresh(l0, l1), fresh(l1, l2));
        }
        match rl {
            Ok(l) => {
                let (x0, x1, x2, x3, x4) = front;
                Ok((x0, x1, x2, x3, x4, l))
            },
            Err(e) => Err(GroupError::Tuple(TupleGroupError::new(5, e))),
        }
    }
}

/// The first fields are read as a tuple of their own, whose errors keep
/// their indices; the last field fails with index 6.
impl<A0: Group, A1: Group, A2: Group, A3: Group, A4: Group, A5: Group, A6: Group> Group for (A0, A1, A2, A3, A4, A5, A6) {
    open spec fn read_spec(s: Seq<RawToken>) -> (Result<(A0::V, A1::V, A2::V, A3::V, A4::V, A5::V, A6::V), GroupError>, nat) {
        let (rf, nf) = <(A0, A1, A2, A3, A4, A5) as Group>::read_spec(s);
        match rf {
            Err(e) => (Err(e), nf),
            Ok(f) => {
                let (rl, nl) = A6::read_spec(s.skip(nf as int));
                match rl {
                    Err(e) => (Err(tuple_error(6, e)), nf + nl),
                    Ok(l) => (Ok((f.0, f.1, f.2, f.3, f.4, f.5, l)), nf + nl),
                }
            },
        }
    }

    proof fn lemma_read_prefix(s: Seq<RawToken>, t: Seq<RawToken>) {
        let (rf, nf) = <(A0, A1, A2, A3, A4, A5) as Group>::read_spec(s);
        <(A0, A1, A2, A3, A4, A5) as Group>::lemma_read_prefix(s, t);
        if rf is Ok {
            assert((s + t).skip(nf as int) =~= s.skip(nf as int) + t);
            A6::lemma_read_prefix(s.skip(nf as int), t);
        }
    }

    fn from_tokens<T: Tokens>(tokens: &mut T) -> (r: Result<(A0, A1, A2, A3, A4, A5, A6), GroupError>) {
        let ghost l0 = tokens.taken();
        let front = match <(A0, A1, A2, A3, A4, A5) as Group>::from_tokens(tokens) {
            Ok(f) => f,
            Err(e) => {
                return Err(e);
            },
        };
        let ghost l1 = tokens.taken();
        let rl = A6::from_tokens(tokens);
        let ghost l2 = tokens.taken();
        proof {
            lemma_split_fresh(l0, l1, l2);
            <(A0, A1, A2, A3, A4, A5) as Group>::lemma_read_prefix(fresh(l0, l1), fresh(l1, l2));
        }
        match rl {
            Ok(l) => {
                let (x0, x1, x2, x3, x4, x5) = front;
                Ok((x0, x1, x2, x3, x4, x5, l))
            },
            Err(e) => Err(GroupError::Tuple(TupleGroupError::new(6, e))),
        }
    }
}

/// The first fields are read as a tuple of their own, whose errors keep
/// their indices; the last field fails with index 7.
impl<A0: Group, A1: Group, A2: Group, A3: Group, A4: Group, A5: Group, A6: Group, A7: Group> Group for (A0, A1, A2, A3, A4, A5, A6, A7) {
    open spec fn read_spec(s: Seq<RawToken>) -> (Result<(A0::V, A1::V, A2::V, A3::V, A4::V, A5::V, A6::V, A7::V), GroupError>, nat) {
        let (rf, nf) = <(A0, A1, A2, A3, A4, A5, A6) as Group>::read_spec(s);
        match rf {
            Err(e) => (Err(e), nf),
            Ok(f) => {
                let (rl, nl) = A7::read_spec(s.skip(nf as int));
                match rl {
                    Err(e) => (Err(tuple_error(7, e)), nf + nl),
                    Ok(l) => (Ok((f.0, f.1, f.2, f.3, f.4, f.5, f.6, l)), nf + nl),
                }
            },
        }
    }

    proof fn lemma_read_prefix(s: Seq<RawToken>, t: Seq<RawToken>) {
        let (rf, nf) = <(A0, A1, A2, A3, A4, A5, A6) as Group>::read_spec(s);
        <(A0, A1, A2, A3, A4, A5, A6) as Group>::lemma_read_prefix(s, t);
        if rf is Ok {
            assert((s + t).skip(nf as int) =~= s.skip(nf as int) + t);
            A7::lemma_read_prefix(s.skip(nf as int), t);
        }
    }

    fn from_tokens<T: Tokens>(tokens: &mut T) -> (r: Result<(A0, A1, A2, A3, A4, A5, A6, A7), GroupError>) {
        let ghost l0 = tokens.taken();
        let front = match <(A0, A1, A2, A3, A4, A5, A6) as Group>::from_tokens(tokens) {
            Ok(f) => f,
            Err(e) => {
                return Err(e);
            },
        };
        let ghost l1 = tokens.taken();
        let rl = A7::from_tokens(tokens);
        let ghost l2 = tokens.taken();
        proof {
            lemma_split_fresh(l0, l1, l2);
            <(A0, A1, A2, A3, A4, A5, A6) as Group>::lemma_read_prefix(fresh(l0, l1), fresh(l1, l2));
        }
        match rl {
            Ok(l) => {
                let (x0, x1, x2, x3, x4, x5, x6) = front;
                Ok((x0, x1, x2, x3, x4, x5, x6, l))
            },
            Err(e) => Err(GroupError::Tuple(TupleGroupError::new(7, e))),
        }
    }
}

/// The first fields are read as a tuple of their own, whose errors keep
/// their indices; the last field fails with index 8.
impl<A0: Group, A1: Group, A2: Group, A3: Group, A4: Group, A5: Group, A6: Group, A7: Group, A8: Group> Group for (A0, A1, A2, A3, A4, A5, A6, A7, A8) {
    open spec fn read_spec(s: Seq<RawToken>) -> (Result<(A0::V, A1::V, A2::V, A3::V, A4::V, A5::V, A6::V, A7::V, A8::V), GroupError>, nat) {
        let (rf, nf) = <(A0, A1, A2, A3, A4, A5, A6, A7) as Group>::read_spec(s);
        match rf {
            Err(e) => (Err(e), nf),
            Ok(f) => {
                let (rl, nl) = A8::read_spec(s.skip(nf as int));
                match rl {
                    Err(e) => (Err(tuple_error(8, e)), nf + nl),
                    Ok(l) => (Ok((f.0, f.1, f.2, f.3, f.4, f.5, f.6, f.7, l)), nf + nl),
                }
            },
        }
    }

    proof fn lemma_read_prefix(s: Seq<RawToken>, t: Seq<RawToken>) {
        let (rf, nf) = <(A0, A1, A2, A3, A4, A5, A6, A7) as Group>::read_spec(s);
        <(A0, A1, A2, A3, A4, A5, A6, A7) as Group>::lemma_read_prefix(s, t);
        if rf is Ok {
            assert((s + t).skip(nf as int) =~= s.skip(nf as int) + t);
            A8::lemma_read_prefix(s.skip(nf as int), t);
        }
    }

    fn from_tokens<T: Tokens>(tokens: &mut T) -> (r: Result<(A0, A1, A2, A3, A4, A5, A6, A7, A8), GroupError>) {
        let ghost l0 = tokens.taken();
        let front = match <(A0, A1, A2, A3, A4, A5, A6, A7) as Group>::from_tokens(tokens) {
            Ok(f) => f,
            Err(e) => {
                return Err(e);
            },
        };
        let ghost l1 = tokens.taken();
        let rl = A8::from_tokens(tokens);
        let ghost l2 = tokens.taken();
        proof {
            lemma_split_fresh(l0, l1, l2);
            <(A0, A1, A2, A3, A4, A5, A6, A7) as Group>::lemma_read_prefix(fresh(l0, l1), fresh(l1, l2));
        }
        match rl {
            Ok(l) => {
                let (x0, x1, x2, x3, x4, x5, x6, x7) = front;
                Ok((x0, x1, x2, x3, x4, x5, x6, x7, l))
            },
            Err(e) => Err(GroupError::Tuple(TupleGroupError::new(8, e))),
        }
    }
}

/// The first fields are read as a tuple of their own, whose errors keep
/// their indices; the last field fails with index 9.
impl<A0: Group, A1: Group, A2: Group, A3: Group, A4: Group, A5: Group, A6: Group, A7: Group, A8: Group, A9: Group> Group for (A0, A1, A2, A3, A4, A5, A6, A7, A8, A9) {
    open spec fn read_spec(s: Seq<RawToken>) -> (Result<(A0::V, A1::V, A2::V, A3::V, A4::V, A5::V, A6::V, A7::V, A8::V, A9::V), GroupError>, nat) {
        let (rf, nf) = <(A0, A1, A2, A3, A4, A5, A6, A7, A8) as Group>::read_spec(s);
        match rf {
            Err(e) => (Err(e), nf),
            Ok(f) => {
                let (rl, nl) = A9::read_spec(s.skip(nf as int));
                match rl {
                    Err(e) => (Err(tuple_error(9, e)), nf + nl),
                    Ok(l) => (Ok((f.0, f.1, f.2, f.3, f.4, f.5, f.6, f.7, f.8, l)), nf + nl),
                }
            },
        }
    }

    proof fn lemma_read_prefix(s: Seq<RawToken>, t: Seq<RawToken>) {
        let (rf, nf) = <(A0, A1, A2, A3, A4, A5, A6, A7, A8) as Group>::read_spec(s);
        <(A0, A1, A2, A3, A4, A5, A6, A7, A8) as Group>::lemma_read_prefix(s, t);
        if rf is Ok {
            assert((s + t).skip(nf as int) =~= s.skip(nf as int) + t);
            A9::lemma_read_prefix(s.skip(nf as int), t);
        }
    }

    fn from_tokens<T: Tokens>(tokens: &mut T) -> (r: Result<(A0, A1, A2, A3, A4, A5, A6, A7, A8, A9), GroupError>) {
        let ghost l0 = tokens.taken();
        let front = match <(A0, A1, A2, A3, A4, A5, A6, A7, A8) as Group>::from_tokens(tokens) {
            Ok(f) => f,
            Err(e) => {
                return Err(e);
            },
        };
        let ghost l1 = tokens.taken();
        let rl = A9::from_tokens(tokens);
        let ghost l2 = tokens.taken();
        proof {
            lemma_split_fresh(l0, l1, l2);
            <(A0, A1, A2, A3, A4, A5, A6, A7, A8) as Group>::lemma_read_prefix(fresh(l0, l1), fresh(l1, l2));
        }
        match rl {
            Ok(l) => {
                let (x0, x1, x2, x3, x4, x5, x6, x7, x8) = front;
                Ok((x0, x1, x2, x3, x4, x5, x6, x7, x8, l))
            },
            Err(e) => Err(GroupError::Tuple(TupleGroupError::new(9, e))),
        }
    }
}

/// The first fields are read as a tuple of their own, whose errors keep
/// their indices; the last field fails with index 10.
impl<A0: Group, A1: Group, A2: Group, A3: Group, A4: Group, A5: Group, A6: Group, A7: Group, A8: Group, A9: Group, A10: Group> Group for (A0, A1, A2, A3, A4, A5, A6, A7, A8, A9, A10) {
    open spec fn read_spec(s: Seq<RawToken>) -> (Result<(A0::V, A1::V, A2::V, A3::V, A4::V, A5::V, A6::V, A7::V, A8::V, A9::V, A10::V), GroupError>, nat) {
        let (rf, nf) = <(A0, A1, A2, A3, A4, A5, A6, A7, A8, A9) as Group>::read_spec(s);
        match rf {
            Err(e) => (Err(e), nf),
            Ok(f) => {
                let (rl, nl) = A10::read_spec(s.skip(nf as int));
                match rl {
                    Err(e) => (Err(tuple_error(10, e)), nf + nl),
                    Ok(l) => (Ok((f.0, f.1, f.2, f.3, f.4, f.5, f.6, f.7, f.8, f.9, l)), nf + nl),
                }
            },
        }
    }

    proof fn lemma_read_prefix(s: Seq<RawToken>, t: Seq<RawToken>) {
        let (rf, nf) = <(A0, A1, A2, A3, A4, A5, A6, A7, A8, A9) as Group>::read_spec(s);
        <(A0, A1, A2, A3, A4, A5, A6, A7, A8, A9) as Group>::lemma_read_prefix(s, t);
        if rf is Ok {
            assert((s + t).skip(nf as int) =~= s.skip(nf as int) + t);
            A10::lemma_read_prefix(s.skip(nf as int), t);
        }
    }

    fn from_tokens<T: Tokens>(tokens: &mut T) -> (r: Result<(A0, A1, A2, A3, A4, A5, A6, A7, A8, A9, A10), GroupError>) {
        let ghost l0 = tokens.taken();
        let front = match <(A0, A1, A2, A3, A4, A5, A6, A7, A8, A9) as Group>::from_tokens(tokens) {
            Ok(f) => f,
            Err(e) => {
                return Err(e);
            },
        };
        let ghost l1 = tokens.taken();
        let rl = A10::from_tokens(tokens);
        let ghost l2 = tokens.taken();
        proof {
            lemma_split_fresh(l0, l1, l2);
            <(A0, A1, A2, A3, A4, A5, A6, A7, A8, A9) as Group>::lemma_read_prefix(fresh(l0, l1), fresh(l1, l2));
        }
        match rl {
            Ok(l) => {
                let (x0, x1, x2, x3, x4, x5, x6, x7, x8, x9) = front;
                Ok((x0, x1, x2, x3, x4, x5, x6, x7, x8, x9, l))
            },
            Err(e) => Err(GroupError::Tuple(TupleGroupError::new(10, e))),
        }
    }
}

/// The first fields are read as a tuple of their own, whose errors keep
/// their indices; the last field fails with index 11.
impl<A0: Group, A1: Group, A2: Group, A3: Group, A4: Group, A5: Group, A6: Group, A7: Group, A8: Group, A9: Group, A10: Group, A11: Group> Group for (A0, A1, A2, A3, A4, A5, A6, A7, A8, A9, A10, A11) {
    open spec fn read_spec(s: Seq<RawToken>) -> (Result<(A0::V, A1::V, A2::V, A3::V, A4::V, A5::V, A6::V, A7::V, A8::V, A9::V, A10::V, A11::V), GroupError>, nat) {
        let (rf, nf) = <(A0, A1, A2, A3, A4, A5, A6, A7, A8, A9, A10) as Group>::read_spec(s);
        match rf {
            Err(e) => (Err(e), nf),
            Ok(f) => {
                let (rl, nl) = A11::read_spec(s.skip(nf as int));
                match rl {
                    Err(e) => (Err(tuple_error(11, e)), nf + nl),
                    Ok(l) => (Ok((f.0, f.1, f.2, f.3, f.4, f.5, f.6, f.7, f.8, f.9, f.10, l)), nf + nl),
                }
            },
        }
    }

    proof fn lemma_read_prefix(s: Seq<RawToken>, t: Seq<RawToken>) {
        let (rf, nf) = <(A0, A1, A2, A3, A4, A5, A6, A7, A8, A9, A10) as Group>::read_spec(s);
        <(A0, A1, A2, A3, A4, A5, A6, A7, A8, A9, A10) as Group>::lemma_read_prefix(s, t);
        if rf is Ok {
            assert((s + t).skip(nf as int) =~= s.skip(nf as int) + t);
            A11::lemma_read_prefix(s.skip(nf as int), t);
        }
    }

    fn from_tokens<T: Tokens>(tokens: &mut T) -> (r: Result<(A0, A1, A2, A3, A4, A5, A6, A7, A8, A9, A10, A11), GroupError>) {
        let ghost l0 = tokens.taken();
        let front = match <(A0, A1, A2, A3, A4, A5, A6, A7, A8, A9, A10) as Group>::from_tokens(tokens) {
            Ok(f) => f,
            Err(e) => {
                return Err(e);
            },
        };
        let ghost l1 = tokens.taken();
        let rl = A11::from_tokens(tokens);
        let ghost l2 = tokens.taken();
        proof {
            lemma_split_fresh(l0, l1, l2);
            <(A0, A1, A2, A3, A4, A5, A6, A7, A8, A9, A10) as Group>::lemma_read_prefix(fresh(l0, l1), fresh(l1, l2));
        }
        match rl {
            Ok(l) => {
                let (x0, x1, x2, x3, x4, x5, x6, x7, x8, x9, x10) = front;
                Ok((x0, x1, x2, x3, x4, x5, x6, x7, x8, x9, x10, l))
            },
            Err(e) => Err(GroupError::Tuple(TupleGroupError::new(11, e))),
        }
    }
}

} // verus!
