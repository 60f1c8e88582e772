use vstd::prelude::*;
use vstd::string::StringSliceAdditionalSpecFns;
use vstd::utf8::{decode_utf8, valid_utf8};

verus! {

/// Why a raw token could not be handed out.
#[derive(Debug, PartialEq, Eq)]
pub enum LoadError {
    /// The underlying reader failed; the text describes the failure.
    Io(String),
    /// The bytes of a token are not valid UTF-8; they are carried here.
    Utf8Error(Vec<u8>),
    /// The input ended before another token began.
    OutOfTokens,
}

/// What one request for a raw token gives.
pub type RawToken = Result<String, LoadError>;

/// What an outcome says, as values: the token's text, the bytes that are
/// not UTF-8, the description of a failed read, or the end of input.
pub enum RawView {
    Word(Seq<char>),
    BadUtf8(Seq<u8>),
    Failed(Seq<char>),
    End,
}

pub open spec fn raw_view(r: RawToken) -> RawView {
    match r {
        Ok(t) => RawView::Word(t@),
        Err(LoadError::Utf8Error(b)) => RawView::BadUtf8(b@),
        Err(LoadError::Io(m)) => RawView::Failed(m@),
        Err(LoadError::OutOfTokens) => RawView::End,
    }
}

/// A forward-only source of whitespace-delimited tokens.
///
/// Its model is the log of every outcome it has handed out, oldest first,
/// and the stream of every outcome it hands out from its first on, which
/// never changes.
pub trait Tokens: Sized {
    spec fn taken(&self) -> Seq<RawToken>;

    spec fn origin(&self) -> spec_fn(nat) -> RawView;

    /// The next token, or why there is none.
    fn next_raw(&mut self) -> (r: RawToken)
        ensures
            final(self).taken() == old(self).taken().push(r),
            final(self).origin() == old(self).origin(),
            raw_view(r) == (old(self).origin())(old(self).taken().len()),
    ;
}

/// Whether the outcomes handed out so far are the first ones of the stream.
pub open spec fn consistent<T: Tokens>(t: T) -> bool {
    forall|i: int|
        0 <= i < t.taken().len() ==> raw_view(#[trigger] t.taken()[i]) == (t.origin())(i as nat)
}

/// The `k`-th outcome still to come.
pub open spec fn upcoming<T: Tokens>(t: T, k: nat) -> RawView {
    (t.origin())(t.taken().len() + k)
}

/// Handing out the next outcome keeps the log a prefix of the stream.
pub proof fn lemma_consistent_push<T: Tokens>(a: T, b: T, r: RawToken)
    requires
        b.taken() == a.taken().push(r),
        b.origin() == a.origin(),
        raw_view(r) == (a.origin())(a.taken().len()),
    ensures
        consistent(a) ==> consistent(b),
{
    if consistent(a) {
        assert forall|i: int| 0 <= i < b.taken().len() implies raw_view(#[trigger] b.taken()[i])
            == (b.origin())(i as nat) by {
            if i < a.taken().len() {
                assert(b.taken()[i] == a.taken()[i]);
            }
        }
    }
}

/// The bytes that count as whitespace: space, tab, line feed, form feed,
/// carriage return.
pub open spec fn is_space(b: u8) -> bool {
    b == 0x20u8 || b == 0x09u8 || b == 0x0Au8 || b == 0x0Cu8 || b == 0x0Du8
}

/// The first position at or after `i` that does not hold whitespace
/// (`s.len()` if there is none).
pub open spec fn skip_space(s: Seq<u8>, i: int) -> int
    decreases s.len() - i,
{
    if i < 0 || i >= s.len() {
        s.len() as int
    } else if is_space(s[i]) {
        skip_space(s, i + 1)
    } else {
        i
    }
}

/// The first position at or after `i` that holds whitespace (`s.len()` if
/// there is none).
pub open spec fn word_end(s: Seq<u8>, i: int) -> int
    decreases s.len() - i,
{
    if i < 0 || i >= s.len() {
        s.len() as int
    } else if is_space(s[i]) {
        i
    } else {
        word_end(s, i + 1)
    }
}

/// `skip_space` moves forward and stays within the sequence.
pub proof fn lemma_skip_space_bounds(s: Seq<u8>, i: int)
    requires
        0 <= i <= s.len(),
    ensures
        i <= skip_space(s, i) <= s.len(),
    decreases s.len() - i,
{
    if i < s.len() && is_space(s[i]) {
        lemma_skip_space_bounds(s, i + 1);
    }
}

/// `word_end` moves forward and stays within the sequence.
pub proof fn lemma_word_end_bounds(s: Seq<u8>, i: int)
    requires
        0 <= i <= s.len(),
    ensures
        i <= word_end(s, i) <= s.len(),
    decreases s.len() - i,
{
    if i < s.len() && !is_space(s[i]) {
        lemma_word_end_bounds(s, i + 1);
    }
}

/// Scanning `s` from `from` with the token bytes `w` already seen: the token
/// bytes after the scan, the position after the consumed bytes, and whether
/// the token ended within `s`.
pub open spec fn scan_spec(w: Seq<u8>, s: Seq<u8>, from: int) -> (Seq<u8>, int, bool) {
    let start = if w.len() > 0 {
        from
    } else {
        skip_space(s, from)
    };
    let e = word_end(s, start);
    (w + s.subrange(start, e), if e < s.len() {
        e + 1
    } else {
        s.len() as int
    }, e < s.len())
}

proof fn lemma_skip_space_shift(a: Seq<u8>, b: Seq<u8>, j: int)
    requires
        0 <= j <= b.len(),
    ensures
        skip_space(a + b, a.len() + j) == a.len() + skip_space(b, j),
    decreases b.len() - j,
{
    if j < b.len() {
        assert((a + b)[a.len() + j] == b[j]);
        lemma_skip_space_shift(a, b, j + 1);
    }
}

proof fn lemma_word_end_shift(a: Seq<u8>, b: Seq<u8>, j: int)
    requires
        0 <= j <= b.len(),
    ensures
        word_end(a + b, a.len() + j) == a.len() + word_end(b, j),
    decreases b.len() - j,
{
    if j < b.len() {
        assert((a + b)[a.len() + j] == b[j]);
        lemma_word_end_shift(a, b, j + 1);
    }
}

proof fn lemma_skip_space_concat(a: Seq<u8>, b: Seq<u8>, i: int)
    requires
        0 <= i <= a.len(),
    ensures
        skip_space(a + b, i) == if skip_space(a, i) < a.len() {
            skip_space(a, i)
        } else {
            a.len() + skip_space(b, 0)
        },
    decreases a.len() - i,
{
    if i < a.len() {
        assert((a + b)[i] == a[i]);
        lemma_skip_space_concat(a, b, i + 1);
    } else {
        lemma_skip_space_shift(a, b, 0);
    }
}

proof fn lemma_word_end_concat(a: Seq<u8>, b: Seq<u8>, i: int)
    requires
        0 <= i <= a.len(),
    ensures
        word_end(a + b, i) == if word_end(a, i) < a.len() {
            word_end(a, i)
        } else {
            a.len() + word_end(b, 0)
        },
    decreases a.len() - i,
{
    if i < a.len() {
        assert((a + b)[i] == a[i]);
        lemma_word_end_concat(a, b, i + 1);
    } else {
        lemma_word_end_shift(a, b, 0);
    }
}

/// A token, or a run of whitespace before it, may straddle two chunks:
/// scanning `a` and then `b` leaves the same token bytes, and stops at the
/// same place, as scanning `a + b` at once, when the token did not end
/// within `a`.
pub proof fn lemma_scan_split(w: Seq<u8>, a: Seq<u8>, b: Seq<u8>)
    requires
        !scan_spec(w, a, 0).2,
    ensures
        ({
            let (w1, end1, done1) = scan_spec(w, a, 0);
            let (w2, end2, done2) = scan_spec(w1, b, 0);
            let (w3, end3, done3) = scan_spec(w, a + b, 0);
            &&& end1 == a.len()
            &&& w2 == w3
            &&& done2 == done3
            &&& end3 == a.len() + end2
        }),
{
    let start = if w.len() > 0 {
        0
    } else {
        skip_space(a, 0)
    };
    lemma_skip_space_bounds(a, 0);
    lemma_word_end_bounds(a, start);
    lemma_skip_space_concat(a, b, 0);
    lemma_word_end_concat(a, b, start);
    lemma_skip_space_bounds(b, 0);
    let w1 = w + a.subrange(start, a.len() as int);
    if w1.len() == 0 {
        lemma_word_end_shift(a, b, skip_space(b, 0));
        lemma_word_end_bounds(b, skip_space(b, 0));
        let jb = skip_space(b, 0);
        assert((a + b).subrange(a.len() + jb, a.len() + word_end(b, jb)) =~= b.subrange(
            jb,
            word_end(b, jb),
        ));
        assert(w1 =~= w);
    } else {
        lemma_word_end_bounds(b, 0);
        assert((a + b).subrange(start, a.len() + word_end(b, 0)) =~= a.subrange(
            start,
            a.len() as int,
        ) + b.subrange(0, word_end(b, 0)));
        assert(w + (a.subrange(start, a.len() as int) + b.subrange(0, word_end(b, 0))) =~= w1
            + b.subrange(0, word_end(b, 0)));
    }
}

/// Whether `r` is what a token made of the bytes `w` gives: end of input for
/// no bytes, else the decoded text or the encoding error.
pub open spec fn word_outcome(w: Seq<u8>, r: RawToken) -> bool {
    match r {
        Ok(t) => w.len() > 0 && valid_utf8(w) && t@ == decode_utf8(w),
        Err(LoadError::Utf8Error(b)) => w.len() > 0 && !valid_utf8(w) && b@ == w,
        Err(LoadError::OutOfTokens) => w.len() == 0,
        Err(LoadError::Io(_)) => false,
    }
}

/// Tests one byte for whitespace, as `u8::is_ascii_whitespace` does.
pub fn byte_is_space(b: u8) -> (r: bool)
    ensures
        r == is_space(b),
{
    b == 0x20u8 || b == 0x09u8 || b == 0x0Au8 || b == 0x0Cu8 || b == 0x0Du8
}

/// Relies on `std::str::from_utf8`: it succeeds exactly on valid UTF-8, and
/// the text is what the bytes encode.
#[verifier::external_body]
fn text_of_utf8(b: &[u8]) -> (r: Option<String>)
    ensures
        r is Some <==> valid_utf8(b@),
        r matches Some(t) ==> t@ == decode_utf8(b@),
{
    match std::str::from_utf8(b) {
        Ok(s) => Some(s.to_string()),
        Err(_) => None,
    }
}

/// The bytes of the token being assembled, reused from one token to the next.
///
/// It scans a chunk of input at a time, so a token or a run of whitespace
/// may straddle any number of chunks.
#[derive(Debug)]
pub struct TokenScanner {
    token: Vec<u8>,
}

impl TokenScanner {
    /// The bytes of the token so far.
    pub closed spec fn word(&self) -> Seq<u8> {
        self.token@
    }

    pub fn new() -> (r: TokenScanner)
        ensures
            r.word().len() == 0,
    {
        TokenScanner { token: Vec::new() }
    }

    /// Forgets the token so far, to begin the next one.
    pub fn reset(&mut self)
        ensures
            final(self).word().len() == 0,
    {
        self.token.clear();
    }

    /// Scans `chunk` from position `from`. Leading whitespace is skipped while
    /// no token byte has been seen; then bytes join the token up to the first
    /// whitespace byte, which ends the token and is consumed with it.
    /// Returns the position after the consumed bytes and whether the token
    /// ended in this chunk.
    pub fn scan(&mut self, chunk: &[u8], from: usize) -> (r: (usize, bool))
        requires
            from <= chunk@.len(),
        ensures
            (final(self).word(), r.0 as int, r.1) == scan_spec(old(self).word(), chunk@, from as int),
    {
        let ghost s = chunk@;
        let ghost w0 = self.token@;
        let len = chunk.len();
        let mut i: usize = from;
        if self.token.len() == 0 {
            while i < len && byte_is_space(chunk[i])
                invariant
                    from <= i <= len,
                    len == s.len(),
                    chunk@ == s,
                    skip_space(s, i as int) == skip_space(s, from as int),
                decreases len - i,
            {
                i = i + 1;
            }
        }
        let ghost start = i as int;
        assert(start == if w0.len() > 0 {
            from as int
        } else {
            skip_space(s, from as int)
        });
        while i < len && !byte_is_space(chunk[i])
            invariant
                0 <= start <= i <= len,
                len == s.len(),
                chunk@ == s,
                self.token@ == w0 + s.subrange(start, i as int),
                word_end(s, i as int) == word_end(s, start),
            decreases len - i,
        {
            self.token.push(chunk[i]);
            i = i + 1;
            assert(self.token@ =~= w0 + s.subrange(start, i as int));
        }
        if i < len {
            (i + 1, true)
        } else {
            (len, false)
        }
    }

    /// The finished token: end of input if no token byte was seen, else the
    /// token's text, or the encoding error.
    pub fn finish(&self) -> (r: RawToken)
        ensures
            word_outcome(self.word(), r),
    {
        if self.token.len() == 0 {
            Err(LoadError::OutOfTokens)
        } else {
            match text_of_utf8(self.token.as_slice()) {
                Some(t) => Ok(t),
                None => Err(LoadError::Utf8Error(self.token.clone())),
            }
        }
    }
}

/// The position after the token that starts the search at `p`, and the
/// bytes of that token (empty at the end of input).
pub open spec fn next_word(s: Seq<u8>, p: int) -> (int, Seq<u8>) {
    let j = skip_space(s, p);
    let e = word_end(s, j);
    (if e < s.len() {
        e + 1
    } else {
        s.len() as int
    }, s.subrange(j, e))
}

/// Where a reader of `s` stands after handing out `k` outcomes.
pub open spec fn pos_after(s: Seq<u8>, k: nat) -> int
    decreases k,
{
    if k == 0 {
        0
    } else {
        next_word(s, pos_after(s, (k - 1) as nat)).0
    }
}

/// What a token made of the bytes `w` says (no bytes: the end of input).
pub open spec fn word_view(w: Seq<u8>) -> RawView {
    if w.len() == 0 {
        RawView::End
    } else if valid_utf8(w) {
        RawView::Word(decode_utf8(w))
    } else {
        RawView::BadUtf8(w)
    }
}

/// The `k`-th outcome of reading `s` from its start.
pub open spec fn input_outcome(s: Seq<u8>, k: nat) -> RawView {
    word_view(next_word(s, pos_after(s, k)).1)
}

/// The input of a reader, how far it has read, and what it has handed out.
struct Cursor {
    input: Vec<u8>,
    done: Progress,
}

/// How far a reader has read, and what it has handed out; both change in
/// one step.
struct Progress {
    pos: usize,
    log: Ghost<Seq<RawToken>>,
}

impl Cursor {
    #[verifier::type_invariant]
    spec fn inv(&self) -> bool {
        &&& self.done.pos <= self.input@.len()
        &&& self.done.pos == pos_after(self.input@, self.done.log@.len())
    }
}

/// Tokens read from input held in memory.
pub struct TokensReader {
    at: Cursor,
    scanner: TokenScanner,
}

impl TokensReader {
    /// The whole input.
    pub closed spec fn input(&self) -> Seq<u8> {
        self.at.input@
    }

    /// How many bytes of the input have been consumed.
    pub closed spec fn position(&self) -> int {
        self.at.done.pos as int
    }

    pub fn new(input: Vec<u8>) -> (r: TokensReader)
        ensures
            r.input() == input@,
            r.position() == 0,
            r.taken().len() == 0,
            r.origin() == (|k: nat| input_outcome(input@, k)),
    {
        TokensReader {
            at: Cursor { input, done: Progress { pos: 0, log: Ghost(Seq::empty()) } },
            scanner: TokenScanner::new(),
        }
    }

    /// A reader over the bytes of `text`.
    pub fn from_text(text: &str) -> (r: TokensReader)
        ensures
            r.input() == text.spec_bytes(),
            r.position() == 0,
            r.taken().len() == 0,
            r.origin() == (|k: nat| input_outcome(text.spec_bytes(), k)),
    {
        let bytes = text.as_bytes();
        let mut v: Vec<u8> = Vec::new();
        let mut i: usize = 0;
        while i < bytes.len()
            invariant
                i <= bytes@.len(),
                v@ == bytes@.subrange(0, i as int),
            decreases bytes@.len() - i,
        {
            v.push(bytes[i]);
            i = i + 1;
            assert(v@ =~= bytes@.subrange(0, i as int));
        }
        assert(v@ =~= bytes@);
        TokensReader::new(v)
    }
}

impl Tokens for TokensReader {
    closed spec fn taken(&self) -> Seq<RawToken> {
        self.at.done.log@
    }

    closed spec fn origin(&self) -> spec_fn(nat) -> RawView {
        |k: nat| input_outcome(self.at.input@, k)
    }

    fn next_raw(&mut self) -> (r: RawToken)
        ensures
            ({
                let (p, w) = next_word(old(self).input(), old(self).position());
                &&& final(self).input() == old(self).input()
                &&& 0 <= old(self).position() <= old(self).input().len()
                &&& final(self).position() == p
                &&& 0 <= p <= final(self).input().len()
                &&& word_outcome(w, r)
            }),
    {
        proof {
            use_type_invariant(&self.at);
        }
        self.scanner.reset();
        let (p, _) = self.scanner.scan(self.at.input.as_slice(), self.at.done.pos);
        proof {
            let s = self.at.input@;
            let j = skip_space(s, self.at.done.pos as int);
            lemma_skip_space_bounds(s, self.at.done.pos as int);
            lemma_word_end_bounds(s, j);
            assert(self.scanner.word() =~= s.subrange(j, word_end(s, j)));
        }
        let r = self.scanner.finish();
        let ghost log2 = self.at.done.log@.push(r);
        proof {
            assert(pos_after(self.at.input@, log2.len()) == p);
        }
        self.at.done = Progress { pos: p, log: Ghost(log2) };
        r
    }
}

/// Tokens handed over one by one, as already separated text, optionally
/// followed by the error that ended the input.
pub struct TokensFromIterator {
    items: Vec<String>,
    end: Option<LoadError>,
    handed: Handed,
    end_view: Ghost<RawView>,
}

/// How many items were handed out, whether the end was, and the log; they
/// change in one step.
struct Handed {
    next: usize,
    past_end: bool,
    log: Ghost<Seq<RawToken>>,
}

/// A copy of `e` that says the same.
fn copy_error(e: &LoadError) -> (r: LoadError)
    ensures
        raw_view(Err(r)) == raw_view(Err(*e)),
{
    match e {
        LoadError::Io(m) => LoadError::Io(m.clone()),
        LoadError::Utf8Error(b) => LoadError::Utf8Error(b.clone()),
        LoadError::OutOfTokens => LoadError::OutOfTokens,
    }
}

/// The `k`-th outcome of handing out `items` and then `end`, after which the
/// input has ended.
pub open spec fn items_outcome(items: Seq<String>, end: RawView, k: nat) -> RawView {
    if k < items.len() {
        RawView::Word(items[k as int]@)
    } else if k == items.len() {
        end
    } else {
        RawView::End
    }
}

impl TokensFromIterator {
    #[verifier::type_invariant]
    spec fn inv(&self) -> bool {
        &&& self.handed.next <= self.items@.len()
        &&& self.handed.next == if self.handed.log@.len() < self.items@.len() {
            self.handed.log@.len()
        } else {
            self.items@.len()
        }
        &&& self.handed.past_end == (self.handed.log@.len() > self.items@.len())
        &&& self.end matches Some(e) ==> raw_view(Err(e)) == self.end_view@
        &&& self.end is None ==> self.end_view@ == RawView::End
    }

    pub fn new(items: Vec<String>) -> (r: TokensFromIterator)
        ensures
            r.taken().len() == 0,
            r.origin() == (|k: nat| items_outcome(items@, RawView::End, k)),
    {
        TokensFromIterator {
            items,
            end: None,
            handed: Handed { next: 0, past_end: false, log: Ghost(Seq::empty()) },
            end_view: Ghost(RawView::End),
        }
    }

    /// Hands out `items`, then the error `end` once, then the end of input.
    pub fn with_end(items: Vec<String>, end: LoadError) -> (r: TokensFromIterator)
        ensures
            r.taken().len() == 0,
            r.origin() == (|k: nat| items_outcome(items@, raw_view(Err(end)), k)),
    {
        let ghost v = raw_view(Err(end));
        TokensFromIterator {
            items,
            end: Some(end),
            handed: Handed { next: 0, past_end: false, log: Ghost(Seq::empty()) },
            end_view: Ghost(v),
        }
    }
}

impl Tokens for TokensFromIterator {
    closed spec fn taken(&self) -> Seq<RawToken> {
        self.handed.log@
    }

    closed spec fn origin(&self) -> spec_fn(nat) -> RawView {
        |k: nat| items_outcome(self.items@, self.end_view@, k)
    }

    fn next_raw(&mut self) -> (r: RawToken) {
        proof {
            use_type_invariant(&*self);
        }
        if self.handed.next < self.items.len() {
            let t = self.items[self.handed.next].clone();
            let r = Ok(t);
            self.handed = Handed {
                next: self.handed.next + 1,
                past_end: false,
                log: Ghost(self.handed.log@.push(r)),
            };
            return r;
        }
        let r = if self.handed.past_end {
            Err(LoadError::OutOfTokens)
        } else {
            match &self.end {
                Some(e) => Err(copy_error(e)),
                None => Err(LoadError::OutOfTokens),
            }
        };
        self.handed = Handed {
            next: self.handed.next,
            past_end: true,
            log: Ghost(self.handed.log@.push(r)),
        };
        r
    }
}

} // verus!
