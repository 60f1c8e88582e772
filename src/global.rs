use vstd::prelude::*;

use crate::group::{
    extends, fresh, lemma_split_fresh, read_count, token_read, Group, GroupError, TokenError,
};
use crate::case_index::CaseIndex;
use crate::tokens::{consistent, RawToken, Tokens};

verus! {

/// Which part of the preamble failed.
#[derive(Debug, PartialEq, Eq)]
pub enum GlobalDataError {
    /// The data shared by all records failed.
    DataError(GroupError),
    /// The number of records failed.
    CountError(TokenError),
}

/// The preamble: how many records follow, and the data they all share.
#[derive(Debug)]
pub struct GlobalData<T> {
    pub num_cases: usize,
    pub data: T,
}

/// Whether calling `f` on record `case` and the shared data `data` may
/// succeed.
pub open spec fn succeeds_on<T, E, F: Fn(CaseIndex, &T) -> Result<(), E>>(
    f: F,
    case: CaseIndex,
    data: &T,
) -> bool {
    exists|o: Result<(), E>| o is Ok && f.ensures((case, data), o)
}

impl<T> GlobalData<T> {
    /// Calls `f` with each record's index, `1..=num_cases` in order, and the
    /// shared data, until a call fails; that failure is returned.
    pub fn for_each_case<F, E>(&self, f: F) -> (r: Result<(), E>) where
        F: Fn(CaseIndex, &T) -> Result<(), E>,

        requires
            forall|c: CaseIndex| f.requires((c, &self.data)),
        ensures
            r is Ok ==> forall|c: CaseIndex|
                1 <= c.0 <= self.num_cases ==> #[trigger] succeeds_on(f, c, &self.data),
            r matches Err(e) ==> exists|failed: CaseIndex|
                1 <= failed.0 <= self.num_cases && f.ensures((failed, &self.data), Err(e))
                    && forall|c: CaseIndex|
                    1 <= c.0 < failed.0 ==> #[trigger] succeeds_on(f, c, &self.data),
    {
        let mut i: usize = 0;
        while i < self.num_cases
            invariant
                i <= self.num_cases,
                forall|c: CaseIndex| f.requires((c, &self.data)),
                forall|c: CaseIndex|
                    1 <= c.0 <= i ==> #[trigger] succeeds_on(f, c, &self.data),
            decreases self.num_cases - i,
        {
            let case = CaseIndex(i + 1);
            let res = f(case, &self.data);
            match res {
                Ok(()) => {
                    proof {
                        assert forall|c: CaseIndex| 1 <= c.0 <= i + 1 implies #[trigger] succeeds_on(
                            f,
                            c,
                            &self.data,
                        ) by {
                            if c.0 == i + 1 {
                                assert(res is Ok && f.ensures((case, &self.data), res));
                                assert(c == case);
                            }
                        }
                    }
                },
                Err(e) => {
                    return Err(e);
                },
            }
            i = i + 1;
        }
        Ok(())
    }
}

/// Reading the number of records.
pub open spec fn count_spec(s: Seq<RawToken>) -> (Result<usize, TokenError>, nat) {
    token_read::<usize>(s)
}

pub open spec fn global_view<T: View>(r: Result<GlobalData<T>, GlobalDataError>) -> Result<
    (usize, T::V),
    GlobalDataError,
> {
    match r {
        Ok(g) => Ok((g.num_cases, g.data@)),
        Err(e) => Err(e),
    }
}

/// A shape of preamble, which reads itself from a token source.
///
/// `load_spec(s)` is the record count and shared data that reading the
/// preamble from the front of the outcomes `s` gives, and how many outcomes
/// that takes.
pub trait LoadGlobalData: Sized + View {
    spec fn load_spec(s: Seq<RawToken>) -> (Result<(usize, Self::V), GlobalDataError>, nat);

    /// What follows the outcomes the preamble needs does not change it.
    proof fn lemma_load_prefix(s: Seq<RawToken>, t: Seq<RawToken>)
        requires
            Self::load_spec(s).1 <= s.len(),
        ensures
            Self::load_spec(s + t) == Self::load_spec(s),
    ;

    fn from_tokens<T: Tokens>(tokens: &mut T) -> (r: Result<GlobalData<Self>, GlobalDataError>)
        ensures
            extends(old(tokens).taken(), final(tokens).taken()),
            final(tokens).origin() == old(tokens).origin(),
            consistent(*old(tokens)) ==> consistent(*final(tokens)),
            Self::load_spec(fresh(old(tokens).taken(), final(tokens).taken())) == (
                global_view(r),
                (final(tokens).taken().len() - old(tokens).taken().len()) as nat,
            ),
    ;
}

/// Reading the count alone, as a preamble without shared data.
pub open spec fn count_only_spec(s: Seq<RawToken>) -> (Result<(usize, ()), GlobalDataError>, nat) {
    let (rc, nc) = count_spec(s);
    (
        match rc {
            Ok(c) => Ok((c, ())),
            Err(e) => Err(GlobalDataError::CountError(e)),
        },
        nc,
    )
}

fn load_count_only<T: Tokens>(tokens: &mut T) -> (r: Result<usize, GlobalDataError>)
    ensures
        extends(old(tokens).taken(), final(tokens).taken()),
        final(tokens).origin() == old(tokens).origin(),
        consistent(*old(tokens)) ==> consistent(*final(tokens)),
        count_only_spec(fresh(old(tokens).taken(), final(tokens).taken())) == (
            match r {
                Ok(c) => Ok((c, ())),
                Err(e) => Err(e),
            },
            (final(tokens).taken().len() - old(tokens).taken().len()) as nat,
        ),
{
    match read_count(tokens) {
        Ok(c) => Ok(c),
        Err(e) => Err(GlobalDataError::CountError(e)),
    }
}

/// A preamble that is the record count alone.
#[derive(Debug, Clone, Copy, Default)]
pub struct NoGlobalData;

impl View for NoGlobalData {
    type V = ();

    open spec fn view(&self) -> () {
        ()
    }
}

impl LoadGlobalData for NoGlobalData {
    open spec fn load_spec(s: Seq<RawToken>) -> (Result<(usize, ()), GlobalDataError>, nat) {
        count_only_spec(s)
    }

    proof fn lemma_load_prefix(s: Seq<RawToken>, t: Seq<RawToken>) {
        assert((s + t)[0] == s[0]);
    }

    fn from_tokens<T: Tokens>(tokens: &mut T) -> (r: Result<GlobalData<NoGlobalData>, GlobalDataError>) {
        match load_count_only(tokens) {
            Ok(num_cases) => Ok(GlobalData { num_cases, data: NoGlobalData }),
            Err(e) => Err(e),
        }
    }
}

/// The unit value as a preamble: the record count alone.
impl LoadGlobalData for () {
    open spec fn load_spec(s: Seq<RawToken>) -> (Result<(usize, ()), GlobalDataError>, nat) {
        count_only_spec(s)
    }

    proof fn lemma_load_prefix(s: Seq<RawToken>, t: Seq<RawToken>) {
        assert((s + t)[0] == s[0]);
    }

    fn from_tokens<T: Tokens>(tokens: &mut T) -> (r: Result<GlobalData<()>, GlobalDataError>) {
        match load_count_only(tokens) {
            Ok(num_cases) => Ok(GlobalData { num_cases, data: () }),
            Err(e) => Err(e),
        }
    }
}

/// A preamble of the record count followed by the shared data.
#[derive(Debug, Clone, Copy, Default)]
pub struct CountPrefix<G>(pub G);

impl<G: View> View for CountPrefix<G> {
    type V = G::V;

    open spec fn view(&self) -> G::V {
        self.0@
    }
}

impl<G> CountPrefix<G> {
    pub fn as_ref(&self) -> (r: &G)
        ensures
            *r == self.0,
    {
        &self.0
    }
}

impl<G: Group> LoadGlobalData for CountPrefix<G> {
    open spec fn load_spec(s: Seq<RawToken>) -> (Result<(usize, G::V), GlobalDataError>, nat) {
        let (rc, nc) = count_spec(s);
        match rc {
            Err(e) => (Err(GlobalDataError::CountError(e)), nc),
            Ok(c) => {
                let (rd, nd) = G::read_spec(s.skip(nc as int));
                (
                    match rd {
                        Ok(d) => Ok((c, d)),
                        Err(e) => Err(GlobalDataError::DataError(e)),
                    },
                    nc + nd,
                )
            },
        }
    }

    proof fn lemma_load_prefix(s: Seq<RawToken>, t: Seq<RawToken>) {
        let (rc, nc) = count_spec(s);
        assert((s + t)[0] == s[0]);
        if rc is Ok {
            assert((s + t).skip(nc as int) =~= s.skip(nc as int) + t);
            G::lemma_read_prefix(s.skip(nc as int), t);
        }
    }

    fn from_tokens<T: Tokens>(tokens: &mut T) -> (r: Result<GlobalData<CountPrefix<G>>, GlobalDataError>) {
        let ghost l0 = tokens.taken();
        let num_cases = match read_count(tokens) {
            Ok(c) => c,
            Err(e) => {
                return Err(GlobalDataError::CountError(e));
            },
        };
        let ghost l1 = tokens.taken();
        let rd = G::from_tokens(tokens);
        let ghost l2 = tokens.taken();
        proof {
            lemma_split_fresh(l0, l1, l2);
            assert(fresh(l0, l2)[0] == fresh(l0, l1)[0]);
        }
        match rd {
            Ok(d) => Ok(GlobalData { num_cases, data: CountPrefix(d) }),
            Err(e) => Err(GlobalDataError::DataError(e)),
        }
    }
}

/// A preamble of the shared data followed by the record count.
#[derive(Debug, Clone, Copy, Default)]
pub struct CountSuffix<G>(pub G);

impl<G: View> View for CountSuffix<G> {
    type V = G::V;

    open spec fn view(&self) -> G::V {
        self.0@
    }
}

impl<G> CountSuffix<G> {
    pub fn as_ref(&self) -> (r: &G)
        ensures
            *r == self.0,
    {
        &self.0
    }
}

impl<G: Group> LoadGlobalData for CountSuffix<G> {
    open spec fn load_spec(s: Seq<RawToken>) -> (Result<(usize, G::V), GlobalDataError>, nat) {
        let (rd, nd) = G::read_spec(s);
        match rd {
            Err(e) => (Err(GlobalDataError::DataError(e)), nd),
            Ok(d) => {
                let (rc, nc) = count_spec(s.skip(nd as int));
                (
                    match rc {
                        Ok(c) => Ok((c, d)),
                        Err(e) => Err(GlobalDataError::CountError(e)),
                    },
                    nd + nc,
                )
            },
        }
    }

    proof fn lemma_load_prefix(s: Seq<RawToken>, t: Seq<RawToken>) {
        let (rd, nd) = G::read_spec(s);
        G::lemma_read_prefix(s, t);
        if rd is Ok {
            assert((s + t).skip(nd as int) =~= s.skip(nd as int) + t);
            assert((s + t).skip(nd as int)[0] == s.skip(nd as int)[0]);
        }
    }

    fn from_tokens<T: Tokens>(tokens: &mut T) -> (r: Result<GlobalData<CountSuffix<G>>, GlobalDataError>) {
        let ghost l0 = tokens.taken();
        let d = match G::from_tokens(tokens) {
            Ok(d) => d,
            Err(e) => {
                return Err(GlobalDataError::DataError(e));
            },
        };
        let ghost l1 = tokens.taken();
        let rc = read_count(tokens);
        let ghost l2 = tokens.taken();
        proof {
            lemma_split_fresh(l0, l1, l2);
            G::lemma_read_prefix(fresh(l0, l1), fresh(l1, l2));
        }
        match rc {
            Ok(num_cases) => Ok(GlobalData { num_cases, data: CountSuffix(d) }),
            Err(e) => Err(GlobalDataError::CountError(e)),
        }
    }
}

} // verus!
