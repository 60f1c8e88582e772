use vstd::prelude::*;

use crate::group::{
    extends, fresh, lemma_split_fresh, read_count, token_read, CollectionError, Group,
    GroupError,
};
use crate::tokens::{RawToken, Tokens, consistent};

verus! {

pub open spec fn collection_error(index: nat, e: GroupError) -> CollectionError {
    CollectionError { index: index as usize, error: Box::new(e) }
}

pub open spec fn views<G: View>(s: Seq<G>) -> Seq<G::V> {
    s.map_values(|x: G| x@)
}

/// Reading `count` values one after another from the front of `s`; the
/// first of them has index `first`. Stops at the first failure.
pub open spec fn many_spec<G: Group>(s: Seq<RawToken>, count: nat, first: nat) -> (
    Result<Seq<G::V>, CollectionError>,
    nat,
)
    decreases count,
{
    if count == 0 {
        (Ok(Seq::empty()), 0)
    } else {
        let (r1, n1) = G::read_spec(s);
        match r1 {
            Err(e) => (Err(collection_error(first, e)), n1),
            Ok(v) => {
                let (rr, nr) = many_spec::<G>(s.skip(n1 as int), (count - 1) as nat, first + 1);
                match rr {
                    Ok(vs) => (Ok(seq![v] + vs), n1 + nr),
                    Err(e) => (Err(e), n1 + nr),
                }
            },
        }
    }
}

pub proof fn lemma_many_prefix<G: Group>(
    s: Seq<RawToken>,
    t: Seq<RawToken>,
    count: nat,
    first: nat,
)
    requires
        many_spec::<G>(s, count, first).1 <= s.len(),
    ensures
        many_spec::<G>(s + t, count, first) == many_spec::<G>(s, count, first),
    decreases count,
{
    if count > 0 {
        let (r1, n1) = G::read_spec(s);
        G::lemma_read_prefix(s, t);
        if r1 is Ok {
            assert((s + t).skip(n1 as int) =~= s.skip(n1 as int) + t);
            lemma_many_prefix::<G>(s.skip(n1 as int), t, (count - 1) as nat, first + 1);
        }
    }
}

/// Reading one value more after `count` good ones.
pub proof fn lemma_many_snoc<G: Group>(s: Seq<RawToken>, count: nat, first: nat)
    requires
        many_spec::<G>(s, count, first).0 is Ok,
        many_spec::<G>(s, count, first).1 <= s.len(),
    ensures
        ({
            let (r, n) = many_spec::<G>(s, count, first);
            let (r1, n1) = G::read_spec(s.skip(n as int));
            many_spec::<G>(s, count + 1, first) == match r1 {
                Ok(v) => (Ok(r->Ok_0.push(v)), n + n1),
                Err(e) => (Err(collection_error(first + count, e)), n + n1),
            }
        }),
    decreases count,
{
    if count == 0 {
        assert(s.skip(0) =~= s);
        let (r1, n1) = G::read_spec(s);
        assert(many_spec::<G>(s.skip(n1 as int), 0, first + 1) == (
            Ok::<Seq<G::V>, CollectionError>(Seq::empty()),
            0nat,
        ));
        if r1 is Ok {
            assert(seq![r1->Ok_0] + Seq::<G::V>::empty() =~= Seq::<G::V>::empty().push(r1->Ok_0));
        }
    } else {
        let (r1, n1) = G::read_spec(s);
        let s2 = s.skip(n1 as int);
        let (rr, nr) = many_spec::<G>(s2, (count - 1) as nat, first + 1);
        lemma_many_snoc::<G>(s2, (count - 1) as nat, first + 1);
        assert(s2.skip(nr as int) =~= s.skip((n1 + nr) as int));
        assert((count - 1) as nat + 1 == count);
        let (rl, nl) = G::read_spec(s2.skip(nr as int));
        if rl is Ok {
            assert(seq![r1->Ok_0] + rr->Ok_0.push(rl->Ok_0) =~= (seq![r1->Ok_0]
                + rr->Ok_0).push(rl->Ok_0));
        }
    }
}

/// A successful read of `count` values gives `count` values.
pub proof fn lemma_many_len<G: Group>(s: Seq<RawToken>, count: nat, first: nat)
    requires
        many_spec::<G>(s, count, first).0 is Ok,
    ensures
        many_spec::<G>(s, count, first).0->Ok_0.len() == count,
    decreases count,
{
    if count > 0 {
        let (r1, n1) = G::read_spec(s);
        lemma_many_len::<G>(s.skip(n1 as int), (count - 1) as nat, first + 1);
    }
}

/// Once a read fails, asking for more elements changes nothing.
pub proof fn lemma_many_err_stable<G: Group>(s: Seq<RawToken>, k: nat, m: nat, first: nat)
    requires
        k <= m,
        many_spec::<G>(s, k, first).0 is Err,
    ensures
        many_spec::<G>(s, m, first) == many_spec::<G>(s, k, first),
    decreases k,
{
    let (r1, n1) = G::read_spec(s);
    if r1 is Ok {
        lemma_many_err_stable::<G>(s.skip(n1 as int), (k - 1) as nat, (m - 1) as nat, first + 1);
    }
}

/// Reads `count` values one after another; a failure reports the index of
/// the element that failed, and no element after it is read.
pub fn collect<G: Group, T: Tokens>(tokens: &mut T, count: usize) -> (r: Result<
    Vec<G>,
    CollectionError,
>)
    ensures
        extends(old(tokens).taken(), final(tokens).taken()),
        final(tokens).origin() == old(tokens).origin(),
        consistent(*old(tokens)) ==> consistent(*final(tokens)),
        many_spec::<G>(fresh(old(tokens).taken(), final(tokens).taken()), count as nat, 0) == (
            match r {
                Ok(v) => Ok(views(v@)),
                Err(e) => Err(e),
            },
            (final(tokens).taken().len() - old(tokens).taken().len()) as nat,
        ),
{
    let ghost l0 = tokens.taken();
    let mut out: Vec<G> = Vec::new();
    let mut i: usize = 0;
    proof {
        assert(fresh(l0, l0) =~= Seq::<RawToken>::empty());
        assert(l0.take(l0.len() as int) =~= l0);
        assert(views(out@) =~= Seq::<G::V>::empty());
    }
    while i < count
        invariant
            i <= count,
            l0 == old(tokens).taken(),
            tokens.origin() == old(tokens).origin(),
            consistent(*old(tokens)) ==> consistent(*tokens),
            extends(l0, tokens.taken()),
            many_spec::<G>(fresh(l0, tokens.taken()), i as nat, 0) == (
                Ok::<Seq<G::V>, CollectionError>(views(out@)),
                fresh(l0, tokens.taken()).len(),
            ),
        decreases count - i,
    {
        let ghost l1 = tokens.taken();
        let r = G::from_tokens(tokens);
        let ghost l2 = tokens.taken();
        proof {
            lemma_split_fresh(l0, l1, l2);
            let d = fresh(l0, l1);
            let e = fresh(l1, l2);
            lemma_many_prefix::<G>(d, e, i as nat, 0);
            lemma_many_snoc::<G>(d + e, i as nat, 0);
            assert((d + e).skip(d.len() as int) =~= e);
        }
        match r {
            Ok(v) => {
                let ghost before = out@;
                out.push(v);
                proof {
                    assert(views(out@) =~= views(before).push(v@));
                }
            },
            Err(e) => {
                proof {
                    lemma_many_err_stable::<G>(
                        fresh(l0, l2),
                        (i + 1) as nat,
                        count as nat,
                        0,
                    );
                }
                return Err(CollectionError { index: i, error: Box::new(e) });
            },
        }
        i = i + 1;
    }
    Ok(out)
}

/// A collection written as its count followed by that many elements.
#[derive(Debug)]
pub struct AutoSize<G> {
    pub count: usize,
    pub collection: Vec<G>,
}

impl<G: View> View for AutoSize<G> {
    type V = (usize, Seq<G::V>);

    open spec fn view(&self) -> (usize, Seq<G::V>) {
        (self.count, views(self.collection@))
    }
}

impl<G> AutoSize<G> {
    /// The elements, without the count.
    pub fn into_inner(self) -> (r: Vec<G>)
        ensures
            r@ == self.collection@,
    {
        self.collection
    }
}

impl<G: Group> Group for AutoSize<G> {
    open spec fn read_spec(s: Seq<RawToken>) -> (Result<(usize, Seq<G::V>), GroupError>, nat) {
        let (rc, nc) = token_read::<usize>(s);
        match rc {
            Err(e) => (Err(GroupError::Count(e)), nc),
            Ok(c) => {
                let (rm, nm) = many_spec::<G>(s.skip(nc as int), c as nat, 0);
                (
                    match rm {
                        Ok(vs) => Ok((c, vs)),
                        Err(e) => Err(GroupError::Collection(e)),
                    },
                    nc + nm,
                )
            },
        }
    }

    proof fn lemma_read_prefix(s: Seq<RawToken>, t: Seq<RawToken>) {
        let (rc, nc) = token_read::<usize>(s);
        assert((s + t)[0] == s[0]);
        if rc is Ok {
            assert((s + t).skip(nc as int) =~= s.skip(nc as int) + t);
            lemma_many_prefix::<G>(s.skip(nc as int), t, rc->Ok_0 as nat, 0);
        }
    }

    fn from_tokens<T: Tokens>(tokens: &mut T) -> (r: Result<AutoSize<G>, GroupError>) {
        let ghost l0 = tokens.taken();
        let count = match read_count(tokens) {
            Ok(c) => c,
            Err(e) => {
                return Err(GroupError::Count(e));
            },
        };
        let ghost l1 = tokens.taken();
        let rc = collect::<G, T>(tokens, count);
        let ghost l2 = tokens.taken();
        proof {
            lemma_split_fresh(l0, l1, l2);
            assert(fresh(l0, l2)[0] == fresh(l0, l1)[0]);
        }
        match rc {
            Ok(collection) => Ok(AutoSize { count, collection }),
            Err(e) => Err(GroupError::Collection(e)),
        }
    }
}

} // verus!
