use vstd::prelude::*;

use crate::collection::{collect, lemma_many_prefix, many_spec, views};
use crate::group::{
    extends, fresh, lemma_split_fresh, Group, GroupError, StructGroupError,
};
use crate::tokens::{RawToken, Tokens};

verus! {

pub open spec fn field_error(field: &'static str, e: GroupError) -> GroupError {
    GroupError::Struct(StructGroupError { field, error: Box::new(e) })
}

/// A record of a column count followed by one ball count per column: the
/// length of the second field is the value of the first, which is not
/// written again.
#[derive(Debug)]
pub struct Data {
    pub num_columns: usize,
    pub ball_counts: Vec<usize>,
}

impl View for Data {
    type V = (usize, Seq<usize>);

    open spec fn view(&self) -> (usize, Seq<usize>) {
        (self.num_columns, self.ball_counts@)
    }
}

impl Group for Data {
    open spec fn read_spec(s: Seq<RawToken>) -> (Result<(usize, Seq<usize>), GroupError>, nat) {
        let (rc, nc) = <usize as Group>::read_spec(s);
        match rc {
            Err(e) => (Err(field_error("num_columns", e)), nc),
            Ok(c) => {
                let (rm, nm) = many_spec::<usize>(s.skip(nc as int), c as nat, 0);
                (
                    match rm {
                        Ok(vs) => Ok((c, vs)),
                        Err(e) => Err(field_error("ball_counts", GroupError::Collection(e))),
                    },
                    nc + nm,
                )
            },
        }
    }

    proof fn lemma_read_prefix(s: Seq<RawToken>, t: Seq<RawToken>) {
        let (rc, nc) = <usize as Group>::read_spec(s);
        <usize as Group>::lemma_read_prefix(s, t);
        if rc is Ok {
            assert((s + t).skip(nc as int) =~= s.skip(nc as int) + t);
            lemma_many_prefix::<usize>(s.skip(nc as int), t, rc->Ok_0 as nat, 0);
        }
    }

    fn from_tokens<T: Tokens>(tokens: &mut T) -> (r: Result<Data, GroupError>) {
        let ghost l0 = tokens.taken();
        let num_columns = match <usize as Group>::from_tokens(tokens) {
            Ok(c) => c,
            Err(e) => {
                return Err(GroupError::Struct(StructGroupError::new("num_columns", e)));
            },
        };
        let ghost l1 = tokens.taken();
        let rb = collect::<usize, T>(tokens, num_columns);
        let ghost l2 = tokens.taken();
        proof {
            lemma_split_fresh(l0, l1, l2);
            <usize as Group>::lemma_read_prefix(fresh(l0, l1), fresh(l1, l2));
        }
        match rb {
            Ok(ball_counts) => {
                proof {
                    assert(views(ball_counts@) =~= ball_counts@);
                }
                Ok(Data { num_columns, ball_counts })
            },
            Err(e) => Err(
                GroupError::Struct(StructGroupError::new("ball_counts", GroupError::Collection(e))),
            ),
        }
    }
}

} // verus!
