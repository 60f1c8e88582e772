use vstd::prelude::*;

use std::collections::HashMap;

use crate::case_index::CaseIndex;
use crate::printer::{refusal_of, Attempt, LoggingPrinter, Printer};

verus! {

/// Whether receiving `(case, value)` in the state `(next, pending)` leads to
/// the state `(next2, pending2)` and delivers `out`.
///
/// The expected index is delivered at once, followed by the longest run of
/// held results whose indices come right after it; any other index is held.
pub open spec fn receive_step<S>(
    next: nat,
    pending: Map<usize, S>,
    case: CaseIndex,
    value: S,
    next2: nat,
    pending2: Map<usize, S>,
    out: Seq<(CaseIndex, S)>,
) -> bool {
    if case.0 == next {
        let m = out.len();
        &&& m >= 1
        &&& next + m <= usize::MAX
        &&& out[0] == (case, value)
        &&& forall|j: int|
            #![trigger out[j]]
            1 <= j < m ==> pending.contains_key((next + j) as usize)
        &&& forall|j: int|
            #![trigger out[j]]
            1 <= j < m ==> out[j] == (CaseIndex((next + j) as usize), pending[(next + j) as usize])
        &&& !pending.contains_key((next + m) as usize)
        &&& next2 == next + m
        &&& pending2 == pending.remove_keys(Set::new(|k: usize| next < k < next + m))
    } else {
        &&& out.len() == 0
        &&& next2 == next
        &&& pending2 == pending.insert(case.0, value)
    }
}

/// The deliveries of several steps, joined in order.
pub open spec fn concat_outs<T>(outs: Seq<Seq<T>>) -> Seq<T>
    decreases outs.len(),
{
    if outs.len() == 0 {
        Seq::empty()
    } else {
        concat_outs(outs.drop_last()) + outs.last()
    }
}

/// The results of records `1..=len`, in index order.
pub open spec fn in_order<S>(values: Seq<S>, len: nat) -> Seq<(CaseIndex, S)> {
    Seq::new(len, |m: int| (CaseIndex((m + 1) as usize), values[m]))
}

/// `perm` lists `0..n` in some order, and `when` is its inverse: the
/// result of record `x + 1` is the `when[x]`-th to arrive.
pub open spec fn is_permutation(perm: Seq<nat>, when: Seq<nat>, n: nat) -> bool {
    &&& perm.len() == n
    &&& when.len() == n
    &&& forall|i: int| 0 <= i < n ==> #[trigger] perm[i] < n && when[perm[i] as int] == i
    &&& forall|x: int| 0 <= x < n ==> #[trigger] when[x] < n && perm[when[x] as int] == x
}

/// The `k`-th result to arrive: that of record `perm[k] + 1`.
pub open spec fn arrival<S>(values: Seq<S>, perm: Seq<nat>, k: int) -> (CaseIndex, S) {
    (CaseIndex((perm[k] + 1) as usize), values[perm[k] as int])
}

/// What holds after the first `k` arrivals: the records before `next` have
/// been delivered in order, and exactly the later ones that have arrived
/// are held.
pub open spec fn reorder_inv<S>(
    values: Seq<S>,
    when: Seq<nat>,
    n: nat,
    k: nat,
    next: nat,
    held: Map<usize, S>,
    delivered: Seq<(CaseIndex, S)>,
) -> bool {
    &&& 1 <= next <= n + 1
    &&& delivered == in_order(values, (next - 1) as nat)
    &&& held == Map::new(
        |x: usize| next <= x <= n && when[x - 1] < k,
        |x: usize| values[x - 1],
    )
    &&& forall|x: int| 1 <= x < next ==> #[trigger] when[x - 1] < k
    &&& !held.contains_key(next as usize)
}

proof fn lemma_reorder_prefix<S>(
    values: Seq<S>,
    perm: Seq<nat>,
    when: Seq<nat>,
    n: nat,
    nexts: Seq<nat>,
    helds: Seq<Map<usize, S>>,
    outs: Seq<Seq<(CaseIndex, S)>>,
    k: nat,
)
    requires
        n < usize::MAX,
        values.len() == n,
        is_permutation(perm, when, n),
        nexts.len() == n + 1,
        helds.len() == n + 1,
        outs.len() == n,
        nexts[0] == 1,
        helds[0] == Map::<usize, S>::empty(),
        forall|j: int|
            0 <= j < n ==> #[trigger] receive_step(
                nexts[j],
                helds[j],
                arrival(values, perm, j).0,
                arrival(values, perm, j).1,
                nexts[j + 1],
                helds[j + 1],
                outs[j],
            ),
        k <= n,
    ensures
        reorder_inv(values, when, n, k, nexts[k as int], helds[k as int], concat_outs(outs.take(k as int))),
    decreases k,
{
    if k == 0 {
        assert(outs.take(0) =~= Seq::<Seq<(CaseIndex, S)>>::empty());
        assert(in_order(values, 0) =~= Seq::<(CaseIndex, S)>::empty());
        assert(helds[0] =~= Map::new(
            |x: usize| nexts[0] <= x <= n && when[x - 1] < 0,
            |x: usize| values[x - 1],
        ));
    } else {
        let j = (k - 1) as nat;
        lemma_reorder_prefix(values, perm, when, n, nexts, helds, outs, j);
        let ji = j as int;
        assert(receive_step(
            nexts[ji],
            helds[ji],
            arrival(values, perm, ji).0,
            arrival(values, perm, ji).1,
            nexts[ji + 1],
            helds[ji + 1],
            outs[ji],
        ));
        assert(ji + 1 == k as int);
        let next = nexts[ji];
        let held = helds[ji];
        let next2 = nexts[k as int];
        let held2 = helds[k as int];
        let out = outs[ji];
        let case = arrival(values, perm, ji).0;
        let value = arrival(values, perm, ji).1;
        assert(receive_step(next, held, case, value, next2, held2, out));
        assert(outs.take(k as int).drop_last() =~= outs.take(j as int));
        let c = perm[j as int] + 1;
        assert(when[c - 1] == j);
        assert(case.0 == c);
        if case.0 == next {
            let m = out.len();
            assert(m >= 1);
            assert(next2 == next + m);
            assert(out[0] == (case, value));
            assert forall|i: int| 1 <= i < m implies #[trigger] out[i] == (
                CaseIndex((next + i) as usize),
                values[next + i - 1],
            ) by {
                assert(out[i] == (CaseIndex((next + i) as usize), held[(next + i) as usize]));
                assert(held.contains_key((next + i) as usize));
                assert(held[(next + i) as usize] == values[next + i - 1]);
            }
            assert(next + m - 1 <= n) by {
                if m > 1 {
                    assert(out[m - 1] == (
                        CaseIndex((next + m - 1) as usize),
                        held[(next + m - 1) as usize],
                    ));
                    assert(held.contains_key((next + m - 1) as usize));
                }
            }
            assert(concat_outs(outs.take(k as int)) =~= in_order(values, (next2 - 1) as nat)) by {
                assert(concat_outs(outs.take(k as int)) == in_order(values, (next - 1) as nat)
                    + out);
            }
            assert(held2 =~= Map::new(
                |x: usize| next2 <= x <= n && when[x - 1] < k,
                |x: usize| values[x - 1],
            )) by {
                assert forall|x: usize| #[trigger] held2.contains_key(x) implies next2 <= x <= n
                    && when[x - 1] < k by {
                    assert(held.contains_key(x));
                }
                assert forall|x: usize|
                    next2 <= x <= n && when[x - 1] < k implies #[trigger] held2.contains_key(x) by {
                    if when[x - 1] == j {
                        assert(perm[when[x - 1] as int] == x - 1);
                    }
                    assert(held.contains_key(x));
                }
            }
            assert forall|x: int| 1 <= x < next2 implies #[trigger] when[x - 1] < k by {
                if next < x {
                    assert(out[x - next] == (CaseIndex(x as usize), held[x as usize]));
                    assert(held.contains_key(x as usize));
                }
            }
        } else {
            assert(c >= next) by {
                if c < next {
                    assert(when[c - 1] < j);
                }
            }
            assert(outs.take(k as int) =~= outs.take(j as int).push(out));
            assert(concat_outs(outs.take(k as int)) =~= concat_outs(outs.take(j as int)));
            assert(held2 =~= Map::new(
                |x: usize| next2 <= x <= n && when[x - 1] < k,
                |x: usize| values[x - 1],
            )) by {
                assert forall|x: usize|
                    next2 <= x <= n && when[x - 1] < k implies #[trigger] held2.contains_key(x) by {
                    if x != c {
                        if when[x - 1] == j {
                            assert(perm[when[x - 1] as int] == x - 1);
                        }
                        assert(held.contains_key(x));
                    }
                }
            }
        }
    }
}

/// However the results of records `1..=n` arrive, each exactly once, a
/// buffer that starts empty delivers them in index order, each with its own
/// value, and holds nothing once the last one has arrived.
///
/// `perm` is the arrival order (the `k`-th arrival is record `perm[k] + 1`
/// with value `values[perm[k]]`), `when` its inverse, and `nexts`, `helds`
/// and `outs` the states and deliveries of the successive `receive` calls.
pub proof fn lemma_reorder_delivers_in_order<S>(
    values: Seq<S>,
    perm: Seq<nat>,
    when: Seq<nat>,
    n: nat,
    nexts: Seq<nat>,
    helds: Seq<Map<usize, S>>,
    outs: Seq<Seq<(CaseIndex, S)>>,
)
    requires
        n < usize::MAX,
        values.len() == n,
        is_permutation(perm, when, n),
        nexts.len() == n + 1,
        helds.len() == n + 1,
        outs.len() == n,
        nexts[0] == 1,
        helds[0] == Map::<usize, S>::empty(),
        forall|j: int|
            0 <= j < n ==> #[trigger] receive_step(
                nexts[j],
                helds[j],
                arrival(values, perm, j).0,
                arrival(values, perm, j).1,
                nexts[j + 1],
                helds[j + 1],
                outs[j],
            ),
    ensures
        concat_outs(outs) == in_order(values, n),
        nexts[n as int] == n + 1,
        helds[n as int] == Map::<usize, S>::empty(),
{
    lemma_reorder_prefix(values, perm, when, n, nexts, helds, outs, n);
    assert(outs.take(n as int) =~= outs);
    let next = nexts[n as int];
    if next <= n {
        assert(when[next - 1] < n);
        assert(helds[n as int].contains_key(next as usize));
    }
    assert(helds[n as int] =~= Map::<usize, S>::empty());
}

/// The results of `out`, each handed to a printer that accepted it.
pub open spec fn accepted<S>(out: Seq<(CaseIndex, S)>) -> Seq<Attempt<S>> {
    out.map_values(|d: (CaseIndex, S)| Attempt { case: d.0, value: d.1, refusal: None })
}

/// Handing the results of `out` to a printer, in order, up to its first
/// refusal, adds `added` to its log and ends with `r`.
pub open spec fn delivered<S>(out: Seq<(CaseIndex, S)>, added: Seq<Attempt<S>>, r: Result<(), (CaseIndex, String)>) -> bool {
    match r {
        Ok(()) => added == accepted(out),
        Err((c, e)) => exists|k: int|
            0 <= k < out.len() && c == out[k].0 && #[trigger] added.len() == k + 1 && added
                == accepted(out.take(k)).push(
                Attempt { case: out[k].0, value: out[k].1, refusal: Some(e) },
            ),
    }
}

/// The values of the attempts, in order.
pub open spec fn values_of<S>(a: Seq<Attempt<S>>) -> Seq<S> {
    a.map_values(|x: Attempt<S>| x.value)
}

/// The indices and values of the attempts, in order.
pub open spec fn handed<S>(a: Seq<Attempt<S>>) -> Seq<(CaseIndex, S)> {
    a.map_values(|x: Attempt<S>| (x.case, x.value))
}

/// A concurrent run delivers what a sequential run delivers: when the
/// results that the sequential run handed to its printer for records
/// `1..=n` arrive at a buffer in any order, each exactly once, the buffer
/// releases the same indices with the same values, in the same order.
pub proof fn lemma_concurrent_matches_sequential<S>(
    sequential: Seq<Attempt<S>>,
    perm: Seq<nat>,
    when: Seq<nat>,
    n: nat,
    nexts: Seq<nat>,
    helds: Seq<Map<usize, S>>,
    outs: Seq<Seq<(CaseIndex, S)>>,
)
    requires
        n < usize::MAX,
        sequential.len() == n,
        forall|j: int|
            0 <= j < n ==> (#[trigger] sequential[j]).case == CaseIndex((j + 1) as usize),
        is_permutation(perm, when, n),
        nexts.len() == n + 1,
        helds.len() == n + 1,
        outs.len() == n,
        nexts[0] == 1,
        helds[0] == Map::<usize, S>::empty(),
        forall|j: int|
            0 <= j < n ==> #[trigger] receive_step(
                nexts[j],
                helds[j],
                arrival(values_of(sequential), perm, j).0,
                arrival(values_of(sequential), perm, j).1,
                nexts[j + 1],
                helds[j + 1],
                outs[j],
            ),
    ensures
        concat_outs(outs) == handed(sequential),
        helds[n as int] == Map::<usize, S>::empty(),
{
    let values = values_of(sequential);
    lemma_reorder_delivers_in_order(values, perm, when, n, nexts, helds, outs);
    assert(in_order(values, n) =~= handed(sequential));
}

/// Holds results that completed out of order until every earlier result
/// has been delivered.
#[derive(Debug)]
pub struct ReorderBuffer<S> {
    next: usize,
    pending: HashMap<usize, S>,
}

impl<S> ReorderBuffer<S> {
    /// The index of the result to deliver next.
    pub closed spec fn next_index(&self) -> nat {
        self.next as nat
    }

    /// The results held back, by index.
    pub closed spec fn held(&self) -> Map<usize, S> {
        self.pending@
    }

    pub open spec fn wf(&self) -> bool {
        &&& 1 <= self.next_index() <= usize::MAX
        &&& !self.held().contains_key(self.next_index() as usize)
        &&& forall|k: usize| #[trigger] self.held().contains_key(k) ==> k < usize::MAX
    }

    pub fn new() -> (r: ReorderBuffer<S>)
        ensures
            r.wf(),
            r.next_index() == 1,
            r.held() == Map::<usize, S>::empty(),
    {
        ReorderBuffer { next: 1, pending: HashMap::new() }
    }

    /// Takes the result of record `case` and gives back, in order, the
    /// results that can now be delivered.
    pub fn receive(&mut self, case: CaseIndex, value: S) -> (out: Vec<(CaseIndex, S)>)
        requires
            old(self).wf(),
            case.0 < usize::MAX,
        ensures
            final(self).wf(),
            receive_step(
                old(self).next_index(),
                old(self).held(),
                case,
                value,
                final(self).next_index(),
                final(self).held(),
                out@,
            ),
    {
        if case.0 != self.next {
            self.pending.insert(case.0, value);
            let out: Vec<(CaseIndex, S)> = Vec::new();
            proof {
                assert forall|k: usize| #[trigger] self.held().contains_key(k) implies k
                    < usize::MAX by {
                    if k != case.0 {
                        assert(old(self).held().contains_key(k));
                    }
                }
            }
            return out;
        }
        let ghost o_next = self.next as nat;
        let ghost o_pend = self.pending@;
        let mut out: Vec<(CaseIndex, S)> = Vec::new();
        out.push((case, value));
        let mut n: usize = self.next + 1;
        proof {
            assert(o_pend.remove_keys(Set::new(|k: usize| o_next < k < n)) =~= o_pend);
        }
        while self.pending.contains_key(&n)
            invariant
                self.next == o_next,
                o_pend == old(self).held(),
                o_next == old(self).next_index(),
                old(self).wf(),
                case.0 == o_next,
                o_next < n <= usize::MAX,
                n == o_next + out@.len(),
                out@[0] == (case, value),
                forall|j: int| 1 <= j < out@.len() ==> o_pend.contains_key(#[trigger] ((o_next + j) as usize)),
                forall|j: int|
                    1 <= j < out@.len() ==> #[trigger] out@[j] == (
                        CaseIndex((o_next + j) as usize),
                        o_pend[(o_next + j) as usize],
                    ),
                self.pending@ == o_pend.remove_keys(Set::new(|k: usize| o_next < k < n)),
            decreases usize::MAX - n,
        {
            proof {
                assert(o_pend.contains_key(n));
            }
            let ghost n0 = n;
            let ghost before = out@;
            match self.pending.remove(&n) {
                Some(v) => {
                    out.push((CaseIndex(n), v));
                    n = n + 1;
                    proof {
                        assert(v == o_pend[n0]);
                        assert forall|j: int| 1 <= j < out@.len() implies #[trigger] out@[j] == (
                            CaseIndex((o_next + j) as usize),
                            o_pend[(o_next + j) as usize],
                        ) by {
                            if j < before.len() {
                                assert(out@[j] == before[j]);
                            } else {
                                assert(j == before.len());
                                assert((o_next + j) as usize == n0);
                                assert(out@[j] == (CaseIndex(n0), v));
                            }
                        }
                        assert(self.pending@ =~= o_pend.remove_keys(
                            Set::new(|k: usize| o_next < k < n),
                        ));
                    }
                },
                None => {},
            }
        }
        proof {
            assert(!o_pend.contains_key(n));
        }
        self.next = n;
        proof {
            assert forall|k: usize| #[trigger] self.held().contains_key(k) implies k
                < usize::MAX by {
                assert(o_pend.contains_key(k));
            }
        }
        out
    }

    /// Takes the result of record `case` and hands every result that can
    /// now be delivered to `printer`, in order; the first refusal stops the
    /// delivery and is returned with its record's index, and the results
    /// after it are dropped.
    pub fn deliver<P: Printer<S>>(
        &mut self,
        printer: &mut LoggingPrinter<P, S>,
        case: CaseIndex,
        value: S,
    ) -> (r: Result<(), (CaseIndex, String)>)
        requires
            old(self).wf(),
            case.0 < usize::MAX,
        ensures
            final(self).wf(),
            old(printer).attempts().len() <= final(printer).attempts().len(),
            final(printer).attempts().take(old(printer).attempts().len() as int) == old(
                printer,
            ).attempts(),
            exists|out: Seq<(CaseIndex, S)>|
                receive_step(
                    old(self).next_index(),
                    old(self).held(),
                    case,
                    value,
                    final(self).next_index(),
                    final(self).held(),
                    out,
                ) && delivered(
                    out,
                    #[trigger] final(printer).attempts().skip(old(printer).attempts().len() as int),
                    r,
                ),
    {
        let ghost att0 = printer.attempts();
        let mut ready = self.receive(case, value);
        let ghost out = ready@;
        let ghost next2 = self.next_index();
        let ghost held2 = self.held();
        let mut k: usize = 0;
        proof {
            assert(printer.attempts().skip(att0.len() as int) =~= accepted(out.take(0)));
            assert(printer.attempts().take(att0.len() as int) =~= att0);
            assert(out.skip(0) =~= out);
        }
        while ready.len() > 0
            invariant
                att0 == old(printer).attempts(),
                self.wf(),
                self.next_index() == next2,
                self.held() == held2,
                receive_step(
                    old(self).next_index(),
                    old(self).held(),
                    case,
                    value,
                    next2,
                    held2,
                    out,
                ),
                k <= out.len(),
                out.len() <= usize::MAX,
                ready@ == out.skip(k as int),
                printer.attempts().len() == att0.len() + k,
                printer.attempts().take(att0.len() as int) == att0,
                printer.attempts().skip(att0.len() as int) == accepted(out.take(k as int)),
            decreases ready.len(),
        {
            let (c, v) = ready.remove(0);
            let ghost before = printer.attempts();
            let printed = printer.print(c, v);
            proof {
                assert(printer.attempts().take(att0.len() as int) =~= att0);
                assert(out[k as int] == (c, v));
                let added = printer.attempts().skip(att0.len() as int);
                let last = Attempt { case: c, value: v, refusal: refusal_of(printed) };
                assert(added =~= before.skip(att0.len() as int).push(last));
                assert(out.take(k as int + 1) =~= out.take(k as int).push(out[k as int]));
                if printed is Ok {
                    assert(added =~= accepted(out.take(k as int + 1)));
                } else {
                    assert(added =~= accepted(out.take(k as int)).push(
                        Attempt {
                            case: out[k as int].0,
                            value: out[k as int].1,
                            refusal: refusal_of(printed),
                        },
                    ));
                }
            }
            match printed {
                Ok(()) => {},
                Err(e) => {
                    return Err((c, e));
                },
            }
            k = k + 1;
            proof {
                assert(ready@ =~= out.skip(k as int));
            }
        }
        proof {
            assert(out.take(k as int) =~= out);
        }
        Ok(())
    }

    /// Whether no result is held back.
    pub fn is_drained(&self) -> (r: bool)
        ensures
            r == (self.held().dom().len() == 0),
    {
        self.pending.is_empty()
    }
}

} // verus!