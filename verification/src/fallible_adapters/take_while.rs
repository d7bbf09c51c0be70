//! `TakeWhile` over a fallible lender, with a predicate that may fail.
use vstd::prelude::*;

use crate::adapters::take_while::TakeWhile;
use crate::fallible::{FallibleLend, FallibleLender, FallibleLending, FallibleSpecLend, FusedFallibleLender};
use crate::spec::{ref_called, ref_out, ref_pure, suffix};

verus! {

/// The outcomes of `s` up to the first lend that `p` rejects: an error of the
/// lender, or of `p` on a lend, is handed out in its place and the taking
/// goes on.
pub open spec fn taken_outcomes<T, E, P: FnMut(&T) -> Result<bool, E>>(p: P, s: Seq<Result<T, E>>) -> Seq<
    Result<T, E>,
>
    decreases s.len(),
{
    if s.len() == 0 {
        Seq::empty()
    } else {
        let rest = taken_outcomes(p, s.drop_first());
        match s[0] {
            Err(e) => seq![Err(e)] + rest,
            Ok(x) => match ref_out(p, x) {
                Err(e) => seq![Err(e)] + rest,
                Ok(true) => seq![Ok(x)] + rest,
                Ok(false) => Seq::empty(),
            },
        }
    }
}

/// `taken_outcomes` never gives more outcomes than it was given.
pub proof fn lemma_taken_outcomes_len<T, E, P: FnMut(&T) -> Result<bool, E>>(p: P, s: Seq<Result<T, E>>)
    ensures
        taken_outcomes(p, s).len() <= s.len(),
    decreases s.len(),
{
    if s.len() > 0 {
        lemma_taken_outcomes_len(p, s.drop_first());
    }
}

/// What a fallible take-while hands out for the outcome `o` when the call of
/// `p` on its lend, if any, gave `v`.
pub open spec fn take_while_step<T, E, P: FnMut(&T) -> Result<bool, E>>(
    p: P,
    o: Result<T, E>,
    v: Result<bool, E>,
    r: Result<Option<T>, E>,
) -> bool {
    match o {
        Err(e) => r == Err::<Option<T>, E>(e),
        Ok(x) => call_ensures(p, (&x,), v) && match v {
            Ok(true) => r == Ok::<Option<T>, E>(Some(x)),
            Ok(false) => r == Ok::<Option<T>, E>(None),
            Err(e) => r == Err::<Option<T>, E>(e),
        },
    }
}

impl<L: FallibleLender, P> TakeWhile<L, P>
    where P: FnMut(&FallibleLend<'_, L>) -> Result<bool, L::Error>,
{
    /// The fallible lender's `next`, said of the one call of the predicate it
    /// makes: the next lend while a call accepts it; once a call has rejected
    /// one, `Ok(None)` without touching the lender. The predicate may answer
    /// differently from one call to the next.
    pub fn fallible_next(&mut self) -> (r: Result<Option<FallibleLend<'_, L>>, L::Error>)
        requires
            old(self).lender.wf(),
            forall|a: FallibleSpecLend<L>| call_requires(old(self).predicate, (&a,)),
        ensures
            final(self).lender.wf(),
            final(self).predicate == old(self).predicate,
            old(self).flag ==> r == Ok::<Option<FallibleSpecLend<L>>, L::Error>(None) && final(self).flag
                && final(self).lender == old(self).lender,
            !old(self).flag ==> final(self).lender.outcomes() == suffix(old(self).lender.outcomes(), 1),
            !old(self).flag && old(self).lender.outcomes().len() == 0 ==> r == Ok::<
                Option<FallibleSpecLend<L>>,
                L::Error,
            >(None) && !final(self).flag,
            !old(self).flag && old(self).lender.outcomes().len() > 0 ==> (final(self).flag <==> (old(self).lender.outcomes()[0] is Ok
                && r == Ok::<Option<FallibleSpecLend<L>>, L::Error>(None))),
            !old(self).flag && old(self).lender.outcomes().len() > 0 ==> exists|v: Result<bool, L::Error>|
                #[trigger] take_while_step(old(self).predicate, old(self).lender.outcomes()[0], v, r),
    {
        if self.flag {
            return Ok(None);
        }
        let ghost s = self.lender.outcomes();
        let ghost p = self.predicate;
        proof {
            if s.len() > 0 {
                assert(s.drop_first() =~= suffix(s, 1));
            }
        }
        let x = match self.lender.next() {
            Ok(Some(x)) => x,
            Ok(None) => {
                return Ok(None);
            },
            Err(e) => {
                proof {
                    let w: Result<bool, L::Error> = Err(e);
                    assert(take_while_step(p, s[0], w, Err::<Option<FallibleSpecLend<L>>, L::Error>(e)));
                }
                return Err(e);
            },
        };
        let verdict = (self.predicate)(&x);
        proof {
            assert(call_ensures(p, (&x,), verdict));
        }
        match verdict {
            Ok(true) => {
                proof {
                    assert(take_while_step(p, s[0], verdict, Ok::<Option<FallibleSpecLend<L>>, L::Error>(Some(x))));
                }
                Ok(Some(x))
            },
            Ok(false) => {
                self.flag = true;
                proof {
                    assert(take_while_step(p, s[0], verdict, Ok::<Option<FallibleSpecLend<L>>, L::Error>(None)));
                }
                Ok(None)
            },
            Err(e) => {
                proof {
                    assert(take_while_step(p, s[0], verdict, Err::<Option<FallibleSpecLend<L>>, L::Error>(e)));
                }
                Err(e)
            },
        }
    }
}

impl<'lend, L: FallibleLender, P> FallibleLending<'lend> for TakeWhile<L, P> {
    type Lend = FallibleLend<'lend, L>;
}

impl<L: FallibleLender, P> FallibleLender for TakeWhile<L, P>
    where P: FnMut(&FallibleLend<'_, L>) -> Result<bool, L::Error>,
{
    type Error = L::Error;

    open spec fn wf(&self) -> bool {
        self.lender.wf() && ref_pure::<FallibleSpecLend<L>, Result<bool, L::Error>, P>(self.predicate)
    }

    open spec fn outcomes(&self) -> Seq<Result<FallibleSpecLend<L>, L::Error>> {
        if self.flag {
            Seq::empty()
        } else {
            taken_outcomes(self.predicate, self.lender.outcomes())
        }
    }

    fn next(&mut self) -> (r: Result<Option<FallibleLend<'_, L>>, L::Error>)
        ensures
            final(self).predicate == old(self).predicate,
            !old(self).flag && old(self).lender.outcomes().len() > 0 ==> (old(self).lender.outcomes()[0] matches Ok(x)
                ==> ref_called::<FallibleSpecLend<L>, Result<bool, L::Error>, P>(old(self).predicate, x)),
    {
        if !self.flag {
            let ghost s = self.lender.outcomes();
            proof {
                if s.len() > 0 {
                    let rest = taken_outcomes(self.predicate, s.drop_first());
                    assert(forall|o: Result<FallibleSpecLend<L>, L::Error>| #[trigger] (seq![o] + rest).drop_first()
                        == rest);
                }
            }
            let x = match self.lender.next() {
                Ok(Some(x)) => x,
                Ok(None) => {
                    return Ok(None);
                },
                Err(e) => {
                    return Err(e);
                },
            };
            let verdict = (self.predicate)(&x);
            proof {
                assert(call_ensures(self.predicate, (&x,), verdict));
            }
            match verdict {
                Ok(true) => {
                    return Ok(Some(x));
                },
                Ok(false) => {},
                Err(e) => {
                    return Err(e);
                },
            }
            self.flag = true;
        }
        Ok(None)
    }

    open spec fn hint(&self) -> (usize, Option<usize>) {
        if self.flag {
            (0, Some(0))
        } else {
            (0, self.lender.hint().1)
        }
    }

    fn size_hint(&self) -> (r: (usize, Option<usize>)) {
        if self.flag {
            (0, Some(0))
        } else {
            proof {
                lemma_taken_outcomes_len(self.predicate, self.lender.outcomes());
            }
            let (_, upper) = self.lender.size_hint();
            (0, upper)
        }
    }
}

impl<L: FallibleLender, P> FusedFallibleLender for TakeWhile<L, P>
    where P: FnMut(&FallibleLend<'_, L>) -> Result<bool, L::Error>,
{
}

} // verus!

verus! {

/// What a `TakeWhile` over a fallible lender is: well formed exactly when its
/// lender is and its predicate is deterministic.
pub proof fn lemma_fallible_take_while_model<L: FallibleLender, P>(t: TakeWhile<L, P>)
    where P: FnMut(&FallibleLend<'_, L>) -> Result<bool, L::Error>,
    ensures
        FallibleLender::wf(&t) == (t.lender.wf() && ref_pure::<FallibleSpecLend<L>, Result<bool, L::Error>, P>(t.predicate)),
        FallibleLender::outcomes(&t) == if t.flag {
            Seq::empty()
        } else {
            taken_outcomes(t.predicate, t.lender.outcomes())
        },
{
}

} // verus!
