//! `MapWhile` over a fallible lender, with a closure that may fail.
use vstd::prelude::*;

use crate::adapters::map_while::MapWhile;
use crate::fallible::{FallibleLend, FallibleLender, FallibleLending, FallibleSpecLend};
use crate::spec::{fn_called, fn_out, fn_pure, suffix};

verus! {

/// The values that `f` gives on the lends of `s`, up to the first `None`; an
/// error of the lender, or of `f`, is handed out in its place.
pub open spec fn mapped_while_outcomes<A, B, E, F: FnMut(A) -> Result<Option<B>, E>>(
    f: F,
    s: Seq<Result<A, E>>,
) -> Seq<Result<B, E>>
    decreases s.len(),
{
    if s.len() == 0 {
        Seq::empty()
    } else {
        let rest = mapped_while_outcomes(f, s.drop_first());
        match s[0] {
            Err(e) => seq![Err(e)] + rest,
            Ok(x) => match fn_out(f, x) {
                Err(e) => seq![Err(e)] + rest,
                Ok(Some(b)) => seq![Ok(b)] + rest,
                Ok(None) => Seq::empty(),
            },
        }
    }
}

/// `mapped_while_outcomes` never gives more outcomes than it was given.
pub proof fn lemma_mapped_while_outcomes_len<A, B, E, F: FnMut(A) -> Result<Option<B>, E>>(
    f: F,
    s: Seq<Result<A, E>>,
)
    ensures
        mapped_while_outcomes(f, s).len() <= s.len(),
    decreases s.len(),
{
    if s.len() > 0 {
        lemma_mapped_while_outcomes_len(f, s.drop_first());
    }
}

/// What a fallible map-while hands out for the outcome `o` when the call of
/// `p` on its lend, if any, gave `v`.
pub open spec fn map_while_step<A, B, E, P: FnMut(A) -> Result<Option<B>, E>>(
    p: P,
    o: Result<A, E>,
    v: Result<Option<B>, E>,
    r: Result<Option<B>, E>,
) -> bool {
    match o {
        Err(e) => r == Err::<Option<B>, E>(e),
        Ok(x) => call_ensures(p, (x,), v) && match v {
            Ok(Some(y)) => r == Ok::<Option<B>, E>(Some(y)),
            Ok(None) => r == Ok::<Option<B>, E>(None),
            Err(e) => r == Err::<Option<B>, E>(e),
        },
    }
}

impl<L: FallibleLender, P, B> MapWhile<L, P>
    where P: for<'all> FnMut(FallibleLend<'all, L>) -> Result<Option<B>, L::Error>,
{
    /// The fallible lender's `next`, said of the one call of the closure it
    /// makes: the value it makes from the next lend while it gives `Some`;
    /// once a call has given `None`, `Ok(None)` without touching the lender.
    /// The closure may give different results for equal lends.
    pub fn fallible_next(&mut self) -> (r: Result<Option<B>, L::Error>)
        requires
            old(self).lender.wf(),
            forall|a: FallibleSpecLend<L>| call_requires(old(self).predicate, (a,)),
        ensures
            final(self).lender.wf(),
            final(self).predicate == old(self).predicate,
            old(self).done ==> r == Ok::<Option<B>, L::Error>(None) && final(self).done && final(self).lender
                == old(self).lender,
            !old(self).done ==> final(self).lender.outcomes() == suffix(old(self).lender.outcomes(), 1),
            !old(self).done && old(self).lender.outcomes().len() == 0 ==> r == Ok::<Option<B>, L::Error>(None)
                && !final(self).done,
            !old(self).done && old(self).lender.outcomes().len() > 0 ==> (final(self).done <==> (old(self).lender.outcomes()[0] is Ok
                && r == Ok::<Option<B>, L::Error>(None))),
            !old(self).done && old(self).lender.outcomes().len() > 0 ==> exists|v: Result<Option<B>, L::Error>|
                #[trigger] map_while_step(old(self).predicate, old(self).lender.outcomes()[0], v, r),
    {
        if self.done {
            return Ok(None);
        }
        let ghost s = self.lender.outcomes();
        let ghost p = self.predicate;
        proof {
            if s.len() > 0 {
                assert(s.drop_first() =~= suffix(s, 1));
            }
        }
        let o = self.lender.next();
        match o {
            Ok(Some(x)) => {
                let made = (self.predicate)(x);
                proof {
                    assert(call_ensures(p, (x,), made));
                }
                match made {
                    Ok(Some(y)) => {
                        proof {
                            assert(map_while_step(p, s[0], made, Ok::<Option<B>, L::Error>(Some(y))));
                        }
                        Ok(Some(y))
                    },
                    Ok(None) => {
                        self.done = true;
                        proof {
                            assert(map_while_step(p, s[0], made, Ok::<Option<B>, L::Error>(None)));
                        }
                        Ok(None)
                    },
                    Err(e) => {
                        proof {
                            assert(map_while_step(p, s[0], made, Err::<Option<B>, L::Error>(e)));
                        }
                        Err(e)
                    },
                }
            },
            Ok(None) => Ok(None),
            Err(e) => {
                proof {
                    let w: Result<Option<B>, L::Error> = Err(e);
                    assert(map_while_step(p, s[0], w, Err::<Option<B>, L::Error>(e)));
                }
                Err(e)
            },
        }
    }
}

impl<'lend, L: FallibleLender, P, B> FallibleLending<'lend> for MapWhile<L, P>
    where P: FnMut(FallibleLend<'lend, L>) -> Result<Option<B>, L::Error>,
{
    type Lend = B;
}

impl<L: FallibleLender, P, B> FallibleLender for MapWhile<L, P>
    where P: for<'all> FnMut(FallibleLend<'all, L>) -> Result<Option<B>, L::Error>,
{
    type Error = L::Error;

    open spec fn wf(&self) -> bool {
        self.lender.wf() && fn_pure::<FallibleSpecLend<L>, Result<Option<B>, L::Error>, P>(self.predicate)
    }

    open spec fn outcomes(&self) -> Seq<Result<B, L::Error>> {
        if self.done {
            Seq::empty()
        } else {
            mapped_while_outcomes::<FallibleSpecLend<L>, B, L::Error, P>(self.predicate, self.lender.outcomes())
        }
    }

    fn next(&mut self) -> (r: Result<Option<B>, L::Error>)
        ensures
            final(self).predicate == old(self).predicate,
            !old(self).done && old(self).lender.outcomes().len() > 0 ==> (old(self).lender.outcomes()[0] matches Ok(x)
                ==> fn_called::<FallibleSpecLend<L>, Result<Option<B>, L::Error>, P>(old(self).predicate, x)),
    {
        if self.done {
            return Ok(None);
        }
        let ghost s = self.lender.outcomes();
        proof {
            if s.len() > 0 {
                let rest = mapped_while_outcomes::<FallibleSpecLend<L>, B, L::Error, P>(self.predicate, s.drop_first());
                assert(forall|o: Result<B, L::Error>| #[trigger] (seq![o] + rest).drop_first() == rest);
            }
        }
        let o = self.lender.next();
        match o {
            Ok(Some(x)) => {
                let made = (self.predicate)(x);
                proof {
                    assert(call_ensures(self.predicate, (x,), made));
                }
                match made {
                    Ok(Some(y)) => Ok(Some(y)),
                    Ok(None) => {
                        self.done = true;
                        Ok(None)
                    },
                    Err(e) => Err(e),
                }
            },
            Ok(None) => Ok(None),
            Err(e) => Err(e),
        }
    }

    open spec fn hint(&self) -> (usize, Option<usize>) {
        if self.done {
            (0, Some(0))
        } else {
            (0, self.lender.hint().1)
        }
    }

    fn size_hint(&self) -> (r: (usize, Option<usize>)) {
        if self.done {
            return (0, Some(0));
        }
        proof {
            lemma_mapped_while_outcomes_len::<FallibleSpecLend<L>, B, L::Error, P>(
                self.predicate,
                self.lender.outcomes(),
            );
        }
        let (_, upper) = self.lender.size_hint();
        (0, upper)
    }
}

} // verus!

verus! {

/// What a `MapWhile` over a fallible lender is: well formed exactly when its
/// lender is and its closure is deterministic.
pub proof fn lemma_fallible_map_while_model<L: FallibleLender, P, B>(m: MapWhile<L, P>)
    where P: for<'all> FnMut(FallibleLend<'all, L>) -> Result<Option<B>, L::Error>,
    ensures
        FallibleLender::wf(&m) == (m.lender.wf() && fn_pure::<FallibleSpecLend<L>, Result<Option<B>, L::Error>, P>(m.predicate)),
        FallibleLender::outcomes(&m) == if m.done {
            Seq::empty()
        } else {
            mapped_while_outcomes::<FallibleSpecLend<L>, B, L::Error, P>(m.predicate, m.lender.outcomes())
        },
{
}

} // verus!
