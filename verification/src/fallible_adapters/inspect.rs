//! `Inspect` over a fallible lender: a closure, which may fail, called on
//! every lend before it is handed out.
use vstd::prelude::*;

use crate::adapters::inspect::Inspect;
use crate::fallible::{
    DoubleEndedFallibleLender, ExactSizeFallibleLender, FallibleLend, FallibleLender, FallibleLending,
    FallibleSpecLend, FusedFallibleLender,
};
use crate::spec::{ref_called, ref_out, ref_pure, suffix};

verus! {

/// What an outcome becomes when `f` inspects its lend: the lend, or the
/// error that `f` gives on it.
pub open spec fn inspected<T, E, F: FnMut(&T) -> Result<(), E>>(f: F, o: Result<T, E>) -> Result<T, E> {
    match o {
        Ok(x) => match ref_out(f, x) {
            Ok(_) => Ok(x),
            Err(e) => Err(e),
        },
        Err(e) => Err(e),
    }
}

/// The outcomes of `s` as `f` inspects them.
pub open spec fn inspected_all<T, E, F: FnMut(&T) -> Result<(), E>>(f: F, s: Seq<Result<T, E>>) -> Seq<Result<T, E>> {
    s.map_values(|o: Result<T, E>| inspected(f, o))
}

/// What a fallible inspection hands out for the outcome `o` when the call of
/// `f` on its lend, if any, gave `v`: the error, the lend, or the call's error.
pub open spec fn inspect_step<T, E, F: FnMut(&T) -> Result<(), E>>(
    f: F,
    o: Result<T, E>,
    v: Result<(), E>,
    r: Result<Option<T>, E>,
) -> bool {
    match o {
        Err(e) => r == Err::<Option<T>, E>(e),
        Ok(x) => call_ensures(f, (&x,), v) && match v {
            Ok(_) => r == Ok::<Option<T>, E>(Some(x)),
            Err(e) => r == Err::<Option<T>, E>(e),
        },
    }
}

impl<L: FallibleLender, F> Inspect<L, F>
    where F: FnMut(&FallibleLend<'_, L>) -> Result<(), L::Error>,
{
    /// The fallible lender's `next`, said of the one call of the closure it
    /// makes: the next outcome, with a lend turned into the error that the
    /// call on it gives, if it gives one. The closure may give different
    /// results for equal lends.
    pub fn fallible_next(&mut self) -> (r: Result<Option<FallibleLend<'_, L>>, L::Error>)
        requires
            old(self).lender.wf(),
            forall|a: FallibleSpecLend<L>| call_requires(old(self).f, (&a,)),
        ensures
            final(self).lender.wf(),
            final(self).f == old(self).f,
            final(self).lender.outcomes() == suffix(old(self).lender.outcomes(), 1),
            old(self).lender.outcomes().len() == 0 ==> r == Ok::<Option<FallibleSpecLend<L>>, L::Error>(None),
            old(self).lender.outcomes().len() > 0 ==> exists|v: Result<(), L::Error>|
                #[trigger] inspect_step(old(self).f, old(self).lender.outcomes()[0], v, r),
    {
        let ghost s = self.lender.outcomes();
        let ghost f0 = self.f;
        proof {
            if s.len() > 0 {
                assert(s.drop_first() =~= suffix(s, 1));
            }
        }
        let next = self.lender.next();
        match next {
            Ok(Some(x)) => {
                let seen = (self.f)(&x);
                proof {
                    assert(call_ensures(f0, (&x,), seen));
                }
                match seen {
                    Ok(()) => {
                        proof {
                            assert(inspect_step(f0, s[0], seen, Ok::<Option<FallibleSpecLend<L>>, L::Error>(Some(x))));
                        }
                        Ok(Some(x))
                    },
                    Err(e) => {
                        proof {
                            assert(inspect_step(f0, s[0], seen, Err::<Option<FallibleSpecLend<L>>, L::Error>(e)));
                        }
                        Err(e)
                    },
                }
            },
            Ok(None) => Ok(None),
            Err(e) => {
                proof {
                    assert(inspect_step(f0, s[0], Ok::<(), L::Error>(()), Err::<Option<FallibleSpecLend<L>>, L::Error>(e)));
                }
                Err(e)
            },
        }
    }
}

impl<'lend, L: FallibleLender, F> FallibleLending<'lend> for Inspect<L, F> {
    type Lend = FallibleLend<'lend, L>;
}

impl<L: FallibleLender, F> FallibleLender for Inspect<L, F>
    where F: FnMut(&FallibleLend<'_, L>) -> Result<(), L::Error>,
{
    type Error = L::Error;

    open spec fn wf(&self) -> bool {
        self.lender.wf() && ref_pure::<FallibleSpecLend<L>, Result<(), L::Error>, F>(self.f)
    }

    open spec fn outcomes(&self) -> Seq<Result<FallibleSpecLend<L>, L::Error>> {
        inspected_all(self.f, self.lender.outcomes())
    }

    fn next(&mut self) -> (r: Result<Option<FallibleLend<'_, L>>, L::Error>)
        ensures
            final(self).f == old(self).f,
            old(self).lender.outcomes().len() > 0 ==> (old(self).lender.outcomes()[0] matches Ok(x) ==> ref_called::<
                FallibleSpecLend<L>,
                Result<(), L::Error>,
                F,
            >(old(self).f, x)),
    {
        proof {
            let s = self.lender.outcomes();
            if s.len() > 0 {
                assert(inspected_all(self.f, s.drop_first()) == inspected_all(self.f, s).drop_first());
            }
        }
        let next = self.lender.next();
        match next {
            Ok(Some(x)) => {
                let seen = (self.f)(&x);
                proof {
                    assert(call_ensures(self.f, (&x,), seen));
                }
                match seen {
                    Ok(()) => Ok(Some(x)),
                    Err(e) => Err(e),
                }
            },
            Ok(None) => Ok(None),
            Err(e) => Err(e),
        }
    }

    open spec fn hint(&self) -> (usize, Option<usize>) {
        self.lender.hint()
    }

    fn size_hint(&self) -> (r: (usize, Option<usize>)) {
        self.lender.size_hint()
    }
}

impl<L: DoubleEndedFallibleLender, F> DoubleEndedFallibleLender for Inspect<L, F>
    where F: FnMut(&FallibleLend<'_, L>) -> Result<(), L::Error>,
{
    fn next_back(&mut self) -> (r: Result<Option<FallibleLend<'_, L>>, L::Error>) {
        proof {
            let s = self.lender.outcomes();
            if s.len() > 0 {
                assert(inspected_all(self.f, s.drop_last()) == inspected_all(self.f, s).drop_last());
            }
        }
        let next = self.lender.next_back();
        match next {
            Ok(Some(x)) => match (self.f)(&x) {
                Ok(()) => Ok(Some(x)),
                Err(e) => Err(e),
            },
            Ok(None) => Ok(None),
            Err(e) => Err(e),
        }
    }
}

impl<L: ExactSizeFallibleLender, F> ExactSizeFallibleLender for Inspect<L, F>
    where F: FnMut(&FallibleLend<'_, L>) -> Result<(), L::Error>,
{
    fn len(&self) -> (r: usize) {
        self.lender.len()
    }
}

impl<L: FusedFallibleLender, F> FusedFallibleLender for Inspect<L, F>
    where F: FnMut(&FallibleLend<'_, L>) -> Result<(), L::Error>,
{
}

} // verus!

verus! {

/// What an `Inspect` over a fallible lender is: well formed exactly when its
/// lender is and its closure is deterministic.
pub proof fn lemma_fallible_inspect_model<L: FallibleLender, F>(i: Inspect<L, F>)
    where F: FnMut(&FallibleLend<'_, L>) -> Result<(), L::Error>,
    ensures
        FallibleLender::wf(&i) == (i.lender.wf() && ref_pure::<FallibleSpecLend<L>, Result<(), L::Error>, F>(i.f)),
        FallibleLender::outcomes(&i) == inspected_all(i.f, i.lender.outcomes()),
{
}

} // verus!
