//! `MapLend` over a fallible lender: each lend passed through a closure that
//! may fail.
use vstd::prelude::*;

use crate::adapters::map::MapLend;
use crate::fallible::{
    DoubleEndedFallibleLender, ExactSizeFallibleLender, FallibleLend, FallibleLender, FallibleLending,
    FallibleSpecLend, FusedFallibleLender,
};
use crate::spec::{fn_called, fn_out, fn_pure, suffix};

verus! {

/// What an outcome becomes when its lend, if it is one, goes through `f`.
pub open spec fn map_ok<A, B, E, F: FnMut(A) -> Result<B, E>>(f: F, o: Result<A, E>) -> Result<B, E> {
    match o {
        Ok(x) => fn_out(f, x),
        Err(e) => Err(e),
    }
}

/// The outcomes of `s`, each lend passed through `f`.
pub open spec fn map_oks<A, B, E, F: FnMut(A) -> Result<B, E>>(f: F, s: Seq<Result<A, E>>) -> Seq<Result<B, E>> {
    s.map_values(|o: Result<A, E>| map_ok(f, o))
}

/// What a fallible map hands out for the outcome `o` when the call of `f` on
/// its lend, if any, gave `v`: the error, the value made, or the call's error.
pub open spec fn map_step<A, B, E, F: FnMut(A) -> Result<B, E>>(
    f: F,
    o: Result<A, E>,
    v: Result<B, E>,
    r: Result<Option<B>, E>,
) -> bool {
    match o {
        Err(e) => r == Err::<Option<B>, E>(e),
        Ok(x) => call_ensures(f, (x,), v) && r == match v {
            Ok(y) => Ok::<Option<B>, E>(Some(y)),
            Err(e) => Err::<Option<B>, E>(e),
        },
    }
}

impl<L: FallibleLender, F, B> MapLend<L, F>
    where F: for<'all> FnMut(FallibleLend<'all, L>) -> Result<B, L::Error>,
{
    /// The fallible lender's `next`, said of the one call of the closure it
    /// makes: the next outcome, with a lend turned into what the call on it
    /// gives. The closure may give different results for equal lends.
    pub fn fallible_next(&mut self) -> (r: Result<Option<B>, L::Error>)
        requires
            old(self).lender.wf(),
            forall|a: FallibleSpecLend<L>| call_requires(old(self).f, (a,)),
        ensures
            final(self).lender.wf(),
            final(self).f == old(self).f,
            final(self).lender.outcomes() == suffix(old(self).lender.outcomes(), 1),
            old(self).lender.outcomes().len() == 0 ==> r == Ok::<Option<B>, L::Error>(None),
            old(self).lender.outcomes().len() > 0 ==> exists|v: Result<B, L::Error>|
                #[trigger] map_step(old(self).f, old(self).lender.outcomes()[0], v, r),
    {
        let ghost s = self.lender.outcomes();
        let ghost f0 = self.f;
        proof {
            if s.len() > 0 {
                assert(s.drop_first() =~= suffix(s, 1));
            }
        }
        let o = self.lender.next();
        match o {
            Ok(Some(x)) => {
                let made = (self.f)(x);
                proof {
                    assert(call_ensures(f0, (x,), made));
                }
                let r = match made {
                    Ok(y) => Ok(Some(y)),
                    Err(e) => Err(e),
                };
                proof {
                    assert(map_step(f0, s[0], made, r));
                }
                r
            },
            Ok(None) => Ok(None),
            Err(e) => {
                proof {
                    let w: Result<B, L::Error> = Err(e);
                    assert(map_step(f0, s[0], w, Err::<Option<B>, L::Error>(e)));
                }
                Err(e)
            },
        }
    }
}

impl<'lend, L: FallibleLender, F, B> FallibleLending<'lend> for MapLend<L, F>
    where F: FnMut(FallibleLend<'lend, L>) -> Result<B, L::Error>,
{
    type Lend = B;
}

impl<L: FallibleLender, F, B> FallibleLender for MapLend<L, F>
    where F: for<'all> FnMut(FallibleLend<'all, L>) -> Result<B, L::Error>,
{
    type Error = L::Error;

    open spec fn wf(&self) -> bool {
        self.lender.wf() && fn_pure::<FallibleSpecLend<L>, Result<B, L::Error>, F>(self.f)
    }

    open spec fn outcomes(&self) -> Seq<Result<B, L::Error>> {
        map_oks::<FallibleSpecLend<L>, B, L::Error, F>(self.f, self.lender.outcomes())
    }

    fn next(&mut self) -> (r: Result<Option<B>, L::Error>)
        ensures
            final(self).f == old(self).f,
            old(self).lender.outcomes().len() > 0 ==> final(self).lender.outcomes() == old(self).lender.outcomes().drop_first(),
            old(self).lender.outcomes().len() == 0 ==> final(self).lender.outcomes().len() == 0,
            old(self).lender.outcomes().len() > 0 ==> (old(self).lender.outcomes()[0] matches Ok(x) ==> fn_called::<
                FallibleSpecLend<L>,
                Result<B, L::Error>,
                F,
            >(old(self).f, x)),
    {
        proof {
            let s = self.lender.outcomes();
            if s.len() > 0 {
                assert(map_oks::<FallibleSpecLend<L>, B, L::Error, F>(self.f, s.drop_first())
                    == map_oks::<FallibleSpecLend<L>, B, L::Error, F>(self.f, s).drop_first());
            }
        }
        let o = self.lender.next();
        match o {
            Ok(Some(x)) => {
                let made = (self.f)(x);
                proof {
                    assert(call_ensures(self.f, (x,), made));
                }
                match made {
                    Ok(y) => Ok(Some(y)),
                    Err(e) => Err(e),
                }
            },
            Ok(None) => Ok(None),
            Err(e) => Err(e),
        }
    }

    open spec fn hint(&self) -> (usize, Option<usize>) {
        self.lender.hint()
    }

    fn size_hint(&self) -> (r: (usize, Option<usize>)) {
        self.lender.size_hint()
    }
}

impl<L: DoubleEndedFallibleLender, F, B> DoubleEndedFallibleLender for MapLend<L, F>
    where F: for<'all> FnMut(FallibleLend<'all, L>) -> Result<B, L::Error>,
{
    fn next_back(&mut self) -> (r: Result<Option<B>, L::Error>) {
        proof {
            let s = self.lender.outcomes();
            if s.len() > 0 {
                assert(map_oks::<FallibleSpecLend<L>, B, L::Error, F>(self.f, s.drop_last())
                    == map_oks::<FallibleSpecLend<L>, B, L::Error, F>(self.f, s).drop_last());
            }
        }
        let o = self.lender.next_back();
        match o {
            Ok(Some(x)) => match (self.f)(x) {
                Ok(y) => Ok(Some(y)),
                Err(e) => Err(e),
            },
            Ok(None) => Ok(None),
            Err(e) => Err(e),
        }
    }
}

impl<L: ExactSizeFallibleLender, F, B> ExactSizeFallibleLender for MapLend<L, F>
    where F: for<'all> FnMut(FallibleLend<'all, L>) -> Result<B, L::Error>,
{
    fn len(&self) -> (r: usize) {
        self.lender.len()
    }
}

impl<L: FusedFallibleLender, F, B> FusedFallibleLender for MapLend<L, F>
    where F: for<'all> FnMut(FallibleLend<'all, L>) -> Result<B, L::Error>,
{
}

} // verus!

verus! {

/// What a `MapLend` over a fallible lender is: well formed exactly when its
/// lender is and its closure is deterministic.
pub proof fn lemma_fallible_map_model<L: FallibleLender, F, B>(m: MapLend<L, F>)
    where F: for<'all> FnMut(FallibleLend<'all, L>) -> Result<B, L::Error>,
    ensures
        FallibleLender::wf(&m) == (m.lender.wf() && fn_pure::<FallibleSpecLend<L>, Result<B, L::Error>, F>(m.f)),
        FallibleLender::outcomes(&m) == map_oks::<FallibleSpecLend<L>, B, L::Error, F>(m.f, m.lender.outcomes()),
{
}

} // verus!
