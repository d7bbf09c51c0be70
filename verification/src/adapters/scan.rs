//! `Scan`: a state kept across the lends, and what a closure makes of the
//! state and each lend handed out until it gives `None`.
use vstd::prelude::*;

use crate::spec::{hint_ok, suffix};
use crate::fallible::{FallibleLender, FallibleLending};
use crate::traits::{Lender, Lending};

verus! {

/// A lender that hands each lend of the underlying lender to `f` together
/// with a mutable borrow of the state, and hands out what `f` gives.
///
/// `f` may change the state and may act differently from one call to the
/// next, so each call says what the one call of `f` it made did: what it
/// gave and what it left in the state when the borrow ended. The lends must
/// not borrow from the underlying lender.
pub struct Scan<L, St, F> {
    pub lender: L,
    pub state: St,
    pub f: F,
}

impl<L, St, F> Scan<L, St, F> {
    /// Scans `lender` with `f`, starting from `state`.
    pub fn new(lender: L, state: St, f: F) -> (r: Scan<L, St, F>)
        ensures
            r.lender == lender,
            r.state == state,
            r.f == f,
    {
        Scan { lender, state, f }
    }

    /// Returns the inner lender.
    pub fn into_inner(self) -> (r: L)
        ensures
            r == self.lender,
    {
        self.lender
    }

    /// Returns the inner lender, the state and the closure.
    pub fn into_parts(self) -> (r: (L, St, F))
        ensures
            r == (self.lender, self.state, self.f),
    {
        (self.lender, self.state, self.f)
    }
}

impl<L, St, F, T, B> Scan<L, St, F>
    where
        L: Lender + for<'all> Lending<'all, Lend = T>,
        F: FnMut((&mut St, T)) -> Option<B>,
{
    /// Takes the next lend and hands out what `f` makes of it and the state;
    /// `None` when the lender is exhausted, and then `f` is not called and
    /// the state stays.
    pub fn next(&mut self) -> (r: Option<B>)
        requires
            old(self).lender.wf(),
            forall|m: &mut St, x: T| call_requires(old(self).f, ((m, x),)),
        ensures
            final(self).lender.wf(),
            final(self).f == old(self).f,
            final(self).lender.lends() == suffix(old(self).lender.lends(), 1),
            old(self).lender.lends().len() == 0 ==> r is None && final(self).state == old(self).state,
            old(self).lender.lends().len() > 0 ==> exists|m: &mut St|
                *m == old(self).state && *final(m) == final(self).state && #[trigger] call_ensures(
                    old(self).f,
                    ((m, old(self).lender.lends()[0]),),
                    r,
                ),
    {
        let ghost s = self.lender.lends();
        proof {
            if s.len() > 0 {
                assert(s.drop_first() =~= suffix(s, 1));
            }
        }
        let x = match self.lender.next() {
            Some(x) => x,
            None => {
                return None;
            },
        };
        (self.f)((&mut self.state, x))
    }

    /// No lower bound, as `f` may stop at once, and the upper bound of the
    /// underlying lender.
    pub fn size_hint(&self) -> (r: (usize, Option<usize>))
        requires
            self.lender.wf(),
        ensures
            r == (0usize, self.lender.hint().1),
            hint_ok(self.lender.lends().len(), r),
    {
        let (_, upper) = self.lender.size_hint();
        (0, upper)
    }
}


impl<L, St, F, T, B> Scan<L, St, F>
    where
        L: FallibleLender + for<'all> FallibleLending<'all, Lend = T>,
        F: FnMut((&mut St, T)) -> Result<Option<B>, L::Error>,
{
    /// Takes the next outcome of a fallible lender; an error is handed out,
    /// and a lend is handed to `f` with the state, whose result is handed
    /// out; `Ok(None)` when the lender has no outcome left. `f` is called only
    /// on a lend.
    pub fn fallible_next(&mut self) -> (r: Result<Option<B>, L::Error>)
        requires
            old(self).lender.wf(),
            forall|m: &mut St, x: T| call_requires(old(self).f, ((m, x),)),
        ensures
            final(self).lender.wf(),
            final(self).f == old(self).f,
            final(self).lender.outcomes() == suffix(old(self).lender.outcomes(), 1),
            old(self).lender.outcomes().len() == 0 ==> r == Ok::<Option<B>, L::Error>(None) && final(self).state
                == old(self).state,
            old(self).lender.outcomes().len() > 0 ==> match old(self).lender.outcomes()[0] {
                Err(e) => r == Err::<Option<B>, L::Error>(e) && final(self).state == old(self).state,
                Ok(x) => exists|m: &mut St|
                    *m == old(self).state && *final(m) == final(self).state && #[trigger] call_ensures(
                        old(self).f,
                        ((m, x),),
                        r,
                    ),
            },
    {
        let ghost s = self.lender.outcomes();
        proof {
            if s.len() > 0 {
                assert(s.drop_first() =~= suffix(s, 1));
            }
        }
        let x = match self.lender.next() {
            Ok(Some(x)) => x,
            Ok(None) => {
                return Ok(None);
            },
            Err(e) => {
                return Err(e);
            },
        };
        (self.f)((&mut self.state, x))
    }
}

} // verus!
