//! `MapLend`: every lend passed through a closure.
use vstd::prelude::*;

use crate::spec::{fn_out, fn_pure, suffix};
use crate::traits::{DoubleEndedLender, ExactSizeLender, FusedLender, Lend, Lender, Lending, SpecLend};

verus! {

/// The lends of `s`, each passed through `f`.
pub open spec fn mapped<A, B, F: FnMut(A) -> B>(f: F, s: Seq<A>) -> Seq<B> {
    s.map_values(|a: A| fn_out(f, a))
}

/// A lender that hands out the lends of the underlying lender passed through
/// the closure `f`.
pub struct MapLend<L, F> {
    pub lender: L,
    pub f: F,
}

impl<L, F> MapLend<L, F> {
    /// Maps the lends of `lender` through `f`.
    pub fn new(lender: L, f: F) -> (r: MapLend<L, F>)
        ensures
            r.lender == lender,
            r.f == f,
    {
        MapLend { lender, f }
    }

    /// Returns the inner lender.
    pub fn into_inner(self) -> (r: L)
        ensures
            r == self.lender,
    {
        self.lender
    }

    /// Returns the inner lender and the closure.
    pub fn into_parts(self) -> (r: (L, F))
        ensures
            r == (self.lender, self.f),
    {
        (self.lender, self.f)
    }
}

impl<L: Lender, F, B> MapLend<L, F>
    where F: for<'all> FnMut(Lend<'all, L>) -> B,
{
    /// Hands out the value that one call of the closure makes from the next
    /// lend. The closure may give different values for equal lends: this says
    /// what the one call it made gave.
    pub fn next(&mut self) -> (r: Option<B>)
        requires
            old(self).lender.wf(),
            forall|a: SpecLend<L>| call_requires(old(self).f, (a,)),
        ensures
            final(self).lender.wf(),
            final(self).f == old(self).f,
            final(self).lender.lends() == suffix(old(self).lender.lends(), 1),
            old(self).lender.lends().len() > 0 ==> (r matches Some(y) && call_ensures(
                old(self).f,
                (old(self).lender.lends()[0],),
                y,
            )),
            old(self).lender.lends().len() == 0 ==> r is None,
    {
        let ghost s = self.lender.lends();
        proof {
            if s.len() > 0 {
                assert(s.drop_first() =~= suffix(s, 1));
            }
        }
        let o = self.lender.next();
        match o {
            Some(x) => {
                let y = (self.f)(x);
                proof {
                    assert(call_ensures(self.f, (x,), y));
                }
                Some(y)
            },
            None => None,
        }
    }
}

impl<'lend, L: Lender, F, B> Lending<'lend> for MapLend<L, F>
    where F: FnMut(Lend<'lend, L>) -> B,
{
    type Lend = B;
}

impl<L: Lender, F, B> Lender for MapLend<L, F>
    where F: for<'all> FnMut(Lend<'all, L>) -> B,
{
    open spec fn wf(&self) -> bool {
        self.lender.wf() && fn_pure::<SpecLend<L>, B, F>(self.f)
    }

    open spec fn lends(&self) -> Seq<B> {
        mapped::<SpecLend<L>, B, F>(self.f, self.lender.lends())
    }

    fn next(&mut self) -> (r: Option<B>)
        ensures
            final(self).f == old(self).f,
            final(self).lender.lends() == suffix(old(self).lender.lends(), 1),
            old(self).lender.lends().len() > 0 ==> (r matches Some(y) && call_ensures(
                old(self).f,
                (old(self).lender.lends()[0],),
                y,
            )),
    {
        proof {
            let s = self.lender.lends();
            if s.len() > 0 {
                assert(s.drop_first() =~= suffix(s, 1));
            }
            if s.len() > 0 {
                assert(mapped::<SpecLend<L>, B, F>(self.f, s.drop_first())
                    == mapped::<SpecLend<L>, B, F>(self.f, s).drop_first());
            }
        }
        let o = self.lender.next();
        match o {
            Some(x) => Some((self.f)(x)),
            None => None,
        }
    }

    open spec fn hint(&self) -> (usize, Option<usize>) {
        self.lender.hint()
    }

    fn size_hint(&self) -> (r: (usize, Option<usize>)) {
        self.lender.size_hint()
    }
}

impl<L: DoubleEndedLender, F, B> DoubleEndedLender for MapLend<L, F>
    where F: for<'all> FnMut(Lend<'all, L>) -> B,
{
    fn next_back(&mut self) -> (r: Option<B>) {
        proof {
            let s = self.lender.lends();
            if s.len() > 0 {
                assert(mapped::<SpecLend<L>, B, F>(self.f, s.drop_last())
                    == mapped::<SpecLend<L>, B, F>(self.f, s).drop_last());
            }
        }
        let o = self.lender.next_back();
        match o {
            Some(x) => Some((self.f)(x)),
            None => None,
        }
    }
}

impl<L: ExactSizeLender, F, B> ExactSizeLender for MapLend<L, F>
    where F: for<'all> FnMut(Lend<'all, L>) -> B,
{
    fn len(&self) -> (r: usize) {
        self.lender.len()
    }

    fn is_empty(&self) -> (r: bool) {
        self.lender.is_empty()
    }
}

impl<L: FusedLender, F, B> FusedLender for MapLend<L, F>
    where F: for<'all> FnMut(Lend<'all, L>) -> B,
{
}

} // verus!

verus! {

/// What a `MapLend` is: well formed exactly when its lender is and its closure
/// is deterministic, and it hands out the closure's results on the lends.
pub proof fn lemma_map_model<L: Lender, F, B>(m: MapLend<L, F>)
    where F: for<'all> FnMut(Lend<'all, L>) -> B,
    ensures
        m.wf() == (m.lender.wf() && fn_pure::<SpecLend<L>, B, F>(m.f)),
        m.lends() == mapped::<SpecLend<L>, B, F>(m.f, m.lender.lends()),
{
}

} // verus!
