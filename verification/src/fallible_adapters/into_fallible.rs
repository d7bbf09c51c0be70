//! `IntoFallible`: a lender seen as a fallible lender that never fails.
use vstd::prelude::*;
use core::convert::Infallible;

use crate::fallible::{
    DoubleEndedFallibleLender, ExactSizeFallibleLender, FallibleLender, FallibleLending, FusedFallibleLender,
};
use crate::spec::next_post;
use crate::traits::{DoubleEndedLender, ExactSizeLender, FusedLender, Lend, Lender, SpecLend};

verus! {

/// Every element of `s` as a successful outcome.
pub open spec fn oks<T, E>(s: Seq<T>) -> Seq<Result<T, E>> {
    s.map_values(|x: T| Ok::<T, E>(x))
}

/// A fallible lender that hands out the lends of a lender and never fails.
pub struct IntoFallible<L> {
    pub lender: L,
}

impl<L> IntoFallible<L> {
    /// Sees `lender` as a fallible lender.
    pub fn new(lender: L) -> (r: IntoFallible<L>)
        ensures
            r.lender == lender,
    {
        IntoFallible { lender }
    }

    /// Returns the inner lender.
    pub fn into_inner(self) -> (r: L)
        ensures
            r == self.lender,
    {
        self.lender
    }
}

impl<'lend, L: Lender> FallibleLending<'lend> for IntoFallible<L> {
    type Lend = Lend<'lend, L>;
}

impl<L: Lender> FallibleLender for IntoFallible<L> {
    type Error = Infallible;

    open spec fn wf(&self) -> bool {
        self.lender.wf()
    }

    open spec fn outcomes(&self) -> Seq<Result<SpecLend<L>, Infallible>> {
        oks(self.lender.lends())
    }

    fn next(&mut self) -> (r: Result<Option<Lend<'_, L>>, Infallible>)
        ensures
            next_post(old(self).lender.lends(), final(self).lender.lends(), match r {
                Ok(o) => o,
                Err(_) => None,
            }),
            r is Ok,
    {
        proof {
            let s = self.lender.lends();
            if s.len() > 0 {
                assert(oks::<SpecLend<L>, Infallible>(s.drop_first()) == oks::<SpecLend<L>, Infallible>(s).drop_first());
            }
        }
        Ok(self.lender.next())
    }

    open spec fn hint(&self) -> (usize, Option<usize>) {
        self.lender.hint()
    }

    fn size_hint(&self) -> (r: (usize, Option<usize>)) {
        self.lender.size_hint()
    }
}

impl<L: DoubleEndedLender> DoubleEndedFallibleLender for IntoFallible<L> {
    fn next_back(&mut self) -> (r: Result<Option<Lend<'_, L>>, Infallible>) {
        proof {
            let s = self.lender.lends();
            if s.len() > 0 {
                assert(oks::<SpecLend<L>, Infallible>(s.drop_last()) == oks::<SpecLend<L>, Infallible>(s).drop_last());
            }
        }
        Ok(self.lender.next_back())
    }
}

impl<L: ExactSizeLender> ExactSizeFallibleLender for IntoFallible<L> {
    fn len(&self) -> (r: usize) {
        self.lender.len()
    }

    fn is_empty(&self) -> (r: bool) {
        self.lender.is_empty()
    }
}

impl<L: FusedLender> FusedFallibleLender for IntoFallible<L> {}

} // verus!
