//! `Inspect`: a closure called on every lend before it is handed out.
use vstd::prelude::*;

use crate::traits::{DoubleEndedLender, ExactSizeLender, FusedLender, Lend, Lender, Lending, SpecLend};

verus! {

/// `f` can be called on a reference to every value.
pub open spec fn inspect_ready<T, F: FnMut(&T)>(f: F) -> bool {
    forall|a: T| call_requires(f, (&a,))
}

/// A lender that calls `f` on a reference to every lend of the underlying
/// lender before handing it out unchanged.
pub struct Inspect<L, F> {
    pub lender: L,
    pub f: F,
}

impl<L, F> Inspect<L, F> {
    /// Calls `f` on each lend of `lender` as it goes by.
    pub fn new(lender: L, f: F) -> (r: Inspect<L, F>)
        ensures
            r.lender == lender,
            r.f == f,
    {
        Inspect { lender, f }
    }

    /// Returns the inner lender.
    pub fn into_inner(self) -> (r: L)
        ensures
            r == self.lender,
    {
        self.lender
    }

    /// Returns the inner lender and the closure.
    pub fn into_parts(self) -> (r: (L, F))
        ensures
            r == (self.lender, self.f),
    {
        (self.lender, self.f)
    }
}

impl<'lend, L: Lender, F> Lending<'lend> for Inspect<L, F> {
    type Lend = Lend<'lend, L>;
}

impl<L: Lender, F> Lender for Inspect<L, F>
    where F: FnMut(&Lend<'_, L>),
{
    open spec fn wf(&self) -> bool {
        self.lender.wf() && inspect_ready::<SpecLend<L>, F>(self.f)
    }

    open spec fn lends(&self) -> Seq<SpecLend<L>> {
        self.lender.lends()
    }

    fn next(&mut self) -> (r: Option<Lend<'_, Self>>) {
        let next = self.lender.next();
        if let Some(x) = &next {
            (self.f)(x);
        }
        next
    }

    open spec fn hint(&self) -> (usize, Option<usize>) {
        self.lender.hint()
    }

    fn size_hint(&self) -> (r: (usize, Option<usize>)) {
        self.lender.size_hint()
    }
}

impl<L: DoubleEndedLender, F> DoubleEndedLender for Inspect<L, F>
    where F: FnMut(&Lend<'_, L>),
{
    fn next_back(&mut self) -> (r: Option<Lend<'_, Self>>) {
        let next = self.lender.next_back();
        if let Some(x) = &next {
            (self.f)(x);
        }
        next
    }
}

impl<L: ExactSizeLender, F> ExactSizeLender for Inspect<L, F>
    where F: FnMut(&Lend<'_, L>),
{
    fn len(&self) -> (r: usize) {
        self.lender.len()
    }

    fn is_empty(&self) -> (r: bool) {
        self.lender.is_empty()
    }
}

impl<L: FusedLender, F> FusedLender for Inspect<L, F>
    where F: FnMut(&Lend<'_, L>),
{
}

} // verus!

verus! {

/// What an `Inspect` is: well formed exactly when its lender is and its
/// closure accepts every lend, and it hands out its lender's lends.
pub proof fn lemma_inspect_model<L: Lender, F>(i: Inspect<L, F>)
    where F: FnMut(&Lend<'_, L>),
    ensures
        i.wf() == (i.lender.wf() && inspect_ready::<SpecLend<L>, F>(i.f)),
        i.lends() == i.lender.lends(),
{
}

} // verus!
