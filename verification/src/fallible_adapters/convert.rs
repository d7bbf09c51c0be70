//! `Convert`: a lender of `Result`s seen as a fallible lender.
use vstd::prelude::*;

use crate::fallible::{
    DoubleEndedFallibleLender, ExactSizeFallibleLender, FallibleLender, FallibleLending, FusedFallibleLender,
};
use crate::traits::{DoubleEndedLender, ExactSizeLender, FusedLender, Lender, Lending};

verus! {

/// A fallible lender that hands out the `Ok` lends of a lender of `Result`s
/// as lends and its `Err` lends as errors.
///
/// The lends must not borrow from the underlying lender.
pub struct Convert<E, I> {
    pub iter: I,
    pub marker: core::marker::PhantomData<E>,
}

impl<E, I> Convert<E, I> {
    /// Sees `iter`, a lender of `Result`s, as a fallible lender.
    pub fn new(iter: I) -> (r: Convert<E, I>)
        ensures
            r.iter == iter,
    {
        Convert { iter, marker: core::marker::PhantomData }
    }

    /// Returns the inner lender.
    pub fn into_inner(self) -> (r: I)
        ensures
            r == self.iter,
    {
        self.iter
    }
}

impl<'lend, E, I, T> FallibleLending<'lend> for Convert<E, I>
    where I: Lending<'lend, Lend = Result<T, E>>,
{
    type Lend = T;
}

impl<E, I, T> FallibleLender for Convert<E, I>
    where I: Lender + for<'all> Lending<'all, Lend = Result<T, E>>,
{
    type Error = E;

    open spec fn wf(&self) -> bool {
        self.iter.wf()
    }

    open spec fn outcomes(&self) -> Seq<Result<T, E>> {
        self.iter.lends()
    }

    fn next(&mut self) -> (r: Result<Option<T>, E>) {
        match self.iter.next() {
            Some(Ok(i)) => Ok(Some(i)),
            Some(Err(e)) => Err(e),
            None => Ok(None),
        }
    }

    open spec fn hint(&self) -> (usize, Option<usize>) {
        self.iter.hint()
    }

    fn size_hint(&self) -> (r: (usize, Option<usize>)) {
        self.iter.size_hint()
    }
}

impl<E, I, T> DoubleEndedFallibleLender for Convert<E, I>
    where I: DoubleEndedLender + for<'all> Lending<'all, Lend = Result<T, E>>,
{
    fn next_back(&mut self) -> (r: Result<Option<T>, E>) {
        match self.iter.next_back() {
            Some(Ok(i)) => Ok(Some(i)),
            Some(Err(e)) => Err(e),
            None => Ok(None),
        }
    }
}

impl<E, I, T> ExactSizeFallibleLender for Convert<E, I>
    where I: ExactSizeLender + for<'all> Lending<'all, Lend = Result<T, E>>,
{
    fn len(&self) -> (r: usize) {
        self.iter.len()
    }

    fn is_empty(&self) -> (r: bool) {
        self.iter.is_empty()
    }
}

impl<E, I, T> FusedFallibleLender for Convert<E, I>
    where I: FusedLender + for<'all> Lending<'all, Lend = Result<T, E>>,
{
}

} // verus!
