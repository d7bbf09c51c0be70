//! `NonFallibleAdapter`: a fallible lender seen as a lender that stops at the
//! first error and keeps it.
use vstd::prelude::*;

use crate::fallible::{
    DoubleEndedFallibleLender, FallibleLend, FallibleLender, FallibleSpecLend, first_err, lemma_first_err,
    ok_prefix,
};
use crate::traits::{Lend, Lender, Lending};

verus! {

/// A lender that hands out the lends of a fallible lender up to its first
/// error, which it keeps; from then on it hands out `None`.
pub struct NonFallibleAdapter<L: FallibleLender> {
    pub lender: L,
    /// The error that stopped the lender, once one has come.
    pub error: Option<L::Error>,
}

impl<L: FallibleLender> NonFallibleAdapter<L> {
    /// Sees `lender` as a lender that stops at its first error.
    pub fn new(lender: L) -> (r: NonFallibleAdapter<L>)
        ensures
            r.lender == lender,
            r.error is None,
    {
        NonFallibleAdapter { lender, error: None }
    }

    /// Returns the inner fallible lender and the error that stopped it, if
    /// any.
    pub fn into_parts(self) -> (r: (L, Option<L::Error>))
        ensures
            r == (self.lender, self.error),
    {
        (self.lender, self.error)
    }
}

impl<'lend, L: FallibleLender> Lending<'lend> for NonFallibleAdapter<L> {
    type Lend = FallibleLend<'lend, L>;
}

impl<L: FallibleLender> Lender for NonFallibleAdapter<L> {
    open spec fn wf(&self) -> bool {
        self.lender.wf()
    }

    open spec fn lends(&self) -> Seq<FallibleSpecLend<L>> {
        if self.error is Some {
            Seq::empty()
        } else {
            ok_prefix(self.lender.outcomes())
        }
    }

    fn next(&mut self) -> (r: Option<Lend<'_, Self>>)
        ensures
            old(self).error is None && first_err(old(self).lender.outcomes()) == 0
                && old(self).lender.outcomes().len() > 0 ==> final(self).error == Some(
                old(self).lender.outcomes()[0]->Err_0,
            ),
            old(self).error is Some ==> final(self).error == old(self).error,
    {
        if self.error.is_some() {
            return None;
        }
        let ghost s = self.lender.outcomes();
        proof {
            lemma_first_err(s);
        }
        match self.lender.next() {
            Ok(next) => {
                proof {
                    if s.len() > 0 {
                        assert(ok_prefix(s) == seq![s[0]->Ok_0] + ok_prefix(s.drop_first()));
                        assert((seq![s[0]->Ok_0] + ok_prefix(s.drop_first())).drop_first() == ok_prefix(s.drop_first()));
                    }
                }
                next
            },
            Err(err) => {
                self.error = Some(err);
                None
            },
        }
    }

    open spec fn hint(&self) -> (usize, Option<usize>) {
        if self.error is Some {
            (0, Some(0))
        } else {
            (0, self.lender.hint().1)
        }
    }

    fn size_hint(&self) -> (r: (usize, Option<usize>)) {
        if self.error.is_some() {
            return (0, Some(0));
        }
        proof {
            lemma_first_err(self.lender.outcomes());
        }
        let (_, upper) = self.lender.size_hint();
        (0, upper)
    }
}

} // verus!
