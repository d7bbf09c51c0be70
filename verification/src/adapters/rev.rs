//! `Rev`: a double-ended lender run backwards.
use vstd::prelude::*;
use core::ops::ControlFlow;

use crate::spec::{lemma_reverse, lemma_reverse_involutive};
use crate::traits::{DoubleEndedLender, ExactSizeLender, FusedLender, Lend, Lender, Lending, SpecLend};

verus! {

/// A lender that hands out the lends of a double-ended lender back to front.
pub struct Rev<L> {
    pub lender: L,
}

impl<L> Rev<L> {
    /// Returns the inner lender.
    pub fn into_inner(self) -> (r: L)
        ensures
            r == self.lender,
    {
        self.lender
    }
}

impl<L> Rev<L> {
    /// Reverses `lender`.
    pub fn new(lender: L) -> (r: Rev<L>)
        ensures
            r.lender == lender,
    {
        Rev { lender }
    }
}

impl<'lend, L: DoubleEndedLender> Lending<'lend> for Rev<L> {
    type Lend = Lend<'lend, L>;
}

impl<L: DoubleEndedLender> Lender for Rev<L> {
    open spec fn wf(&self) -> bool {
        self.lender.wf()
    }

    open spec fn lends(&self) -> Seq<SpecLend<Self>> {
        self.lender.lends().reverse()
    }

    fn next(&mut self) -> (r: Option<Lend<'_, Self>>) {
        proof {
            lemma_reverse(self.lender.lends());
        }
        self.lender.next_back()
    }

    open spec fn hint(&self) -> (usize, Option<usize>) {
        self.lender.hint()
    }

    fn size_hint(&self) -> (r: (usize, Option<usize>)) {
        proof {
            lemma_reverse(self.lender.lends());
        }
        self.lender.size_hint()
    }

    fn advance_by(&mut self, n: usize) -> (r: Result<(), usize>) {
        proof {
            lemma_reverse(self.lender.lends());
        }
        self.lender.advance_back_by(n)
    }

    fn nth(&mut self, n: usize) -> (r: Option<Lend<'_, Self>>) {
        proof {
            let s = self.lender.lends();
            lemma_reverse(s);
            if n < s.len() {
                assert(s.reverse()[n as int] == s[s.len() - 1 - n]);
                assert(s.reverse().skip(n + 1) == s.take(s.len() - (n + 1)).reverse());
            }
        }
        self.lender.nth_back(n)
    }

    fn try_fold<B, R, F>(&mut self, init: B, f: F) -> (r: ControlFlow<R, B>)
        where
            F: FnMut(B, Lend<'_, Self>) -> ControlFlow<R, B>,
    {
        self.lender.try_rfold(init, f)
    }

    fn fold<B, F>(self, init: B, f: F) -> (r: B)
        where
            F: FnMut(B, Lend<'_, Self>) -> B,
    {
        self.lender.rfold(init, f)
    }
}

impl<L: DoubleEndedLender> DoubleEndedLender for Rev<L> {
    fn next_back(&mut self) -> (r: Option<Lend<'_, Self>>) {
        proof {
            lemma_reverse(self.lender.lends());
        }
        self.lender.next()
    }

    fn advance_back_by(&mut self, n: usize) -> (r: Result<(), usize>) {
        proof {
            lemma_reverse(self.lender.lends());
        }
        self.lender.advance_by(n)
    }

    fn nth_back(&mut self, n: usize) -> (r: Option<Lend<'_, Self>>) {
        proof {
            let s = self.lender.lends();
            lemma_reverse(s);
            if n < s.len() {
                assert(s.reverse()[s.len() - 1 - n] == s[n as int]);
                assert(s.reverse().take(s.len() - 1 - n) == s.skip(n + 1).reverse());
            }
        }
        self.lender.nth(n)
    }

    fn try_rfold<B, R, F>(&mut self, init: B, f: F) -> (r: ControlFlow<R, B>)
        where
            F: FnMut(B, Lend<'_, Self>) -> ControlFlow<R, B>,
    {
        proof {
            lemma_reverse_involutive::<SpecLend<L>>();
        }
        self.lender.try_fold(init, f)
    }

    fn rfold<B, F>(self, init: B, f: F) -> (r: B)
        where
            F: FnMut(B, Lend<'_, Self>) -> B,
    {
        proof {
            lemma_reverse(self.lender.lends());
        }
        self.lender.fold(init, f)
    }
}

impl<L: DoubleEndedLender + ExactSizeLender> ExactSizeLender for Rev<L> {
    fn len(&self) -> (r: usize) {
        proof {
            lemma_reverse(self.lender.lends());
        }
        self.lender.len()
    }

    fn is_empty(&self) -> (r: bool) {
        proof {
            lemma_reverse(self.lender.lends());
        }
        self.lender.is_empty()
    }
}

impl<L: DoubleEndedLender + FusedLender> FusedLender for Rev<L> {}

} // verus!
