//! `Rev` over a double-ended fallible lender: its outcomes back to front.
use vstd::prelude::*;

use crate::adapters::rev::Rev;
use crate::fallible::{
    DoubleEndedFallibleLender, ExactSizeFallibleLender, FallibleLend, FallibleLender, FallibleLending,
    FallibleSpecLend, FusedFallibleLender,
};
use core::ops::ControlFlow;
use crate::spec::{lemma_reverse, lemma_reverse_involutive};

verus! {

impl<'lend, L: DoubleEndedFallibleLender> FallibleLending<'lend> for Rev<L> {
    type Lend = FallibleLend<'lend, L>;
}

impl<L: DoubleEndedFallibleLender> FallibleLender for Rev<L> {
    type Error = L::Error;

    open spec fn wf(&self) -> bool {
        self.lender.wf()
    }

    open spec fn outcomes(&self) -> Seq<Result<FallibleSpecLend<L>, L::Error>> {
        self.lender.outcomes().reverse()
    }

    fn next(&mut self) -> (r: Result<Option<FallibleLend<'_, L>>, L::Error>) {
        proof {
            lemma_reverse(self.lender.outcomes());
        }
        self.lender.next_back()
    }

    open spec fn hint(&self) -> (usize, Option<usize>) {
        self.lender.hint()
    }

    fn size_hint(&self) -> (r: (usize, Option<usize>)) {
        proof {
            lemma_reverse(self.lender.outcomes());
        }
        self.lender.size_hint()
    }

    fn try_fold<B, R, F>(&mut self, init: B, f: F) -> (r: Result<ControlFlow<R, B>, L::Error>)
        where
            F: FnMut(B, FallibleLend<'_, L>) -> Result<ControlFlow<R, B>, L::Error>,
    {
        self.lender.try_rfold(init, f)
    }

    fn advance_by(&mut self, n: usize) -> (r: Result<Result<(), usize>, L::Error>) {
        self.lender.advance_back_by(n)
    }

    fn nth(&mut self, n: usize) -> (r: Result<Option<FallibleLend<'_, L>>, L::Error>) {
        self.lender.nth_back(n)
    }

    fn fold<B, F>(self, init: B, f: F) -> (r: Result<B, L::Error>)
        where
            F: FnMut(B, FallibleLend<'_, L>) -> Result<B, L::Error>,
    {
        self.lender.rfold(init, f)
    }
}

impl<L: DoubleEndedFallibleLender> DoubleEndedFallibleLender for Rev<L> {
    fn next_back(&mut self) -> (r: Result<Option<FallibleLend<'_, L>>, L::Error>) {
        proof {
            lemma_reverse(self.lender.outcomes());
        }
        self.lender.next()
    }

    fn advance_back_by(&mut self, n: usize) -> (r: Result<Result<(), usize>, L::Error>) {
        proof {
            lemma_reverse_involutive::<Result<FallibleSpecLend<L>, L::Error>>();
        }
        self.lender.advance_by(n)
    }

    fn nth_back(&mut self, n: usize) -> (r: Result<Option<FallibleLend<'_, L>>, L::Error>) {
        proof {
            lemma_reverse_involutive::<Result<FallibleSpecLend<L>, L::Error>>();
        }
        self.lender.nth(n)
    }

    fn try_rfold<B, R, F>(&mut self, init: B, f: F) -> (r: Result<ControlFlow<R, B>, L::Error>)
        where
            F: FnMut(B, FallibleLend<'_, L>) -> Result<ControlFlow<R, B>, L::Error>,
    {
        proof {
            lemma_reverse_involutive::<Result<FallibleSpecLend<L>, L::Error>>();
        }
        self.lender.try_fold(init, f)
    }

    fn rfold<B, F>(self, init: B, f: F) -> (r: Result<B, L::Error>)
        where
            F: FnMut(B, FallibleLend<'_, L>) -> Result<B, L::Error>,
    {
        proof {
            lemma_reverse_involutive::<Result<FallibleSpecLend<L>, L::Error>>();
        }
        self.lender.fold(init, f)
    }
}

impl<L: DoubleEndedFallibleLender + ExactSizeFallibleLender> ExactSizeFallibleLender for Rev<L> {
    fn len(&self) -> (r: usize) {
        proof {
            lemma_reverse(self.lender.outcomes());
        }
        self.lender.len()
    }
}

impl<L: DoubleEndedFallibleLender + FusedFallibleLender> FusedFallibleLender for Rev<L> {}

} // verus!
