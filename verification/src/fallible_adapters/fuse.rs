//! `Fuse` over a fallible lender: `Ok(None)` forever once it has come.
use vstd::prelude::*;

use core::ops::ControlFlow;
use crate::adapters::fuse::Fuse;
use crate::fallible::{
    DoubleEndedFallibleLender, ExactSizeFallibleLender, FallibleLend, FallibleLender, FallibleLending,
    FallibleSpecLend, FusedFallibleLender,
};
use crate::fallible::{lemma_fallible_fold_empty, lemma_fallible_try_fold_empty};

verus! {

impl<'lend, L: FallibleLender> FallibleLending<'lend> for Fuse<L> {
    type Lend = FallibleLend<'lend, L>;
}

impl<L: FallibleLender> FallibleLender for Fuse<L> {
    type Error = L::Error;

    open spec fn wf(&self) -> bool {
        self.lender.wf()
    }

    open spec fn outcomes(&self) -> Seq<Result<FallibleSpecLend<L>, L::Error>> {
        if self.flag {
            Seq::empty()
        } else {
            self.lender.outcomes()
        }
    }

    fn next(&mut self) -> (r: Result<Option<FallibleLend<'_, L>>, L::Error>) {
        if self.flag {
            Ok(None)
        } else {
            match self.lender.next() {
                Ok(Some(next)) => Ok(Some(next)),
                Ok(None) => {
                    self.flag = true;
                    Ok(None)
                },
                Err(e) => Err(e),
            }
        }
    }

    open spec fn hint(&self) -> (usize, Option<usize>) {
        if !self.flag {
            self.lender.hint()
        } else {
            (0, Some(0))
        }
    }

    fn size_hint(&self) -> (r: (usize, Option<usize>)) {
        if !self.flag {
            self.lender.size_hint()
        } else {
            (0, Some(0))
        }
    }

    fn nth(&mut self, n: usize) -> (r: Result<Option<FallibleLend<'_, L>>, L::Error>) {
        if !self.flag {
            match self.lender.nth(n) {
                Ok(Some(x)) => {
                    return Ok(Some(x));
                },
                Ok(None) => {},
                Err(e) => {
                    return Err(e);
                },
            }
            self.flag = true;
        }
        Ok(None)
    }

    fn count(self) -> (r: Result<usize, L::Error>) {
        if self.flag {
            Ok(0)
        } else {
            self.lender.count()
        }
    }

    fn try_fold<B, R, F>(&mut self, init: B, f: F) -> (r: Result<ControlFlow<R, B>, L::Error>)
        where
            F: FnMut(B, FallibleLend<'_, L>) -> Result<ControlFlow<R, B>, L::Error>,
    {
        if self.flag {
            proof {
                lemma_fallible_try_fold_empty(f, init, self.outcomes(), self.outcomes());
            }
            return Ok(ControlFlow::Continue(init));
        }
        match self.lender.try_fold(init, f) {
            Ok(ControlFlow::Continue(acc)) => {
                self.flag = true;
                Ok(ControlFlow::Continue(acc))
            },
            Ok(ControlFlow::Break(b)) => Ok(ControlFlow::Break(b)),
            Err(e) => Err(e),
        }
    }

    fn fold<B, F>(self, init: B, f: F) -> (r: Result<B, L::Error>)
        where
            F: FnMut(B, FallibleLend<'_, L>) -> Result<B, L::Error>,
    {
        if self.flag {
            proof {
                lemma_fallible_fold_empty(f, init, self.outcomes());
            }
            Ok(init)
        } else {
            self.lender.fold(init, f)
        }
    }
}

impl<L: DoubleEndedFallibleLender> DoubleEndedFallibleLender for Fuse<L> {
    fn next_back(&mut self) -> (r: Result<Option<FallibleLend<'_, L>>, L::Error>) {
        if !self.flag {
            match self.lender.next_back() {
                Ok(Some(x)) => {
                    return Ok(Some(x));
                },
                Ok(None) => {},
                Err(e) => {
                    return Err(e);
                },
            }
            self.flag = true;
        }
        Ok(None)
    }

    fn nth_back(&mut self, n: usize) -> (r: Result<Option<FallibleLend<'_, L>>, L::Error>) {
        if !self.flag {
            match self.lender.nth_back(n) {
                Ok(Some(x)) => {
                    return Ok(Some(x));
                },
                Ok(None) => {},
                Err(e) => {
                    return Err(e);
                },
            }
            self.flag = true;
        }
        Ok(None)
    }

    fn try_rfold<B, R, F>(&mut self, init: B, f: F) -> (r: Result<ControlFlow<R, B>, L::Error>)
        where
            F: FnMut(B, FallibleLend<'_, L>) -> Result<ControlFlow<R, B>, L::Error>,
    {
        if self.flag {
            proof {
                lemma_fallible_try_fold_empty(f, init, self.outcomes().reverse(), self.outcomes().reverse());
            }
            return Ok(ControlFlow::Continue(init));
        }
        match self.lender.try_rfold(init, f) {
            Ok(ControlFlow::Continue(acc)) => {
                self.flag = true;
                Ok(ControlFlow::Continue(acc))
            },
            Ok(ControlFlow::Break(b)) => Ok(ControlFlow::Break(b)),
            Err(e) => Err(e),
        }
    }

    fn rfold<B, F>(self, init: B, f: F) -> (r: Result<B, L::Error>)
        where
            F: FnMut(B, FallibleLend<'_, L>) -> Result<B, L::Error>,
    {
        if self.flag {
            proof {
                lemma_fallible_fold_empty(f, init, self.outcomes().reverse());
            }
            Ok(init)
        } else {
            self.lender.rfold(init, f)
        }
    }
}

impl<L: ExactSizeFallibleLender> ExactSizeFallibleLender for Fuse<L> {
    fn len(&self) -> (r: usize) {
        if self.flag {
            0
        } else {
            self.lender.len()
        }
    }
}

impl<L: FallibleLender> FusedFallibleLender for Fuse<L> {}

} // verus!
