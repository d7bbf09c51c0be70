//! `Take` over a fallible lender: at most the first `n` outcomes.
use vstd::prelude::*;

use crate::adapters::take::Take;
use crate::fallible::{
    ExactSizeFallibleLender, FallibleLend, FallibleLender, FallibleLending, FallibleSpecLend, FusedFallibleLender,
};
use crate::spec::prefix;

verus! {

impl<'lend, L: FallibleLender> FallibleLending<'lend> for Take<L> {
    type Lend = FallibleLend<'lend, L>;
}

impl<L: FallibleLender> FallibleLender for Take<L> {
    type Error = L::Error;

    open spec fn wf(&self) -> bool {
        self.lender.wf()
    }

    open spec fn outcomes(&self) -> Seq<Result<FallibleSpecLend<L>, L::Error>> {
        prefix(self.lender.outcomes(), self.n as nat)
    }

    fn next(&mut self) -> (r: Result<Option<FallibleLend<'_, L>>, L::Error>) {
        if self.n != 0 {
            proof {
                let s = self.lender.outcomes();
                if s.len() > 0 {
                    assert(prefix(s.drop_first(), (self.n - 1) as nat) == prefix(s, self.n as nat).drop_first());
                }
            }
            self.n = self.n - 1;
            self.lender.next()
        } else {
            Ok(None)
        }
    }

    open spec fn hint(&self) -> (usize, Option<usize>) {
        if self.n == 0 {
            (0, Some(0))
        } else {
            (
                if self.lender.hint().0 < self.n { self.lender.hint().0 } else { self.n },
                match self.lender.hint().1 {
                    Some(x) => if x < self.n { Some(x) } else { Some(self.n) },
                    None => Some(self.n),
                },
            )
        }
    }

    fn size_hint(&self) -> (r: (usize, Option<usize>)) {
        if self.n == 0 {
            return (0, Some(0));
        }
        let (lower, upper) = self.lender.size_hint();
        let lower = if lower < self.n {
            lower
        } else {
            self.n
        };
        let upper = match upper {
            Some(x) if x < self.n => Some(x),
            _ => Some(self.n),
        };
        (lower, upper)
    }
}

impl<L: ExactSizeFallibleLender> ExactSizeFallibleLender for Take<L> {
    fn len(&self) -> (r: usize) {
        let len = self.lender.len();
        if len < self.n {
            len
        } else {
            self.n
        }
    }
}

impl<L: FusedFallibleLender> FusedFallibleLender for Take<L> {}

} // verus!
