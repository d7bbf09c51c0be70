//! `Enumerate` over a fallible lender: each lend paired with its position
//! among the lends.
use vstd::prelude::*;

use crate::adapters::enumerate::Enumerate;
use crate::fallible::{
    ExactSizeFallibleLender, FallibleLend, FallibleLender, FallibleLending, FallibleSpecLend, FusedFallibleLender,
};

verus! {

/// The outcomes of `s` with each lend paired with its position among the
/// lends, counted from `start`; errors take no position.
pub open spec fn numbered_outcomes<T, E>(s: Seq<Result<T, E>>, start: nat) -> Seq<Result<(usize, T), E>>
    decreases s.len(),
{
    if s.len() == 0 {
        Seq::empty()
    } else {
        match s[0] {
            Ok(x) => seq![Ok((start as usize, x))] + numbered_outcomes(s.drop_first(), start + 1),
            Err(e) => seq![Err(e)] + numbered_outcomes(s.drop_first(), start),
        }
    }
}

/// `numbered_outcomes` keeps the number of outcomes.
pub proof fn lemma_numbered_outcomes_len<T, E>(s: Seq<Result<T, E>>, start: nat)
    ensures
        numbered_outcomes(s, start).len() == s.len(),
    decreases s.len(),
{
    if s.len() > 0 {
        lemma_numbered_outcomes_len(s.drop_first(), start);
        lemma_numbered_outcomes_len(s.drop_first(), start + 1);
    }
}

impl<'lend, L: FallibleLender> FallibleLending<'lend> for Enumerate<L> {
    type Lend = (usize, FallibleLend<'lend, L>);
}

impl<L: FallibleLender> FallibleLender for Enumerate<L> {
    type Error = L::Error;

    open spec fn wf(&self) -> bool {
        self.lender.wf() && self.count + self.lender.outcomes().len() <= usize::MAX
    }

    open spec fn outcomes(&self) -> Seq<Result<(usize, FallibleSpecLend<L>), L::Error>> {
        numbered_outcomes(self.lender.outcomes(), self.count as nat)
    }

    fn next(&mut self) -> (r: Result<Option<(usize, FallibleLend<'_, L>)>, L::Error>) {
        let ghost s = self.lender.outcomes();
        proof {
            let c = self.count as nat;
            if s.len() > 0 {
                let rest1 = numbered_outcomes(s.drop_first(), c + 1);
                let rest0 = numbered_outcomes(s.drop_first(), c);
                match s[0] {
                    Ok(x) => {
                        assert((seq![Ok::<(usize, FallibleSpecLend<L>), L::Error>((c as usize, x))] + rest1).drop_first()
                            == rest1);
                    },
                    Err(e) => {
                        assert((seq![Err::<(usize, FallibleSpecLend<L>), L::Error>(e)] + rest0).drop_first() == rest0);
                    },
                }
            }
        }
        match self.lender.next() {
            Ok(Some(x)) => {
                let count = self.count;
                self.count = self.count + 1;
                Ok(Some((count, x)))
            },
            Ok(None) => Ok(None),
            Err(e) => Err(e),
        }
    }

    open spec fn hint(&self) -> (usize, Option<usize>) {
        self.lender.hint()
    }

    fn size_hint(&self) -> (r: (usize, Option<usize>)) {
        proof {
            lemma_numbered_outcomes_len(self.lender.outcomes(), self.count as nat);
        }
        self.lender.size_hint()
    }
}

impl<L: ExactSizeFallibleLender> ExactSizeFallibleLender for Enumerate<L> {
    fn len(&self) -> (r: usize) {
        proof {
            lemma_numbered_outcomes_len(self.lender.outcomes(), self.count as nat);
        }
        self.lender.len()
    }
}

impl<L: FusedFallibleLender> FusedFallibleLender for Enumerate<L> {}

} // verus!
