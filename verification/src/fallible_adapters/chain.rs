//! `Chain` over fallible lenders: the outcomes of one and then of the other.
use vstd::prelude::*;

use crate::adapters::chain::Chain;
use crate::fallible::{
    DoubleEndedFallibleLender, FallibleLend, FallibleLender, FallibleLending, FallibleSpecLend,
    FusedFallibleLender,
};

verus! {

impl<'lend, A, B> FallibleLending<'lend> for Chain<A, B>
    where
        A: FallibleLender,
        B: FallibleLender<Error = A::Error> + for<'all> FallibleLending<'all, Lend = FallibleLend<'all, A>>,
{
    type Lend = FallibleLend<'lend, A>;
}

impl<A, B> FallibleLender for Chain<A, B>
    where
        A: FallibleLender,
        B: FallibleLender<Error = A::Error> + for<'all> FallibleLending<'all, Lend = FallibleLend<'all, A>>,
{
    type Error = A::Error;

    open spec fn wf(&self) -> bool {
        FallibleLender::wf(&self.a) && FallibleLender::wf(&self.b)
    }

    open spec fn outcomes(&self) -> Seq<Result<FallibleSpecLend<A>, A::Error>> {
        FallibleLender::outcomes(&self.a) + FallibleLender::outcomes(&self.b)
    }

    fn next(&mut self) -> (r: Result<Option<FallibleLend<'_, A>>, A::Error>) {
        let ghost sa = FallibleLender::outcomes(&self.a);
        let ghost sb = FallibleLender::outcomes(&self.b);
        proof {
            if sa.len() > 0 {
                assert((sa + sb).drop_first() == sa.drop_first() + sb);
            } else {
                assert(sa + sb == sb);
            }
        }
        match FallibleLender::next(&mut self.a) {
            Ok(Some(next)) => Ok(Some(next)),
            Ok(None) => FallibleLender::next(&mut self.b),
            Err(e) => Err(e),
        }
    }

    open spec fn hint(&self) -> (usize, Option<usize>) {
        (
            FallibleLender::hint(&self.a).0.saturating_add(FallibleLender::hint(&self.b).0),
            match (FallibleLender::hint(&self.a).1, FallibleLender::hint(&self.b).1) {
                (Some(x), Some(y)) => x.checked_add(y),
                _ => None,
            },
        )
    }

    fn size_hint(&self) -> (r: (usize, Option<usize>)) {
        let (a_lower, a_upper) = FallibleLender::size_hint(&self.a);
        let (b_lower, b_upper) = FallibleLender::size_hint(&self.b);
        let lower = a_lower.saturating_add(b_lower);
        let upper = match (a_upper, b_upper) {
            (Some(x), Some(y)) => x.checked_add(y),
            _ => None,
        };
        (lower, upper)
    }
}

impl<A, B> DoubleEndedFallibleLender for Chain<A, B>
    where
        A: DoubleEndedFallibleLender,
        B: DoubleEndedFallibleLender<Error = A::Error> + for<'all> FallibleLending<'all, Lend = FallibleLend<'all, A>>,
{
    fn next_back(&mut self) -> (r: Result<Option<FallibleLend<'_, A>>, A::Error>) {
        let ghost sa = FallibleLender::outcomes(&self.a);
        let ghost sb = FallibleLender::outcomes(&self.b);
        proof {
            if sb.len() > 0 {
                assert((sa + sb).drop_last() == sa + sb.drop_last());
                assert((sa + sb).last() == sb.last());
            } else {
                assert(sa + sb == sa);
            }
        }
        match DoubleEndedFallibleLender::next_back(&mut self.b) {
            Ok(Some(next)) => Ok(Some(next)),
            Ok(None) => DoubleEndedFallibleLender::next_back(&mut self.a),
            Err(e) => Err(e),
        }
    }
}

impl<A, B> FusedFallibleLender for Chain<A, B>
    where
        A: FallibleLender,
        B: FallibleLender<Error = A::Error> + for<'all> FallibleLending<'all, Lend = FallibleLend<'all, A>>,
{
}

} // verus!
