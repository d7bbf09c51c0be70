//! `Zip` over two fallible lenders. It hands out `Ok(None)` as soon as one of
//! them has no lend left, though a later call may still meet an error or a
//! lend of the other, so it is not described by one sequence of outcomes:
//! each call says what it does to the two lenders.
use vstd::prelude::*;

use crate::adapters::zip::Zip;
use crate::fallible::{FallibleLend, FallibleLender, FallibleSpecLend};

verus! {

impl<A, B> Zip<A, B>
    where
        A: FallibleLender,
        B: FallibleLender<Error = A::Error>,
{
    /// Takes the next outcome of `a`; an error of it is handed out, and
    /// `Ok(None)` when it has none left. After a lend of `a`, takes the next
    /// outcome of `b`: an error of it is handed out and the lend of `a` is
    /// dropped, `Ok(None)` when `b` has none left, and otherwise the two lends
    /// are handed out as a pair.
    pub fn next(&mut self) -> (r: Result<Option<(FallibleLend<'_, A>, FallibleLend<'_, B>)>, A::Error>)
        requires
            old(self).a.wf(),
            old(self).b.wf(),
        ensures
            final(self).a.wf(),
            final(self).b.wf(),
            old(self).a.outcomes().len() == 0 ==> {
                &&& r == Ok::<Option<(FallibleSpecLend<A>, FallibleSpecLend<B>)>, A::Error>(None)
                &&& final(self).a.outcomes().len() == 0
                &&& final(self).b == old(self).b
            },
            old(self).a.outcomes().len() > 0 ==> {
                &&& final(self).a.outcomes() == old(self).a.outcomes().drop_first()
                &&& match old(self).a.outcomes()[0] {
                    Err(e) => r == Err::<Option<(FallibleSpecLend<A>, FallibleSpecLend<B>)>, A::Error>(e)
                        && final(self).b == old(self).b,
                    Ok(x) => if old(self).b.outcomes().len() == 0 {
                        r == Ok::<Option<(FallibleSpecLend<A>, FallibleSpecLend<B>)>, A::Error>(None)
                            && final(self).b.outcomes().len() == 0
                    } else {
                        &&& final(self).b.outcomes() == old(self).b.outcomes().drop_first()
                        &&& match old(self).b.outcomes()[0] {
                            Err(e) => r == Err::<Option<(FallibleSpecLend<A>, FallibleSpecLend<B>)>, A::Error>(e),
                            Ok(y) => r == Ok::<Option<(FallibleSpecLend<A>, FallibleSpecLend<B>)>, A::Error>(
                                Some((x, y)),
                            ),
                        }
                    },
                }
            },
    {
        let x = match self.a.next() {
            Ok(Some(x)) => x,
            Ok(None) => return Ok(None),
            Err(e) => return Err(e),
        };
        let y = match self.b.next() {
            Ok(Some(y)) => y,
            Ok(None) => return Ok(None),
            Err(e) => return Err(e),
        };
        Ok(Some((x, y)))
    }
}

} // verus!
