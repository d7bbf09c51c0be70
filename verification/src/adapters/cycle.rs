//! `Cycle`: the lends of a lender over and over again.
use vstd::prelude::*;
use vstd::pervasive::strictly_cloned;

use crate::spec::next_post;
use crate::traits::{Lender, Lending};

verus! {

/// The bounds that `size_hint` gives for a cycle over a lender whose own
/// bounds are `h`: nothing when it is empty, else no upper bound and, when it
/// surely has a lend, as many as can be counted.
pub open spec fn cycle_hint(h: (usize, Option<usize>)) -> (usize, Option<usize>) {
    if h.0 == 0 && h.1 == Some(0usize) {
        h
    } else if h.0 == 0 {
        (0, None)
    } else {
        (usize::MAX, None)
    }
}

/// Every clone of `orig` is a well-formed lender.
pub open spec fn clones_ready<L: Lender + Clone>(orig: L) -> bool {
    forall|c: L| #[trigger] strictly_cloned(orig, c) ==> c.wf()
}

/// The number of lends that the lenders of `cs` hand out together.
pub open spec fn lends_total<L: Lender>(cs: Seq<L>) -> int
    decreases cs.len(),
{
    if cs.len() == 0 {
        0
    } else {
        lends_total(cs.drop_last()) + cs.last().lends().len()
    }
}

/// The clones that `advance_by` starts over from when `m` steps are still
/// to go once the lender it was draining has run dry: each is a clone of
/// `orig`, and every one but the last has lends and is drained without
/// reaching `m` steps.
pub open spec fn restarts<L: Lender + Clone>(orig: L, m: int, cs: Seq<L>) -> bool {
    &&& cs.len() > 0
    &&& forall|i: int| 0 <= i < cs.len() ==> strictly_cloned(orig, #[trigger] cs[i])
    &&& forall|i: int| 0 <= i < cs.len() - 1 ==> (#[trigger] cs[i]).lends().len() > 0
    &&& lends_total(cs.drop_last()) < m
}

/// A lender that hands out the lends of a lender and, each time it runs dry,
/// starts over from a clone of the lender as it was first given.
///
/// It never stops unless the lender has no lends at all, so it is not
/// described by a finite sequence of lends: each call says what it hands out
/// in terms of the lender it currently drains.
pub struct Cycle<L> {
    /// The lender as it was first given, cloned at each new round.
    pub orig: L,
    /// The lender being drained.
    pub lender: L,
}

impl<L: Clone> Cycle<L> {
    /// Repeats the lends of `lender` endlessly.
    pub fn new(lender: L) -> (r: Cycle<L>)
        ensures
            r.lender == lender,
            strictly_cloned(lender, r.orig),
    {
        let orig = lender.clone();
        Cycle { orig, lender }
    }

    /// Returns the original lender and the one being drained.
    pub fn into_inner(self) -> (r: (L, L))
        ensures
            r == (self.orig, self.lender),
    {
        (self.orig, self.lender)
    }
}

impl<L, T> Cycle<L>
    where
        L: Lender + Clone + for<'all> Lending<'all, Lend = T>,
{
    /// Hands out the next lend of the lender being drained; when it has none,
    /// starts over from a clone of the original lender and hands out its first
    /// lend, or `None` when that clone has none either.
    pub fn next(&mut self) -> (r: Option<T>)
        requires
            old(self).lender.wf(),
            clones_ready(old(self).orig),
        ensures
            final(self).orig == old(self).orig,
            final(self).lender.wf(),
            old(self).lender.lends().len() > 0 ==> next_post(old(self).lender.lends(), final(self).lender.lends(), r),
            old(self).lender.lends().len() == 0 ==> exists|c: L|
                #[trigger] strictly_cloned(old(self).orig, c) && next_post(c.lends(), final(self).lender.lends(), r),
    {
        match self.lender.next() {
            Some(x) => Some(x),
            None => {
                let c = self.orig.clone();
                proof {
                    assert(strictly_cloned(self.orig, c));
                }
                self.lender = c;
                self.lender.next()
            },
        }
    }

    /// The bounds of `cycle_hint` over those of the original lender.
    pub fn size_hint(&self) -> (r: (usize, Option<usize>))
        requires
            self.orig.wf(),
        ensures
            r == cycle_hint(self.orig.hint()),
    {
        let h = self.orig.size_hint();
        if h.0 == 0 {
            match h.1 {
                Some(0) => h,
                _ => (0, None),
            }
        } else {
            (usize::MAX, None)
        }
    }

    /// Skips `n` lends, starting over from a clone of the original lender as
    /// often as needed; it fails only when such a clone has no lends, and then
    /// reports how many steps were missing.
    pub fn advance_by(&mut self, n: usize) -> (r: Result<(), usize>)
        requires
            old(self).lender.wf(),
            clones_ready(old(self).orig),
        ensures
            final(self).orig == old(self).orig,
            final(self).lender.wf(),
            n <= old(self).lender.lends().len() ==> r is Ok && final(self).lender.lends() == old(self).lender.lends().skip(
                n as int,
            ),
            r matches Err(k) ==> 0 < k <= n && exists|c: L| #[trigger] strictly_cloned(old(self).orig, c) && c.lends().len() == 0,
            n > old(self).lender.lends().len() ==> exists|cs: Seq<L>|
                #[trigger] restarts(old(self).orig, n - old(self).lender.lends().len(), cs) && {
                    let left = n - old(self).lender.lends().len() - lends_total(cs.drop_last());
                    let last = cs.last();
                    if left <= last.lends().len() {
                        r is Ok && final(self).lender.lends() == last.lends().skip(left)
                    } else {
                        &&& last.lends().len() == 0
                        &&& final(self).lender.lends().len() == 0
                        &&& r matches Err(k) && k == left
                    }
                },
    {
        let ghost m: int = n - old(self).lender.lends().len();
        let mut left = match self.lender.advance_by(n) {
            Ok(()) => {
                return Ok(());
            },
            Err(rem) => rem,
        };
        let ghost mut cs: Seq<L> = Seq::empty();
        while left > 0
            invariant
                self.lender.wf(),
                self.orig == old(self).orig,
                clones_ready(self.orig),
                0 < left <= n,
                n > old(self).lender.lends().len(),
                m == n - old(self).lender.lends().len(),
                left == m - lends_total(cs),
                forall|i: int| 0 <= i < cs.len() ==> strictly_cloned(self.orig, #[trigger] cs[i]),
                forall|i: int| 0 <= i < cs.len() ==> (#[trigger] cs[i]).lends().len() > 0,
            decreases left,
        {
            let c = self.orig.clone();
            proof {
                assert(strictly_cloned(self.orig, c));
            }
            let ghost gc = c;
            self.lender = c;
            let ghost before = self.lender.lends();
            let ghost cs2 = cs.push(gc);
            proof {
                assert(cs2.drop_last() =~= cs);
                assert(cs2.last() == gc);
                assert(forall|i: int| 0 <= i < cs.len() ==> cs2[i] == cs[i]);
                assert(lends_total(cs2) == lends_total(cs) + gc.lends().len());
            }
            match self.lender.advance_by(left) {
                Ok(()) => {
                    proof {
                        assert(restarts(self.orig, m, cs2));
                    }
                    return Ok(());
                },
                Err(rem) => {
                    if rem == left {
                        proof {
                            assert(before.len() == 0);
                            assert(restarts(self.orig, m, cs2));
                        }
                        return Err(rem);
                    }
                    proof {
                        cs = cs2;
                    }
                    left = rem;
                },
            }
        }
        Ok(())
    }
}

} // verus!
