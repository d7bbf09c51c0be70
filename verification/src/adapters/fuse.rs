//! `Fuse`: a lender that stays exhausted once it has handed out `None`.
use vstd::prelude::*;
use core::ops::ControlFlow;

use crate::spec::{drop_back, lemma_fold_empty, lemma_try_fold_empty, suffix};
use crate::traits::{DoubleEndedLender, ExactSizeLender, FusedLender, Lend, Lender, Lending, SpecLend};

verus! {

/// A lender that hands out `None` forever after the underlying lender has
/// handed out `None` once.
pub struct Fuse<L> {
    pub lender: L,
    /// Set once the underlying lender has handed out `None`.
    pub flag: bool,
}

impl<L> Fuse<L> {
    /// Fuses `lender`.
    pub fn new(lender: L) -> (r: Fuse<L>)
        ensures
            r.lender == lender,
            !r.flag,
    {
        Fuse { lender, flag: false }
    }

    /// Returns the inner lender.
    pub fn into_inner(self) -> (r: L)
        ensures
            r == self.lender,
    {
        self.lender
    }
}


impl<'lend, L: Lender> Lending<'lend> for Fuse<L> {
    type Lend = Lend<'lend, L>;
}

impl<L: Lender> Lender for Fuse<L> {
    open spec fn wf(&self) -> bool {
        self.lender.wf()
    }

    open spec fn lends(&self) -> Seq<SpecLend<Self>> {
        if self.flag {
            Seq::empty()
        } else {
            self.lender.lends()
        }
    }

    fn next(&mut self) -> (r: Option<Lend<'_, Self>>)
        ensures
            r is None ==> final(self).flag,
            r is Some ==> !final(self).flag,
            old(self).flag ==> final(self).lender == old(self).lender,
            !old(self).flag ==> final(self).lender.lends() == suffix(old(self).lender.lends(), 1),
    {
        if !self.flag {
            if let x @ Some(_) = self.lender.next() {
                return x;
            }
            self.flag = true;
        }
        None
    }

    fn nth(&mut self, n: usize) -> (r: Option<Lend<'_, Self>>)
        ensures
            r is None ==> final(self).flag,
            r is Some ==> !final(self).flag,
            old(self).flag ==> final(self).lender == old(self).lender,
            !old(self).flag ==> final(self).lender.lends() == suffix(old(self).lender.lends(), (n + 1) as nat),
    {
        if !self.flag {
            if let x @ Some(_) = self.lender.nth(n) {
                return x;
            }
            self.flag = true;
        }
        None
    }

    fn count(self) -> (r: usize) {
        if !self.flag {
            self.lender.count()
        } else {
            0
        }
    }

    open spec fn hint(&self) -> (usize, Option<usize>) {
        if !self.flag {
            self.lender.hint()
        } else {
            (0, Some(0))
        }
    }

    fn size_hint(&self) -> (r: (usize, Option<usize>)) {
        if !self.flag {
            self.lender.size_hint()
        } else {
            (0, Some(0))
        }
    }

    fn try_fold<B, R, F>(&mut self, init: B, f: F) -> (r: ControlFlow<R, B>)
        where
            F: FnMut(B, Lend<'_, Self>) -> ControlFlow<R, B>,
    {
        let mut acc = init;
        if !self.flag {
            acc = match self.lender.try_fold(acc, f) {
                ControlFlow::Continue(x) => x,
                ControlFlow::Break(x) => return ControlFlow::Break(x),
            };
            self.flag = true;
        } else {
            proof {
                lemma_try_fold_empty(f, init, old(self).lends(), self.lends());
            }
        }
        ControlFlow::Continue(acc)
    }

    fn fold<B, F>(self, init: B, f: F) -> (r: B)
        where
            F: FnMut(B, Lend<'_, Self>) -> B,
    {
        if !self.flag {
            self.lender.fold(init, f)
        } else {
            proof {
                lemma_fold_empty(f, init, self.lends());
            }
            init
        }
    }
}

impl<L: DoubleEndedLender> DoubleEndedLender for Fuse<L> {
    fn next_back(&mut self) -> (r: Option<Lend<'_, Self>>)
        ensures
            r is None ==> final(self).flag,
            r is Some ==> !final(self).flag,
            old(self).flag ==> final(self).lender == old(self).lender,
            !old(self).flag ==> final(self).lender.lends() == drop_back(old(self).lender.lends(), 1),
    {
        if !self.flag {
            if let x @ Some(_) = self.lender.next_back() {
                return x;
            }
            self.flag = true;
        }
        None
    }

    fn nth_back(&mut self, n: usize) -> (r: Option<Lend<'_, Self>>)
        ensures
            r is None ==> final(self).flag,
            r is Some ==> !final(self).flag,
            old(self).flag ==> final(self).lender == old(self).lender,
            !old(self).flag ==> final(self).lender.lends() == drop_back(old(self).lender.lends(), (n + 1) as nat),
    {
        if !self.flag {
            if let x @ Some(_) = self.lender.nth_back(n) {
                return x;
            }
            self.flag = true;
        }
        None
    }

    fn try_rfold<B, R, F>(&mut self, init: B, f: F) -> (r: ControlFlow<R, B>)
        where
            F: FnMut(B, Lend<'_, Self>) -> ControlFlow<R, B>,
    {
        let mut acc = init;
        if !self.flag {
            acc = match self.lender.try_rfold(acc, f) {
                ControlFlow::Continue(x) => x,
                ControlFlow::Break(x) => return ControlFlow::Break(x),
            };
            self.flag = true;
        } else {
            proof {
                lemma_try_fold_empty(f, init, old(self).lends().reverse(), self.lends().reverse());
            }
        }
        ControlFlow::Continue(acc)
    }

    fn rfold<B, F>(self, init: B, f: F) -> (r: B)
        where
            F: FnMut(B, Lend<'_, Self>) -> B,
    {
        if !self.flag {
            self.lender.rfold(init, f)
        } else {
            proof {
                lemma_fold_empty(f, init, self.lends().reverse());
            }
            init
        }
    }
}

impl<L: ExactSizeLender> ExactSizeLender for Fuse<L> {
    fn len(&self) -> (r: usize) {
        if !self.flag {
            self.lender.len()
        } else {
            0
        }
    }

    fn is_empty(&self) -> (r: bool) {
        if !self.flag {
            self.lender.is_empty()
        } else {
            true
        }
    }
}

impl<L: Lender> FusedLender for Fuse<L> {}

} // verus!
