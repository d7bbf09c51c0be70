//! `Enumerate`: each lend paired with its position.
use vstd::prelude::*;

use crate::traits::{DoubleEndedLender, ExactSizeLender, FusedLender, Lend, Lender, Lending, SpecLend};

verus! {

/// The elements of `s`, each paired with its position plus `start`.
pub open spec fn numbered<T>(s: Seq<T>, start: nat) -> Seq<(usize, T)> {
    Seq::new(s.len(), |i: int| ((start + i) as usize, s[i]))
}

/// A lender that hands out each lend of the underlying one together with its
/// position, counted from `count`.
pub struct Enumerate<L> {
    pub lender: L,
    /// The position of the next lend.
    pub count: usize,
}

impl<L> Enumerate<L> {
    /// Numbers the lends of `lender` from zero.
    pub fn new(lender: L) -> (r: Enumerate<L>)
        ensures
            r.lender == lender,
            r.count == 0,
    {
        Enumerate { lender, count: 0 }
    }

    /// Returns the inner lender.
    pub fn into_inner(self) -> (r: L)
        ensures
            r == self.lender,
    {
        self.lender
    }

    /// Returns the inner lender and the current count.
    pub fn into_parts(self) -> (r: (L, usize))
        ensures
            r == (self.lender, self.count),
    {
        (self.lender, self.count)
    }
}

impl<'lend, L: Lender> Lending<'lend> for Enumerate<L> {
    type Lend = (usize, Lend<'lend, L>);
}

impl<L: Lender> Lender for Enumerate<L> {
    /// The positions of all lends still to come fit in a `usize`.
    open spec fn wf(&self) -> bool {
        self.lender.wf() && self.count + self.lender.lends().len() <= usize::MAX
    }

    open spec fn lends(&self) -> Seq<(usize, SpecLend<L>)> {
        numbered(self.lender.lends(), self.count as nat)
    }

    fn next(&mut self) -> (r: Option<Lend<'_, Self>>) {
        let ghost s = self.lender.lends();
        proof {
            if s.len() > 0 {
                assert(numbered(s.drop_first(), (self.count + 1) as nat) =~= numbered(s, self.count as nat).drop_first());
            }
        }
        match self.lender.next() {
            Some(x) => {
                let count = self.count;
                self.count = self.count + 1;
                Some((count, x))
            },
            None => None,
        }
    }

    open spec fn hint(&self) -> (usize, Option<usize>) {
        self.lender.hint()
    }

    fn size_hint(&self) -> (r: (usize, Option<usize>)) {
        self.lender.size_hint()
    }

    fn nth(&mut self, n: usize) -> (r: Option<Lend<'_, Self>>) {
        let ghost s = self.lender.lends();
        proof {
            if n < s.len() {
                assert(numbered(s.skip(n + 1), (self.count + n + 1) as nat) =~= numbered(s, self.count as nat).skip(n + 1));
            }
        }
        let a = match self.lender.nth(n) {
            Some(a) => a,
            None => return None,
        };
        let i = self.count + n;
        self.count = i + 1;
        Some((i, a))
    }

    fn count(self) -> (r: usize) {
        self.lender.count()
    }

    fn advance_by(&mut self, n: usize) -> (r: Result<(), usize>) {
        let ghost s = self.lender.lends();
        let remaining = self.lender.advance_by(n);
        let advanced = match remaining {
            Ok(()) => n,
            Err(rem) => n - rem,
        };
        proof {
            if n <= s.len() {
                assert(numbered(s.skip(n as int), (self.count + n) as nat) =~= numbered(s, self.count as nat).skip(n as int));
            }
        }
        self.count = self.count + advanced;
        remaining
    }
}

impl<L: ExactSizeLender + DoubleEndedLender> DoubleEndedLender for Enumerate<L> {
    fn next_back(&mut self) -> (r: Option<Lend<'_, Self>>) {
        let ghost s = self.lender.lends();
        proof {
            if s.len() > 0 {
                assert(numbered(s.drop_last(), self.count as nat) =~= numbered(s, self.count as nat).drop_last());
            }
        }
        let len = self.lender.len();
        let x = match self.lender.next_back() {
            Some(x) => x,
            None => return None,
        };
        Some((self.count + len - 1, x))
    }

    fn nth_back(&mut self, n: usize) -> (r: Option<Lend<'_, Self>>) {
        let ghost s = self.lender.lends();
        proof {
            if n < s.len() {
                assert(numbered(s.take(s.len() - 1 - n), self.count as nat) =~= numbered(s, self.count as nat).take(s.len() - 1 - n));
            }
        }
        let len = self.lender.len();
        let x = match self.lender.nth_back(n) {
            Some(x) => x,
            None => return None,
        };
        Some((self.count + len - n - 1, x))
    }

    fn advance_back_by(&mut self, n: usize) -> (r: Result<(), usize>) {
        let ghost s = self.lender.lends();
        proof {
            if n <= s.len() {
                assert(numbered(s.take(s.len() - n), self.count as nat) =~= numbered(s, self.count as nat).take(s.len() - n));
            }
        }
        self.lender.advance_back_by(n)
    }
}

impl<L: ExactSizeLender> ExactSizeLender for Enumerate<L> {
    fn len(&self) -> (r: usize) {
        self.lender.len()
    }

    fn is_empty(&self) -> (r: bool) {
        self.lender.is_empty()
    }
}

impl<L: FusedLender> FusedLender for Enumerate<L> {}

} // verus!
