//! `Chain`: the lends of one lender followed by those of another.
use vstd::prelude::*;

use crate::adapters::fuse::Fuse;
use crate::spec::suffix;
use crate::traits::{DoubleEndedLender, FusedLender, Lend, Lender, Lending, SpecLend};

verus! {

/// A lender that hands out the lends of `a` and then those of `b`.
pub struct Chain<A, B> {
    pub a: Fuse<A>,
    pub b: Fuse<B>,
}

impl<A, B> Chain<A, B> {
    /// Chains `a` and `b`.
    pub fn new(a: A, b: B) -> (r: Chain<A, B>)
        ensures
            r.a.lender == a && !r.a.flag,
            r.b.lender == b && !r.b.flag,
    {
        Chain { a: Fuse { lender: a, flag: false }, b: Fuse { lender: b, flag: false } }
    }

    /// Returns the two inner lenders.
    pub fn into_inner(self) -> (r: (A, B))
        ensures
            r == (self.a.lender, self.b.lender),
    {
        (self.a.into_inner(), self.b.into_inner())
    }
}


impl<'lend, A, B> Lending<'lend> for Chain<A, B> where
    A: Lender,
    B: Lender + for<'all> Lending<'all, Lend = Lend<'all, A>>,
 {
    type Lend = Lend<'lend, A>;
}

impl<A, B> Lender for Chain<A, B> where
    A: Lender,
    B: Lender + for<'all> Lending<'all, Lend = Lend<'all, A>>,
 {
    open spec fn wf(&self) -> bool {
        self.a.wf() && self.b.wf()
    }

    open spec fn lends(&self) -> Seq<SpecLend<Self>> {
        self.a.lends() + self.b.lends()
    }

    fn next(&mut self) -> (r: Option<Lend<'_, Self>>)
        ensures
            old(self).a.lends().len() > 0 ==> final(self).a.lends() == old(self).a.lends().drop_first()
                && final(self).b == old(self).b,
            old(self).a.lends().len() == 0 ==> final(self).a.lends().len() == 0
                && final(self).b.lends() == suffix(old(self).b.lends(), 1),
            old(self).a.flag ==> final(self).a == old(self).a,
            !old(self).a.flag ==> final(self).a.lender.lends() == suffix(old(self).a.lender.lends(), 1),
            old(self).a.lends().len() == 0 && !old(self).b.flag ==> final(self).b.lender.lends() == suffix(
                old(self).b.lender.lends(),
                1,
            ),
    {
        let ghost sa = self.a.lends();
        let ghost sb = self.b.lends();
        proof {
            if sa.len() > 0 {
                assert((sa + sb).drop_first() =~= sa.drop_first() + sb);
            } else {
                assert(sa + sb =~= sb);
            }
        }
        match self.a.next() {
            Some(x) => Some(x),
            None => self.b.next(),
        }
    }

    fn count(self) -> (r: usize) {
        self.a.count() + self.b.count()
    }

    fn advance_by(&mut self, n: usize) -> (r: Result<(), usize>) {
        let ghost sa = self.a.lends();
        let ghost sb = self.b.lends();
        match self.a.advance_by(n) {
            Ok(()) => {
                assert((sa + sb).skip(n as int) =~= sa.skip(n as int) + sb);
                Ok(())
            },
            Err(k) => {
                assert(sa + sb =~= sa + sb);
                let r = self.b.advance_by(k);
                proof {
                    if k <= sb.len() {
                        assert((sa + sb).skip(n as int) =~= sb.skip(k as int));
                    }
                }
                r
            },
        }
    }

    fn nth(&mut self, n: usize) -> (r: Option<Lend<'_, Self>>) {
        let ghost sa = self.a.lends();
        let ghost sb = self.b.lends();
        let m = match self.a.advance_by(n) {
            Ok(()) => {
                proof {
                    if n < sa.len() {
                        assert((sa + sb).skip(n + 1) =~= sa.skip(n + 1) + sb);
                        assert((sa + sb)[n as int] == sa[n as int]);
                        assert(sa.skip(n as int).drop_first() =~= sa.skip(n + 1));
                    }
                }
                match self.a.next() {
                    None => 0,
                    x => return x,
                }
            },
            Err(k) => k,
        };
        proof {
            if n >= sa.len() && n < sa.len() + sb.len() {
                assert((sa + sb)[n as int] == sb[n - sa.len()]);
                assert((sa + sb).skip(n + 1) =~= sb.skip(n - sa.len() + 1));
            }
        }
        self.b.nth(m)
    }

    open spec fn hint(&self) -> (usize, Option<usize>) {
        (
            self.a.hint().0.saturating_add(self.b.hint().0),
            match (self.a.hint().1, self.b.hint().1) {
                (Some(x), Some(y)) => x.checked_add(y),
                _ => None,
            },
        )
    }

    fn size_hint(&self) -> (r: (usize, Option<usize>)) {
        let (a_lower, a_upper) = self.a.size_hint();
        let (b_lower, b_upper) = self.b.size_hint();
        let lower = a_lower.saturating_add(b_lower);
        let upper = match (a_upper, b_upper) {
            (Some(x), Some(y)) => x.checked_add(y),
            _ => None,
        };
        (lower, upper)
    }
}

impl<A, B> DoubleEndedLender for Chain<A, B> where
    A: DoubleEndedLender,
    B: DoubleEndedLender + for<'all> Lending<'all, Lend = Lend<'all, A>>,
 {
    fn next_back(&mut self) -> (r: Option<Lend<'_, Self>>) {
        let ghost sa = self.a.lends();
        let ghost sb = self.b.lends();
        proof {
            if sb.len() > 0 {
                assert((sa + sb).drop_last() =~= sa + sb.drop_last());
            } else {
                assert(sa + sb =~= sa);
            }
        }
        match self.b.next_back() {
            Some(x) => Some(x),
            None => self.a.next_back(),
        }
    }

    fn advance_back_by(&mut self, n: usize) -> (r: Result<(), usize>) {
        let ghost sa = self.a.lends();
        let ghost sb = self.b.lends();
        match self.b.advance_back_by(n) {
            Ok(()) => {
                assert((sa + sb).take((sa + sb).len() - n) =~= sa + sb.take(sb.len() - n));
                Ok(())
            },
            Err(k) => {
                let r = self.a.advance_back_by(k);
                proof {
                    if k <= sa.len() {
                        assert((sa + sb).take((sa + sb).len() - n) =~= sa.take(sa.len() - k));
                    }
                }
                r
            },
        }
    }

    fn nth_back(&mut self, n: usize) -> (r: Option<Lend<'_, Self>>) {
        let ghost sa = self.a.lends();
        let ghost sb = self.b.lends();
        let m = match self.b.advance_back_by(n) {
            Ok(()) => {
                proof {
                    if n < sb.len() {
                        let s = sa + sb;
                        assert(s[s.len() - 1 - n] == sb[sb.len() - 1 - n]);
                        assert(s.take(s.len() - 1 - n) =~= sa + sb.take(sb.len() - 1 - n));
                        assert(sb.take(sb.len() - n).drop_last() =~= sb.take(sb.len() - 1 - n));
                    }
                }
                match self.b.next_back() {
                    None => 0,
                    x => return x,
                }
            },
            Err(k) => k,
        };
        proof {
            let s = sa + sb;
            if n >= sb.len() && n < s.len() {
                assert(s[s.len() - 1 - n] == sa[sa.len() - 1 - (n - sb.len())]);
                assert(s.take(s.len() - 1 - n) =~= sa.take(sa.len() - 1 - (n - sb.len())));
            }
        }
        self.a.nth_back(m)
    }
}

impl<A, B> FusedLender for Chain<A, B> where
    A: FusedLender,
    B: FusedLender + for<'all> Lending<'all, Lend = Lend<'all, A>>,
 {
}

} // verus!
