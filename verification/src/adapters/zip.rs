//! `Zip`: lends of two lenders handed out in pairs.
use vstd::prelude::*;

use crate::spec::suffix;

use crate::traits::{DoubleEndedLender, ExactSizeLender, FusedLender, Lend, Lender, Lending, SpecLend};

verus! {

/// The pairs of elements of `a` and `b` at the same position, as many as the
/// shorter one has.
pub open spec fn zipped<S, T>(a: Seq<S>, b: Seq<T>) -> Seq<(S, T)> {
    Seq::new(if a.len() <= b.len() { a.len() } else { b.len() }, |i: int| (a[i], b[i]))
}

/// Zips two lenders.
pub fn zip<A: Lender, B: Lender>(a: A, b: B) -> (r: Zip<A, B>)
    ensures
        r.a == a,
        r.b == b,
{
    Zip::new(a, b)
}

/// A lender that hands out the lends of `a` and `b` in pairs, until one of
/// them is exhausted.
pub struct Zip<A, B> {
    pub a: A,
    pub b: B,
}

impl<A, B> Zip<A, B> {
    /// Zips `a` and `b`.
    pub fn new(a: A, b: B) -> (r: Zip<A, B>)
        ensures
            r.a == a,
            r.b == b,
    {
        Zip { a, b }
    }

    /// Returns the two inner lenders.
    pub fn into_inner(self) -> (r: (A, B))
        ensures
            r == (self.a, self.b),
    {
        (self.a, self.b)
    }
}

impl<'lend, A: Lender, B: Lender> Lending<'lend> for Zip<A, B> {
    type Lend = (Lend<'lend, A>, Lend<'lend, B>);
}

impl<A: Lender, B: Lender> Lender for Zip<A, B> {
    open spec fn wf(&self) -> bool {
        self.a.wf() && self.b.wf()
    }

    open spec fn lends(&self) -> Seq<(SpecLend<A>, SpecLend<B>)> {
        zipped(self.a.lends(), self.b.lends())
    }

    fn next(&mut self) -> (r: Option<Lend<'_, Self>>)
        ensures
            final(self).a.lends() == suffix(old(self).a.lends(), 1),
            old(self).a.lends().len() > 0 ==> final(self).b.lends() == suffix(old(self).b.lends(), 1),
            old(self).a.lends().len() == 0 ==> final(self).b == old(self).b,
    {
        let ghost sa = self.a.lends();
        let ghost sb = self.b.lends();
        proof {
            if sa.len() > 0 && sb.len() > 0 {
                assert(zipped(sa.drop_first(), sb.drop_first()) =~= zipped(sa, sb).drop_first());
            }
        }
        let x = match self.a.next() {
            Some(x) => x,
            None => return None,
        };
        let y = match self.b.next() {
            Some(y) => y,
            None => return None,
        };
        Some((x, y))
    }

    fn nth(&mut self, n: usize) -> (r: Option<Lend<'_, Self>>)
        ensures
            final(self).a.lends() == suffix(old(self).a.lends(), (n + 1) as nat),
            n < old(self).a.lends().len() ==> final(self).b.lends() == suffix(old(self).b.lends(), (n + 1) as nat),
            n >= old(self).a.lends().len() ==> final(self).b == old(self).b,
    {
        let ghost sa = self.a.lends();
        let ghost sb = self.b.lends();
        proof {
            if n < sa.len() && n < sb.len() {
                assert(zipped(sa.skip(n + 1), sb.skip(n + 1)) =~= zipped(sa, sb).skip(n + 1));
            }
        }
        let a = match self.a.nth(n) {
            Some(a) => a,
            None => return None,
        };
        let b = match self.b.nth(n) {
            Some(b) => b,
            None => return None,
        };
        Some((a, b))
    }

    open spec fn hint(&self) -> (usize, Option<usize>) {
        (
            if self.a.hint().0 <= self.b.hint().0 { self.a.hint().0 } else { self.b.hint().0 },
            match (self.a.hint().1, self.b.hint().1) {
                (Some(x), Some(y)) => Some(if x <= y { x } else { y }),
                (Some(x), None) => Some(x),
                (None, Some(y)) => Some(y),
                (None, None) => None,
            },
        )
    }

    fn size_hint(&self) -> (r: (usize, Option<usize>)) {
        let (a_lower, a_upper) = self.a.size_hint();
        let (b_lower, b_upper) = self.b.size_hint();
        let lower = if a_lower <= b_lower {
            a_lower
        } else {
            b_lower
        };
        let upper = match (a_upper, b_upper) {
            (Some(x), Some(y)) => Some(
                if x <= y {
                    x
                } else {
                    y
                },
            ),
            (Some(x), None) => Some(x),
            (None, Some(y)) => Some(y),
            (None, None) => None,
        };
        (lower, upper)
    }
}

impl<A, B> DoubleEndedLender for Zip<A, B> where
    A: DoubleEndedLender + ExactSizeLender,
    B: DoubleEndedLender + ExactSizeLender,
 {
    fn next_back(&mut self) -> (r: Option<Lend<'_, Self>>) {
        let ghost z = self.lends();
        let a_sz = self.a.len();
        let b_sz = self.b.len();
        if a_sz > b_sz {
            let _ = self.a.advance_back_by(a_sz - b_sz);
        } else if b_sz > a_sz {
            let _ = self.b.advance_back_by(b_sz - a_sz);
        }
        proof {
            let sa = self.a.lends();
            let sb = self.b.lends();
            assert(sa.len() == sb.len());
            assert(zipped(sa, sb) =~= z);
            if sa.len() > 0 {
                assert(zipped(sa.drop_last(), sb.drop_last()) =~= z.drop_last());
            }
        }
        match (self.a.next_back(), self.b.next_back()) {
            (Some(x), Some(y)) => Some((x, y)),
            (None, None) => None,
            _ => {
                assert(false);
                None
            },
        }
    }

    fn nth_back(&mut self, n: usize) -> (r: Option<Lend<'_, Self>>) {
        let ghost z = self.lends();
        let a_sz = self.a.len();
        let b_sz = self.b.len();
        if a_sz > b_sz {
            let _ = self.a.advance_back_by(a_sz - b_sz);
        } else if b_sz > a_sz {
            let _ = self.b.advance_back_by(b_sz - a_sz);
        }
        proof {
            let sa = self.a.lends();
            let sb = self.b.lends();
            assert(sa.len() == sb.len());
            assert(zipped(sa, sb) =~= z);
            if n < sa.len() {
                assert(zipped(sa.take(sa.len() - 1 - n), sb.take(sb.len() - 1 - n)) =~= z.take(z.len() - 1 - n));
            }
        }
        match (self.a.nth_back(n), self.b.nth_back(n)) {
            (Some(x), Some(y)) => Some((x, y)),
            (None, None) => None,
            _ => {
                assert(false);
                None
            },
        }
    }
}

impl<A: ExactSizeLender, B: ExactSizeLender> ExactSizeLender for Zip<A, B> {
    fn len(&self) -> (r: usize) {
        let a = self.a.len();
        let b = self.b.len();
        if a <= b {
            a
        } else {
            b
        }
    }
}

impl<A: FusedLender, B: FusedLender> FusedLender for Zip<A, B> {}

} // verus!
