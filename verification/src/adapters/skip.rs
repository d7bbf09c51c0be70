//! `Skip`: all lends but the first `n`.
use vstd::prelude::*;
use core::ops::ControlFlow;

use crate::spec::{lemma_fold_empty, lemma_try_fold_empty, suffix, try_fold_post, try_fold_ready, try_fold_trace};
use crate::traits::{DoubleEndedLender, ExactSizeLender, FusedLender, Lend, Lender, Lending, SpecLend};

verus! {

/// A lender that skips the first `n` lends of the underlying one.
pub struct Skip<L> {
    pub lender: L,
    /// The number of lends still to skip.
    pub n: usize,
}

impl<L> Skip<L> {
    /// Returns the inner lender.
    pub fn into_inner(self) -> (r: L)
        ensures
            r == self.lender,
    {
        self.lender
    }

    /// Returns the inner lender and the number of lends still to skip.
    pub fn into_parts(self) -> (r: (L, usize))
        ensures
            r == (self.lender, self.n),
    {
        (self.lender, self.n)
    }
}

impl<L> Skip<L> {
    /// Skips the first `n` lends of `lender`.
    pub fn new(lender: L, n: usize) -> (r: Skip<L>)
        ensures
            r.lender == lender,
            r.n == n,
    {
        Skip { lender, n }
    }
}

impl<'lend, L: Lender> Lending<'lend> for Skip<L> {
    type Lend = Lend<'lend, L>;
}

impl<L: Lender> Lender for Skip<L> {
    open spec fn wf(&self) -> bool {
        self.lender.wf()
    }

    open spec fn lends(&self) -> Seq<SpecLend<Self>> {
        suffix(self.lender.lends(), self.n as nat)
    }

    fn next(&mut self) -> (r: Option<Lend<'_, Self>>)
        ensures
            final(self).n == 0,
            final(self).lender.lends() == suffix(old(self).lender.lends(), (old(self).n + 1) as nat),
    {
        let ghost s = self.lender.lends();
        if self.n > 0 {
            let n = self.n;
            self.n = 0;
            proof {
                if n < s.len() {
                    assert(suffix(s, n as nat).drop_first() =~= s.skip(n + 1));
                    assert(suffix(s.skip(n + 1), 0) =~= s.skip(n + 1));
                }
            }
            self.lender.nth(n)
        } else {
            proof {
                assert(suffix(s, 0) =~= s);
                if s.len() > 0 {
                    assert(suffix(s.drop_first(), 0) =~= s.drop_first());
                }
            }
            self.lender.next()
        }
    }

    fn nth(&mut self, n: usize) -> (r: Option<Lend<'_, Self>>)
        ensures
            final(self).n == 0,
            final(self).lender.lends() == suffix(old(self).lender.lends(), (old(self).n + n + 1) as nat),
    {
        let ghost s = self.lender.lends();
        let ghost t = suffix(s, self.n as nat);
        if self.n > 0 {
            let skip = self.n;
            self.n = 0;
            let m = match skip.checked_add(n) {
                Some(nth) => nth,
                None => {
                    self.lender.nth(skip - 1);
                    proof {
                        if skip <= s.len() {
                            assert(suffix(s, skip as nat) =~= s.skip(skip as int));
                        }
                    }
                    n
                },
            };
            proof {
                let cur = self.lender.lends();
                assert(cur.skip(0) =~= cur);
                if n < t.len() {
                    assert(cur[m as int] == t[n as int]);
                    assert(suffix(cur.skip(m + 1), 0) =~= t.skip(n + 1));
                }
            }
            self.lender.nth(m)
        } else {
            proof {
                assert(t =~= s);
                if n < s.len() {
                    assert(suffix(s.skip(n + 1), 0) =~= s.skip(n + 1));
                }
            }
            self.lender.nth(n)
        }
    }

    fn count(self) -> (r: usize) {
        let ghost n0 = self.n;
        let mut this = self;
        let ghost s = this.lender.lends();
        if this.n > 0 && this.lender.nth(this.n - 1).is_none() {
            return 0;
        }
        proof {
            if n0 > 0 {
                assert(this.lender.lends() =~= suffix(s, n0 as nat));
            } else {
                assert(suffix(s, 0) =~= s);
            }
        }
        this.lender.count()
    }

    open spec fn hint(&self) -> (usize, Option<usize>) {
        (
            self.lender.hint().0.saturating_sub(self.n),
            match self.lender.hint().1 {
                Some(x) => Some(x.saturating_sub(self.n)),
                None => None,
            },
        )
    }

    fn size_hint(&self) -> (r: (usize, Option<usize>)) {
        let (lower, upper) = self.lender.size_hint();
        let lower = lower.saturating_sub(self.n);
        let upper = match upper {
            Some(x) => Some(x.saturating_sub(self.n)),
            None => None,
        };
        (lower, upper)
    }

    fn try_fold<B, R, F>(&mut self, init: B, f: F) -> (r: ControlFlow<R, B>)
        where
            F: FnMut(B, Lend<'_, Self>) -> ControlFlow<R, B>,
    {
        let ghost s = self.lender.lends();
        let n = self.n;
        self.n = 0;
        if n > 0 && self.lender.nth(n - 1).is_none() {
            proof {
                lemma_try_fold_empty(f, init, old(self).lends(), self.lends());
            }
            return ControlFlow::Continue(init);
        }
        proof {
            if n > 0 {
                assert(self.lender.lends() =~= suffix(s, n as nat));
            } else {
                assert(suffix(s, 0) =~= s);
            }
            assert(forall|q: Seq<SpecLend<L>>| #[trigger] suffix(q, 0) =~= q);
        }
        self.lender.try_fold(init, f)
    }

    fn fold<B, F>(self, init: B, f: F) -> (r: B)
        where
            F: FnMut(B, Lend<'_, Self>) -> B,
    {
        let ghost n0 = self.n;
        let ghost t0 = self.lends();
        let mut this = self;
        let ghost s = this.lender.lends();
        if this.n > 0 && this.lender.nth(this.n - 1).is_none() {
            proof {
                lemma_fold_empty(f, init, t0);
            }
            return init;
        }
        proof {
            if n0 > 0 {
                assert(this.lender.lends() =~= suffix(s, n0 as nat));
            } else {
                assert(suffix(s, 0) =~= s);
            }
        }
        this.lender.fold(init, f)
    }

    fn advance_by(&mut self, n: usize) -> (r: Result<(), usize>) {
        let ghost s = self.lender.lends();
        let ghost t = self.lends();
        let ghost n0 = n;
        let ghost big = self.n;
        let mut m = n;
        let skip_inner = self.n;
        let skip_and_advance = skip_inner.saturating_add(m);
        let remainder = match self.lender.advance_by(skip_and_advance) {
            Ok(()) => 0,
            Err(rem) => rem,
        };
        let advanced_inner = skip_and_advance - remainder;
        m = m - advanced_inner.saturating_sub(skip_inner);
        self.n = self.n.saturating_sub(advanced_inner);
        proof {
            let cur = self.lender.lends();
            if remainder == 0 {
                assert(cur == s.skip(skip_and_advance as int));
                if m == 0 {
                    assert(suffix(cur, self.n as nat) =~= t.skip(n0 as int));
                }
            } else {
                assert(cur.len() == 0);
                assert(advanced_inner == s.len());
            }
        }
        if remainder == 0 && m > 0 {
            let ghost mid = self.lender.lends();
            m = match self.lender.advance_by(m) {
                Ok(()) => 0,
                Err(rem) => rem,
            };
            proof {
                let cur = self.lender.lends();
                assert(self.n == 0);
                assert(big + n0 > usize::MAX);
                if m == 0 {
                    assert(cur =~= s.skip(big + n0));
                    assert(suffix(cur, 0) =~= t.skip(n0 as int));
                }
            }
        }
        proof {
            let cur = self.lender.lends();
            if m == 0 {
                assert(n0 <= t.len());
                assert(suffix(cur, self.n as nat) == t.skip(n0 as int));
            } else {
                assert(suffix(cur, self.n as nat).len() == 0);
                assert(m == n0 - t.len());
            }
        }
        if m == 0 {
            Ok(())
        } else {
            Err(m)
        }
    }
}

impl<L: DoubleEndedLender + ExactSizeLender> DoubleEndedLender for Skip<L> {
    fn next_back(&mut self) -> (r: Option<Lend<'_, Self>>) {
        let ghost s = self.lender.lends();
        proof {
            if self.n < s.len() {
                assert(suffix(s.drop_last(), self.n as nat) =~= suffix(s, self.n as nat).drop_last());
            }
        }
        if self.len() > 0 {
            self.lender.next_back()
        } else {
            None
        }
    }

    fn nth_back(&mut self, n: usize) -> (r: Option<Lend<'_, Self>>) {
        let ghost s = self.lender.lends();
        let ghost t = self.lends();
        let len = self.len();
        if len > n {
            proof {
                assert(suffix(s.take(s.len() - 1 - n), self.n as nat) =~= t.take(t.len() - 1 - n));
            }
            self.lender.nth_back(n)
        } else {
            if len > 0 {
                self.lender.nth_back(len - 1);
            }
            None
        }
    }

    fn try_rfold<B, R, F>(&mut self, init: B, f: F) -> (r: ControlFlow<R, B>)
        where
            F: FnMut(B, Lend<'_, Self>) -> ControlFlow<R, B>,
    {
        let mut len = self.len();
        if len == 0 {
            proof {
                lemma_try_fold_empty(f, init, old(self).lends().reverse(), self.lends().reverse());
            }
            return ControlFlow::Continue(init);
        }
        let ghost orig = old(self).lends().reverse();
        let ghost s = self.lender.lends();
        assert(old(self).lends() =~= s.skip(self.n as int));
        let mut acc = init;
        let mut g = f;
        let ghost mut accs: Seq<B> = seq![init];
        loop
            invariant
                self.wf(),
                self.n == old(self).n,
                0 < len,
                orig == old(self).lends().reverse(),
                g == f,
                try_fold_ready::<B, R, SpecLend<L>, F>(f),
                try_fold_trace(f, init, orig, accs),
                acc == accs.last(),
                len + accs.len() - 1 == orig.len(),
                self.lender.lends() == s.take(s.len() - (accs.len() - 1)),
                s.len() == self.n + orig.len(),
                orig == s.skip(self.n as int).reverse(),
            decreases len,
        {
            let ghost k = accs.len() - 1;
            let ghost before = self.lender.lends();
            proof {
                assert(before.last() == orig[k]);
                assert(before.drop_last() =~= s.take(s.len() - (k + 1)));
            }
            match self.lender.next_back() {
                None => {
                    assert(false);
                    return ControlFlow::Continue(acc);
                },
                Some(x) => {
                    len = len - 1;
                    let c = g(acc, x);
                    let ghost c0 = c;
                    match c {
                        ControlFlow::Continue(b) => {
                            proof {
                                accs = accs.push(b);
                            }
                            if len == 0 {
                                proof {
                                    assert(try_fold_trace(f, init, orig, accs));
                                }
                                return ControlFlow::Continue(b);
                            }
                            acc = b;
                        },
                        ControlFlow::Break(e) => {
                            let c = ControlFlow::Break(e);
                            proof {
                                assert(try_fold_trace(f, init, orig, accs));
                                assert(c == c0);
                                let rest = s.take(s.len() - (k + 1));
                                assert(suffix(rest, self.n as nat).reverse() =~= orig.skip(k + 1));
                            }
                            return c;
                        },
                    }
                },
            }
        }
    }

    fn advance_back_by(&mut self, n: usize) -> (r: Result<(), usize>) {
        let ghost s = self.lender.lends();
        let ghost t = self.lends();
        let len = self.len();
        let min = if len <= n {
            len
        } else {
            n
        };
        let _ = self.lender.advance_back_by(min);
        proof {
            assert(suffix(s.take(s.len() - min), self.n as nat) =~= t.take(t.len() - min));
        }
        if n - min == 0 {
            Ok(())
        } else {
            Err(n - min)
        }
    }
}

impl<L: ExactSizeLender> ExactSizeLender for Skip<L> {
    fn len(&self) -> (r: usize) {
        self.lender.len().saturating_sub(self.n)
    }
}

impl<L: FusedLender> FusedLender for Skip<L> {}

} // verus!
