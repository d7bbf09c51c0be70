//! `Take`: at most the first `n` lends.
use vstd::prelude::*;
use core::ops::ControlFlow;

use crate::spec::{lemma_try_fold_shrinks, fold_ready, fold_result, fold_trace, min_nat, prefix, suffix, try_fold_post, try_fold_ready, try_fold_trace};
use crate::traits::{DoubleEndedLender, ExactSizeLender, FusedLender, Lend, Lender, Lending, SpecLend};

verus! {

/// A lender that hands out at most the first `n` lends of the underlying one.
pub struct Take<L> {
    pub lender: L,
    pub n: usize,
}

impl<L> Take<L> {
    /// Returns the inner lender.
    pub fn into_inner(self) -> (r: L)
        ensures
            r == self.lender,
    {
        self.lender
    }

    /// Returns the inner lender and the number of lends still to take.
    pub fn into_parts(self) -> (r: (L, usize))
        ensures
            r == (self.lender, self.n),
    {
        (self.lender, self.n)
    }
}

impl<L> Take<L> {
    /// Takes at most `n` lends of `lender`.
    pub fn new(lender: L, n: usize) -> (r: Take<L>)
        ensures
            r.lender == lender,
            r.n == n,
    {
        Take { lender, n }
    }
}

impl<'lend, L: Lender> Lending<'lend> for Take<L> {
    type Lend = Lend<'lend, L>;
}

impl<L: Lender> Lender for Take<L> {
    open spec fn wf(&self) -> bool {
        self.lender.wf()
    }

    open spec fn lends(&self) -> Seq<SpecLend<Self>> {
        prefix(self.lender.lends(), self.n as nat)
    }

    fn next(&mut self) -> (r: Option<Lend<'_, Self>>)
        ensures
            final(self).n <= old(self).n,
            final(self).lender.lends() == suffix(old(self).lender.lends(), (old(self).n - final(self).n) as nat),
            final(self).n == if old(self).n == 0 { 0 } else { old(self).n - 1 },
    {
        if self.n != 0 {
            proof {
                let s = self.lender.lends();
                if s.len() > 0 {
                    assert(prefix(s.drop_first(), (self.n - 1) as nat) == prefix(s, self.n as nat).drop_first());
                }
            }
            self.n = self.n - 1;
            self.lender.next()
        } else {
            None
        }
    }

    fn nth(&mut self, n: usize) -> (r: Option<Lend<'_, Self>>)
        ensures
            final(self).n <= old(self).n,
            final(self).lender.lends() == suffix(old(self).lender.lends(), (old(self).n - final(self).n) as nat),
            final(self).n == if old(self).n > n { old(self).n - n - 1 } else { 0 },
    {
        let ghost s = self.lender.lends();
        let ghost big = self.n;
        if self.n > n {
            self.n = self.n - (n + 1);
            proof {
                if n < s.len() {
                    assert(prefix(s.skip(n + 1), self.n as nat) == prefix(s, big as nat).skip(n + 1));
                }
            }
            self.lender.nth(n)
        } else {
            if self.n > 0 {
                self.lender.nth(self.n - 1);
                self.n = 0;
            }
            None
        }
    }

    open spec fn hint(&self) -> (usize, Option<usize>) {
        if self.n == 0 {
            (0, Some(0))
        } else {
            (
                if self.lender.hint().0 < self.n { self.lender.hint().0 } else { self.n },
                match self.lender.hint().1 {
                    Some(x) => if x < self.n { Some(x) } else { Some(self.n) },
                    None => Some(self.n),
                },
            )
        }
    }

    fn size_hint(&self) -> (r: (usize, Option<usize>)) {
        if self.n == 0 {
            return (0, Some(0));
        }
        let (lower, upper) = self.lender.size_hint();
        let lower = if lower < self.n {
            lower
        } else {
            self.n
        };
        let upper = match upper {
            Some(x) if x < self.n => Some(x),
            _ => Some(self.n),
        };
        (lower, upper)
    }

    fn advance_by(&mut self, n: usize) -> (r: Result<(), usize>)
        ensures
            final(self).n <= old(self).n,
            final(self).lender.lends() == suffix(old(self).lender.lends(), (old(self).n - final(self).n) as nat),
            final(self).n == old(self).n - min_nat(min_nat(old(self).n as nat, n as nat), old(self).lender.lends().len()),
    {
        let ghost s = self.lender.lends();
        let ghost big = self.n;
        let min = if self.n < n {
            self.n
        } else {
            n
        };
        let rem = match self.lender.advance_by(min) {
            Ok(()) => 0,
            Err(rem) => rem,
        };
        let advanced = min - rem;
        self.n = self.n - advanced;
        proof {
            if min <= s.len() {
                assert(prefix(s.skip(min as int), self.n as nat) == prefix(s, big as nat).skip(advanced as int));
            }
        }
        if n - advanced == 0 {
            Ok(())
        } else {
            Err(n - advanced)
        }
    }

    fn try_fold<B, R, F>(&mut self, init: B, f: F) -> (r: ControlFlow<R, B>)
        where
            F: FnMut(B, Lend<'_, Self>) -> ControlFlow<R, B>,
        ensures
            final(self).n <= old(self).n,
            final(self).lender.lends() == suffix(old(self).lender.lends(), (old(self).n - final(self).n) as nat),
            r is Continue ==> final(self).n == 0 || final(self).lender.lends().len() == 0,
    {
        if self.n == 0 {
            proof {
                assert(try_fold_trace(f, init, old(self).lends(), seq![init]));
            }
            return ControlFlow::Continue(init);
        }
        let ghost s = self.lender.lends();
        let ghost orig = self.lends();
        let mut acc = init;
        let mut g = f;
        let ghost mut accs: Seq<B> = seq![init];
        loop
            invariant
                self.wf(),
                self.n > 0,
                orig == old(self).lends(),
                g == f,
                try_fold_ready::<B, R, SpecLend<L>, F>(f),
                try_fold_trace(f, init, orig, accs),
                accs.len() - 1 < orig.len() || self.lender.lends().len() == 0,
                acc == accs.last(),
                self.lender.lends() == s.skip(accs.len() - 1),
                self.n + (accs.len() - 1) == old(self).n,
                orig == prefix(s, old(self).n as nat),
                s == old(self).lender.lends(),
            decreases self.n,
        {
            let ghost k = accs.len() - 1;
            proof {
                if k < s.len() {
                    assert(s.skip(k + 1) =~= suffix(s, (k + 1) as nat));
                }
                if s.skip(k).len() == 0 {
                    assert(suffix(s, k as nat) =~= s.skip(k));
                }
            }
            match self.lender.next() {
                None => {
                    assert(k == orig.len());
                    return ControlFlow::Continue(acc);
                },
                Some(x) => {
                    self.n = self.n - 1;
                    assert(x == orig[k]);
                    assert(s.skip(k).drop_first() == s.skip(k + 1));
                    let c = g(acc, x);
                    let ghost c0 = c;
                    match c {
                        ControlFlow::Continue(b) => {
                            proof {
                                accs = accs.push(b);
                            }
                            if self.n == 0 {
                                assert(accs.len() - 1 == orig.len());
                                assert(try_fold_trace(f, init, orig, accs));
                                return ControlFlow::Continue(b);
                            }
                            acc = b;
                        },
                        ControlFlow::Break(e) => {
                            let c = ControlFlow::Break(e);
                            proof {
                                assert(try_fold_trace(f, init, orig, accs));
                                assert(c == c0);
                                assert(prefix(s.skip(k + 1), (old(self).n - k - 1) as nat) == orig.skip(k + 1));
                            }
                            return c;
                        },
                    }
                },
            }
        }
    }

    fn fold<B, F>(self, init: B, f: F) -> (r: B)
        where
            F: FnMut(B, Lend<'_, Self>) -> B,
    {
        let ghost s = self.lender.lends();
        let ghost orig = self.lends();
        let mut this = self;
        let mut g = f;
        let mut acc = init;
        let ghost mut accs: Seq<B> = seq![init];
        while this.n != 0
            invariant
                g == f,
                this.wf(),
                orig == self.lends(),
                orig == prefix(s, self.n as nat),
                fold_ready::<B, SpecLend<L>, F>(f),
                accs.len() <= orig.len() + 1,
                fold_trace(f, init, orig.take(accs.len() - 1), accs),
                acc == accs.last(),
                this.lender.lends() == s.skip(accs.len() - 1),
                this.n + (accs.len() - 1) == self.n,
            decreases this.n,
        {
            let ghost k = accs.len() - 1;
            match this.lender.next() {
                None => {
                    assert(orig.take(k) == orig);
                    assert(fold_trace(f, init, orig, accs));
                    return acc;
                },
                Some(x) => {
                    this.n = this.n - 1;
                    assert(x == orig[k]);
                    acc = g(acc, x);
                    proof {
                        accs = accs.push(acc);
                        assert(orig.take(k + 1).take(k) == orig.take(k));
                        assert(s.skip(k).drop_first() == s.skip(k + 1));
                    }
                },
            }
        }
        assert(orig.take(accs.len() - 1) == orig);
        acc
    }
}

impl<L: DoubleEndedLender + ExactSizeLender> DoubleEndedLender for Take<L> {
    fn next_back(&mut self) -> (r: Option<Lend<'_, Self>>) {
        if self.n != 0 {
            let n = self.n;
            self.n = self.n - 1;
            let ghost s = self.lender.lends();
            let k = self.lender.len().saturating_sub(n);
            proof {
                if s.len() > 0 {
                    assert(prefix(s.take(s.len() - 1 - k), self.n as nat) == prefix(s, n as nat).drop_last());
                }
            }
            self.lender.nth_back(k)
        } else {
            None
        }
    }

    fn nth_back(&mut self, n: usize) -> (r: Option<Lend<'_, Self>>) {
        let ghost s = self.lender.lends();
        let ghost big = self.n;
        let len = self.lender.len();
        if self.n > n {
            let m = len.saturating_sub(self.n) + n;
            self.n = self.n - (n + 1);
            proof {
                let p = prefix(s, big as nat);
                if m < s.len() {
                    assert(prefix(s.take(s.len() - 1 - m), self.n as nat) == p.take(p.len() - 1 - n));
                }
            }
            self.lender.nth_back(m)
        } else {
            if len > 0 {
                self.lender.nth_back(len - 1);
            }
            None
        }
    }

    fn advance_back_by(&mut self, n: usize) -> (r: Result<(), usize>) {
        let ghost s = self.lender.lends();
        let ghost big = self.n;
        let trim_inner = self.lender.len().saturating_sub(self.n);
        let advance_by = trim_inner.saturating_add(n);
        let remainder = match self.lender.advance_back_by(advance_by) {
            Ok(()) => 0,
            Err(rem) => rem,
        };
        let advanced_by_inner = advance_by - remainder;
        let advanced_by = advanced_by_inner - trim_inner;
        self.n = self.n - advanced_by;
        proof {
            let p = prefix(s, big as nat);
            if n <= p.len() {
                assert(prefix(s.take(s.len() - advance_by), self.n as nat) == p.take(p.len() - n));
            }
        }
        if n - advanced_by == 0 {
            Ok(())
        } else {
            Err(n - advanced_by)
        }
    }

    fn try_rfold<B, R, F>(&mut self, init: B, f: F) -> (r: ControlFlow<R, B>)
        where
            F: FnMut(B, Lend<'_, Self>) -> ControlFlow<R, B>,
    {
        if self.n == 0 {
            proof {
                assert(old(self).lends().reverse().len() == 0);
                assert(try_fold_trace(f, init, old(self).lends().reverse(), seq![init]));
            }
            ControlFlow::Continue(init)
        } else {
            let len = self.lender.len();
            if len > self.n && self.lender.nth_back(len - self.n - 1).is_none() {
                proof {
                    assert(try_fold_trace(f, init, old(self).lends().reverse(), seq![init]));
                }
                ControlFlow::Continue(init)
            } else {
                assert(self.lender.lends() == old(self).lends());
                let before = self.lender.len();
                let r = self.lender.try_rfold(init, f);
                let after = self.lender.len();
                proof {
                    lemma_try_fold_shrinks(f, init, old(self).lends().reverse(), self.lender.lends().reverse(), r);
                }
                self.n = self.n - (before - after);
                assert(self.lends() == self.lender.lends());
                r
            }
        }
    }

    fn rfold<B, F>(self, init: B, f: F) -> (r: B)
        where
            F: FnMut(B, Lend<'_, Self>) -> B,
    {
        let mut this = self;
        if this.n == 0 {
            proof {
                assert(self.lends().reverse().len() == 0);
                let w = seq![init];
                assert(w.last() == init);
                assert(fold_trace(f, init, self.lends().reverse(), w));
            }
            init
        } else {
            let len = this.lender.len();
            if len > this.n && this.lender.nth_back(len - this.n - 1).is_none() {
                proof {
                    let w = seq![init];
                    assert(w.last() == init);
                    assert(fold_trace(f, init, self.lends().reverse(), w));
                }
                init
            } else {
                assert(this.lender.lends() == self.lends());
                let r = this.lender.rfold(init, f);
                assert(fold_result(f, init, self.lends().reverse(), r));
                r
            }
        }
    }
}

impl<L: ExactSizeLender> ExactSizeLender for Take<L> {
    fn len(&self) -> (r: usize) {
        let len = self.lender.len();
        if len < self.n {
            len
        } else {
            self.n
        }
    }
}

impl<L: FusedLender> FusedLender for Take<L> {}

} // verus!
