//! `SkipWhile`: the lends from the first one that a predicate rejects on.
use vstd::prelude::*;
use core::ops::ControlFlow;

use crate::spec::{suffix, 
    accepted_upto, fold_result, lemma_fold_step, lemma_try_fold_break, lemma_try_fold_step, next_post, pred_called, pred_out, pred_pure, pred_ready,
    try_fold_post,
};
use crate::traits::{FusedLender, Lend, Lender, Lending};

verus! {

/// `s` without its longest prefix whose elements `p` all accepts.
pub open spec fn skipped_while<T, P: FnMut(&T) -> bool>(p: P, s: Seq<T>) -> Seq<T>
    decreases s.len(),
{
    if s.len() > 0 && pred_out(p, s[0]) {
        skipped_while(p, s.drop_first())
    } else {
        s
    }
}

/// `skipped_while` gives a suffix of its sequence.
pub proof fn lemma_skipped_while_len<T, P: FnMut(&T) -> bool>(p: P, s: Seq<T>)
    ensures
        skipped_while(p, s).len() <= s.len(),
    decreases s.len(),
{
    if s.len() > 0 && pred_out(p, s[0]) {
        lemma_skipped_while_len(p, s.drop_first());
    }
}

/// A lender that skips the lends of the underlying lender while the predicate
/// accepts them, and from the first one it rejects on hands out every lend.
///
/// The lends must not borrow from the underlying lender: the first lend that
/// is handed out is found by a search that drops the ones before it.
pub struct SkipWhile<L, P> {
    pub lender: L,
    /// Set once the predicate has rejected a lend.
    pub flag: bool,
    pub predicate: P,
}

impl<L, P> SkipWhile<L, P> {
    /// Skips the lends of `lender` while `predicate` accepts them.
    pub fn new(lender: L, predicate: P) -> (r: SkipWhile<L, P>)
        ensures
            r.lender == lender,
            r.predicate == predicate,
            !r.flag,
    {
        SkipWhile { lender, flag: false, predicate }
    }

    /// Returns the inner lender.
    pub fn into_inner(self) -> (r: L)
        ensures
            r == self.lender,
    {
        self.lender
    }

    /// Returns the inner lender and the predicate.
    pub fn into_parts(self) -> (r: (L, P))
        ensures
            r == (self.lender, self.predicate),
    {
        (self.lender, self.predicate)
    }
}

impl<L, P, T> SkipWhile<L, P>
    where
        L: Lender + for<'all> Lending<'all, Lend = T>,
        P: FnMut(&T) -> bool,
{
    /// Before the first lend is handed out, drops the lends that calls of the
    /// predicate accept and hands out the first one a call rejects; after
    /// that, hands out the next lend. The predicate may answer differently
    /// from one call to the next: this says what each call it made answered.
    pub fn next(&mut self) -> (r: Option<T>)
        requires
            old(self).lender.wf(),
            pred_ready::<T, P>(old(self).predicate),
        ensures
            final(self).lender.wf(),
            final(self).predicate == old(self).predicate,
            old(self).flag ==> final(self).flag && next_post(old(self).lender.lends(), final(self).lender.lends(), r),
            !old(self).flag && r is None ==> !final(self).flag && accepted_upto(
                old(self).predicate,
                old(self).lender.lends(),
                old(self).lender.lends().len() as int,
            ) && final(self).lender.lends().len() == 0,
            !old(self).flag && r is Some ==> final(self).flag && exists|k: int|
                0 < k <= old(self).lender.lends().len() && #[trigger] old(self).lender.lends().skip(k)
                    == final(self).lender.lends() && accepted_upto(old(self).predicate, old(self).lender.lends(), k - 1)
                    && r == Some(old(self).lender.lends()[k - 1]) && call_ensures(
                    old(self).predicate,
                    (&old(self).lender.lends()[k - 1],),
                    false,
                ),
    {
        if self.flag {
            return self.lender.next();
        }
        let ghost s0 = self.lender.lends();
        let ghost p = self.predicate;
        let ghost mut k: int = 0;
        proof {
            assert(s0.skip(0) =~= s0);
        }
        loop
            invariant
                self.lender.wf(),
                !self.flag,
                !old(self).flag,
                self.predicate == p,
                p == old(self).predicate,
                pred_ready::<T, P>(p),
                s0 == old(self).lender.lends(),
                0 <= k <= s0.len(),
                self.lender.lends() == s0.skip(k),
                accepted_upto(p, s0, k),
            decreases self.lender.lends().len(),
        {
            match self.lender.next() {
                None => {
                    proof {
                        assert(s0.skip(k).len() == 0);
                    }
                    return None;
                },
                Some(x) => {
                    proof {
                        assert(x == s0[k]);
                        assert(s0.skip(k).drop_first() =~= s0.skip(k + 1));
                    }
                    let keep_skipping = (self.predicate)(&x);
                    proof {
                        assert(call_ensures(p, (&x,), keep_skipping));
                        k = k + 1;
                    }
                    if !keep_skipping {
                        self.flag = true;
                        return Some(x);
                    }
                },
            }
        }
    }
}

impl<'lend, L: Lender, P> Lending<'lend> for SkipWhile<L, P> {
    type Lend = Lend<'lend, L>;
}

impl<L, P, T> Lender for SkipWhile<L, P>
    where
        L: Lender + for<'all> Lending<'all, Lend = T>,
        P: FnMut(&T) -> bool,
{
    open spec fn wf(&self) -> bool {
        self.lender.wf() && pred_pure::<T, P>(self.predicate)
    }

    open spec fn lends(&self) -> Seq<T> {
        if self.flag {
            self.lender.lends()
        } else {
            skipped_while::<T, P>(self.predicate, self.lender.lends())
        }
    }

    fn next(&mut self) -> (r: Option<T>)
        ensures
            final(self).predicate == old(self).predicate,
            r is Some ==> final(self).flag,
            old(self).flag ==> final(self).flag && final(self).lender.lends() == suffix(old(self).lender.lends(), 1),
            r is None ==> final(self).lender.lends().len() == 0,
            r matches Some(x) ==> exists|k: int|
                0 < k <= old(self).lender.lends().len() && #[trigger] old(self).lender.lends().skip(k)
                    == final(self).lender.lends() && old(self).lender.lends()[k - 1] == x,
            !old(self).flag ==> forall|j: int|
                0 <= j < old(self).lender.lends().len() - final(self).lender.lends().len() ==> #[trigger] pred_called::<T, P>(
                    old(self).predicate,
                    old(self).lender.lends()[j],
                ),
    {
        let ghost s0 = self.lender.lends();
        if self.flag {
            proof {
                if s0.len() > 0 {
                    assert(s0.drop_first() =~= suffix(s0, 1));
                }
            }
            let r = self.lender.next();
            proof {
                if s0.len() == 0 {
                    assert(self.lender.lends() =~= suffix(s0, 1));
                } else {
                    assert(s0.skip(1) =~= self.lender.lends());
                }
            }
            return r;
        }
        let ghost mut k: int = 0;
        proof {
            assert(s0.skip(0) =~= s0);
        }
        loop
            invariant
                self.wf(),
                !self.flag,
                self.predicate == old(self).predicate,
                self.lends() == old(self).lends(),
                s0 == old(self).lender.lends(),
                !old(self).flag,
                0 <= k <= s0.len(),
                self.lender.lends() == s0.skip(k),
                forall|j: int| 0 <= j < k ==> #[trigger] pred_called::<T, P>(self.predicate, s0[j]),
            decreases self.lender.lends().len(),
        {
            proof {
                if k < s0.len() {
                    assert(s0.skip(k)[0] == s0[k]);
                    assert(s0.skip(k).drop_first() =~= s0.skip(k + 1));
                }
            }
            match self.lender.next() {
                None => {
                    return None;
                },
                Some(x) => {
                    let keep_skipping = (self.predicate)(&x);
                    proof {
                        assert(call_ensures(self.predicate, (&x,), keep_skipping));
                        assert(x == s0[k]);
                        assert(pred_called::<T, P>(self.predicate, s0[k]));
                    }
                    if !keep_skipping {
                        self.flag = true;
                        return Some(x);
                    }
                    proof {
                        k = k + 1;
                    }
                },
            }
        }
    }

    open spec fn hint(&self) -> (usize, Option<usize>) {
        (0, self.lender.hint().1)
    }

    fn size_hint(&self) -> (r: (usize, Option<usize>)) {
        proof {
            lemma_skipped_while_len::<T, P>(self.predicate, self.lender.lends());
        }
        let (_, upper) = self.lender.size_hint();
        (0, upper)
    }

    fn try_fold<B, R, F>(&mut self, init: B, f: F) -> (r: ControlFlow<R, B>)
        where
            F: FnMut(B, T) -> ControlFlow<R, B>,
    {
        let mut g = f;
        let mut acc = init;
        if !self.flag {
            let ghost s0 = self.lends();
            match Lender::next(self) {
                Some(x) => {
                    let c = g(acc, x);
                    let ghost c0 = c;
                    match c {
                        ControlFlow::Break(e) => {
                            let c = ControlFlow::Break(e);
                            proof {
                                assert(c == c0);
                                assert(s0 == seq![x] + self.lends());
                                lemma_try_fold_break(f, init, x, self.lends(), c);
                            }
                            return c;
                        },
                        ControlFlow::Continue(b) => {
                            proof {
                                assert(s0 == seq![x] + self.lends());
                            }
                            let ghost rest = self.lends();
                            let r = self.lender.try_fold(b, g);
                            proof {
                                lemma_try_fold_step(f, init, x, b, rest, self.lends(), r);
                            }
                            return r;
                        },
                    }
                },
                None => {
                    proof {
                        crate::spec::lemma_try_fold_empty(f, init, s0, self.lends());
                    }
                    return ControlFlow::Continue(acc);
                },
            }
        }
        self.lender.try_fold(acc, g)
    }

    fn fold<B, F>(self, init: B, f: F) -> (r: B)
        where
            F: FnMut(B, T) -> B,
    {
        let mut this = self;
        let mut g = f;
        if !this.flag {
            let ghost s0 = this.lends();
            match Lender::next(&mut this) {
                Some(x) => {
                    let b = g(init, x);
                    proof {
                        assert(s0 == seq![x] + this.lends());
                    }
                    let ghost rest = this.lends();
                    let r = this.lender.fold(b, g);
                    proof {
                        lemma_fold_step(f, init, x, b, rest, r);
                    }
                    return r;
                },
                None => {
                    proof {
                        crate::spec::lemma_fold_empty(f, init, s0);
                    }
                    return init;
                },
            }
        }
        this.lender.fold(init, g)
    }
}

impl<L, P, T> FusedLender for SkipWhile<L, P>
    where
        L: FusedLender + for<'all> Lending<'all, Lend = T>,
        P: FnMut(&T) -> bool,
{
}

} // verus!

verus! {

/// What a `SkipWhile` is: well formed exactly when its lender is and its
/// predicate is deterministic; before its first lend it drops the longest
/// prefix of its lender's lends that the predicate accepts.
pub proof fn lemma_skip_while_model<L, P, T>(s: SkipWhile<L, P>)
    where
        L: Lender + for<'all> Lending<'all, Lend = T>,
        P: FnMut(&T) -> bool,
    ensures
        s.wf() == (s.lender.wf() && pred_pure::<T, P>(s.predicate)),
        s.lends() == if s.flag {
            s.lender.lends()
        } else {
            skipped_while::<T, P>(s.predicate, s.lender.lends())
        },
{
}

} // verus!
