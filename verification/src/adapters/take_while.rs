//! `TakeWhile`: the lends up to the first one that a predicate rejects.
use vstd::prelude::*;
use core::ops::ControlFlow;

use crate::spec::{min_nat, suffix, fold_ready, fold_trace, pred_called, pred_out, pred_pure, pred_ready, try_fold_ready, try_fold_trace};
use crate::traits::{FusedLender, Lend, Lender, Lending, SpecLend};

verus! {

/// The longest prefix of `s` whose elements `p` all accepts.
pub open spec fn taken_while<T, P: FnMut(&T) -> bool>(p: P, s: Seq<T>) -> Seq<T>
    decreases s.len(),
{
    if s.len() > 0 && pred_out(p, s[0]) {
        seq![s[0]] + taken_while(p, s.drop_first())
    } else {
        Seq::empty()
    }
}

/// One step of `taken_while`, for callers that hold a concrete predicate.
pub proof fn lemma_taken_while_step<T, P: FnMut(&T) -> bool>(p: P, s: Seq<T>)
    ensures
        taken_while(p, s) == if s.len() > 0 && pred_out(p, s[0]) {
            seq![s[0]] + taken_while(p, s.drop_first())
        } else {
            Seq::empty()
        },
{
}

/// `taken_while` gives a prefix of its sequence, every element of which the
/// predicate accepts, and stops at the first element it rejects.
pub proof fn lemma_taken_while<T, P: FnMut(&T) -> bool>(p: P, s: Seq<T>)
    ensures
        taken_while(p, s).len() <= s.len(),
        taken_while(p, s) == s.take(taken_while(p, s).len() as int),
        forall|i: int| 0 <= i < taken_while(p, s).len() ==> pred_out(p, #[trigger] s[i]),
        taken_while(p, s).len() < s.len() ==> !pred_out(p, s[taken_while(p, s).len() as int]),
    decreases s.len(),
{
    if s.len() > 0 && pred_out(p, s[0]) {
        let t = s.drop_first();
        lemma_taken_while(p, t);
        let n = taken_while(p, t).len();
        assert(seq![s[0]] + t.take(n as int) == s.take(n + 1 as int));
        assert forall|i: int| 0 <= i < n + 1 implies pred_out(p, #[trigger] s[i]) by {
            if i > 0 {
                assert(s[i] == t[i - 1]);
            }
        }
        if n + 1 < s.len() {
            assert(s[n + 1 as int] == t[n as int]);
        }
    }
}

/// `accs` lists the accumulators of the first `accs.len() - 1` steps of a
/// short-circuiting fold of `f` over `s` while `p` accepts: at each step the
/// predicate's own call accepted the lend and the fold's call continued.
pub open spec fn take_while_fold_trace<B, R, T, P: FnMut(&T) -> bool, F: FnMut(B, T) -> ControlFlow<R, B>>(
    p: P,
    f: F,
    init: B,
    s: Seq<T>,
    accs: Seq<B>,
) -> bool {
    &&& 1 <= accs.len() <= s.len() + 1
    &&& accs[0] == init
    &&& forall|i: int|
        0 <= i < accs.len() - 1 ==> call_ensures(p, (&s[i],), true) && call_ensures(
            f,
            (#[trigger] accs[i], s[i]),
            ControlFlow::<R, B>::Continue(accs[i + 1]),
        )
}

/// A lender that hands out the lends of the underlying lender up to, and
/// without, the first one that the predicate rejects.
pub struct TakeWhile<L, P> {
    pub lender: L,
    /// Set once the predicate has rejected a lend.
    pub flag: bool,
    pub predicate: P,
}

impl<L, P> TakeWhile<L, P> {
    /// Takes the lends of `lender` while `predicate` accepts them.
    pub fn new(lender: L, predicate: P) -> (r: TakeWhile<L, P>)
        ensures
            r.lender == lender,
            r.predicate == predicate,
            !r.flag,
    {
        TakeWhile { lender, flag: false, predicate }
    }

    /// Returns the inner lender.
    pub fn into_inner(self) -> (r: L)
        ensures
            r == self.lender,
    {
        self.lender
    }

    /// Returns the inner lender and the predicate.
    pub fn into_parts(self) -> (r: (L, P))
        ensures
            r == (self.lender, self.predicate),
    {
        (self.lender, self.predicate)
    }
}

impl<L: Lender, P> TakeWhile<L, P>
    where P: FnMut(&Lend<'_, L>) -> bool,
{
    /// Hands out the next lend of the underlying lender if the predicate
    /// accepts it; once the predicate has rejected a lend, hands out `None`
    /// without touching the lender. The predicate may answer differently from
    /// one call to the next: this says what the one call it makes answered.
    pub fn next(&mut self) -> (r: Option<Lend<'_, L>>)
        requires
            old(self).lender.wf(),
            pred_ready::<SpecLend<L>, P>(old(self).predicate),
        ensures
            final(self).lender.wf(),
            final(self).predicate == old(self).predicate,
            old(self).flag ==> r is None && final(self).flag && final(self).lender == old(self).lender,
            !old(self).flag && old(self).lender.lends().len() == 0 ==> r is None && !final(self).flag
                && final(self).lender.lends().len() == 0,
            !old(self).flag && old(self).lender.lends().len() > 0 ==> {
                &&& final(self).lender.lends() == old(self).lender.lends().drop_first()
                &&& exists|b: bool|
                    #[trigger] call_ensures(old(self).predicate, (&old(self).lender.lends()[0],), b) && if b {
                        r == Some(old(self).lender.lends()[0]) && !final(self).flag
                    } else {
                        r is None && final(self).flag
                    }
            },
    {
        if !self.flag {
            match self.lender.next() {
                None => {
                    return None;
                },
                Some(x) => {
                    let keep = (self.predicate)(&x);
                    proof {
                        assert(call_ensures(self.predicate, (&x,), keep));
                    }
                    if keep {
                        return Some(x);
                    }
                    self.flag = true;
                },
            }
        }
        None
    }

    /// Folds `f` over the lends while the predicate accepts them, stopping at
    /// the first rejected lend (which is consumed and sets the flag) or at the
    /// first break of `f`. Each verdict is that of its own call of the
    /// predicate, which may answer differently from one call to the next.
    pub fn try_fold<B, R, F>(&mut self, init: B, f: F) -> (r: ControlFlow<R, B>)
        where
            F: FnMut(B, Lend<'_, L>) -> ControlFlow<R, B>,
        requires
            old(self).lender.wf(),
            pred_ready::<SpecLend<L>, P>(old(self).predicate),
            try_fold_ready::<B, R, SpecLend<L>, F>(f),
        ensures
            final(self).lender.wf(),
            final(self).predicate == old(self).predicate,
            old(self).flag ==> r == ControlFlow::<R, B>::Continue(init) && final(self).flag && final(self).lender
                == old(self).lender,
            !old(self).flag ==> exists|accs: Seq<B>|
                #[trigger] take_while_fold_trace(old(self).predicate, f, init, old(self).lender.lends(), accs) && {
                    let s = old(self).lender.lends();
                    let k = accs.len() - 1;
                    ||| k == s.len() && r == ControlFlow::<R, B>::Continue(accs.last()) && !final(self).flag
                        && final(self).lender.lends().len() == 0
                    ||| k < s.len() && call_ensures(old(self).predicate, (&s[k],), false) && r
                        == ControlFlow::<R, B>::Continue(accs.last()) && final(self).flag && final(self).lender.lends()
                        == s.skip(k + 1)
                    ||| k < s.len() && call_ensures(old(self).predicate, (&s[k],), true) && r is Break && call_ensures(
                        f,
                        (accs.last(), s[k]),
                        r,
                    ) && !final(self).flag && final(self).lender.lends() == s.skip(k + 1)
                },
    {
        if self.flag {
            return ControlFlow::Continue(init);
        }
        let ghost s0 = self.lender.lends();
        let ghost p = self.predicate;
        let mut acc = init;
        let mut g = f;
        let ghost mut accs: Seq<B> = seq![init];
        proof {
            assert(s0.skip(0) =~= s0);
        }
        loop
            invariant
                self.lender.wf(),
                !self.flag,
                !old(self).flag,
                self.predicate == p,
                p == old(self).predicate,
                s0 == old(self).lender.lends(),
                g == f,
                try_fold_ready::<B, R, SpecLend<L>, F>(f),
                pred_ready::<SpecLend<L>, P>(p),
                take_while_fold_trace(p, f, init, s0, accs),
                acc == accs.last(),
                self.lender.lends() == s0.skip(accs.len() - 1),
            decreases self.lender.lends().len(),
        {
            let ghost k = accs.len() - 1;
            match self.lender.next() {
                None => {
                    proof {
                        assert(s0.skip(k).len() == 0);
                    }
                    return ControlFlow::Continue(acc);
                },
                Some(x) => {
                    proof {
                        assert(x == s0[k]);
                        assert(s0.skip(k).drop_first() =~= s0.skip(k + 1));
                    }
                    let keep = (self.predicate)(&x);
                    proof {
                        assert(call_ensures(p, (&x,), keep));
                    }
                    if !keep {
                        self.flag = true;
                        return ControlFlow::Continue(acc);
                    }
                    let c = g(acc, x);
                    let ghost c0 = c;
                    match c {
                        ControlFlow::Continue(b) => {
                            acc = b;
                            proof {
                                let old_accs = accs;
                                accs = accs.push(acc);
                                assert forall|i: int| 0 <= i < accs.len() - 1 implies call_ensures(p, (&s0[i],), true)
                                    && call_ensures(f, (#[trigger] accs[i], s0[i]), ControlFlow::<R, B>::Continue(accs[i + 1])) by {
                                    if i < k {
                                        assert(accs[i] == old_accs[i]);
                                        assert(accs[i + 1] == old_accs[i + 1]);
                                    }
                                }
                            }
                        },
                        ControlFlow::Break(e) => {
                            let c = ControlFlow::Break(e);
                            proof {
                                assert(c == c0);
                            }
                            return c;
                        },
                    }
                },
            }
        }
    }
}

impl<'lend, L: Lender, P> Lending<'lend> for TakeWhile<L, P> {
    type Lend = Lend<'lend, L>;
}

impl<L: Lender, P> Lender for TakeWhile<L, P>
    where P: FnMut(&Lend<'_, L>) -> bool,
{
    open spec fn wf(&self) -> bool {
        self.lender.wf() && pred_pure::<SpecLend<L>, P>(self.predicate)
    }

    open spec fn lends(&self) -> Seq<SpecLend<L>> {
        if self.flag {
            Seq::empty()
        } else {
            taken_while::<SpecLend<L>, P>(self.predicate, self.lender.lends())
        }
    }

    fn next(&mut self) -> (r: Option<Lend<'_, Self>>)
        ensures
            final(self).predicate == old(self).predicate,
            old(self).flag ==> final(self).lender == old(self).lender && final(self).flag,
            !old(self).flag ==> final(self).lender.lends() == suffix(old(self).lender.lends(), 1),
            !old(self).flag ==> (final(self).flag <==> (old(self).lender.lends().len() > 0 && r is None)),
            !old(self).flag && old(self).lender.lends().len() > 0 ==> pred_called::<SpecLend<L>, P>(
                old(self).predicate,
                old(self).lender.lends()[0],
            ),
    {
        let ghost s = self.lender.lends();
        let ghost p = self.predicate;
        let r = TakeWhile::<L, P>::next(self);
        proof {
            if s.len() > 0 && !old(self).flag {
                let rest = taken_while::<SpecLend<L>, P>(p, s.drop_first());
                assert((seq![s[0]] + rest).drop_first() == rest);
                assert(s.drop_first() =~= suffix(s, 1));
            }
        }
        r
    }

    open spec fn hint(&self) -> (usize, Option<usize>) {
        if self.flag {
            (0, Some(0))
        } else {
            (0, self.lender.hint().1)
        }
    }

    fn size_hint(&self) -> (r: (usize, Option<usize>)) {
        if self.flag {
            (0, Some(0))
        } else {
            proof {
                lemma_taken_while::<SpecLend<L>, P>(self.predicate, self.lender.lends());
            }
            let (_, upper) = self.lender.size_hint();
            (0, upper)
        }
    }

    fn try_fold<B, R, F>(&mut self, init: B, f: F) -> (r: ControlFlow<R, B>)
        where
            F: FnMut(B, Lend<'_, Self>) -> ControlFlow<R, B>,
        ensures
            final(self).predicate == old(self).predicate,
            old(self).flag ==> final(self).lender == old(self).lender,
            !old(self).flag ==> exists|m: int|
                0 <= m <= old(self).lender.lends().len() && #[trigger] old(self).lender.lends().skip(m)
                    == final(self).lender.lends() && (forall|j: int|
                    0 <= j < m ==> #[trigger] pred_called::<SpecLend<L>, P>(
                        old(self).predicate,
                        old(self).lender.lends()[j],
                    )) && (r is Continue ==> m == min_nat(
                    taken_while::<SpecLend<L>, P>(old(self).predicate, old(self).lender.lends()).len() + 1,
                    old(self).lender.lends().len(),
                )),
    {
        if self.flag {
            proof {
                assert(try_fold_trace(f, init, old(self).lends(), seq![init]));
            }
            return ControlFlow::Continue(init);
        }
        let ghost orig = self.lends();
        let ghost s0 = self.lender.lends();
        let mut acc = init;
        let mut g = f;
        let ghost mut accs: Seq<B> = seq![init];
        proof {
            assert(s0.skip(0) =~= s0);
        }
        loop
            invariant
                self.wf(),
                !self.flag,
                self.predicate == old(self).predicate,
                orig == old(self).lends(),
                s0 == old(self).lender.lends(),
                !old(self).flag,
                orig == taken_while::<SpecLend<L>, P>(self.predicate, s0),
                accs.len() - 1 <= s0.len(),
                self.lender.lends() == s0.skip(accs.len() - 1),
                forall|j: int| 0 <= j < accs.len() - 1 ==> #[trigger] pred_called::<SpecLend<L>, P>(self.predicate, s0[j]),
                g == f,
                try_fold_ready::<B, R, SpecLend<L>, F>(f),
                try_fold_trace(f, init, orig, accs),
                acc == accs.last(),
                self.lends() == orig.skip(accs.len() - 1),
            decreases self.lender.lends().len(),
        {
            let ghost k = accs.len() - 1;
            let ghost s = self.lender.lends();
            match self.lender.next() {
                None => {
                    assert(orig.skip(k).len() == 0);
                    proof {
                        lemma_taken_while::<SpecLend<L>, P>(self.predicate, s0);
                    }
                    return ControlFlow::Continue(acc);
                },
                Some(x) => {
                    let keep = (self.predicate)(&x);
                    proof {
                        assert(call_ensures(self.predicate, (&x,), keep));
                        assert(x == s0[k]);
                        assert(pred_called::<SpecLend<L>, P>(self.predicate, s0[k]));
                        assert(s0.skip(k).drop_first() =~= s0.skip(k + 1));
                    }
                    if keep {
                        proof {
                            let rest = taken_while::<SpecLend<L>, P>(self.predicate, s.drop_first());
                            assert(orig.skip(k) == seq![x] + rest);
                            assert(orig.skip(k).len() > 0);
                            assert(k < orig.len());
                            assert(orig.skip(k)[0] == x);
                            assert(orig.skip(k)[0] == orig[k]);
                            assert(orig.skip(k + 1) == (seq![x] + rest).drop_first());
                            assert((seq![x] + rest).drop_first() == rest);
                        }
                        let c = g(acc, x);
                        let ghost c0 = c;
                        match c {
                            ControlFlow::Continue(b) => {
                                acc = b;
                                proof {
                                    accs = accs.push(acc);
                                }
                            },
                            ControlFlow::Break(e) => {
                                let c = ControlFlow::Break(e);
                                proof {
                                    assert(try_fold_trace(f, init, orig, accs));
                                    assert(c == c0);
                                }
                                return c;
                            },
                        }
                    } else {
                        self.flag = true;
                        assert(orig.skip(k).len() == 0);
                        proof {
                            lemma_taken_while::<SpecLend<L>, P>(self.predicate, s0);
                        }
                        return ControlFlow::Continue(acc);
                    }
                },
            }
        }
    }

    fn fold<B, F>(self, init: B, f: F) -> (r: B)
        where
            F: FnMut(B, Lend<'_, Self>) -> B,
        ensures
            !self.flag ==> forall|j: int|
                0 <= j < self.lender.lends().len() && j <= taken_while::<SpecLend<L>, P>(
                    self.predicate,
                    self.lender.lends(),
                ).len() ==> #[trigger] pred_called::<SpecLend<L>, P>(self.predicate, self.lender.lends()[j]),
    {
        let ghost orig = self.lends();
        let ghost s0 = self.lender.lends();
        let mut this = self;
        let mut g = f;
        let mut acc = init;
        let ghost mut accs: Seq<B> = seq![init];
        if this.flag {
            proof {
                assert(fold_trace(f, init, orig, accs));
                assert(accs.last() == init);
            }
            return acc;
        }
        proof {
            assert(s0.skip(0) =~= s0);
        }
        loop
            invariant
                g == f,
                this.wf(),
                !this.flag,
                !self.flag,
                orig == self.lends(),
                s0 == self.lender.lends(),
                this.predicate == self.predicate,
                orig == taken_while::<SpecLend<L>, P>(self.predicate, s0),
                accs.len() - 1 <= s0.len(),
                this.lender.lends() == s0.skip(accs.len() - 1),
                forall|j: int| 0 <= j < accs.len() - 1 ==> #[trigger] pred_called::<SpecLend<L>, P>(self.predicate, s0[j]),
                fold_ready::<B, SpecLend<L>, F>(f),
                accs.len() <= orig.len() + 1,
                fold_trace(f, init, orig.take(accs.len() - 1), accs),
                acc == accs.last(),
                this.lends() == orig.skip(accs.len() - 1),
            decreases this.lender.lends().len(),
        {
            let ghost k = accs.len() - 1;
            let ghost s = this.lender.lends();
            match this.lender.next() {
                None => {
                    assert(orig.skip(k).len() == 0);
                    assert(orig.take(k) == orig);
                    proof {
                        assert(s0.skip(k).len() == 0);
                    }
                    return acc;
                },
                Some(x) => {
                    let keep = (this.predicate)(&x);
                    proof {
                        assert(call_ensures(this.predicate, (&x,), keep));
                        assert(x == s0[k]);
                        assert(pred_called::<SpecLend<L>, P>(self.predicate, s0[k]));
                        assert(s0.skip(k).drop_first() =~= s0.skip(k + 1));
                    }
                    if keep {
                        proof {
                            let rest = taken_while::<SpecLend<L>, P>(this.predicate, s.drop_first());
                            assert(orig.skip(k) == seq![x] + rest);
                            assert(orig.skip(k).len() > 0);
                            assert(k < orig.len());
                            assert(orig.skip(k)[0] == x);
                            assert(orig.skip(k)[0] == orig[k]);
                            assert(orig.skip(k + 1) == (seq![x] + rest).drop_first());
                            assert((seq![x] + rest).drop_first() == rest);
                        }
                        acc = g(acc, x);
                        proof {
                            accs = accs.push(acc);
                            assert(orig.take(k + 1).take(k) == orig.take(k));
                        }
                    } else {
                        assert(orig.skip(k).len() == 0);
                        assert(orig.take(k) == orig);
                        proof {
                            lemma_taken_while::<SpecLend<L>, P>(self.predicate, s0);
                        }
                        return acc;
                    }
                },
            }
        }
    }
}

impl<L: Lender, P> FusedLender for TakeWhile<L, P>
    where P: FnMut(&Lend<'_, L>) -> bool,
{
}

} // verus!

verus! {

/// What a `TakeWhile` is: well formed exactly when its lender is and its
/// predicate is deterministic; until it stops, it hands out the longest prefix
/// of its lender's lends that the predicate accepts.
pub proof fn lemma_take_while_model<L: Lender, P>(t: TakeWhile<L, P>)
    where P: FnMut(&Lend<'_, L>) -> bool,
    ensures
        t.wf() == (t.lender.wf() && pred_pure::<SpecLend<L>, P>(t.predicate)),
        t.lends() == if t.flag {
            Seq::empty()
        } else {
            taken_while::<SpecLend<L>, P>(t.predicate, t.lender.lends())
        },
{
}

} // verus!
