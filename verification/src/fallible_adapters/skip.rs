//! `Skip`, `SkipWhile` and `StepBy` over a fallible lender: an error met
//! while skipping is handed out at once, and the skipping ends there.
use vstd::prelude::*;

use crate::adapters::skip::Skip;
use crate::adapters::skip_while::SkipWhile;
use crate::adapters::step_by::StepBy;
use core::ops::ControlFlow;
use crate::fallible::{
    fallible_advance_post, fallible_next_back_post, fallible_try_fold_post, fallible_try_fold_ready,
    fallible_try_fold_trace, lemma_fallible_try_fold_trace_push, DoubleEndedFallibleLender, ExactSizeFallibleLender,
};
use crate::spec::lemma_reverse;
use crate::fallible::{
    fallible_next_post, fallible_nth_post, lemma_fallible_nth_raise, lemma_fallible_nth_shift, lemma_fallible_nth_skip,
};
use crate::fallible::{
    first_err, lemma_first_err, FallibleLend, FallibleLender, FallibleLending, FallibleSpecLend, FusedFallibleLender,
};
use crate::spec::{ref_called, ref_out, ref_pure, suffix};
use crate::adapters::step_by::{lemma_split_product, stepped_count};

verus! {

/// The outcomes of a fallible lender that skips `n` lends of `s`: from the
/// first error, if one comes among the lends to skip, or else from the
/// `n`-th lend on.
pub open spec fn skipped_outcomes<T, E>(s: Seq<Result<T, E>>, n: nat) -> Seq<Result<T, E>> {
    if n > 0 && first_err(s) < n && first_err(s) < s.len() {
        s.skip(first_err(s) as int)
    } else {
        suffix(s, n)
    }
}

impl<'lend, L: FallibleLender> FallibleLending<'lend> for Skip<L> {
    type Lend = FallibleLend<'lend, L>;
}

/// A fallible `Skip` skips once: the first call that reaches the lender, be it
/// `next`, `nth` or `advance_by` (the last two are the trait's own, which go
/// through `next`), uses the count up, also when an error among the lends to
/// skip stops it.
/// The outcomes model needs this, since an error is one outcome among the
/// others; a count kept after such an error would skip again later.
impl<L: FallibleLender> FallibleLender for Skip<L> {
    type Error = L::Error;

    open spec fn wf(&self) -> bool {
        self.lender.wf()
    }

    open spec fn outcomes(&self) -> Seq<Result<FallibleSpecLend<L>, L::Error>> {
        skipped_outcomes(self.lender.outcomes(), self.n as nat)
    }

    fn next(&mut self) -> (r: Result<Option<FallibleLend<'_, L>>, L::Error>)
        ensures
            final(self).n == 0,
            fallible_nth_post(old(self).lender.outcomes(), final(self).lender.outcomes(), old(self).n as nat, r),
    {
        let ghost s = self.lender.outcomes();
        if self.n > 0 {
            let n = self.n;
            self.n = 0;
            proof {
                lemma_first_err(s);
                let k = first_err(s);
                if k < n && k < s.len() {
                    assert(s.skip(k as int)[0] == s[k as int]);
                    assert(s.skip(k as int).drop_first() == s.skip(k + 1 as int));
                } else if n < s.len() {
                    assert(suffix(s, n as nat)[0] == s[n as int]);
                    assert(suffix(s, n as nat).drop_first() == s.skip(n + 1));
                }
                assert forall|t: Seq<Result<FallibleSpecLend<L>, L::Error>>| #[trigger] suffix(t, 0) == t by {
                    assert(suffix(t, 0) =~= t);
                }
            }
            self.lender.nth(n)
        } else {
            proof {
                assert forall|t: Seq<Result<FallibleSpecLend<L>, L::Error>>| #[trigger] suffix(t, 0) == t by {
                    assert(suffix(t, 0) =~= t);
                }
            }
            self.lender.next()
        }
    }

    open spec fn hint(&self) -> (usize, Option<usize>) {
        (self.lender.hint().0.saturating_sub(self.n), self.lender.hint().1)
    }

    fn size_hint(&self) -> (r: (usize, Option<usize>)) {
        let (lower, upper) = self.lender.size_hint();
        proof {
            lemma_first_err(self.lender.outcomes());
        }
        (lower.saturating_sub(self.n), upper)
    }
}

impl<L: FusedFallibleLender> FusedFallibleLender for Skip<L> {}

/// The outcomes that a fallible `Skip` over the outcomes `s` keeps back at the
/// front, out of reach of its back end: the first `n`, or all of `s` when it
/// is shorter.
pub open spec fn held_back<T, E>(s: Seq<Result<T, E>>, n: nat) -> Seq<Result<T, E>> {
    if n < s.len() { s.take(n as int) } else { s }
}

/// A lender split into the outcomes held back and those after them keeps the
/// same outcomes held back.
pub proof fn lemma_held_back_stable<T, E>(t: Seq<Result<T, E>>, s: Seq<Result<T, E>>, n: nat)
    requires
        s == held_back(t, n) + suffix(s, n),
    ensures
        held_back(s, n) == held_back(t, n),
{
    if n < s.len() {
        assert(s.take(n as int) =~= held_back(t, n));
    } else {
        assert(s =~= held_back(t, n));
    }
}

/// Every sequence is what it holds back followed by what comes after.
pub proof fn lemma_held_back_split<T, E>(s: Seq<Result<T, E>>, n: nat)
    ensures
        s == held_back(s, n) + suffix(s, n),
{
    if n < s.len() {
        assert(s =~= s.take(n as int) + s.skip(n as int));
    } else {
        assert(s =~= s + Seq::<Result<T, E>>::empty());
    }
}

impl<L: FallibleLender> Skip<L> {
    /// The outcomes that the back end of this `Skip` can still reach: those of
    /// the lender after the first `n`. From the front, an error among the
    /// first `n` is handed out before them; from the back it is never reached,
    /// as the original count of outcomes to skip is taken off the length.
    pub open spec fn back_outcomes(&self) -> Seq<Result<FallibleSpecLend<L>, L::Error>> {
        suffix(self.lender.outcomes(), self.n as nat)
    }
}

impl<L: DoubleEndedFallibleLender + ExactSizeFallibleLender> Skip<L> {
    /// The number of outcomes that the back end can still reach: those of the
    /// lender less the ones to skip, or none.
    pub fn len(&self) -> (r: usize)
        requires
            self.lender.wf(),
        ensures
            r == self.back_outcomes().len(),
    {
        self.lender.len().saturating_sub(self.n)
    }

    /// Hands out the last outcome of the lender while some lie beyond the ones
    /// to skip, and `Ok(None)` otherwise; the outcomes held back stay.
    pub fn next_back(&mut self) -> (r: Result<Option<FallibleLend<'_, L>>, L::Error>)
        requires
            old(self).lender.wf(),
        ensures
            final(self).lender.wf(),
            final(self).n == old(self).n,
            final(self).lender.outcomes() == held_back(old(self).lender.outcomes(), old(self).n as nat)
                + final(self).back_outcomes(),
            fallible_next_back_post(old(self).back_outcomes(), final(self).back_outcomes(), r),
    {
        let ghost t = self.lender.outcomes();
        let ghost n = self.n as nat;
        if self.len() > 0 {
            proof {
                assert(suffix(t, n).drop_last() =~= suffix(t.drop_last(), n));
                assert(suffix(t, n).last() == t.last());
                assert(t.drop_last() =~= t.take(n as int) + suffix(t.drop_last(), n));
            }
            self.lender.next_back()
        } else {
            proof {
                assert(t =~= held_back(t, n) + suffix(t, n));
            }
            Ok(None)
        }
    }

    /// Drops `k` outcomes from the back end, one at a time; an error among
    /// them is handed out at once; when fewer can be reached, drops them all
    /// and reports how many steps were missing. The outcomes held back stay.
    pub fn advance_back_by(&mut self, k: usize) -> (r: Result<Result<(), usize>, L::Error>)
        requires
            old(self).lender.wf(),
        ensures
            final(self).lender.wf(),
            final(self).n == old(self).n,
            final(self).lender.outcomes() == held_back(old(self).lender.outcomes(), old(self).n as nat)
                + final(self).back_outcomes(),
            fallible_advance_post(old(self).back_outcomes().reverse(), final(self).back_outcomes().reverse(), k as nat, r),
    {
        let ghost t0 = self.lender.outcomes();
        let ghost n0 = self.n;
        let ghost orig = self.back_outcomes().reverse();
        proof {
            lemma_reverse(self.back_outcomes());
            lemma_first_err(orig);
            lemma_held_back_split(t0, n0 as nat);
        }
        let mut i: usize = 0;
        while i < k
            invariant
                self.lender.wf(),
                self.n == n0,
                n0 == old(self).n,
                t0 == old(self).lender.outcomes(),
                self.lender.outcomes() == held_back(t0, n0 as nat) + self.back_outcomes(),
                orig == old(self).back_outcomes().reverse(),
                i <= k,
                i <= orig.len(),
                i <= first_err(orig),
                first_err(orig) <= orig.len(),
                first_err(orig) < orig.len() ==> orig[first_err(orig) as int] is Err,
                forall|j: int| 0 <= j < first_err(orig) ==> (#[trigger] orig[j]) is Ok,
                self.back_outcomes().reverse() == orig.skip(i as int),
            decreases k - i,
        {
            let ghost before = self.back_outcomes();
            let ghost cur = self.lender.outcomes();
            proof {
                lemma_reverse(before);
                lemma_held_back_stable(t0, cur, n0 as nat);
            }
            let step: Result<bool, L::Error> = match self.next_back() {
                Ok(Some(_)) => Ok(true),
                Ok(None) => Ok(false),
                Err(e) => Err(e),
            };
            match step {
                Ok(true) => {
                    proof {
                        assert(orig.skip(i as int)[0] == orig[i as int]);
                        if i == first_err(orig) {
                            assert(orig[i as int] is Err);
                        }
                        assert(orig.skip(i as int).drop_first() == orig.skip(i + 1));
                    }
                    i = i + 1;
                },
                Ok(false) => {
                    proof {
                        assert(orig.skip(i as int).len() == 0);
                        lemma_reverse(self.back_outcomes());
                    }
                    return Ok(Err(k - i));
                },
                Err(e) => {
                    proof {
                        assert(orig.skip(i as int)[0] == orig[i as int]);
                        if i < first_err(orig) {
                            assert(orig[i as int] is Ok);
                        }
                        assert(orig.skip(i as int).drop_first() == orig.skip(i + 1));
                    }
                    return Err(e);
                },
            }
        }
        Ok(Ok(()))
    }

    /// Drops `k` outcomes from the back end and hands out the one before
    /// them; an error among the dropped ones is handed out instead; `Ok(None)`
    /// when the back end reaches no more. The outcomes held back stay.
    pub fn nth_back(&mut self, k: usize) -> (r: Result<Option<FallibleLend<'_, L>>, L::Error>)
        requires
            old(self).lender.wf(),
        ensures
            final(self).lender.wf(),
            final(self).n == old(self).n,
            final(self).lender.outcomes() == held_back(old(self).lender.outcomes(), old(self).n as nat)
                + final(self).back_outcomes(),
            fallible_nth_post(old(self).back_outcomes().reverse(), final(self).back_outcomes().reverse(), k as nat, r),
    {
        let ghost t0 = self.lender.outcomes();
        match self.advance_back_by(k) {
            Err(e) => Err(e),
            Ok(Err(_)) => Ok(None),
            Ok(Ok(())) => {
                let ghost mid = self.back_outcomes();
                proof {
                    let s = old(self).back_outcomes().reverse();
                    lemma_reverse(mid);
                    lemma_held_back_stable(t0, self.lender.outcomes(), self.n as nat);
                    if k < s.len() {
                        assert(mid.reverse()[0] == s[k as int]);
                        assert(mid.reverse().drop_first() == s.skip(k + 1));
                    }
                }
                self.next_back()
            },
        }
    }

    /// Folds `f` over the outcomes that the back end reaches, last first,
    /// until `f` fails or breaks; an error of the lender or of `f` is handed
    /// out at once. The outcomes held back are never touched.
    pub fn try_rfold<B, R, F>(&mut self, init: B, f: F) -> (r: Result<ControlFlow<R, B>, L::Error>)
        where
            F: FnMut(B, FallibleLend<'_, L>) -> Result<ControlFlow<R, B>, L::Error>,
        requires
            old(self).lender.wf(),
            fallible_try_fold_ready::<B, R, FallibleSpecLend<L>, L::Error, F>(f),
        ensures
            final(self).lender.wf(),
            final(self).n == old(self).n,
            final(self).lender.outcomes() == held_back(old(self).lender.outcomes(), old(self).n as nat)
                + final(self).back_outcomes(),
            fallible_try_fold_post::<B, R, FallibleSpecLend<L>, L::Error, F>(
                f,
                init,
                old(self).back_outcomes().reverse(),
                final(self).back_outcomes().reverse(),
                r,
            ),
    {
        let ghost t0 = self.lender.outcomes();
        let ghost n0 = self.n;
        let ghost orig = self.back_outcomes().reverse();
        let mut acc = init;
        let mut g = f;
        let ghost mut accs: Seq<B> = seq![init];
        proof {
            lemma_reverse(self.back_outcomes());
            lemma_held_back_split(t0, n0 as nat);
        }
        loop
            invariant
                self.lender.wf(),
                self.n == n0,
                n0 == old(self).n,
                t0 == old(self).lender.outcomes(),
                self.lender.outcomes() == held_back(t0, n0 as nat) + self.back_outcomes(),
                orig == old(self).back_outcomes().reverse(),
                g == f,
                fallible_try_fold_ready::<B, R, FallibleSpecLend<L>, L::Error, F>(f),
                fallible_try_fold_trace(f, init, orig, accs),
                acc == accs.last(),
                self.back_outcomes().reverse() == orig.skip(accs.len() - 1),
            decreases self.back_outcomes().len(),
        {
            let ghost k = accs.len() - 1;
            let ghost before = self.back_outcomes();
            proof {
                lemma_reverse(before);
                lemma_held_back_stable(t0, self.lender.outcomes(), n0 as nat);
            }
            match self.next_back() {
                Ok(None) => {
                    assert(orig.skip(k).len() == 0);
                    return Ok(ControlFlow::Continue(acc));
                },
                Err(e) => {
                    proof {
                        assert(orig.skip(k)[0] == orig[k]);
                        assert(orig.skip(k).drop_first() == orig.skip(k + 1));
                    }
                    return Err(e);
                },
                Ok(Some(x)) => {
                    proof {
                        assert(orig.skip(k)[0] == orig[k]);
                        assert(orig.skip(k).drop_first() == orig.skip(k + 1));
                        assert(orig[k] is Ok && orig[k]->Ok_0 == x);
                    }
                    let c = g(acc, x);
                    let ghost c0 = c;
                    match c {
                        Ok(ControlFlow::Continue(b)) => {
                            proof {
                                assert(c0 == Ok::<ControlFlow<R, B>, L::Error>(ControlFlow::Continue(b)));
                                lemma_fallible_try_fold_trace_push(f, init, orig, accs, b);
                                accs = accs.push(b);
                            }
                            acc = b;
                        },
                        Ok(ControlFlow::Break(e)) => {
                            let c = Ok(ControlFlow::Break(e));
                            proof {
                                assert(c == c0);
                            }
                            return c;
                        },
                        Err(e) => {
                            let c = Err(e);
                            proof {
                                assert(c == c0);
                            }
                            return c;
                        },
                    }
                },
            }
        }
    }
}

/// The outcomes of a fallible lender that skips the lends of `s` that `p`
/// accepts, up to the first one it rejects; an error of the lender, or of
/// `p` on a lend, is handed out in its place and the skipping goes on.
pub open spec fn skipped_while_outcomes<T, E, P: FnMut(&T) -> Result<bool, E>>(
    p: P,
    s: Seq<Result<T, E>>,
) -> Seq<Result<T, E>>
    decreases s.len(),
{
    if s.len() == 0 {
        Seq::empty()
    } else {
        match s[0] {
            Err(e) => seq![Err(e)] + skipped_while_outcomes(p, s.drop_first()),
            Ok(x) => match ref_out(p, x) {
                Err(e) => seq![Err(e)] + skipped_while_outcomes(p, s.drop_first()),
                Ok(true) => skipped_while_outcomes(p, s.drop_first()),
                Ok(false) => s,
            },
        }
    }
}

/// `skipped_while_outcomes` never gives more outcomes than it was given.
pub proof fn lemma_skipped_while_outcomes_len<T, E, P: FnMut(&T) -> Result<bool, E>>(p: P, s: Seq<Result<T, E>>)
    ensures
        skipped_while_outcomes(p, s).len() <= s.len(),
    decreases s.len(),
{
    if s.len() > 0 {
        lemma_skipped_while_outcomes_len(p, s.drop_first());
    }
}

/// Each of the first `k` outcomes of `s` is a lend that a call of `p`
/// accepted.
pub open spec fn accepted_outcomes_upto<T, E, P: FnMut(&T) -> Result<bool, E>>(p: P, s: Seq<Result<T, E>>, k: int) -> bool {
    forall|j: int| 0 <= j < k ==> (#[trigger] s[j] matches Ok(x) && call_ensures(p, (&x,), Ok::<bool, E>(true)))
}

/// What a fallible skip-while that stopped skipping at the outcome `o` hands
/// out: the error, or, for a lend, what the verdict `v` of a call of `p` on it
/// makes of it (the lend if rejected, the error if the call failed).
pub open spec fn skip_while_stop<T, E, P: FnMut(&T) -> Result<bool, E>>(
    p: P,
    o: Result<T, E>,
    v: Result<bool, E>,
    r: Result<Option<T>, E>,
) -> bool {
    match o {
        Err(e) => r == Err::<Option<T>, E>(e),
        Ok(x) => call_ensures(p, (&x,), v) && match v {
            Ok(false) => r == Ok::<Option<T>, E>(Some(x)),
            Ok(true) => false,
            Err(e) => r == Err::<Option<T>, E>(e),
        },
    }
}

impl<L, P, T> SkipWhile<L, P>
    where
        L: FallibleLender + for<'all> FallibleLending<'all, Lend = T>,
        P: FnMut(&T) -> Result<bool, L::Error>,
{
    /// The fallible lender's `next`, said of each call of the predicate it
    /// makes: before the first lend is handed out, drops the lends that calls
    /// accept and hands out the first one a call rejects; an error of the
    /// lender or of a call is handed out in its place. After that it hands out
    /// the next outcome. The predicate may answer differently from one call to
    /// the next.
    pub fn fallible_next(&mut self) -> (r: Result<Option<T>, L::Error>)
        requires
            old(self).lender.wf(),
            forall|a: T| call_requires(old(self).predicate, (&a,)),
        ensures
            final(self).lender.wf(),
            final(self).predicate == old(self).predicate,
            old(self).flag ==> final(self).flag && fallible_next_post(
                old(self).lender.outcomes(),
                final(self).lender.outcomes(),
                r,
            ),
            !old(self).flag ==> (final(self).flag <==> (r is Ok && r != Ok::<Option<T>, L::Error>(None))),
            !old(self).flag && r == Ok::<Option<T>, L::Error>(None) ==> accepted_outcomes_upto(
                old(self).predicate,
                old(self).lender.outcomes(),
                old(self).lender.outcomes().len() as int,
            ) && final(self).lender.outcomes().len() == 0,
            !old(self).flag && r != Ok::<Option<T>, L::Error>(None) ==> exists|k: int, v: Result<bool, L::Error>|
                0 < k <= old(self).lender.outcomes().len() && #[trigger] old(self).lender.outcomes().skip(k)
                    == final(self).lender.outcomes() && accepted_outcomes_upto(
                    old(self).predicate,
                    old(self).lender.outcomes(),
                    k - 1,
                ) && #[trigger] skip_while_stop(old(self).predicate, old(self).lender.outcomes()[k - 1], v, r),
    {
        if self.flag {
            return self.lender.next();
        }
        let ghost s0 = self.lender.outcomes();
        let ghost p = self.predicate;
        let ghost mut k: int = 0;
        proof {
            assert(s0.skip(0) =~= s0);
        }
        loop
            invariant
                self.lender.wf(),
                !self.flag,
                !old(self).flag,
                self.predicate == p,
                p == old(self).predicate,
                forall|a: T| call_requires(p, (&a,)),
                s0 == old(self).lender.outcomes(),
                0 <= k <= s0.len(),
                self.lender.outcomes() == s0.skip(k),
                accepted_outcomes_upto(p, s0, k),
            decreases self.lender.outcomes().len(),
        {
            match self.lender.next() {
                Ok(Some(x)) => {
                    proof {
                        assert(s0[k] == Ok::<T, L::Error>(x));
                        assert(s0.skip(k).drop_first() =~= s0.skip(k + 1));
                    }
                    let verdict = (self.predicate)(&x);
                    proof {
                        assert(call_ensures(p, (&x,), verdict));
                        k = k + 1;
                    }
                    match verdict {
                        Ok(true) => {},
                        Ok(false) => {
                            self.flag = true;
                            proof {
                                assert(skip_while_stop(p, s0[k - 1], verdict, Ok::<Option<T>, L::Error>(Some(x))));
                            }
                            return Ok(Some(x));
                        },
                        Err(e) => {
                            proof {
                                assert(skip_while_stop(p, s0[k - 1], verdict, Err::<Option<T>, L::Error>(e)));
                            }
                            return Err(e);
                        },
                    }
                },
                Ok(None) => {
                    proof {
                        assert(s0.skip(k).len() == 0);
                    }
                    return Ok(None);
                },
                Err(e) => {
                    proof {
                        assert(s0[k] == Err::<T, L::Error>(e));
                        assert(s0.skip(k).drop_first() =~= s0.skip(k + 1));
                        k = k + 1;
                        assert(skip_while_stop(p, s0[k - 1], Ok::<bool, L::Error>(true), Err::<Option<T>, L::Error>(e)));
                    }
                    return Err(e);
                },
            }
        }
    }
}

impl<'lend, L: FallibleLender, P> FallibleLending<'lend> for SkipWhile<L, P> {
    type Lend = FallibleLend<'lend, L>;
}

impl<L, P, T> FallibleLender for SkipWhile<L, P>
    where
        L: FallibleLender + for<'all> FallibleLending<'all, Lend = T>,
        P: FnMut(&T) -> Result<bool, L::Error>,
{
    type Error = L::Error;

    open spec fn wf(&self) -> bool {
        self.lender.wf() && ref_pure::<T, Result<bool, L::Error>, P>(self.predicate)
    }

    open spec fn outcomes(&self) -> Seq<Result<T, L::Error>> {
        if self.flag {
            self.lender.outcomes()
        } else {
            skipped_while_outcomes(self.predicate, self.lender.outcomes())
        }
    }

    fn next(&mut self) -> (r: Result<Option<T>, L::Error>)
        ensures
            final(self).predicate == old(self).predicate,
            !old(self).flag ==> exists|k: int|
                0 <= k <= old(self).lender.outcomes().len() && #[trigger] old(self).lender.outcomes().skip(k)
                    == final(self).lender.outcomes() && forall|j: int|
                    0 <= j < k ==> (#[trigger] old(self).lender.outcomes()[j] matches Ok(x) ==> ref_called::<
                        T,
                        Result<bool, L::Error>,
                        P,
                    >(old(self).predicate, x)),
    {
        if self.flag {
            return self.lender.next();
        }
        let ghost s0 = self.lender.outcomes();
        let ghost mut k: int = 0;
        proof {
            assert(s0.skip(0) =~= s0);
        }
        loop
            invariant
                FallibleLender::wf(self),
                !self.flag,
                !old(self).flag,
                self.predicate == old(self).predicate,
                FallibleLender::outcomes(self) == FallibleLender::outcomes(old(self)),
                s0 == old(self).lender.outcomes(),
                0 <= k <= s0.len(),
                self.lender.outcomes() == s0.skip(k),
                forall|j: int| 0 <= j < k ==> (#[trigger] s0[j] matches Ok(x) ==> ref_called::<T, Result<bool, L::Error>, P>(self.predicate, x)),
            decreases self.lender.outcomes().len(),
        {
            let ghost s = self.lender.outcomes();
            proof {
                if s.len() > 0 {
                    let rest = skipped_while_outcomes(self.predicate, s.drop_first());
                    assert(forall|o: Result<T, L::Error>| #[trigger] (seq![o] + rest).drop_first() == rest);
                }
            }
            match self.lender.next() {
                Ok(Some(x)) => {
                    let verdict = (self.predicate)(&x);
                    proof {
                        assert(call_ensures(self.predicate, (&x,), verdict));
                        assert(s0[k] == Ok::<T, L::Error>(x));
                        assert(ref_called::<T, Result<bool, L::Error>, P>(self.predicate, x));
                        assert(s0.skip(k).drop_first() =~= s0.skip(k + 1));
                        k = k + 1;
                    }
                    match verdict {
                        Ok(true) => {},
                        Ok(false) => {
                            self.flag = true;
                            return Ok(Some(x));
                        },
                        Err(e) => {
                            return Err(e);
                        },
                    }
                },
                Ok(None) => {
                    proof {
                        assert(s0.skip(k).len() == 0);
                    }
                    return Ok(None);
                },
                Err(e) => {
                    proof {
                        assert(s0.skip(k).drop_first() =~= s0.skip(k + 1));
                        k = k + 1;
                    }
                    return Err(e);
                },
            }
        }
    }

    open spec fn hint(&self) -> (usize, Option<usize>) {
        (0, self.lender.hint().1)
    }

    fn size_hint(&self) -> (r: (usize, Option<usize>)) {
        proof {
            lemma_skipped_while_outcomes_len(self.predicate, self.lender.outcomes());
        }
        let (_, upper) = self.lender.size_hint();
        (0, upper)
    }
}

impl<L, P, T> FusedFallibleLender for SkipWhile<L, P>
    where
        L: FusedFallibleLender + for<'all> FallibleLending<'all, Lend = T>,
        P: FnMut(&T) -> Result<bool, L::Error>,
{
}

/// The outcomes of a fallible lender that hands out the first outcome of `s`
/// (when `first`) and then the outcome after each `step` skipped lends; an
/// error among the skipped lends is handed out in place of the outcome after
/// them, and the counting starts again after it.
pub open spec fn stepped_outcomes<T, E>(s: Seq<Result<T, E>>, step: nat, first: bool) -> Seq<Result<T, E>>
    decreases s.len(),
{
    if s.len() == 0 {
        Seq::empty()
    } else if first {
        seq![s[0]] + stepped_outcomes(s.drop_first(), step, false)
    } else if first_err(s) < step && first_err(s) < s.len() {
        seq![s[first_err(s) as int]] + stepped_outcomes(s.skip(first_err(s) + 1 as int), step, false)
    } else if step < s.len() {
        seq![s[step as int]] + stepped_outcomes(s.skip(step + 1 as int), step, false)
    } else {
        Seq::empty()
    }
}

impl<'lend, L: FallibleLender> FallibleLending<'lend> for StepBy<L> {
    type Lend = FallibleLend<'lend, L>;
}

impl<L: FallibleLender> FallibleLender for StepBy<L> {
    type Error = L::Error;

    open spec fn wf(&self) -> bool {
        self.lender.wf() && self.step < usize::MAX
    }

    open spec fn outcomes(&self) -> Seq<Result<FallibleSpecLend<L>, L::Error>> {
        stepped_outcomes(self.lender.outcomes(), self.step as nat, self.first_take)
    }

    fn next(&mut self) -> (r: Result<Option<FallibleLend<'_, L>>, L::Error>) {
        let ghost s = self.lender.outcomes();
        proof {
            lemma_first_err(s);
            let rest1 = stepped_outcomes(s.drop_first(), self.step as nat, false);
            assert(forall|o: Result<FallibleSpecLend<L>, L::Error>| #[trigger] (seq![o] + rest1).drop_first() == rest1);
            let k = first_err(s);
            if k < s.len() {
                let restk = stepped_outcomes(s.skip(k + 1 as int), self.step as nat, false);
                assert(forall|o: Result<FallibleSpecLend<L>, L::Error>| #[trigger] (seq![o] + restk).drop_first() == restk);
            }
            if self.step < s.len() {
                let rests = stepped_outcomes(s.skip(self.step + 1), self.step as nat, false);
                assert(forall|o: Result<FallibleSpecLend<L>, L::Error>| #[trigger] (seq![o] + rests).drop_first() == rests);
            }
        }
        if self.first_take {
            self.first_take = false;
            self.lender.next()
        } else {
            self.lender.nth(self.step)
        }
    }

    open spec fn hint(&self) -> (usize, Option<usize>) {
        if self.first_take {
            (stepped_count(self.lender.hint().0, self.step), self.lender.hint().1)
        } else {
            ((self.lender.hint().0 as int / (self.step + 1)) as usize, self.lender.hint().1)
        }
    }

    fn size_hint(&self) -> (r: (usize, Option<usize>)) {
        proof {
            lemma_stepped_outcomes_bounds(self.lender.outcomes(), self.step as nat, self.first_take);
        }
        let (low, high) = self.lender.size_hint();
        let step = self.step;
        proof {
            if low > 0 {
                vstd::arithmetic::div_mod::lemma_div_is_ordered(
                    (low - 1) as int,
                    (self.lender.outcomes().len() - 1) as int,
                    (step + 1) as int,
                );
            }
            vstd::arithmetic::div_mod::lemma_div_is_ordered(low as int, self.lender.outcomes().len() as int, (step + 1) as int);
        }
        if self.first_take {
            let lo = if low == 0 {
                0
            } else {
                1 + (low - 1) / (step + 1)
            };
            (lo, high)
        } else {
            (low / (step + 1), high)
        }
    }

    fn nth(&mut self, n: usize) -> (r: Result<Option<FallibleLend<'_, L>>, L::Error>) {
        let ghost s0 = self.lender.outcomes();
        let ghost first = self.first_take;
        let ghost k: nat = (self.step + 1) as nat;
        let mut m = n;
        if self.first_take {
            self.first_take = false;
            if m == 0 {
                proof {
                    if s0.len() > 0 {
                        let ss = stepped_outcomes(s0, self.step as nat, true);
                        assert(ss == seq![s0[0]] + stepped_outcomes(s0.drop_first(), self.step as nat, false));
                        assert(ss.skip(1) == stepped_outcomes(s0.drop_first(), self.step as nat, false));
                    }
                }
                return self.lender.next();
            }
            let first_lend: Result<bool, L::Error> = match self.lender.next() {
                Ok(Some(_)) => Ok(true),
                Ok(None) => Ok(false),
                Err(e) => Err(e),
            };
            match first_lend {
                Err(e) => {
                    proof {
                        let ss = stepped_outcomes(s0, self.step as nat, true);
                        assert(ss == seq![s0[0]] + stepped_outcomes(s0.drop_first(), self.step as nat, false));
                        assert(ss.skip(1) == stepped_outcomes(s0.drop_first(), self.step as nat, false));
                        assert(first_err(ss) == 0);
                    }
                    return Err(e);
                },
                Ok(false) => {
                    return Ok(None);
                },
                Ok(true) => {},
            }
            m = m - 1;
        }
        // From here on the outcomes are those stepped from `base`, and the
        // `n1`-th of them sits at `target` in `base`.
        let ghost base = self.lender.outcomes();
        let ghost n1 = m as nat;
        let ghost target: nat = ((n1 + 1) * k - 1) as nat;
        proof {
            assert((n1 + 1) * k == n1 * k + k) by (nonlinear_arith);
            assert(n1 * k >= 0) by (nonlinear_arith);
        }
        let mut step = self.step + 1;
        if m == usize::MAX {
            let jump: Result<bool, L::Error> = match self.lender.nth(step - 1) {
                Ok(Some(_)) => Ok(true),
                Ok(None) => Ok(false),
                Err(e) => Err(e),
            };
            match jump {
                Err(e) => {
                    let r = Err(e);
                    proof {
                        lemma_fallible_nth_raise(base, self.lender.outcomes(), (k - 1) as nat, target, r);
                        lemma_stepped_nth_from(s0, base, self.lender.outcomes(), self.step as nat, first, n as nat, n1, r);
                    }
                    return r;
                },
                Ok(false) => {
                    let r = Ok(None);
                    proof {
                        lemma_fallible_nth_raise(base, self.lender.outcomes(), (k - 1) as nat, target, r);
                        lemma_stepped_nth_from(s0, base, self.lender.outcomes(), self.step as nat, first, n as nat, n1, r);
                    }
                    return r;
                },
                Ok(true) => {
                    proof {
                        lemma_first_err(base);
                        assert(base[k - 1] is Ok);
                        assert(first_err(base) >= k);
                    }
                },
            }
            proof {
                assert(n1 * k == (n1 - 1) * k + k) by (nonlinear_arith)
                    requires
                        n1 >= 1,
                ;
            }
        } else {
            m = m + 1;
            proof {
                assert(m * k == n1 * k + k) by (nonlinear_arith)
                    requires
                        m == n1 + 1,
                ;
            }
        }
        let ghost mut consumed: nat = (target + 1 - m * step) as nat;
        proof {
            if n1 == usize::MAX {
                assert(consumed == k);
            } else {
                assert(consumed == 0);
                assert(base.skip(0) == base);
            }
        }
        loop
            invariant
                self.lender.wf(),
                self.step < usize::MAX,
                !self.first_take,
                k == self.step + 1,
                m >= 1,
                step >= 1,
                consumed + m * step == target + 1,
                consumed <= base.len(),
                first_err(base) >= consumed,
                self.lender.outcomes() == base.skip(consumed as int),
                target == ((n1 + 1) * k - 1) as nat,
                first ==> s0.len() > 0 && s0[0] is Ok && base == s0.drop_first() && n == n1 + 1,
                !first ==> base == s0 && n == n1,
                s0 == old(self).lender.outcomes(),
                first == old(self).first_take,
                self.step == old(self).step,
            decreases m * step,
        {
            let mul = m.checked_mul(step);
            if let Some(mul) = mul {
                proof {
                    assert(mul >= 1) by (nonlinear_arith)
                        requires
                            mul == m * step,
                            m >= 1,
                            step >= 1,
                    ;
                    lemma_stepped_nth_exit(s0, base, consumed, (mul - 1) as nat, self.step as nat, first, n as nat, n1);
                }
                return self.lender.nth(mul - 1);
            }
            let div_n = usize::MAX / m;
            let div_step = usize::MAX / step;
            proof {
                lemma_split_product(m as int, step as int, div_n as int, div_step as int);
            }
            let nth_n = div_n * m;
            let nth_step = div_step * step;
            let ghost prod = m * step;
            let nth = if nth_n > nth_step {
                step = step - div_n;
                proof {
                    assert(m * step == prod - nth_n) by (nonlinear_arith)
                        requires
                            step == (step + div_n) - div_n,
                            prod == m * (step + div_n),
                            nth_n == div_n * m,
                    ;
                }
                nth_n
            } else {
                m = m - div_step;
                proof {
                    assert(m * step == prod - nth_step) by (nonlinear_arith)
                        requires
                            prod == (m + div_step) * step,
                            nth_step == div_step * step,
                    ;
                }
                nth_step
            };
            proof {
                assert(nth >= 1) by (nonlinear_arith)
                    requires
                        nth == div_n * m || nth == div_step * step,
                        div_n >= 1,
                        div_step >= 1,
                        m >= 1,
                        step >= 1,
                ;
                assert(m * step >= 1) by (nonlinear_arith)
                    requires
                        m >= 1,
                        step >= 1,
                ;
            }
            let ghost cur = self.lender.outcomes();
            let jump: Result<bool, L::Error> = match self.lender.nth(nth - 1) {
                Ok(Some(_)) => Ok(true),
                Ok(None) => Ok(false),
                Err(e) => Err(e),
            };
            match jump {
                Err(e) => {
                    let r = Err(e);
                    proof {
                        lemma_fallible_nth_skip(base, self.lender.outcomes(), (nth - 1) as nat, consumed, r);
                        lemma_fallible_nth_raise(base, self.lender.outcomes(), (nth - 1 + consumed) as nat, target, r);
                        lemma_stepped_nth_from(s0, base, self.lender.outcomes(), self.step as nat, first, n as nat, n1, r);
                    }
                    return r;
                },
                Ok(false) => {
                    let r = Ok(None);
                    proof {
                        lemma_fallible_nth_skip(base, self.lender.outcomes(), (nth - 1) as nat, consumed, r);
                        lemma_fallible_nth_raise(base, self.lender.outcomes(), (nth - 1 + consumed) as nat, target, r);
                        lemma_stepped_nth_from(s0, base, self.lender.outcomes(), self.step as nat, first, n as nat, n1, r);
                    }
                    return r;
                },
                Ok(true) => {
                    proof {
                        lemma_first_err(cur);
                        lemma_fallible_nth_skip(base, cur, 0, consumed, Ok(None));
                        assert(cur[nth - 1] is Ok);
                        assert(first_err(cur) >= nth);
                        assert(cur.skip(nth as int) == base.skip(consumed + nth));
                        consumed = (consumed + nth) as nat;
                    }
                },
            }
        }
    }
}

/// Where `nth` of a stepping fallible lender lands: `nth(n)` over the outcomes
/// stepped from `s` is `nth` at `(n + 1) * (step + 1) - 1` over `s` itself,
/// and what is left of `s` then steps to what is left of the stepped
/// outcomes.
pub proof fn lemma_stepped_nth<T, E>(
    s: Seq<Result<T, E>>,
    new: Seq<Result<T, E>>,
    step: nat,
    n: nat,
    r: Result<Option<T>, E>,
)
    requires
        fallible_nth_post(s, new, ((n + 1) * (step + 1) - 1) as nat, r),
    ensures
        fallible_nth_post(stepped_outcomes(s, step, false), stepped_outcomes(new, step, false), n, r),
    decreases n,
{
    let k = step + 1;
    let t1 = (n + 1) * k - 1;
    assert((n + 1) * k == n * k + k) by (nonlinear_arith);
    assert(n * k >= 0) by (nonlinear_arith);
    lemma_first_err(s);
    let p = first_err(s);
    let ss = stepped_outcomes(s, step, false);
    if s.len() == 0 {
        assert(ss.len() == 0);
    } else if p < step && p < s.len() {
        let rest = stepped_outcomes(s.skip(p + 1 as int), step, false);
        assert(ss == seq![s[p as int]] + rest);
        assert(ss.skip(1) == rest);
        assert(ss[0] is Err);
        assert(first_err(ss) == 0);
    } else if step < s.len() {
        let rest = stepped_outcomes(s.skip(k as int), step, false);
        assert(ss == seq![s[step as int]] + rest);
        assert(ss.skip(1) == rest);
        assert(ss.drop_first() == rest);
        if n == 0 {
            assert((n + 1) * k == k) by (nonlinear_arith)
                requires
                    n == 0,
            ;
        } else if s[step as int] is Err {
            assert(p == step);
            assert(first_err(ss) == 0);
        } else {
            assert(p >= k) by {
                if p == step {
                    assert(s[p as int] is Err);
                }
            }
            let n2 = (n - 1) as nat;
            let j = ((n2 + 1) * (step + 1) - 1) as nat;
            assert(n * k >= k) by (nonlinear_arith)
                requires
                    n >= 1,
                    k >= 1,
            ;
            assert((n2 + 1) * (step + 1) == n * k);
            assert(j + k == ((n + 1) * (step + 1) - 1) as nat);
            lemma_fallible_nth_skip(s, new, j, k, r);
            lemma_stepped_nth(s.skip(k as int), new, step, n2, r);
            lemma_fallible_nth_shift(ss, stepped_outcomes(new, step, false), (n - 1) as nat, r);
        }
    } else {
        assert(ss.len() == 0);
        assert(p == s.len());
    }
}

/// How `nth(n)` of a stepping fallible lender that was made from `s0` ends:
/// the first outcome, when it is still to come, has been taken out as a lend,
/// and `nth` at `(n1 + 1) * (step + 1) - 1` over what is left, `base`, gave
/// `r` and left `new`.
pub proof fn lemma_stepped_nth_from<T, E>(
    s0: Seq<Result<T, E>>,
    base: Seq<Result<T, E>>,
    new: Seq<Result<T, E>>,
    step: nat,
    first: bool,
    n: nat,
    n1: nat,
    r: Result<Option<T>, E>,
)
    requires
        fallible_nth_post(base, new, ((n1 + 1) * (step + 1) - 1) as nat, r),
        first ==> s0.len() > 0 && s0[0] is Ok && base == s0.drop_first() && n == n1 + 1,
        !first ==> base == s0 && n == n1,
    ensures
        fallible_nth_post(stepped_outcomes(s0, step, first), stepped_outcomes(new, step, false), n, r),
{
    lemma_stepped_nth(base, new, step, n1, r);
    if first {
        let ss = stepped_outcomes(s0, step, true);
        assert(ss == seq![s0[0]] + stepped_outcomes(base, step, false));
        assert(ss.drop_first() == stepped_outcomes(base, step, false));
        lemma_fallible_nth_shift(ss, stepped_outcomes(new, step, false), n1, r);
    }
}

/// The last jump of `nth(n)` over a stepping fallible lender: after `c`
/// lends of `base` have been passed, any outcome of `nth(j)` over the rest,
/// with `c + j` the index of the wanted outcome, is `nth(n)` over the
/// stepped outcomes.
pub proof fn lemma_stepped_nth_exit<T, E>(
    s0: Seq<Result<T, E>>,
    base: Seq<Result<T, E>>,
    c: nat,
    j: nat,
    step: nat,
    first: bool,
    n: nat,
    n1: nat,
)
    requires
        c <= base.len(),
        first_err(base) >= c,
        c + j == ((n1 + 1) * (step + 1) - 1) as nat,
        first ==> s0.len() > 0 && s0[0] is Ok && base == s0.drop_first() && n == n1 + 1,
        !first ==> base == s0 && n == n1,
    ensures
        forall|new: Seq<Result<T, E>>, r: Result<Option<T>, E>|
            #[trigger] fallible_nth_post(base.skip(c as int), new, j, r) ==> fallible_nth_post(
                stepped_outcomes(s0, step, first),
                stepped_outcomes(new, step, false),
                n,
                r,
            ),
{
    assert forall|new: Seq<Result<T, E>>, r: Result<Option<T>, E>|
        #[trigger] fallible_nth_post(base.skip(c as int), new, j, r) implies fallible_nth_post(
            stepped_outcomes(s0, step, first),
            stepped_outcomes(new, step, false),
            n,
            r,
        ) by {
        lemma_fallible_nth_skip(base, new, j, c, r);
        lemma_stepped_nth_from(s0, base, new, step, first, n, n1, r);
    }
}

/// A stepping fallible lender hands out at least one outcome for each
/// `step + 1` outcomes of the lender, and never more outcomes than the
/// lender has.
pub proof fn lemma_stepped_outcomes_bounds<T, E>(s: Seq<Result<T, E>>, step: nat, first: bool)
    ensures
        stepped_outcomes(s, step, first).len() <= s.len(),
        first && s.len() > 0 ==> stepped_outcomes(s, step, first).len() >= 1 + (s.len() - 1) / ((step + 1) as int),
        !first ==> stepped_outcomes(s, step, first).len() >= (s.len() as int) / ((step + 1) as int),
    decreases s.len(),
{
    let k = (step + 1) as int;
    lemma_first_err(s);
    if s.len() == 0 {
        vstd::arithmetic::div_mod::lemma_basic_div(0, k);
    } else if first {
        lemma_stepped_outcomes_bounds(s.drop_first(), step, false);
        vstd::arithmetic::div_mod::lemma_div_is_ordered((s.len() - 1) as int, (s.len() - 1) as int, k);
    } else if first_err(s) < step && first_err(s) < s.len() {
        let j = first_err(s) + 1;
        lemma_stepped_outcomes_bounds(s.skip(j as int), step, false);
        assert(s.skip(j as int).len() == s.len() - j);
        vstd::arithmetic::div_mod::lemma_div_is_ordered(s.len() - k, s.len() - j, k);
        vstd::arithmetic::div_mod::lemma_div_minus_one(s.len() as int, k);
        if s.len() < k {
            vstd::arithmetic::div_mod::lemma_basic_div(s.len() as int, k);
        }
    } else if step < s.len() {
        lemma_stepped_outcomes_bounds(s.skip(step + 1 as int), step, false);
        assert(s.skip(step + 1 as int).len() == s.len() - k);
        vstd::arithmetic::div_mod::lemma_div_minus_one(s.len() as int, k);
    } else {
        vstd::arithmetic::div_mod::lemma_basic_div(s.len() as int, k);
    }
}

} // verus!

verus! {

/// What a `SkipWhile` over a fallible lender is: well formed exactly when its
/// lender is and its predicate is deterministic.
pub proof fn lemma_fallible_skip_while_model<L, P, T>(s: SkipWhile<L, P>)
    where
        L: FallibleLender + for<'all> FallibleLending<'all, Lend = T>,
        P: FnMut(&T) -> Result<bool, L::Error>,
    ensures
        FallibleLender::wf(&s) == (s.lender.wf() && ref_pure::<T, Result<bool, L::Error>, P>(s.predicate)),
        FallibleLender::outcomes(&s) == if s.flag {
            s.lender.outcomes()
        } else {
            skipped_while_outcomes(s.predicate, s.lender.outcomes())
        },
{
}

} // verus!
