//! The lending-iterator traits and their model.
use vstd::prelude::*;
use core::ops::ControlFlow;

use crate::adapters::{
    Chain, Cloned, Copied, Owned, Intersperse, IntersperseWith, Iter, MapIntoIter, Peekable, Enumerate, Filter, FilterMap, FlatMap, Flatten, Fuse, Inspect, MapLend, MapWhile, Mutate, Rev, Scan, Skip,
    SkipWhile, StepBy, Take, TakeWhile, Zip,
};
use crate::fallible_adapters::{Convert, IntoFallible};
use crate::spec::{
    advance_back_post, advance_post, next_back_post, nth_back_post, fold_ready, fold_result, fold_trace, hint_ok, next_post, nth_post, try_fold_post,
    try_fold_ready, try_fold_trace,
};
use crate::spec::{find_post, lemma_reverse, pred_ready, rejects_first};

verus! {

/// The type of the lends that a lender hands out while it is borrowed for
/// `'lend`.
pub trait Lending<'lend> {
    type Lend;
}

/// The lend of `L` for the borrow `'lend`.
pub type Lend<'lend, L> = <L as Lending<'lend>>::Lend;

/// A lend of `L` as contracts see it (lifetimes play no part in them).
pub type SpecLend<L> = <L as Lending<'static>>::Lend;

/// A lending iterator: `next` hands out a lend that may borrow from the lender.
///
/// A lender is described by `lends()`, the finite sequence of lends that it
/// still has to hand out, and by `wf()`, the invariant that its own state
/// keeps. Once a lender has handed out `None` it keeps doing so.
pub trait Lender: for<'all> Lending<'all> + Sized {
    /// The lender's own invariant.
    spec fn wf(&self) -> bool;

    /// The lends still to come, front first.
    spec fn lends(&self) -> Seq<SpecLend<Self>>;

    /// Hands out the next lend, or `None` when the lender is exhausted.
    fn next(&mut self) -> (r: Option<Lend<'_, Self>>)
        requires
            old(self).wf(),
        ensures
            final(self).wf(),
            next_post(old(self).lends(), final(self).lends(), r),
    ;

    /// The bounds that `size_hint` gives in this state.
    spec fn hint(&self) -> (usize, Option<usize>);

    /// Bounds on the number of lends still to come: those of `hint`.
    fn size_hint(&self) -> (r: (usize, Option<usize>))
        requires
            self.wf(),
        ensures
            r == self.hint(),
            hint_ok(self.lends().len(), r),
    ;

    /// Skips `n` lends; when fewer are left, drains the lender and reports, as
    /// a positive number, how many steps were missing.
    fn advance_by(&mut self, n: usize) -> (r: Result<(), usize>)
        requires
            old(self).wf(),
        ensures
            final(self).wf(),
            advance_post(old(self).lends(), final(self).lends(), n as nat, r),
    {
        let ghost orig = self.lends();
        let mut i: usize = 0;
        while i < n
            invariant
                self.wf(),
                orig == old(self).lends(),
                i <= n,
                i <= orig.len(),
                self.lends() == orig.skip(i as int),
            decreases n - i,
        {
            if self.next().is_none() {
                assert(orig.skip(i as int).len() == 0);
                assert(i == orig.len());
                assert(self.lends().len() == 0);
                return Err(n - i);
            }
            assert(orig.skip(i as int).drop_first() == orig.skip(i + 1));
            i = i + 1;
        }
        Ok(())
    }

    /// Skips `n` lends and hands out the one after them.
    fn nth(&mut self, n: usize) -> (r: Option<Lend<'_, Self>>)
        requires
            old(self).wf(),
        ensures
            final(self).wf(),
            nth_post(old(self).lends(), final(self).lends(), n as nat, r),
    {
        if self.advance_by(n).is_err() {
            return None;
        }
        let ghost mid = self.lends();
        let r = self.next();
        proof {
            if n < old(self).lends().len() {
                assert(mid.drop_first() == old(self).lends().skip(n + 1));
            }
        }
        r
    }

    /// Consumes the lender and returns the number of lends it had left.
    fn count(self) -> (r: usize)
        requires
            self.wf(),
            self.lends().len() <= usize::MAX,
        ensures
            r == self.lends().len(),
    {
        let ghost orig = self.lends();
        let mut this = self;
        let mut c: usize = 0;
        while c < usize::MAX
            invariant
                this.wf(),
                orig == self.lends(),
                c <= orig.len(),
                orig.len() <= usize::MAX,
                this.lends() == orig.skip(c as int),
            decreases orig.len() - c,
        {
            if this.next().is_none() {
                return c;
            }
            assert(orig.skip(c as int).drop_first() == orig.skip(c + 1));
            c = c + 1;
        }
        c
    }

    /// Folds every lend into an accumulator.
    fn fold<B, F>(self, init: B, f: F) -> (r: B)
        where
            F: FnMut(B, Lend<'_, Self>) -> B,
        requires
            self.wf(),
            fold_ready::<B, SpecLend<Self>, F>(f),
        ensures
            fold_result::<B, SpecLend<Self>, F>(f, init, self.lends(), r),
    {
        let ghost orig = self.lends();
        let mut this = self;
        let mut g = f;
        let mut acc = init;
        let ghost mut accs: Seq<B> = seq![init];
        loop
            invariant
                g == f,
                this.wf(),
                orig == self.lends(),
                fold_ready::<B, SpecLend<Self>, F>(f),
                accs.len() <= orig.len() + 1,
                fold_trace(f, init, orig.take(accs.len() - 1), accs),
                acc == accs.last(),
                this.lends() == orig.skip(accs.len() - 1),
            decreases this.lends().len(),
        {
            match this.next() {
                None => {
                    assert(orig.take(accs.len() - 1) == orig);
                    assert(fold_trace(f, init, orig, accs));
                    return acc;
                },
                Some(x) => {
                    let ghost k = accs.len() - 1;
                    acc = g(acc, x);
                    proof {
                        accs = accs.push(acc);
                        assert(orig.take(k + 1).take(k) == orig.take(k));
                        assert(orig.skip(k).drop_first() == orig.skip(k + 1));
                    }
                },
            }
        }
    }

    /// Folds lends into an accumulator until `f` breaks.
    fn try_fold<B, R, F>(&mut self, init: B, f: F) -> (r: ControlFlow<R, B>)
        where
            F: FnMut(B, Lend<'_, Self>) -> ControlFlow<R, B>,
        requires
            old(self).wf(),
            try_fold_ready::<B, R, SpecLend<Self>, F>(f),
        ensures
            final(self).wf(),
            try_fold_post::<B, R, SpecLend<Self>, F>(f, init, old(self).lends(), final(self).lends(), r),
    {
        let ghost orig = self.lends();
        let mut acc = init;
        let mut g = f;
        let ghost mut accs: Seq<B> = seq![init];
        loop
            invariant
                self.wf(),
                orig == old(self).lends(),
                g == f,
                try_fold_ready::<B, R, SpecLend<Self>, F>(f),
                try_fold_trace(f, init, orig, accs),
                acc == accs.last(),
                self.lends() == orig.skip(accs.len() - 1),
            decreases self.lends().len(),
        {
            let ghost k = accs.len() - 1;
            match self.next() {
                None => {
                    assert(try_fold_trace(f, init, orig, accs));
                    assert(k == orig.len());
                    return ControlFlow::Continue(acc);
                },
                Some(x) => {
                    assert(x == orig[k]);
                    let c = g(acc, x);
                    let ghost c0 = c;
                    match c {
                        ControlFlow::Continue(b) => {
                            acc = b;
                            proof {
                                accs = accs.push(acc);
                                assert(orig.skip(k).drop_first() == orig.skip(k + 1));
                            }
                        },
                        ControlFlow::Break(e) => {
                            let c = ControlFlow::Break(e);
                            proof {
                                assert(orig.skip(k).drop_first() == orig.skip(k + 1));
                                assert(try_fold_trace(f, init, orig, accs));
                                assert(call_ensures(f, (accs.last(), orig[k]), c0));
                                assert(c == c0);
                            }
                            return c;
                        },
                    }
                },
            }
        }
    }

    /// Hands out the first lend that `predicate` accepts, consuming the lends
    /// up to it; `None`, with the lender drained, when it accepts none. The
    /// lends must not borrow from the lender.
    fn find<P, T>(&mut self, predicate: P) -> (r: Option<T>)
        where
            Self: for<'all> Lending<'all, Lend = T>,
            P: FnMut(&T) -> bool,
        requires
            old(self).wf(),
            pred_ready::<T, P>(predicate),
        ensures
            final(self).wf(),
            find_post(predicate, old(self).lends(), final(self).lends(), r),
    {
        let ghost orig = self.lends();
        let mut p = predicate;
        let ghost mut k: int = 0;
        loop
            invariant
                self.wf(),
                orig == old(self).lends(),
                p == predicate,
                pred_ready::<T, P>(predicate),
                rejects_first(predicate, orig, k),
                self.lends() == orig.skip(k),
            decreases self.lends().len(),
        {
            let ghost before = self.lends();
            match self.next() {
                None => {
                    assert(k == orig.len());
                    return None;
                },
                Some(x) => {
                    assert(orig.skip(k)[0] == orig[k]);
                    assert(orig.skip(k).drop_first() == orig.skip(k + 1));
                    if p(&x) {
                        return Some(x);
                    }
                    proof {
                        k = k + 1;
                    }
                },
            }
        }
    }

    /// Drains the lender and hands out its last lend, if any. The lends must
    /// not borrow from the lender.
    fn last<T>(&mut self) -> (r: Option<T>)
        where
            Self: for<'all> Lending<'all, Lend = T>,
        requires
            old(self).wf(),
        ensures
            final(self).wf(),
            final(self).lends().len() == 0,
            old(self).lends().len() > 0 ==> r == Some(old(self).lends().last()),
            old(self).lends().len() == 0 ==> r is None,
    {
        let ghost orig = self.lends();
        let mut last: Option<T> = None;
        let ghost mut k: int = 0;
        loop
            invariant
                self.wf(),
                orig == old(self).lends(),
                0 <= k <= orig.len(),
                self.lends() == orig.skip(k),
                k == 0 ==> last is None,
                k > 0 ==> last == Some(orig[k - 1]),
            decreases self.lends().len(),
        {
            match self.next() {
                None => {
                    assert(k == orig.len());
                    return last;
                },
                Some(x) => {
                    assert(orig.skip(k)[0] == orig[k]);
                    assert(orig.skip(k).drop_first() == orig.skip(k + 1));
                    last = Some(x);
                    proof {
                        k = k + 1;
                    }
                },
            }
        }
    }

    /// Hands out at most the first `n` lends.
    fn take(self, n: usize) -> (r: Take<Self>)
        ensures
            r.lender == self,
            r.n == n,
    {
        Take { lender: self, n }
    }

    /// Skips the first `n` lends.
    fn skip(self, n: usize) -> (r: Skip<Self>)
        ensures
            r.lender == self,
            r.n == n,
    {
        Skip { lender: self, n }
    }

    /// Hands out the first lend and then every `step`-th one.
    fn step_by(self, step: usize) -> (r: StepBy<Self>)
        requires
            step != 0,
        ensures
            r.lender == self,
            r.step == step - 1,
            r.first_take,
    {
        StepBy { lender: self, step: step - 1, first_take: true }
    }

    /// Hands out each lend together with its position.
    fn enumerate(self) -> (r: Enumerate<Self>)
        ensures
            r.lender == self,
            r.count == 0,
    {
        Enumerate { lender: self, count: 0 }
    }

    /// Keeps handing out `None` once `None` has been handed out.
    fn fuse(self) -> (r: Fuse<Self>)
        ensures
            r.lender == self,
            !r.flag,
    {
        Fuse { lender: self, flag: false }
    }

    /// Passes every lend through `f`.
    fn map<F>(self, f: F) -> (r: MapLend<Self, F>)
        ensures
            r.lender == self,
            r.f == f,
    {
        MapLend { lender: self, f }
    }

    /// Keeps the lends that `predicate` accepts.
    fn filter<P>(self, predicate: P) -> (r: Filter<Self, P>)
        ensures
            r.lender == self,
            r.predicate == predicate,
    {
        Filter { lender: self, predicate }
    }

    /// Passes every lend through `f` and keeps the `Some`s.
    fn filter_map<F>(self, f: F) -> (r: FilterMap<Self, F>)
        ensures
            r.lender == self,
            r.f == f,
    {
        FilterMap { lender: self, f }
    }

    /// Passes the lends through `predicate` until it gives `None`.
    fn map_while<P>(self, predicate: P) -> (r: MapWhile<Self, P>)
        ensures
            r.lender == self,
            r.predicate == predicate,
            !r.done,
    {
        MapWhile { lender: self, predicate, done: false }
    }

    /// Hands out the lends while `predicate` accepts them.
    fn take_while<P>(self, predicate: P) -> (r: TakeWhile<Self, P>)
        ensures
            r.lender == self,
            r.predicate == predicate,
            !r.flag,
    {
        TakeWhile { lender: self, flag: false, predicate }
    }

    /// Skips the lends while `predicate` accepts them.
    fn skip_while<P>(self, predicate: P) -> (r: SkipWhile<Self, P>)
        ensures
            r.lender == self,
            r.predicate == predicate,
            !r.flag,
    {
        SkipWhile { lender: self, flag: false, predicate }
    }

    /// Calls `f` on every lend as it goes by.
    fn inspect<F>(self, f: F) -> (r: Inspect<Self, F>)
        ensures
            r.lender == self,
            r.f == f,
    {
        Inspect { lender: self, f }
    }

    /// Hands every lend to `f`, which may change it in place, before handing
    /// it out.
    fn mutate<F>(self, f: F) -> (r: Mutate<Self, F>)
        ensures
            r.lender == self,
            r.f == f,
    {
        Mutate::new(self, f)
    }

    /// Hands out what `f` makes of a state, which it may change, and each
    /// lend, until `f` gives `None`.
    fn scan<St, F>(self, state: St, f: F) -> (r: Scan<Self, St, F>)
        ensures
            r.lender == self,
            r.state == state,
            r.f == f,
    {
        Scan::new(self, state, f)
    }

    /// Maps every lend to a lender with `f` and hands out their lends, one
    /// lender after the other.
    fn flat_map<F, I>(self, f: F) -> (r: FlatMap<Self, F, I>)
        ensures
            r.lender == self,
            r.f == f,
            r.inner is None,
    {
        FlatMap { lender: self, f, inner: None }
    }

    /// Hands out the lends of the lenders that `self` hands out, one lender
    /// after the other.
    fn flatten<I>(self) -> (r: Flatten<Self, I>)
        ensures
            r.lender == self,
            r.inner is None,
    {
        Flatten { lender: self, inner: None }
    }

    /// Makes the lender able to look at its next lend without handing it out.
    fn peekable<T>(self) -> (r: Peekable<Self, T>)
        ensures
            r.lender == self,
            r.peeked is None,
    {
        Peekable { lender: self, peeked: None }
    }

    /// Puts a copy of `separator` between each two adjacent lends.
    fn intersperse<T>(self, separator: T) -> (r: Intersperse<Self, T>)
        ensures
            r.lender.lender == self,
            r.lender.peeked is None,
            r.separator == separator,
            !r.needs_sep,
    {
        Intersperse { lender: Peekable { lender: self, peeked: None }, separator, needs_sep: false }
    }

    /// Puts a lend made by `separator` between each two adjacent lends.
    fn intersperse_with<G, T>(self, separator: G) -> (r: IntersperseWith<Self, G, T>)
        ensures
            r.lender.lender == self,
            r.lender.peeked is None,
            r.separator == separator,
            !r.needs_sep,
    {
        IntersperseWith { lender: Peekable { lender: self, peeked: None }, separator, needs_sep: false }
    }

    /// An iterator over the lends, for a lender whose lends do not borrow from
    /// it.
    fn iter<'this>(self) -> (r: Iter<'this, Self>)
        where
            Self: 'this,
        ensures
            r.lender == self,
    {
        Iter { lender: self, marker: core::marker::PhantomData }
    }

    /// An iterator over the values that `f` makes from the lends.
    fn map_into_iter<O, F>(self, f: F) -> (r: MapIntoIter<Self, O, F>)
        ensures
            r.lender == self,
            r.f == f,
    {
        MapIntoIter { lender: self, f, marker: core::marker::PhantomData }
    }

    /// An iterator over copies of the values that the lends refer to.
    fn copied(self) -> (r: Copied<Self>)
        ensures
            r.lender == self,
    {
        Copied { lender: self }
    }

    /// An iterator over clones of the values that the lends refer to.
    fn cloned(self) -> (r: Cloned<Self>)
        ensures
            r.lender == self,
    {
        Cloned { lender: self }
    }

    /// An iterator over owned values made from the lends.
    fn owned(self) -> (r: Owned<Self>)
        ensures
            r.lender == self,
    {
        Owned { lender: self }
    }

    /// Sees `self` as a fallible lender that never fails.
    fn into_fallible(self) -> (r: IntoFallible<Self>)
        ensures
            r.lender == self,
    {
        IntoFallible { lender: self }
    }

    /// Sees `self`, a lender of `Result`s, as a fallible lender.
    fn convert<E>(self) -> (r: Convert<E, Self>)
        ensures
            r.iter == self,
    {
        Convert { iter: self, marker: core::marker::PhantomData }
    }
}

/// A lender that can also hand out lends from the back.
pub trait DoubleEndedLender: Lender {
    /// Hands out the last lend, or `None` when the lender is exhausted.
    fn next_back(&mut self) -> (r: Option<Lend<'_, Self>>)
        requires
            old(self).wf(),
        ensures
            final(self).wf(),
            next_back_post(old(self).lends(), final(self).lends(), r),
    ;

    /// Hands out the last lend that `predicate` accepts, consuming the lends
    /// from the back up to it; `None`, with the lender drained, when it
    /// accepts none. The lends must not borrow from the lender.
    fn rfind<P, T>(&mut self, predicate: P) -> (r: Option<T>)
        where
            Self: for<'all> Lending<'all, Lend = T>,
            P: FnMut(&T) -> bool,
        requires
            old(self).wf(),
            pred_ready::<T, P>(predicate),
        ensures
            final(self).wf(),
            find_post(predicate, old(self).lends().reverse(), final(self).lends().reverse(), r),
    {
        let ghost orig = self.lends().reverse();
        proof {
            lemma_reverse(self.lends());
        }
        let mut p = predicate;
        let ghost mut k: int = 0;
        loop
            invariant
                self.wf(),
                orig == old(self).lends().reverse(),
                p == predicate,
                pred_ready::<T, P>(predicate),
                rejects_first(predicate, orig, k),
                self.lends().reverse() == orig.skip(k),
            decreases self.lends().len(),
        {
            let ghost before = self.lends();
            proof {
                lemma_reverse(before);
            }
            match self.next_back() {
                None => {
                    assert(orig.skip(k).len() == 0);
                    proof {
                        lemma_reverse(self.lends());
                    }
                    return None;
                },
                Some(x) => {
                    assert(orig.skip(k)[0] == orig[k]);
                    assert(orig.skip(k).drop_first() == orig.skip(k + 1));
                    if p(&x) {
                        return Some(x);
                    }
                    proof {
                        k = k + 1;
                    }
                },
            }
        }
    }

    /// Hands out the lends back to front.
    fn rev(self) -> (r: Rev<Self>)
        ensures
            r.lender == self,
    {
        Rev { lender: self }
    }

    /// Drops `n` lends from the back; when fewer are left, drains the lender
    /// and reports, as a positive number, how many steps were missing.
    fn advance_back_by(&mut self, n: usize) -> (r: Result<(), usize>)
        requires
            old(self).wf(),
        ensures
            final(self).wf(),
            advance_back_post(old(self).lends(), final(self).lends(), n as nat, r),
    {
        let ghost orig = self.lends();
        let mut i: usize = 0;
        while i < n
            invariant
                self.wf(),
                orig == old(self).lends(),
                i <= n,
                i <= orig.len(),
                self.lends() == orig.take(orig.len() - i),
            decreases n - i,
        {
            if self.next_back().is_none() {
                return Err(n - i);
            }
            assert(orig.take(orig.len() - i).drop_last() == orig.take(orig.len() - (i + 1)));
            i = i + 1;
        }
        Ok(())
    }

    /// Drops `n` lends from the back and hands out the one before them.
    fn nth_back(&mut self, n: usize) -> (r: Option<Lend<'_, Self>>)
        requires
            old(self).wf(),
        ensures
            final(self).wf(),
            nth_back_post(old(self).lends(), final(self).lends(), n as nat, r),
    {
        if self.advance_back_by(n).is_err() {
            return None;
        }
        let ghost mid = self.lends();
        let r = self.next_back();
        proof {
            let s = old(self).lends();
            if n < s.len() {
                assert(mid.drop_last() == s.take(s.len() - 1 - n));
            }
        }
        r
    }

    /// Folds every lend into an accumulator, from the back.
    fn rfold<B, F>(self, init: B, f: F) -> (r: B)
        where
            F: FnMut(B, Lend<'_, Self>) -> B,
        requires
            self.wf(),
            fold_ready::<B, SpecLend<Self>, F>(f),
        ensures
            fold_result::<B, SpecLend<Self>, F>(f, init, self.lends().reverse(), r),
    {
        let ghost orig = self.lends().reverse();
        let mut this = self;
        let mut g = f;
        let mut acc = init;
        let ghost mut accs: Seq<B> = seq![init];
        loop
            invariant
                g == f,
                this.wf(),
                orig == self.lends().reverse(),
                fold_ready::<B, SpecLend<Self>, F>(f),
                accs.len() <= orig.len() + 1,
                fold_trace(f, init, orig.take(accs.len() - 1), accs),
                acc == accs.last(),
                this.lends().reverse() == orig.skip(accs.len() - 1),
            decreases this.lends().len(),
        {
            let ghost k = accs.len() - 1;
            let ghost before = this.lends();
            match this.next_back() {
                None => {
                    assert(before.reverse().len() == 0);
                    assert(orig.take(accs.len() - 1) == orig);
                    assert(fold_trace(f, init, orig, accs));
                    return acc;
                },
                Some(x) => {
                    proof {
                        assert(before.reverse()[0] == before.last());
                        assert(before.drop_last().reverse() == before.reverse().drop_first());
                    }
                    acc = g(acc, x);
                    proof {
                        accs = accs.push(acc);
                        assert(orig.take(k + 1).take(k) == orig.take(k));
                        assert(orig.skip(k).drop_first() == orig.skip(k + 1));
                    }
                },
            }
        }
    }

    /// Folds lends from the back into an accumulator until `f` breaks.
    fn try_rfold<B, R, F>(&mut self, init: B, f: F) -> (r: ControlFlow<R, B>)
        where
            F: FnMut(B, Lend<'_, Self>) -> ControlFlow<R, B>,
        requires
            old(self).wf(),
            try_fold_ready::<B, R, SpecLend<Self>, F>(f),
        ensures
            final(self).wf(),
            try_fold_post::<B, R, SpecLend<Self>, F>(
                f,
                init,
                old(self).lends().reverse(),
                final(self).lends().reverse(),
                r,
            ),
    {
        let ghost orig = self.lends().reverse();
        let mut acc = init;
        let mut g = f;
        let ghost mut accs: Seq<B> = seq![init];
        loop
            invariant
                self.wf(),
                orig == old(self).lends().reverse(),
                g == f,
                try_fold_ready::<B, R, SpecLend<Self>, F>(f),
                try_fold_trace(f, init, orig, accs),
                acc == accs.last(),
                self.lends().reverse() == orig.skip(accs.len() - 1),
            decreases self.lends().len(),
        {
            let ghost k = accs.len() - 1;
            let ghost before = self.lends();
            match self.next_back() {
                None => {
                    assert(before.reverse().len() == 0);
                    assert(try_fold_trace(f, init, orig, accs));
                    assert(k == orig.len());
                    return ControlFlow::Continue(acc);
                },
                Some(x) => {
                    proof {
                        assert(before.reverse()[0] == before.last());
                        assert(before.drop_last().reverse() == before.reverse().drop_first());
                    }
                    assert(x == orig[k]);
                    let c = g(acc, x);
                    let ghost c0 = c;
                    match c {
                        ControlFlow::Continue(b) => {
                            acc = b;
                            proof {
                                accs = accs.push(acc);
                                assert(orig.skip(k).drop_first() == orig.skip(k + 1));
                            }
                        },
                        ControlFlow::Break(e) => {
                            let c = ControlFlow::Break(e);
                            proof {
                                assert(orig.skip(k).drop_first() == orig.skip(k + 1));
                                assert(try_fold_trace(f, init, orig, accs));
                                assert(call_ensures(f, (accs.last(), orig[k]), c0));
                                assert(c == c0);
                            }
                            return c;
                        },
                    }
                },
            }
        }
    }
}

/// A lender that knows exactly how many lends it has left.
pub trait ExactSizeLender: Lender {
    /// The number of lends still to come.
    fn len(&self) -> (r: usize)
        requires
            self.wf(),
        ensures
            r == self.lends().len(),
    ;

    /// Whether no lend is left.
    fn is_empty(&self) -> (r: bool)
        requires
            self.wf(),
        ensures
            r == (self.lends().len() == 0),
    {
        self.len() == 0
    }
}

/// A lender that keeps handing out `None` once it has done so. In this
/// library's model every lender behaves so; the marker is kept for code that
/// asks for it.
pub trait FusedLender: Lender {}

} // verus!
