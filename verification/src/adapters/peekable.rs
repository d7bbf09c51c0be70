//! `Peekable`: a lender that can look at its next lend without handing it
//! out.
use vstd::prelude::*;
use core::ops::ControlFlow;
use vstd::std_specs::cmp::PartialEqSpec;

use crate::spec::{
    fold_ready, fold_result, fold_trace, lemma_fold_append, lemma_fold_empty, lemma_fold_step, lemma_reverse,
    lemma_try_fold_append, lemma_try_fold_break, lemma_try_fold_empty, lemma_try_fold_step, try_fold_post,
    try_fold_ready, try_fold_trace,
};
use crate::traits::{DoubleEndedLender, ExactSizeLender, FusedLender, Lend, Lender, Lending};

verus! {

/// What a peek slot adds in front of the lends still to come from the lender:
/// the peeked lend, nothing, or, once the end has been peeked, the end.
pub open spec fn with_peeked<T>(peeked: Option<Option<T>>, rest: Seq<T>) -> Seq<T> {
    match peeked {
        Some(Some(x)) => seq![x] + rest,
        Some(None) => Seq::empty(),
        None => rest,
    }
}

/// A lender that can look at its next lend, which it then keeps until it
/// hands it out.
///
/// The lends must not borrow from the underlying lender: a peeked lend is
/// kept while the lender goes on.
pub struct Peekable<L, T> {
    pub lender: L,
    /// The peeked lend, or `Some(None)` once the end has been peeked.
    pub peeked: Option<Option<T>>,
}

impl<L, T> Peekable<L, T> {
    /// Makes `lender` peekable.
    pub fn new(lender: L) -> (r: Peekable<L, T>)
        ensures
            r.lender == lender,
            r.peeked is None,
    {
        Peekable { lender, peeked: None }
    }

    /// Returns the inner lender; a peeked lend is dropped.
    pub fn into_inner(self) -> (r: L)
        ensures
            r == self.lender,
    {
        self.lender
    }
}

impl<L, T> Peekable<L, T>
    where L: Lender + for<'all> Lending<'all, Lend = T>,
{
    /// Looks at the next lend without handing it out; looking again gives the
    /// same lend.
    pub fn peek(&mut self) -> (r: Option<&T>)
        requires
            old(self).wf(),
        ensures
            final(self).wf(),
            final(self).lends() == old(self).lends(),
            final(self).peeked is Some,
            old(self).lends().len() > 0 ==> (r matches Some(x) && *x == old(self).lends()[0]),
            old(self).lends().len() == 0 ==> r is None,
    {
        if self.peeked.is_none() {
            let ghost s = self.lender.lends();
            let n = self.lender.next();
            proof {
                if s.len() > 0 {
                    assert(seq![s[0]] + s.drop_first() == s);
                }
            }
            self.peeked = Some(n);
        }
        match &self.peeked {
            Some(Some(v)) => Some(v),
            _ => None,
        }
    }

    /// Looks at the next lend without handing it out, and lets the caller
    /// change it.
    pub fn peek_mut(&mut self) -> (r: Option<&mut T>)
        requires
            old(self).wf(),
        ensures
            final(self).wf(),
            old(self).lends().len() > 0 ==> (r matches Some(x) && *x == old(self).lends()[0] && final(self).lends()
                == old(self).lends().update(0, *final(x))),
            old(self).lends().len() == 0 ==> r is None && final(self).lends().len() == 0,
    {
        if self.peeked.is_none() {
            let ghost s = self.lender.lends();
            let n = self.lender.next();
            proof {
                if s.len() > 0 {
                    assert(seq![s[0]] + s.drop_first() == s);
                }
            }
            self.peeked = Some(n);
        }
        let ghost s = self.lends();
        let ghost rest = self.lender.lends();
        match &mut self.peeked {
            Some(Some(v)) => {
                proof {
                    assert(forall|y: T| #[trigger] (seq![y] + rest) == s.update(0, y));
                }
                Some(v)
            },
            _ => None,
        }
    }

    /// Hands out the next lend when `f` accepts it; otherwise keeps it peeked
    /// and hands out `None`.
    pub fn next_if<F>(&mut self, f: F) -> (r: Option<T>)
        where
            F: FnOnce(&T) -> bool,
        requires
            old(self).wf(),
            forall|x: T| call_requires(f, (&x,)),
        ensures
            final(self).wf(),
            old(self).lends().len() == 0 ==> r is None && final(self).lends().len() == 0,
            old(self).lends().len() > 0 ==> {
                ||| r == Some(old(self).lends()[0]) && final(self).lends() == old(self).lends().drop_first()
                    && call_ensures(f, (&old(self).lends()[0],), true)
                ||| r is None && final(self).lends() == old(self).lends() && call_ensures(
                    f,
                    (&old(self).lends()[0],),
                    false,
                )
            },
    {
        let ghost s = self.lends();
        let v = match self.peeked.take() {
            Some(p) => p,
            None => self.lender.next(),
        };
        proof {
            if s.len() > 0 {
                assert(seq![s[0]] + s.drop_first() == s);
            }
        }
        match v {
            Some(x) => {
                if f(&x) {
                    Some(x)
                } else {
                    self.peeked = Some(Some(x));
                    None
                }
            },
            None => {
                self.peeked = Some(None);
                None
            },
        }
    }

    /// Hands out the next lend when it equals `t`; otherwise keeps it peeked
    /// and hands out `None`.
    pub fn next_if_eq<U: PartialEq<T>>(&mut self, t: &U) -> (r: Option<T>)
        requires
            old(self).wf(),
        ensures
            final(self).wf(),
            old(self).lends().len() == 0 ==> r is None && final(self).lends().len() == 0,
            old(self).lends().len() > 0 ==> {
                ||| r == Some(old(self).lends()[0]) && final(self).lends() == old(self).lends().drop_first()
                ||| r is None && final(self).lends() == old(self).lends()
            },
            old(self).lends().len() > 0 && U::obeys_eq_spec() ==> (r is Some <==> t.eq_spec(
                &old(self).lends()[0],
            )),
    {
        let ghost s = self.lends();
        let v = match self.peeked.take() {
            Some(p) => p,
            None => self.lender.next(),
        };
        proof {
            if s.len() > 0 {
                assert(seq![s[0]] + s.drop_first() == s);
            }
        }
        match v {
            Some(x) => {
                if t.eq(&x) {
                    Some(x)
                } else {
                    self.peeked = Some(Some(x));
                    None
                }
            },
            None => {
                self.peeked = Some(None);
                None
            },
        }
    }
}

impl<'lend, L: Lender, T> Lending<'lend> for Peekable<L, T> {
    type Lend = Lend<'lend, L>;
}

impl<L, T> Lender for Peekable<L, T>
    where L: Lender + for<'all> Lending<'all, Lend = T>,
{
    open spec fn wf(&self) -> bool {
        &&& self.lender.wf()
        &&& self.peeked == Some(None::<T>) ==> self.lender.lends().len() == 0
        &&& self.lends().len() <= usize::MAX
    }

    open spec fn lends(&self) -> Seq<T> {
        with_peeked(self.peeked, self.lender.lends())
    }

    fn next(&mut self) -> (r: Option<T>)
        ensures
            final(self).peeked is None,
    {
        match self.peeked.take() {
            Some(p) => {
                proof {
                    if p is Some {
                        assert((seq![p->0] + self.lender.lends()).drop_first() == self.lender.lends());
                    }
                }
                p
            },
            None => self.lender.next(),
        }
    }

    fn count(self) -> (r: usize) {
        let lender = self.lender;
        match self.peeked {
            Some(None) => 0,
            Some(Some(_)) => 1 + lender.count(),
            None => lender.count(),
        }
    }

    fn nth(&mut self, n: usize) -> (r: Option<T>) {
        let ghost s = self.lender.lends();
        match self.peeked.take() {
            Some(None) => None,
            Some(Some(v)) => {
                if n == 0 {
                    proof {
                        assert((seq![v] + s).skip(1) == s);
                    }
                    Some(v)
                } else {
                    proof {
                        if n <= s.len() {
                            assert((seq![v] + s).skip(n + 1) == s.skip(n as int));
                        }
                        if n - 1 < s.len() {
                            assert((seq![v] + s)[n as int] == s[n - 1]);
                        }
                    }
                    self.lender.nth(n - 1)
                }
            },
            None => self.lender.nth(n),
        }
    }

    open spec fn hint(&self) -> (usize, Option<usize>) {
        match self.peeked {
            Some(None) => (0, Some(0)),
            Some(Some(_)) => (
                self.lender.hint().0.saturating_add(1),
                match self.lender.hint().1 {
                    Some(x) => x.checked_add(1),
                    None => None,
                },
            ),
            None => self.lender.hint(),
        }
    }

    fn size_hint(&self) -> (r: (usize, Option<usize>)) {
        let peek_len: usize = match &self.peeked {
            Some(None) => {
                return (0, Some(0));
            },
            Some(Some(_)) => 1,
            None => 0,
        };
        let (l, r) = self.lender.size_hint();
        let hi = match r {
            Some(r) => r.checked_add(peek_len),
            None => None,
        };
        (l.saturating_add(peek_len), hi)
    }

    fn try_fold<B, R, F>(&mut self, init: B, f: F) -> (r: ControlFlow<R, B>)
        where
            F: FnMut(B, T) -> ControlFlow<R, B>,
    {
        let mut g = f;
        let ghost s0 = self.lends();
        let acc = match self.peeked.take() {
            Some(None) => {
                proof {
                    lemma_try_fold_empty(f, init, s0, self.lends());
                }
                return ControlFlow::Continue(init);
            },
            Some(Some(v)) => {
                let c = g(init, v);
                let ghost c0 = c;
                match c {
                    ControlFlow::Break(b) => {
                        let c = ControlFlow::Break(b);
                        proof {
                            assert(c == c0);
                            lemma_try_fold_break(f, init, v, self.lender.lends(), c);
                        }
                        return c;
                    },
                    ControlFlow::Continue(a) => {
                        let ghost rest = self.lender.lends();
                        let r = self.lender.try_fold(a, g);
                        proof {
                            lemma_try_fold_step(f, init, v, a, rest, self.lender.lends(), r);
                        }
                        return r;
                    },
                }
            },
            None => init,
        };
        self.lender.try_fold(acc, g)
    }

    fn fold<B, F>(self, init: B, f: F) -> (r: B)
        where
            F: FnMut(B, T) -> B,
    {
        let mut g = f;
        let ghost s0 = self.lends();
        let lender = self.lender;
        match self.peeked {
            Some(None) => {
                proof {
                    lemma_fold_empty(f, init, s0);
                }
                init
            },
            Some(Some(v)) => {
                let acc = g(init, v);
                let ghost rest = lender.lends();
                let r = lender.fold(acc, g);
                proof {
                    lemma_fold_step(f, init, v, acc, rest, r);
                }
                r
            },
            None => lender.fold(init, g),
        }
    }
}

impl<L, T> DoubleEndedLender for Peekable<L, T>
    where L: DoubleEndedLender + for<'all> Lending<'all, Lend = T>,
{
    fn next_back(&mut self) -> (r: Option<T>) {
        let ghost s = self.lender.lends();
        match self.peeked.take() {
            Some(None) => {
                self.peeked = Some(None);
                None
            },
            Some(Some(v)) => {
                match self.lender.next_back() {
                    Some(x) => {
                        self.peeked = Some(Some(v));
                        proof {
                            assert((seq![v] + s).drop_last() == seq![v] + s.drop_last());
                            assert((seq![v] + s).last() == s.last());
                        }
                        Some(x)
                    },
                    None => {
                        self.peeked = Some(None);
                        proof {
                            assert(seq![v] + s == seq![v]);
                            assert((seq![v] + s).drop_last() == Seq::<T>::empty());
                        }
                        Some(v)
                    },
                }
            },
            None => self.lender.next_back(),
        }
    }

    fn try_rfold<B, R, F>(&mut self, init: B, f: F) -> (r: ControlFlow<R, B>)
        where
            F: FnMut(B, T) -> ControlFlow<R, B>,
    {
        let ghost s0 = self.lends();
        match self.peeked.take() {
            None => {
                let r = self.lender.try_rfold(init, f);
                proof {
                    crate::spec::lemma_try_fold_shrinks(f, init, s0.reverse(), self.lender.lends().reverse(), r);
                    lemma_reverse(s0);
                    lemma_reverse(self.lender.lends());
                }
                r
            },
            Some(None) => {
                self.peeked = Some(None);
                proof {
                    lemma_try_fold_empty(f, init, s0.reverse(), self.lends().reverse());
                }
                ControlFlow::Continue(init)
            },
            Some(Some(v)) => {
                let ghost s = self.lender.lends();
                let ghost orig = s.reverse();
                proof {
                    lemma_reverse(s);
                    assert(s0.reverse() == orig + seq![v]);
                }
                let mut acc = init;
                let mut g = f;
                let ghost mut accs: Seq<B> = seq![init];
                loop
                    invariant
                        self.lender.wf(),
                        self.peeked is None,
                        self.lender.lends().len() <= s.len(),
                        s0 == old(self).lends(),
                        s0.len() <= usize::MAX,
                        orig == s.reverse(),
                        s0.reverse() == orig + seq![v],
                        s0 == seq![v] + s,
                        g == f,
                        try_fold_ready::<B, R, T, F>(f),
                        try_fold_trace(f, init, orig, accs),
                        acc == accs.last(),
                        self.lender.lends().reverse() == orig.skip(accs.len() - 1),
                    decreases self.lender.lends().len(),
                {
                    let ghost k = accs.len() - 1;
                    let ghost before = self.lender.lends();
                    proof {
                        lemma_reverse(before);
                    }
                    match self.lender.next_back() {
                        None => {
                            assert(k == orig.len());
                            let c = g(acc, v);
                            let ghost c0 = c;
                            proof {
                                let e: ControlFlow<R, B> = ControlFlow::Continue(acc);
                                assert(try_fold_post(f, init, orig, Seq::<T>::empty(), e));
                                lemma_try_fold_append(f, init, orig, seq![v], Seq::<T>::empty(), e);
                                let ss = Seq::<T>::empty();
                                assert(seq![v] == seq![v] + ss);
                                match c0 {
                                    ControlFlow::Continue(b) => {
                                        lemma_try_fold_empty(f, b, ss, ss);
                                        lemma_try_fold_step(f, acc, v, b, ss, ss, c0);
                                    },
                                    ControlFlow::Break(_) => {
                                        lemma_try_fold_break(f, acc, v, ss, c0);
                                    },
                                }
                                assert(try_fold_post(f, acc, seq![v], ss, c0));
                                assert(e matches ControlFlow::Continue(mid) && mid == acc);
                                assert(try_fold_post(f, init, orig + seq![v], ss, c0));
                                assert(self.lends().reverse().len() == 0);
                                assert(self.lends().reverse() == ss);
                            }
                            return c;
                        },
                        Some(x) => {
                            assert(before.reverse()[0] == before.last());
                            assert(before.drop_last().reverse() == before.reverse().drop_first());
                            assert(x == orig[k]);
                            let c = g(acc, x);
                            let ghost c0 = c;
                            match c {
                                ControlFlow::Continue(b) => {
                                    acc = b;
                                    proof {
                                        accs = accs.push(acc);
                                        assert(orig.skip(k).drop_first() == orig.skip(k + 1));
                                    }
                                },
                                ControlFlow::Break(e) => {
                                    self.peeked = Some(Some(v));
                                    let c = ControlFlow::Break(e);
                                    proof {
                                        assert(orig.skip(k).drop_first() == orig.skip(k + 1));
                                        assert(try_fold_trace(f, init, orig, accs));
                                        assert(c == c0);
                                        assert(try_fold_post(f, init, orig, orig.skip(k + 1), c));
                                        lemma_try_fold_append(f, init, orig, seq![v], orig.skip(k + 1), c);
                                        lemma_reverse(self.lender.lends());
                                        assert(self.lends() == seq![v] + self.lender.lends());
                                        assert(self.lends().reverse() =~= self.lender.lends().reverse() + seq![v]);
                                    }
                                    return c;
                                },
                            }
                        },
                    }
                }
            },
        }
    }

    fn rfold<B, F>(self, init: B, f: F) -> (r: B)
        where
            F: FnMut(B, T) -> B,
    {
        let ghost s0 = self.lends();
        let mut g = f;
        let mut lender = self.lender;
        match self.peeked {
            None => lender.rfold(init, g),
            Some(None) => {
                proof {
                    lemma_fold_empty(f, init, s0.reverse());
                }
                init
            },
            Some(Some(v)) => {
                let ghost s = lender.lends();
                let ghost orig = s.reverse();
                proof {
                    lemma_reverse(s);
                    assert(s0.reverse() == orig + seq![v]);
                }
                let mut acc = init;
                let ghost mut accs: Seq<B> = seq![init];
                loop
                    invariant
                        g == f,
                        lender.wf(),
                        orig == s.reverse(),
                        s0 == self.lends(),
                        s0.reverse() == orig + seq![v],
                        fold_ready::<B, T, F>(f),
                        accs.len() <= orig.len() + 1,
                        fold_trace(f, init, orig.take(accs.len() - 1), accs),
                        acc == accs.last(),
                        lender.lends().reverse() == orig.skip(accs.len() - 1),
                    decreases lender.lends().len(),
                {
                    let ghost k = accs.len() - 1;
                    let ghost before = lender.lends();
                    proof {
                        lemma_reverse(before);
                    }
                    match lender.next_back() {
                        None => {
                            assert(orig.take(k) == orig);
                            let r = g(acc, v);
                            proof {
                                assert(fold_trace(f, init, orig, accs));
                                assert(fold_result(f, init, orig, acc));
                                let w = seq![acc, r];
                                assert(fold_trace(f, acc, seq![v], w));
                                assert(w.last() == r);
                                lemma_fold_append(f, init, orig, seq![v], acc, r);
                            }
                            return r;
                        },
                        Some(x) => {
                            assert(before.reverse()[0] == before.last());
                            assert(before.drop_last().reverse() == before.reverse().drop_first());
                            assert(x == orig[k]);
                            acc = g(acc, x);
                            proof {
                                accs = accs.push(acc);
                                assert(orig.take(k + 1).take(k) == orig.take(k));
                                assert(orig.skip(k).drop_first() == orig.skip(k + 1));
                            }
                        },
                    }
                }
            },
        }
    }
}

impl<L, T> ExactSizeLender for Peekable<L, T>
    where L: ExactSizeLender + for<'all> Lending<'all, Lend = T>,
{
    fn len(&self) -> (r: usize) {
        match &self.peeked {
            Some(None) => 0,
            Some(Some(_)) => self.lender.len() + 1,
            None => self.lender.len(),
        }
    }
}

impl<L, T> FusedLender for Peekable<L, T>
    where L: FusedLender + for<'all> Lending<'all, Lend = T>,
{
}

} // verus!
