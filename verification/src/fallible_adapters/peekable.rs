//! `Peekable` over a fallible lender: it can look at its next lend without
//! handing it out.
use vstd::prelude::*;
use vstd::std_specs::cmp::PartialEqSpec;
use core::ops::ControlFlow;

use crate::fallible::{
    lemma_fallible_fold_empty, lemma_fallible_fold_step, lemma_fallible_fold_stop, lemma_fallible_try_fold_empty,
    lemma_fallible_try_fold_step, lemma_fallible_try_fold_stop,
};
use crate::fallible::{
    fallible_next_back_post, fallible_next_post, fallible_nth_post, first_err, lemma_first_err,
    DoubleEndedFallibleLender, FallibleLend, FallibleLender, FallibleLending, FusedFallibleLender,
};

verus! {

/// What a peek slot adds in front of the outcomes still to come from the
/// lender: the peeked lend, nothing, or, once the end has been peeked, the
/// end. An error is never kept: peeking hands it out.
pub open spec fn with_peeked_outcomes<T, E>(peeked: Option<Option<T>>, rest: Seq<Result<T, E>>) -> Seq<
    Result<T, E>,
> {
    match peeked {
        Some(Some(x)) => seq![Ok(x)] + rest,
        Some(None) => Seq::empty(),
        None => rest,
    }
}

/// A fallible lender that can look at its next lend, which it then keeps
/// until it hands it out.
///
/// The lends must not borrow from the underlying lender: a peeked lend is
/// kept while the lender goes on.
pub struct Peekable<L, T> {
    pub lender: L,
    /// The peeked lend, or `Some(None)` once the end has been peeked.
    pub peeked: Option<Option<T>>,
}

impl<L, T> Peekable<L, T> {
    /// Makes `lender` peekable.
    pub fn new(lender: L) -> (r: Peekable<L, T>)
        ensures
            r.lender == lender,
            r.peeked is None,
    {
        Peekable { lender, peeked: None }
    }

    /// Returns the inner lender; a peeked lend is dropped.
    pub fn into_inner(self) -> (r: L)
        ensures
            r == self.lender,
    {
        self.lender
    }
}

impl<L, T> Peekable<L, T>
    where L: FallibleLender + for<'all> FallibleLending<'all, Lend = T>,
{
    /// Looks at the next lend without handing it out; looking again gives the
    /// same lend. An error that comes next is handed out, and consumed.
    pub fn peek(&mut self) -> (r: Result<Option<&T>, L::Error>)
        requires
            old(self).wf(),
        ensures
            final(self).wf(),
            old(self).outcomes().len() == 0 ==> (r matches Ok(None) && final(self).outcomes().len() == 0),
            old(self).outcomes().len() > 0 ==> match old(self).outcomes()[0] {
                Ok(x) => (r matches Ok(Some(y)) && *y == x && final(self).outcomes() == old(self).outcomes()),
                Err(e) => r == Err::<Option<&T>, L::Error>(e) && final(self).outcomes() == old(
                    self,
                ).outcomes().drop_first(),
            },
    {
        if self.peeked.is_none() {
            let ghost s = self.lender.outcomes();
            let n = self.lender.next();
            match n {
                Ok(v) => {
                    proof {
                        if s.len() > 0 {
                            assert(seq![s[0]] + s.drop_first() == s);
                        }
                    }
                    self.peeked = Some(v);
                },
                Err(e) => {
                    return Err(e);
                },
            }
        }
        match &self.peeked {
            Some(Some(v)) => Ok(Some(v)),
            _ => Ok(None),
        }
    }

    /// Looks at the next lend without handing it out, and lets the caller
    /// change it. An error that comes next is handed out, and consumed.
    pub fn peek_mut(&mut self) -> (r: Result<Option<&mut T>, L::Error>)
        requires
            old(self).wf(),
        ensures
            final(self).wf(),
            old(self).outcomes().len() == 0 ==> (r matches Ok(None) && final(self).outcomes().len() == 0),
            old(self).outcomes().len() > 0 ==> match old(self).outcomes()[0] {
                Ok(x) => (r matches Ok(Some(y)) && *y == x && final(self).outcomes() == old(
                    self,
                ).outcomes().update(0, Ok(*final(y)))),
                Err(e) => r == Err::<Option<&mut T>, L::Error>(e) && final(self).outcomes() == old(
                    self,
                ).outcomes().drop_first(),
            },
    {
        if self.peeked.is_none() {
            let ghost s = self.lender.outcomes();
            let n = self.lender.next();
            match n {
                Ok(v) => {
                    proof {
                        if s.len() > 0 {
                            assert(seq![s[0]] + s.drop_first() == s);
                        }
                    }
                    self.peeked = Some(v);
                },
                Err(e) => {
                    return Err(e);
                },
            }
        }
        let ghost s = self.outcomes();
        let ghost rest = self.lender.outcomes();
        match &mut self.peeked {
            Some(Some(v)) => {
                proof {
                    assert(forall|y: T| #[trigger] (seq![Ok::<T, L::Error>(y)] + rest) == s.update(0, Ok(y)));
                }
                Ok(Some(v))
            },
            _ => Ok(None),
        }
    }

    /// Hands out the next lend when `f` accepts it; otherwise keeps it peeked
    /// and hands out `Ok(None)`. An error that comes next is handed out.
    pub fn next_if<F>(&mut self, f: F) -> (r: Result<Option<T>, L::Error>)
        where
            F: FnOnce(&T) -> bool,
        requires
            old(self).wf(),
            forall|x: T| call_requires(f, (&x,)),
        ensures
            final(self).wf(),
            old(self).outcomes().len() == 0 ==> (r matches Ok(None) && final(self).outcomes().len() == 0),
            old(self).outcomes().len() > 0 ==> match old(self).outcomes()[0] {
                Ok(x) => {
                    ||| r == Ok::<Option<T>, L::Error>(Some(x)) && final(self).outcomes() == old(
                        self,
                    ).outcomes().drop_first() && call_ensures(f, (&x,), true)
                    ||| r == Ok::<Option<T>, L::Error>(None) && final(self).outcomes() == old(self).outcomes()
                        && call_ensures(f, (&x,), false)
                },
                Err(e) => r == Err::<Option<T>, L::Error>(e) && final(self).outcomes() == old(
                    self,
                ).outcomes().drop_first(),
            },
    {
        let ghost s = self.outcomes();
        let v = match self.peeked.take() {
            Some(p) => p,
            None => {
                let n = self.lender.next();
                match n {
                    Ok(p) => p,
                    Err(e) => {
                        return Err(e);
                    },
                }
            },
        };
        proof {
            if s.len() > 0 {
                assert(seq![s[0]] + s.drop_first() == s);
            }
        }
        match v {
            Some(x) => {
                if f(&x) {
                    Ok(Some(x))
                } else {
                    self.peeked = Some(Some(x));
                    Ok(None)
                }
            },
            None => {
                self.peeked = Some(None);
                Ok(None)
            },
        }
    }

    /// Hands out the next lend when it equals `t`; otherwise keeps it peeked
    /// and hands out `Ok(None)`. An error that comes next is handed out.
    pub fn next_if_eq<U: PartialEq<T>>(&mut self, t: &U) -> (r: Result<Option<T>, L::Error>)
        requires
            old(self).wf(),
        ensures
            final(self).wf(),
            old(self).outcomes().len() == 0 ==> (r matches Ok(None) && final(self).outcomes().len() == 0),
            old(self).outcomes().len() > 0 ==> match old(self).outcomes()[0] {
                Ok(x) => {
                    &&& {
                        ||| r == Ok::<Option<T>, L::Error>(Some(x)) && final(self).outcomes() == old(
                            self,
                        ).outcomes().drop_first()
                        ||| r == Ok::<Option<T>, L::Error>(None) && final(self).outcomes() == old(
                            self,
                        ).outcomes()
                    }
                    &&& U::obeys_eq_spec() ==> (r == Ok::<Option<T>, L::Error>(Some(x)) <==> t.eq_spec(&x))
                },
                Err(e) => r == Err::<Option<T>, L::Error>(e) && final(self).outcomes() == old(
                    self,
                ).outcomes().drop_first(),
            },
    {
        let ghost s = self.outcomes();
        let v = match self.peeked.take() {
            Some(p) => p,
            None => {
                let n = self.lender.next();
                match n {
                    Ok(p) => p,
                    Err(e) => {
                        return Err(e);
                    },
                }
            },
        };
        proof {
            if s.len() > 0 {
                assert(seq![s[0]] + s.drop_first() == s);
            }
        }
        match v {
            Some(x) => {
                if t.eq(&x) {
                    Ok(Some(x))
                } else {
                    self.peeked = Some(Some(x));
                    Ok(None)
                }
            },
            None => {
                self.peeked = Some(None);
                Ok(None)
            },
        }
    }
}

impl<'lend, L: FallibleLender, T> FallibleLending<'lend> for Peekable<L, T> {
    type Lend = FallibleLend<'lend, L>;
}

impl<L, T> FallibleLender for Peekable<L, T>
    where L: FallibleLender + for<'all> FallibleLending<'all, Lend = T>,
{
    type Error = L::Error;

    open spec fn wf(&self) -> bool {
        &&& self.lender.wf()
        &&& self.peeked == Some(None::<T>) ==> self.lender.outcomes().len() == 0
    }

    open spec fn outcomes(&self) -> Seq<Result<T, L::Error>> {
        with_peeked_outcomes(self.peeked, self.lender.outcomes())
    }

    fn next(&mut self) -> (r: Result<Option<T>, L::Error>)
        ensures
            final(self).peeked is None,
    {
        match self.peeked.take() {
            Some(p) => {
                proof {
                    if p is Some {
                        assert((seq![Ok::<T, L::Error>(p->0)] + self.lender.outcomes()).drop_first()
                            == self.lender.outcomes());
                    }
                }
                Ok(p)
            },
            None => self.lender.next(),
        }
    }

    fn count(self) -> (r: Result<usize, L::Error>) {
        let ghost s = self.lender.outcomes();
        let lender = self.lender;
        match self.peeked {
            Some(None) => Ok(0),
            Some(Some(v)) => {
                proof {
                    let t = seq![Ok::<T, L::Error>(v)] + s;
                    assert(t.drop_first() == s);
                    assert(first_err(t) == 1 + first_err(s));
                    lemma_first_err(s);
                    if first_err(s) < s.len() {
                        assert(t[first_err(t) as int] == s[first_err(s) as int]);
                    }
                }
                match lender.count() {
                    Ok(c) => Ok(1 + c),
                    Err(e) => Err(e),
                }
            },
            None => lender.count(),
        }
    }

    fn nth(&mut self, n: usize) -> (r: Result<Option<T>, L::Error>) {
        let ghost s = self.lender.outcomes();
        match self.peeked.take() {
            Some(None) => Ok(None),
            Some(Some(v)) => {
                let ghost t = seq![Ok::<T, L::Error>(v)] + s;
                if n == 0 {
                    proof {
                        assert(t.skip(1) == s);
                    }
                    Ok(Some(v))
                } else {
                    proof {
                        assert(t.drop_first() == s);
                        assert(first_err(t) == 1 + first_err(s));
                        lemma_first_err(s);
                        if first_err(s) < s.len() {
                            assert(t[first_err(t) as int] == s[first_err(s) as int]);
                            assert(t.skip(first_err(t) + 1 as int) == s.skip(first_err(s) + 1 as int));
                        }
                        if n <= s.len() {
                            assert(t.skip(n + 1) == s.skip(n as int));
                        }
                        if n - 1 < s.len() {
                            assert(t[n as int] == s[n - 1]);
                        }
                    }
                    self.lender.nth(n - 1)
                }
            },
            None => self.lender.nth(n),
        }
    }

    open spec fn hint(&self) -> (usize, Option<usize>) {
        match self.peeked {
            Some(None) => (0, Some(0)),
            Some(Some(_)) => (
                self.lender.hint().0.saturating_add(1),
                match self.lender.hint().1 {
                    Some(x) => x.checked_add(1),
                    None => None,
                },
            ),
            None => self.lender.hint(),
        }
    }

    fn size_hint(&self) -> (r: (usize, Option<usize>)) {
        let peek_len: usize = match &self.peeked {
            Some(None) => {
                return (0, Some(0));
            },
            Some(Some(_)) => 1,
            None => 0,
        };
        let (l, r) = self.lender.size_hint();
        let hi = match r {
            Some(r) => r.checked_add(peek_len),
            None => None,
        };
        (l.saturating_add(peek_len), hi)
    }

    fn try_fold<B, R, F>(&mut self, init: B, f: F) -> (r: Result<ControlFlow<R, B>, L::Error>)
        where
            F: FnMut(B, T) -> Result<ControlFlow<R, B>, L::Error>,
    {
        let mut g = f;
        let acc = match self.peeked.take() {
            Some(None) => {
                proof {
                    lemma_fallible_try_fold_empty(f, init, old(self).outcomes(), self.outcomes());
                }
                return Ok(ControlFlow::Continue(init));
            },
            Some(Some(v)) => {
                let ghost rest = self.lender.outcomes();
                let c = g(init, v);
                let ghost c0 = c;
                match c {
                    Ok(ControlFlow::Continue(a)) => {
                        let r = self.lender.try_fold(a, g);
                        proof {
                            lemma_fallible_try_fold_step(f, init, v, a, rest, self.lender.outcomes(), r);
                        }
                        return r;
                    },
                    Ok(ControlFlow::Break(b)) => {
                        let c = Ok(ControlFlow::Break(b));
                        proof {
                            assert(c == c0);
                            lemma_fallible_try_fold_stop(f, init, v, rest, c);
                        }
                        return c;
                    },
                    Err(e) => {
                        let c = Err(e);
                        proof {
                            assert(c == c0);
                            lemma_fallible_try_fold_stop(f, init, v, rest, c);
                        }
                        return c;
                    },
                }
            },
            None => init,
        };
        self.lender.try_fold(acc, g)
    }

    fn fold<B, F>(self, init: B, f: F) -> (r: Result<B, L::Error>)
        where
            F: FnMut(B, T) -> Result<B, L::Error>,
    {
        let mut g = f;
        let ghost s0 = self.outcomes();
        let lender = self.lender;
        match self.peeked {
            Some(None) => {
                proof {
                    lemma_fallible_fold_empty(f, init, s0);
                }
                Ok(init)
            },
            Some(Some(v)) => {
                let ghost rest = lender.outcomes();
                let c = g(init, v);
                let ghost c0 = c;
                match c {
                    Ok(a) => {
                        let r = lender.fold(a, g);
                        proof {
                            lemma_fallible_fold_step(f, init, v, a, rest, r);
                        }
                        r
                    },
                    Err(e) => {
                        let c = Err(e);
                        proof {
                            assert(c == c0);
                            lemma_fallible_fold_stop(f, init, v, rest, c);
                        }
                        c
                    },
                }
            },
            None => lender.fold(init, g),
        }
    }
}

impl<L, T> DoubleEndedFallibleLender for Peekable<L, T>
    where L: DoubleEndedFallibleLender + for<'all> FallibleLending<'all, Lend = T>,
{
    fn next_back(&mut self) -> (r: Result<Option<T>, L::Error>) {
        let ghost s = self.lender.outcomes();
        match self.peeked.take() {
            Some(None) => {
                self.peeked = Some(None);
                Ok(None)
            },
            Some(Some(v)) => {
                let ghost t = seq![Ok::<T, L::Error>(v)] + s;
                match self.lender.next_back() {
                    Ok(Some(x)) => {
                        self.peeked = Some(Some(v));
                        proof {
                            assert(t.drop_last() == seq![Ok::<T, L::Error>(v)] + s.drop_last());
                            assert(t.last() == s.last());
                        }
                        Ok(Some(x))
                    },
                    Ok(None) => {
                        self.peeked = Some(None);
                        proof {
                            assert(t == seq![Ok::<T, L::Error>(v)]);
                            assert(t.drop_last() == Seq::<Result<T, L::Error>>::empty());
                        }
                        Ok(Some(v))
                    },
                    Err(e) => {
                        self.peeked = Some(Some(v));
                        proof {
                            assert(t.drop_last() == seq![Ok::<T, L::Error>(v)] + s.drop_last());
                            assert(t.last() == s.last());
                        }
                        Err(e)
                    },
                }
            },
            None => self.lender.next_back(),
        }
    }
}

impl<L, T> FusedFallibleLender for Peekable<L, T>
    where L: FusedFallibleLender + for<'all> FallibleLending<'all, Lend = T>,
{
}

} // verus!
