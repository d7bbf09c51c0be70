//! `Mutate`: each lend handed to a closure that may change it in place before
//! it is handed out.
use vstd::prelude::*;

use crate::fallible::{FallibleLender, FallibleLending};
use core::ops::ControlFlow;

use crate::spec::{fold_ready, hint_ok, suffix, try_fold_ready};
use crate::traits::{DoubleEndedLender, ExactSizeLender, Lender, Lending};

verus! {

/// A lender that hands each lend of the underlying lender to `f`, which may
/// change it in place, and then hands it out.
///
/// `f` may act differently from one call to the next, so each call says what
/// the one call of `f` it made did: the lend it was handed through a mutable
/// borrow, and what it left there when the borrow ended. The lends must not
/// borrow from the underlying lender.
pub struct Mutate<L, F> {
    pub lender: L,
    pub f: F,
}

impl<L, F> Mutate<L, F> {
    /// Hands each lend of `lender` to `f` before handing it out.
    pub fn new(lender: L, f: F) -> (r: Mutate<L, F>)
        ensures
            r.lender == lender,
            r.f == f,
    {
        Mutate { lender, f }
    }

    /// Returns the inner lender.
    pub fn into_inner(self) -> (r: L)
        ensures
            r == self.lender,
    {
        self.lender
    }

    /// Returns the inner lender and the closure.
    pub fn into_parts(self) -> (r: (L, F))
        ensures
            r == (self.lender, self.f),
    {
        (self.lender, self.f)
    }
}

impl<L, F, T> Mutate<L, F>
    where
        L: Lender + for<'all> Lending<'all, Lend = T>,
        F: FnMut(&mut T),
{
    /// Takes the next lend, hands it to `f` and hands it out as `f` left it;
    /// `None` when the lender is exhausted, and then `f` is not called.
    pub fn next(&mut self) -> (r: Option<T>)
        requires
            old(self).lender.wf(),
            forall|m: &mut T| call_requires(old(self).f, (m,)),
        ensures
            final(self).lender.wf(),
            final(self).f == old(self).f,
            final(self).lender.lends() == suffix(old(self).lender.lends(), 1),
            old(self).lender.lends().len() == 0 ==> r is None,
            old(self).lender.lends().len() > 0 ==> (r matches Some(y) && exists|m: &mut T|
                *m == old(self).lender.lends()[0] && *final(m) == y && #[trigger] call_ensures(old(self).f, (m,), ())),
    {
        let ghost s = self.lender.lends();
        proof {
            if s.len() > 0 {
                assert(s.drop_first() =~= suffix(s, 1));
            }
        }
        let mut next = self.lender.next();
        match next {
            Some(ref mut x) => {
                (self.f)(x);
            },
            None => {},
        }
        next
    }

    /// Folds `g` over the lends, each first handed to `f`, until `g` breaks;
    /// `f` is called once on each lend that reaches `g`, and `g` gets the lend
    /// as `f` left it.
    pub fn try_fold<B, R, G>(&mut self, init: B, g: G) -> (r: ControlFlow<R, B>)
        where
            G: FnMut(B, T) -> ControlFlow<R, B>,
        requires
            old(self).lender.wf(),
            forall|m: &mut T| call_requires(old(self).f, (m,)),
            try_fold_ready::<B, R, T, G>(g),
        ensures
            final(self).lender.wf(),
            final(self).f == old(self).f,
            exists|accs: Seq<B>| #![trigger accs[0]] {
                let s = old(self).lender.lends();
                let k = accs.len() - 1;
                &&& 1 <= accs.len() <= s.len() + 1
                &&& accs[0] == init
                &&& forall|i: int| #![trigger accs[i]] 0 <= i < k ==> exists|m: &mut T|
                    *m == s[i] && #[trigger] call_ensures(old(self).f, (m,), ()) && call_ensures(
                        g,
                        (accs[i], *final(m)),
                        ControlFlow::<R, B>::Continue(accs[i + 1]),
                    )
                &&& {
                    ||| k == s.len() && r == ControlFlow::<R, B>::Continue(accs.last())
                        && final(self).lender.lends().len() == 0
                    ||| k < s.len() && r is Break && final(self).lender.lends() == s.skip(k + 1) && exists|m: &mut T|
                        *m == s[k] && #[trigger] call_ensures(old(self).f, (m,), ()) && call_ensures(g, (accs.last(), *final(m)), r)
                }
            },
    {
        let ghost s = self.lender.lends();
        let ghost f0 = self.f;
        let mut acc = init;
        let mut h = g;
        let ghost mut accs: Seq<B> = seq![init];
        loop
            invariant
                self.lender.wf(),
                self.f == f0,
                f0 == old(self).f,
                s == old(self).lender.lends(),
                h == g,
                forall|m: &mut T| call_requires(f0, (m,)),
                try_fold_ready::<B, R, T, G>(g),
                1 <= accs.len() <= s.len() + 1,
                accs[0] == init,
                acc == accs.last(),
                self.lender.lends() == s.skip(accs.len() - 1),
                forall|i: int| #![trigger accs[i]] 0 <= i < accs.len() - 1 ==> exists|m: &mut T|
                    *m == s[i] && #[trigger] call_ensures(f0, (m,), ()) && call_ensures(
                        g,
                        (accs[i], *final(m)),
                        ControlFlow::<R, B>::Continue(accs[i + 1]),
                    ),
            decreases self.lender.lends().len(),
        {
            let ghost k = accs.len() - 1;
            proof {
                if k < s.len() {
                    assert(s.skip(k)[0] == s[k]);
                    assert(s.skip(k).drop_first() =~= s.skip(k + 1));
                }
            }
            match self.lender.next() {
                None => {
                    return ControlFlow::Continue(acc);
                },
                Some(x) => {
                    let mut y = x;
                    (self.f)(&mut y);
                    proof {
                        assert(exists|m: &mut T| *m == s[k] && #[trigger] call_ensures(f0, (m,), ()) && *final(m) == y);
                    }
                    let ghost gm = choose|m: &mut T| *m == s[k] && #[trigger] call_ensures(f0, (m,), ()) && *final(m) == y;
                    let c = h(acc, y);
                    let ghost c0 = c;
                    match c {
                        ControlFlow::Continue(b) => {
                            proof {
                                let n = accs.push(b);
                                assert forall|i: int| #![trigger n[i]] 0 <= i < n.len() - 1 implies exists|m: &mut T|
                                    *m == s[i] && #[trigger] call_ensures(f0, (m,), ()) && call_ensures(
                                        g,
                                        (n[i], *final(m)),
                                        ControlFlow::<R, B>::Continue(n[i + 1]),
                                    ) by {
                                    if i < accs.len() - 1 {
                                        assert(n[i] == accs[i] && n[i + 1] == accs[i + 1]);
                                    } else {
                                        assert(*gm == s[i]);
                                        assert(call_ensures(g, (n[i], *final(gm)), ControlFlow::<R, B>::Continue(n[i + 1])));
                                    }
                                }
                                accs = n;
                            }
                            acc = b;
                        },
                        ControlFlow::Break(e) => {
                            let c = ControlFlow::Break(e);
                            proof {
                                assert(c == c0);
                                assert(*gm == s[k]);
                                assert(call_ensures(g, (accs.last(), *final(gm)), c));
                            }
                            return c;
                        },
                    }
                },
            }
        }
    }

    /// Folds `g` over every lend, each first handed to `f`; `g` gets the lend
    /// as `f` left it.
    pub fn fold<B, G>(self, init: B, g: G) -> (r: B)
        where
            G: FnMut(B, T) -> B,
        requires
            self.lender.wf(),
            forall|m: &mut T| call_requires(self.f, (m,)),
            fold_ready::<B, T, G>(g),
        ensures
            exists|accs: Seq<B>| #![trigger accs[0]] {
                let s = self.lender.lends();
                &&& accs.len() == s.len() + 1
                &&& accs[0] == init
                &&& r == accs.last()
                &&& forall|i: int| #![trigger accs[i]] 0 <= i < s.len() ==> exists|m: &mut T|
                    *m == s[i] && #[trigger] call_ensures(self.f, (m,), ()) && call_ensures(
                        g,
                        (accs[i], *final(m)),
                        accs[i + 1],
                    )
            },
    {
        let ghost s = self.lender.lends();
        let ghost f0 = self.f;
        let mut this = self;
        let mut acc = init;
        let mut h = g;
        let ghost mut accs: Seq<B> = seq![init];
        loop
            invariant
                this.lender.wf(),
                this.f == f0,
                f0 == self.f,
                s == self.lender.lends(),
                h == g,
                forall|m: &mut T| call_requires(f0, (m,)),
                fold_ready::<B, T, G>(g),
                1 <= accs.len() <= s.len() + 1,
                accs[0] == init,
                acc == accs.last(),
                this.lender.lends() == s.skip(accs.len() - 1),
                forall|i: int| #![trigger accs[i]] 0 <= i < accs.len() - 1 ==> exists|m: &mut T|
                    *m == s[i] && #[trigger] call_ensures(f0, (m,), ()) && call_ensures(g, (accs[i], *final(m)), accs[i + 1]),
            decreases this.lender.lends().len(),
        {
            let ghost k = accs.len() - 1;
            proof {
                if k < s.len() {
                    assert(s.skip(k)[0] == s[k]);
                    assert(s.skip(k).drop_first() =~= s.skip(k + 1));
                }
            }
            match this.lender.next() {
                None => {
                    assert(k == s.len());
                    return acc;
                },
                Some(x) => {
                    let mut y = x;
                    (this.f)(&mut y);
                    proof {
                        assert(exists|m: &mut T| *m == s[k] && #[trigger] call_ensures(f0, (m,), ()) && *final(m) == y);
                    }
                    let ghost gm = choose|m: &mut T| *m == s[k] && #[trigger] call_ensures(f0, (m,), ()) && *final(m) == y;
                    let b = h(acc, y);
                    proof {
                        let n = accs.push(b);
                        assert forall|i: int| #![trigger n[i]] 0 <= i < n.len() - 1 implies exists|m: &mut T|
                            *m == s[i] && #[trigger] call_ensures(f0, (m,), ()) && call_ensures(g, (n[i], *final(m)), n[i + 1]) by {
                            if i < accs.len() - 1 {
                                assert(n[i] == accs[i] && n[i + 1] == accs[i + 1]);
                            } else {
                                assert(*gm == s[i]);
                                assert(call_ensures(g, (n[i], *final(gm)), n[i + 1]));
                            }
                        }
                        accs = n;
                    }
                    acc = b;
                },
            }
        }
    }

    /// The bounds of the underlying lender.
    pub fn size_hint(&self) -> (r: (usize, Option<usize>))
        requires
            self.lender.wf(),
        ensures
            r == self.lender.hint(),
            hint_ok(self.lender.lends().len(), r),
    {
        self.lender.size_hint()
    }
}

impl<L, F, T> Mutate<L, F>
    where
        L: DoubleEndedLender + for<'all> Lending<'all, Lend = T>,
        F: FnMut(&mut T),
{
    /// Takes the last lend, hands it to `f` and hands it out as `f` left it;
    /// `None` when the lender is exhausted, and then `f` is not called.
    pub fn next_back(&mut self) -> (r: Option<T>)
        requires
            old(self).lender.wf(),
            forall|m: &mut T| call_requires(old(self).f, (m,)),
        ensures
            final(self).lender.wf(),
            final(self).f == old(self).f,
            old(self).lender.lends().len() == 0 ==> r is None && final(self).lender.lends().len() == 0,
            old(self).lender.lends().len() > 0 ==> final(self).lender.lends() == old(self).lender.lends().drop_last()
                && (r matches Some(y) && exists|m: &mut T|
                *m == old(self).lender.lends().last() && *final(m) == y && #[trigger] call_ensures(old(self).f, (m,), ())),
    {
        let mut next = self.lender.next_back();
        match next {
            Some(ref mut x) => {
                (self.f)(x);
            },
            None => {},
        }
        next
    }
}

impl<L, F, T> Mutate<L, F>
    where
        L: ExactSizeLender + for<'all> Lending<'all, Lend = T>,
        F: FnMut(&mut T),
{
    /// The number of lends still to come.
    pub fn len(&self) -> (r: usize)
        requires
            self.lender.wf(),
        ensures
            r == self.lender.lends().len(),
    {
        self.lender.len()
    }
}

impl<L, F, T> Mutate<L, F>
    where
        L: FallibleLender + for<'all> FallibleLending<'all, Lend = T>,
        F: FnMut(&mut T) -> Result<(), L::Error>,
{
    /// Takes the next outcome; an error is handed out, and a lend is handed
    /// to `f` and handed out as `f` left it, or `f`'s error in its place;
    /// `Ok(None)` when the lender has no outcome left.
    pub fn fallible_next(&mut self) -> (r: Result<Option<T>, L::Error>)
        requires
            old(self).lender.wf(),
            forall|m: &mut T| call_requires(old(self).f, (m,)),
        ensures
            final(self).lender.wf(),
            final(self).f == old(self).f,
            final(self).lender.outcomes() == suffix(old(self).lender.outcomes(), 1),
            old(self).lender.outcomes().len() == 0 ==> r == Ok::<Option<T>, L::Error>(None),
            old(self).lender.outcomes().len() > 0 ==> match old(self).lender.outcomes()[0] {
                Err(e) => r == Err::<Option<T>, L::Error>(e),
                Ok(x) => exists|m: &mut T, c: Result<(), L::Error>|
                    *m == x && #[trigger] call_ensures(old(self).f, (m,), c) && match c {
                        Ok(()) => r == Ok::<Option<T>, L::Error>(Some(*final(m))),
                        Err(e) => r == Err::<Option<T>, L::Error>(e),
                    },
            },
    {
        let ghost s = self.lender.outcomes();
        proof {
            if s.len() > 0 {
                assert(s.drop_first() =~= suffix(s, 1));
            }
        }
        let mut next = match self.lender.next() {
            Ok(n) => n,
            Err(e) => return Err(e),
        };
        match next {
            Some(ref mut x) => {
                let c = (self.f)(x);
                match c {
                    Ok(()) => {},
                    Err(e) => {
                        return Err(e);
                    },
                }
            },
            None => {},
        }
        Ok(next)
    }
}

} // verus!
