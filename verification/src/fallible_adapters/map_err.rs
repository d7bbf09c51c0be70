//! `MapErr`: the errors of a fallible lender passed through a closure.
use vstd::prelude::*;

use crate::fallible::{
    DoubleEndedFallibleLender, ExactSizeFallibleLender, FallibleLend, FallibleLender, FallibleLending,
    FallibleSpecLend, FusedFallibleLender,
};
use crate::fallible::{fallible_advance_post, fallible_nth_post, first_err, ok_prefix};
use core::ops::ControlFlow;
use crate::spec::{fn_out, fn_pure, suffix};

verus! {

/// `o` with its error, if it is one, passed through `f`.
pub open spec fn map_outcome<T, E1, E2, F: FnMut(E1) -> E2>(f: F, o: Result<T, E1>) -> Result<T, E2> {
    match o {
        Ok(x) => Ok(x),
        Err(e) => Err(fn_out(f, e)),
    }
}

/// The outcomes of `s` with their errors passed through `f`.
pub open spec fn map_outcomes<T, E1, E2, F: FnMut(E1) -> E2>(f: F, s: Seq<Result<T, E1>>) -> Seq<Result<T, E2>> {
    s.map_values(|o: Result<T, E1>| map_outcome(f, o))
}

/// Mapping errors keeps the successes and the place of the first error.
pub proof fn lemma_map_outcomes<T, E1, E2, F: FnMut(E1) -> E2>(f: F, s: Seq<Result<T, E1>>)
    ensures
        first_err(map_outcomes(f, s)) == first_err(s),
        ok_prefix(map_outcomes(f, s)) == ok_prefix(s),
        map_outcomes(f, s).len() == s.len(),
        forall|i: int| 0 <= i < s.len() ==> #[trigger] map_outcomes(f, s)[i] == map_outcome(f, s[i]),
    decreases s.len(),
{
    if s.len() > 0 {
        lemma_map_outcomes(f, s.drop_first());
        assert(map_outcomes(f, s).drop_first() == map_outcomes(f, s.drop_first()));
    }
}

/// The steps that a fold `g` of a `MapErr` made from `init` over the outcomes
/// `s` of the underlying lender before it stopped: `accs[i + 1]` is what `g`
/// made of `accs[i]` and the `i`-th outcome, a lend, and continued with.
pub open spec fn map_err_fold_trace<B, R, T, E1, E2, G: FnMut(B, T) -> Result<ControlFlow<R, B>, E2>>(
    g: G,
    init: B,
    s: Seq<Result<T, E1>>,
    accs: Seq<B>,
) -> bool {
    &&& 1 <= accs.len() <= s.len() + 1
    &&& accs[0] == init
    &&& forall|i: int| 0 <= i < accs.len() - 1 ==> (#[trigger] s[i]) is Ok
    &&& forall|i: int|
        0 <= i < accs.len() - 1 ==> call_ensures(
            g,
            (#[trigger] accs[i], s[i]->Ok_0),
            Ok::<ControlFlow<R, B>, E2>(ControlFlow::Continue(accs[i + 1])),
        )
}

/// The steps that a fold `g` of a `MapErr` made from `init` over the outcomes
/// `s` of the underlying lender before it stopped, each on a lend on which
/// `g` succeeded.
pub open spec fn map_err_fold_steps<B, T, E1, E2, G: FnMut(B, T) -> Result<B, E2>>(
    g: G,
    init: B,
    s: Seq<Result<T, E1>>,
    accs: Seq<B>,
) -> bool {
    &&& 1 <= accs.len() <= s.len() + 1
    &&& accs[0] == init
    &&& forall|i: int| 0 <= i < accs.len() - 1 ==> (#[trigger] s[i]) is Ok
    &&& forall|i: int|
        0 <= i < accs.len() - 1 ==> call_ensures(g, (#[trigger] accs[i], s[i]->Ok_0), Ok::<B, E2>(accs[i + 1]))
}

/// A fallible lender that hands out the lends of the underlying fallible
/// lender unchanged and its errors passed through `f`.
pub struct MapErr<E, L, F> {
    pub lender: L,
    pub f: F,
    pub marker: core::marker::PhantomData<E>,
}

impl<E, L, F> MapErr<E, L, F> {
    /// Maps the errors of `lender` through `f`.
    pub fn new(lender: L, f: F) -> (r: MapErr<E, L, F>)
        ensures
            r.lender == lender,
            r.f == f,
    {
        MapErr { lender, f, marker: core::marker::PhantomData }
    }

    /// Returns the inner lender.
    pub fn into_inner(self) -> (r: L)
        ensures
            r == self.lender,
    {
        self.lender
    }

    /// Returns the inner lender and the closure.
    pub fn into_parts(self) -> (r: (L, F))
        ensures
            r == (self.lender, self.f),
    {
        (self.lender, self.f)
    }
}

impl<E, L: FallibleLender, F: FnMut(L::Error) -> E> MapErr<E, L, F> {
    /// Hands out the next outcome, with an error turned into what one call of
    /// the closure makes of it. The closure may give different results for
    /// equal errors: this says what the one call it made gave.
    pub fn next(&mut self) -> (r: Result<Option<FallibleLend<'_, L>>, E>)
        requires
            old(self).lender.wf(),
            forall|e: L::Error| call_requires(old(self).f, (e,)),
        ensures
            final(self).lender.wf(),
            final(self).f == old(self).f,
            final(self).lender.outcomes() == suffix(old(self).lender.outcomes(), 1),
            old(self).lender.outcomes().len() == 0 ==> r == Ok::<Option<FallibleSpecLend<L>>, E>(None),
            old(self).lender.outcomes().len() > 0 ==> match old(self).lender.outcomes()[0] {
                Ok(x) => r == Ok::<Option<FallibleSpecLend<L>>, E>(Some(x)),
                Err(e) => r matches Err(e2) && call_ensures(old(self).f, (e,), e2),
            },
    {
        let ghost s = self.lender.outcomes();
        proof {
            if s.len() > 0 {
                assert(s.drop_first() =~= suffix(s, 1));
            }
        }
        match self.lender.next() {
            Ok(x) => Ok(x),
            Err(e) => {
                let e2 = (self.f)(e);
                proof {
                    assert(call_ensures(self.f, (e,), e2));
                }
                Err(e2)
            },
        }
    }
}

impl<E, L: FallibleLender, F: FnMut(L::Error) -> E> MapErr<E, L, F> {
    /// Folds `g` over the lends until it fails or breaks; an error of the
    /// underlying lender stops the fold and is handed out as what one call of
    /// the closure makes of it, while an error of `g` is handed out as it is.
    /// The closure may give different results for equal errors: this says
    /// what the one call it made gave.
    pub fn try_fold<B, R, G>(&mut self, init: B, g: G) -> (r: Result<ControlFlow<R, B>, E>)
        where
            G: FnMut(B, FallibleLend<'_, L>) -> Result<ControlFlow<R, B>, E>,
        requires
            old(self).lender.wf(),
            forall|e: L::Error| call_requires(old(self).f, (e,)),
            forall|b: B, x: FallibleSpecLend<L>| call_requires(g, (b, x)),
        ensures
            final(self).lender.wf(),
            final(self).f == old(self).f,
            exists|accs: Seq<B>|
                #[trigger] map_err_fold_trace(g, init, old(self).lender.outcomes(), accs) && {
                    let s = old(self).lender.outcomes();
                    let k = accs.len() - 1;
                    ||| k == s.len() && r == Ok::<ControlFlow<R, B>, E>(ControlFlow::Continue(accs.last()))
                        && final(self).lender.outcomes().len() == 0
                    ||| k < s.len() && s[k] is Err && (r matches Err(e2) && call_ensures(old(self).f, (s[k]->Err_0,), e2))
                        && final(self).lender.outcomes() == s.skip(k + 1)
                    ||| k < s.len() && s[k] is Ok && !(r matches Ok(ControlFlow::Continue(_))) && call_ensures(
                        g,
                        (accs.last(), s[k]->Ok_0),
                        r,
                    ) && final(self).lender.outcomes() == s.skip(k + 1)
                },
    {
        let ghost orig = self.lender.outcomes();
        let ghost f0 = self.f;
        let mut acc = init;
        let mut h = g;
        let ghost mut accs: Seq<B> = seq![init];
        loop
            invariant
                self.lender.wf(),
                self.f == f0,
                f0 == old(self).f,
                orig == old(self).lender.outcomes(),
                h == g,
                forall|e: L::Error| call_requires(f0, (e,)),
                forall|b: B, x: FallibleSpecLend<L>| call_requires(g, (b, x)),
                map_err_fold_trace(g, init, orig, accs),
                acc == accs.last(),
                self.lender.outcomes() == orig.skip(accs.len() - 1),
            decreases self.lender.outcomes().len(),
        {
            let ghost k = accs.len() - 1;
            proof {
                if k < orig.len() {
                    assert(orig.skip(k)[0] == orig[k]);
                    assert(orig.skip(k).drop_first() == orig.skip(k + 1));
                }
            }
            match self.lender.next() {
                Ok(None) => {
                    assert(k == orig.len());
                    return Ok(ControlFlow::Continue(acc));
                },
                Err(e) => {
                    let e2 = (self.f)(e);
                    proof {
                        assert(call_ensures(f0, (e,), e2));
                    }
                    return Err(e2);
                },
                Ok(Some(x)) => {
                    proof {
                        assert(orig[k] is Ok && orig[k]->Ok_0 == x);
                    }
                    let c = h(acc, x);
                    let ghost c0 = c;
                    match c {
                        Ok(ControlFlow::Continue(b)) => {
                            proof {
                                assert(c0 == Ok::<ControlFlow<R, B>, E>(ControlFlow::Continue(b)));
                                let n = accs.push(b);
                                assert forall|i: int| 0 <= i < n.len() - 1 implies call_ensures(
                                    g,
                                    (#[trigger] n[i], orig[i]->Ok_0),
                                    Ok::<ControlFlow<R, B>, E>(ControlFlow::Continue(n[i + 1])),
                                ) by {
                                    if i < accs.len() - 1 {
                                        assert(n[i] == accs[i] && n[i + 1] == accs[i + 1]);
                                    }
                                }
                                assert forall|i: int| 0 <= i < n.len() - 1 implies (#[trigger] orig[i]) is Ok by {
                                    if i < accs.len() - 1 {
                                        assert(map_err_fold_trace(g, init, orig, accs));
                                    }
                                }
                                accs = n;
                            }
                            acc = b;
                        },
                        Ok(ControlFlow::Break(e)) => {
                            let c = Ok(ControlFlow::Break(e));
                            proof {
                                assert(c == c0);
                            }
                            return c;
                        },
                        Err(e) => {
                            let c = Err(e);
                            proof {
                                assert(c == c0);
                            }
                            return c;
                        },
                    }
                },
            }
        }
    }

    /// Folds `g` over every lend until it fails; an error of the underlying
    /// lender stops the fold and is handed out as what one call of the
    /// closure makes of it, while an error of `g` is handed out as it is.
    pub fn fold<B, G>(self, init: B, g: G) -> (r: Result<B, E>)
        where
            G: FnMut(B, FallibleLend<'_, L>) -> Result<B, E>,
        requires
            self.lender.wf(),
            forall|e: L::Error| call_requires(self.f, (e,)),
            forall|b: B, x: FallibleSpecLend<L>| call_requires(g, (b, x)),
        ensures
            exists|accs: Seq<B>|
                #[trigger] map_err_fold_steps(g, init, self.lender.outcomes(), accs) && {
                    let s = self.lender.outcomes();
                    let k = accs.len() - 1;
                    ||| k == s.len() && r == Ok::<B, E>(accs.last())
                    ||| k < s.len() && s[k] is Err && (r matches Err(e2) && call_ensures(self.f, (s[k]->Err_0,), e2))
                    ||| k < s.len() && s[k] is Ok && r is Err && call_ensures(g, (accs.last(), s[k]->Ok_0), r)
                },
    {
        let ghost orig = self.lender.outcomes();
        let ghost f0 = self.f;
        let mut this = self;
        let mut acc = init;
        let mut h = g;
        let ghost mut accs: Seq<B> = seq![init];
        loop
            invariant
                this.lender.wf(),
                this.f == f0,
                f0 == self.f,
                orig == self.lender.outcomes(),
                h == g,
                forall|e: L::Error| call_requires(f0, (e,)),
                forall|b: B, x: FallibleSpecLend<L>| call_requires(g, (b, x)),
                map_err_fold_steps(g, init, orig, accs),
                acc == accs.last(),
                this.lender.outcomes() == orig.skip(accs.len() - 1),
            decreases this.lender.outcomes().len(),
        {
            let ghost k = accs.len() - 1;
            proof {
                if k < orig.len() {
                    assert(orig.skip(k)[0] == orig[k]);
                    assert(orig.skip(k).drop_first() == orig.skip(k + 1));
                }
            }
            match this.lender.next() {
                Ok(None) => {
                    assert(k == orig.len());
                    return Ok(acc);
                },
                Err(e) => {
                    let e2 = (this.f)(e);
                    proof {
                        assert(call_ensures(f0, (e,), e2));
                    }
                    return Err(e2);
                },
                Ok(Some(x)) => {
                    proof {
                        assert(orig[k] is Ok && orig[k]->Ok_0 == x);
                    }
                    let c = h(acc, x);
                    let ghost c0 = c;
                    match c {
                        Ok(b) => {
                            proof {
                                assert(c0 == Ok::<B, E>(b));
                                let n = accs.push(b);
                                assert forall|i: int| 0 <= i < n.len() - 1 implies call_ensures(
                                    g,
                                    (#[trigger] n[i], orig[i]->Ok_0),
                                    Ok::<B, E>(n[i + 1]),
                                ) by {
                                    if i < accs.len() - 1 {
                                        assert(n[i] == accs[i] && n[i + 1] == accs[i + 1]);
                                    }
                                }
                                assert forall|i: int| 0 <= i < n.len() - 1 implies (#[trigger] orig[i]) is Ok by {
                                    if i < accs.len() - 1 {
                                        assert(map_err_fold_steps(g, init, orig, accs));
                                    }
                                }
                                accs = n;
                            }
                            acc = b;
                        },
                        Err(e) => {
                            let c = Err(e);
                            proof {
                                assert(c == c0);
                            }
                            return c;
                        },
                    }
                },
            }
        }
    }
}

impl<'lend, E, L: FallibleLender, F> FallibleLending<'lend> for MapErr<E, L, F> {
    type Lend = FallibleLend<'lend, L>;
}

impl<E, L: FallibleLender, F: FnMut(L::Error) -> E> FallibleLender for MapErr<E, L, F> {
    type Error = E;

    open spec fn wf(&self) -> bool {
        self.lender.wf() && fn_pure::<L::Error, E, F>(self.f)
    }

    open spec fn outcomes(&self) -> Seq<Result<FallibleSpecLend<L>, E>> {
        map_outcomes(self.f, self.lender.outcomes())
    }

    fn next(&mut self) -> (r: Result<Option<FallibleLend<'_, L>>, E>)
        ensures
            final(self).f == old(self).f,
            old(self).lender.outcomes().len() > 0 ==> final(self).lender.outcomes() == old(self).lender.outcomes().drop_first(),
            old(self).lender.outcomes().len() == 0 ==> final(self).lender.outcomes().len() == 0,
            old(self).lender.outcomes().len() > 0 ==> (old(self).lender.outcomes()[0] matches Err(e) ==> (r matches Err(
                e2,
            ) && call_ensures(old(self).f, (e,), e2))),
    {
        proof {
            let s = self.lender.outcomes();
            if s.len() > 0 {
                assert(map_outcomes(self.f, s.drop_first()) == map_outcomes(self.f, s).drop_first());
            }
        }
        match self.lender.next() {
            Ok(x) => Ok(x),
            Err(e) => {
                let e2 = (self.f)(e);
                proof {
                    assert(call_ensures(self.f, (e,), e2));
                }
                Err(e2)
            },
        }
    }

    open spec fn hint(&self) -> (usize, Option<usize>) {
        self.lender.hint()
    }

    fn size_hint(&self) -> (r: (usize, Option<usize>)) {
        self.lender.size_hint()
    }

    fn count(self) -> (r: Result<usize, E>) {
        let mut f = self.f;
        proof {
            lemma_map_outcomes(f, self.lender.outcomes());
            crate::fallible::lemma_first_err(self.lender.outcomes());
        }
        match self.lender.count() {
            Ok(n) => Ok(n),
            Err(e) => Err(f(e)),
        }
    }

    fn advance_by(&mut self, n: usize) -> (r: Result<Result<(), usize>, E>) {
        let ghost s = self.lender.outcomes();
        proof {
            lemma_map_outcomes(self.f, s);
            crate::fallible::lemma_first_err(s);
            let k = first_err(s);
            if k < s.len() {
                assert(map_outcomes(self.f, s).skip(k + 1 as int) == map_outcomes(self.f, s.skip(k + 1 as int)));
            }
            if n <= s.len() {
                assert(map_outcomes(self.f, s).skip(n as int) == map_outcomes(self.f, s.skip(n as int)));
            }
        }
        match self.lender.advance_by(n) {
            Ok(x) => Ok(x),
            Err(e) => Err((self.f)(e)),
        }
    }

    fn nth(&mut self, n: usize) -> (r: Result<Option<FallibleLend<'_, L>>, E>) {
        let ghost s = self.lender.outcomes();
        proof {
            lemma_map_outcomes(self.f, s);
            crate::fallible::lemma_first_err(s);
            let k = first_err(s);
            if k < s.len() {
                assert(map_outcomes(self.f, s).skip(k + 1 as int) == map_outcomes(self.f, s.skip(k + 1 as int)));
            }
            if n < s.len() {
                assert(map_outcomes(self.f, s).skip(n + 1 as int) == map_outcomes(self.f, s.skip(n + 1 as int)));
            }
        }
        match self.lender.nth(n) {
            Ok(x) => Ok(x),
            Err(e) => Err((self.f)(e)),
        }
    }
}

impl<E, L: DoubleEndedFallibleLender, F: FnMut(L::Error) -> E> DoubleEndedFallibleLender for MapErr<E, L, F> {
    fn next_back(&mut self) -> (r: Result<Option<FallibleLend<'_, L>>, E>) {
        proof {
            let s = self.lender.outcomes();
            if s.len() > 0 {
                assert(map_outcomes(self.f, s.drop_last()) == map_outcomes(self.f, s).drop_last());
            }
        }
        match self.lender.next_back() {
            Ok(x) => Ok(x),
            Err(e) => Err((self.f)(e)),
        }
    }
}

impl<E, L: ExactSizeFallibleLender, F: FnMut(L::Error) -> E> ExactSizeFallibleLender for MapErr<E, L, F> {
    fn len(&self) -> (r: usize) {
        self.lender.len()
    }

    fn is_empty(&self) -> (r: bool) {
        self.lender.is_empty()
    }
}

impl<E, L: FusedFallibleLender, F: FnMut(L::Error) -> E> FusedFallibleLender for MapErr<E, L, F> {}

} // verus!

verus! {

/// What a `MapErr` is: well formed exactly when its lender is and its closure
/// is deterministic, and its outcomes are its lender's with each error mapped.
pub proof fn lemma_map_err_model<E, L: FallibleLender, F: FnMut(L::Error) -> E>(m: MapErr<E, L, F>)
    ensures
        m.wf() == (m.lender.wf() && fn_pure::<L::Error, E, F>(m.f)),
        m.outcomes() == map_outcomes(m.f, m.lender.outcomes()),
{
}

} // verus!
