//! `Filter` and `FilterMap` over a fallible lender, with closures that may
//! fail.
use vstd::prelude::*;

use crate::adapters::filter::Filter;
use crate::adapters::filter_map::FilterMap;
use crate::fallible::{FallibleLend, FallibleLender, FallibleLending, FallibleSpecLend, FusedFallibleLender};
use crate::spec::{fn_called, fn_out, fn_pure, ref_called, ref_out, ref_pure};

verus! {

/// The outcomes of `s` whose lends `p` accepts; an error of the lender, or of
/// `p` on a lend, is handed out in its place.
pub open spec fn kept_outcomes<T, E, P: FnMut(&T) -> Result<bool, E>>(p: P, s: Seq<Result<T, E>>) -> Seq<
    Result<T, E>,
>
    decreases s.len(),
{
    if s.len() == 0 {
        Seq::empty()
    } else {
        let rest = kept_outcomes(p, s.drop_first());
        match s[0] {
            Err(e) => seq![Err(e)] + rest,
            Ok(x) => match ref_out(p, x) {
                Err(e) => seq![Err(e)] + rest,
                Ok(true) => seq![Ok(x)] + rest,
                Ok(false) => rest,
            },
        }
    }
}

/// `kept_outcomes` never gives more outcomes than it was given.
pub proof fn lemma_kept_outcomes_len<T, E, P: FnMut(&T) -> Result<bool, E>>(p: P, s: Seq<Result<T, E>>)
    ensures
        kept_outcomes(p, s).len() <= s.len(),
    decreases s.len(),
{
    if s.len() > 0 {
        lemma_kept_outcomes_len(p, s.drop_first());
    }
}

/// The outcomes of `s` with each lend passed through `f`, keeping the values
/// that `f` gives as `Some`; an error of the lender, or of `f`, is handed out
/// in its place.
pub open spec fn mapped_some_outcomes<A, B, E, F: FnMut(A) -> Result<Option<B>, E>>(
    f: F,
    s: Seq<Result<A, E>>,
) -> Seq<Result<B, E>>
    decreases s.len(),
{
    if s.len() == 0 {
        Seq::empty()
    } else {
        let rest = mapped_some_outcomes(f, s.drop_first());
        match s[0] {
            Err(e) => seq![Err(e)] + rest,
            Ok(x) => match fn_out(f, x) {
                Err(e) => seq![Err(e)] + rest,
                Ok(Some(b)) => seq![Ok(b)] + rest,
                Ok(None) => rest,
            },
        }
    }
}

/// `mapped_some_outcomes` never gives more outcomes than it was given.
pub proof fn lemma_mapped_some_outcomes_len<A, B, E, F: FnMut(A) -> Result<Option<B>, E>>(
    f: F,
    s: Seq<Result<A, E>>,
)
    ensures
        mapped_some_outcomes(f, s).len() <= s.len(),
    decreases s.len(),
{
    if s.len() > 0 {
        lemma_mapped_some_outcomes_len(f, s.drop_first());
    }
}

/// Each of the first `k` outcomes of `s` is a lend that a call of `p`
/// rejected.
pub open spec fn rejected_outcomes_upto<T, E, P: FnMut(&T) -> Result<bool, E>>(p: P, s: Seq<Result<T, E>>, k: int) -> bool {
    forall|j: int| 0 <= j < k ==> (#[trigger] s[j] matches Ok(x) && call_ensures(p, (&x,), Ok::<bool, E>(false)))
}

/// What a fallible filter that stopped at the outcome `o` hands out: the
/// error, or, for a lend, what the verdict `v` of a call of `p` on it makes of
/// it (the lend if accepted, the error if the call failed).
pub open spec fn filter_stop<T, E, P: FnMut(&T) -> Result<bool, E>>(
    p: P,
    o: Result<T, E>,
    v: Result<bool, E>,
    r: Result<Option<T>, E>,
) -> bool {
    match o {
        Err(e) => r == Err::<Option<T>, E>(e),
        Ok(x) => call_ensures(p, (&x,), v) && match v {
            Ok(true) => r == Ok::<Option<T>, E>(Some(x)),
            Ok(false) => false,
            Err(e) => r == Err::<Option<T>, E>(e),
        },
    }
}

impl<L, P, T> Filter<L, P>
    where
        L: FallibleLender + for<'all> FallibleLending<'all, Lend = T>,
        P: FnMut(&T) -> Result<bool, L::Error>,
{
    /// The fallible lender's `next`, said of each call it makes: it hands out
    /// the first lend that a call of the predicate accepts, after the lends
    /// that its calls rejected; an error of the lender or of a call stops it.
    /// The predicate may answer differently from one call to the next.
    pub fn fallible_next(&mut self) -> (r: Result<Option<T>, L::Error>)
        requires
            old(self).lender.wf(),
            forall|a: T| call_requires(old(self).predicate, (&a,)),
        ensures
            final(self).lender.wf(),
            final(self).predicate == old(self).predicate,
            r == Ok::<Option<T>, L::Error>(None) ==> rejected_outcomes_upto(
                old(self).predicate,
                old(self).lender.outcomes(),
                old(self).lender.outcomes().len() as int,
            ) && final(self).lender.outcomes().len() == 0,
            r != Ok::<Option<T>, L::Error>(None) ==> exists|k: int, v: Result<bool, L::Error>|
                0 < k <= old(self).lender.outcomes().len() && #[trigger] old(self).lender.outcomes().skip(k)
                    == final(self).lender.outcomes() && rejected_outcomes_upto(
                    old(self).predicate,
                    old(self).lender.outcomes(),
                    k - 1,
                ) && #[trigger] filter_stop(old(self).predicate, old(self).lender.outcomes()[k - 1], v, r),
    {
        let ghost s0 = self.lender.outcomes();
        let ghost p = self.predicate;
        let ghost mut k: int = 0;
        proof {
            assert(s0.skip(0) =~= s0);
        }
        loop
            invariant
                self.lender.wf(),
                self.predicate == p,
                p == old(self).predicate,
                forall|a: T| call_requires(p, (&a,)),
                s0 == old(self).lender.outcomes(),
                0 <= k <= s0.len(),
                self.lender.outcomes() == s0.skip(k),
                rejected_outcomes_upto(p, s0, k),
            decreases self.lender.outcomes().len(),
        {
            match self.lender.next() {
                Ok(Some(x)) => {
                    proof {
                        assert(s0[k] == Ok::<T, L::Error>(x));
                        assert(s0.skip(k).drop_first() =~= s0.skip(k + 1));
                    }
                    let verdict = (self.predicate)(&x);
                    proof {
                        assert(call_ensures(p, (&x,), verdict));
                        k = k + 1;
                    }
                    match verdict {
                        Ok(true) => {
                            proof {
                                assert(filter_stop(p, s0[k - 1], verdict, Ok::<Option<T>, L::Error>(Some(x))));
                            }
                            return Ok(Some(x));
                        },
                        Ok(false) => {},
                        Err(e) => {
                            proof {
                                assert(filter_stop(p, s0[k - 1], verdict, Err::<Option<T>, L::Error>(e)));
                            }
                            return Err(e);
                        },
                    }
                },
                Ok(None) => {
                    proof {
                        assert(s0.skip(k).len() == 0);
                    }
                    return Ok(None);
                },
                Err(e) => {
                    proof {
                        assert(s0[k] == Err::<T, L::Error>(e));
                        assert(s0.skip(k).drop_first() =~= s0.skip(k + 1));
                        k = k + 1;
                        assert(filter_stop(p, s0[k - 1], Ok::<bool, L::Error>(true), Err::<Option<T>, L::Error>(e)));
                    }
                    return Err(e);
                },
            }
        }
    }
}

impl<'lend, L: FallibleLender, P> FallibleLending<'lend> for Filter<L, P> {
    type Lend = FallibleLend<'lend, L>;
}

impl<L, P, T> FallibleLender for Filter<L, P>
    where
        L: FallibleLender + for<'all> FallibleLending<'all, Lend = T>,
        P: FnMut(&T) -> Result<bool, L::Error>,
{
    type Error = L::Error;

    open spec fn wf(&self) -> bool {
        self.lender.wf() && ref_pure::<T, Result<bool, L::Error>, P>(self.predicate)
    }

    open spec fn outcomes(&self) -> Seq<Result<T, L::Error>> {
        kept_outcomes(self.predicate, self.lender.outcomes())
    }

    fn next(&mut self) -> (r: Result<Option<T>, L::Error>)
        ensures
            final(self).predicate == old(self).predicate,
            exists|k: int|
                0 <= k <= old(self).lender.outcomes().len() && #[trigger] old(self).lender.outcomes().skip(k)
                    == final(self).lender.outcomes() && forall|j: int|
                    0 <= j < k ==> (#[trigger] old(self).lender.outcomes()[j] matches Ok(x) ==> ref_called::<
                        T,
                        Result<bool, L::Error>,
                        P,
                    >(old(self).predicate, x)),
    {
        let ghost s0 = self.lender.outcomes();
        let ghost mut k: int = 0;
        proof {
            assert(s0.skip(0) =~= s0);
        }
        loop
            invariant
                FallibleLender::wf(self),
                self.predicate == old(self).predicate,
                FallibleLender::outcomes(self) == FallibleLender::outcomes(old(self)),
                s0 == old(self).lender.outcomes(),
                0 <= k <= s0.len(),
                self.lender.outcomes() == s0.skip(k),
                forall|j: int| 0 <= j < k ==> (#[trigger] s0[j] matches Ok(x) ==> ref_called::<T, Result<bool, L::Error>, P>(self.predicate, x)),
            decreases self.lender.outcomes().len(),
        {
            let ghost s = self.lender.outcomes();
            proof {
                if s.len() > 0 {
                    let rest = kept_outcomes(self.predicate, s.drop_first());
                    assert(forall|o: Result<T, L::Error>| #[trigger] (seq![o] + rest).drop_first() == rest);
                }
            }
            match self.lender.next() {
                Ok(Some(x)) => {
                    let verdict = (self.predicate)(&x);
                    proof {
                        assert(call_ensures(self.predicate, (&x,), verdict));
                        assert(s0[k] == Ok::<T, L::Error>(x));
                        assert(ref_called::<T, Result<bool, L::Error>, P>(self.predicate, x));
                        assert(s0.skip(k).drop_first() =~= s0.skip(k + 1));
                        k = k + 1;
                    }
                    match verdict {
                        Ok(true) => {
                            return Ok(Some(x));
                        },
                        Ok(false) => {},
                        Err(e) => {
                            return Err(e);
                        },
                    }
                },
                Ok(None) => {
                    proof {
                        assert(s0.skip(k).len() == 0);
                    }
                    return Ok(None);
                },
                Err(e) => {
                    proof {
                        assert(s0.skip(k).drop_first() =~= s0.skip(k + 1));
                        k = k + 1;
                    }
                    return Err(e);
                },
            }
        }
    }

    open spec fn hint(&self) -> (usize, Option<usize>) {
        (0, self.lender.hint().1)
    }

    fn size_hint(&self) -> (r: (usize, Option<usize>)) {
        proof {
            lemma_kept_outcomes_len(self.predicate, self.lender.outcomes());
        }
        let (_, upper) = self.lender.size_hint();
        (0, upper)
    }
}

impl<L, P, T> FusedFallibleLender for Filter<L, P>
    where
        L: FusedFallibleLender + for<'all> FallibleLending<'all, Lend = T>,
        P: FnMut(&T) -> Result<bool, L::Error>,
{
}

/// Each of the first `k` outcomes of `s` is a lend that a call of `f` mapped
/// to `None`.
pub open spec fn none_outcomes_upto<A, B, E, F: FnMut(A) -> Result<Option<B>, E>>(f: F, s: Seq<Result<A, E>>, k: int) -> bool {
    forall|j: int| 0 <= j < k ==> (#[trigger] s[j] matches Ok(x) && call_ensures(f, (x,), Ok::<Option<B>, E>(None)))
}

/// What a fallible filter-map that stopped at the outcome `o` hands out: the
/// error, or, for a lend, what the result `v` of a call of `f` on it makes of
/// it (the value in a `Some`, or the error if the call failed).
pub open spec fn filter_map_stop<A, B, E, F: FnMut(A) -> Result<Option<B>, E>>(
    f: F,
    o: Result<A, E>,
    v: Result<Option<B>, E>,
    r: Result<Option<B>, E>,
) -> bool {
    match o {
        Err(e) => r == Err::<Option<B>, E>(e),
        Ok(x) => call_ensures(f, (x,), v) && match v {
            Ok(Some(y)) => r == Ok::<Option<B>, E>(Some(y)),
            Ok(None) => false,
            Err(e) => r == Err::<Option<B>, E>(e),
        },
    }
}

impl<L: FallibleLender, F, B> FilterMap<L, F>
    where F: for<'all> FnMut(FallibleLend<'all, L>) -> Result<Option<B>, L::Error>,
{
    /// The fallible lender's `next`, said of each call it makes: it hands out
    /// the value in the first `Some` that a call of the closure makes, after
    /// the lends its calls mapped to `None`; an error of the lender or of a
    /// call stops it. The closure may give different results for equal lends.
    pub fn fallible_next(&mut self) -> (r: Result<Option<B>, L::Error>)
        requires
            old(self).lender.wf(),
            forall|a: FallibleSpecLend<L>| call_requires(old(self).f, (a,)),
        ensures
            final(self).lender.wf(),
            final(self).f == old(self).f,
            r == Ok::<Option<B>, L::Error>(None) ==> none_outcomes_upto(
                old(self).f,
                old(self).lender.outcomes(),
                old(self).lender.outcomes().len() as int,
            ) && final(self).lender.outcomes().len() == 0,
            r != Ok::<Option<B>, L::Error>(None) ==> exists|k: int, v: Result<Option<B>, L::Error>|
                0 < k <= old(self).lender.outcomes().len() && #[trigger] old(self).lender.outcomes().skip(k)
                    == final(self).lender.outcomes() && none_outcomes_upto(old(self).f, old(self).lender.outcomes(), k - 1)
                    && #[trigger] filter_map_stop(old(self).f, old(self).lender.outcomes()[k - 1], v, r),
    {
        let ghost s0 = self.lender.outcomes();
        let ghost f0 = self.f;
        let ghost mut k: int = 0;
        proof {
            assert(s0.skip(0) =~= s0);
        }
        loop
            invariant
                self.lender.wf(),
                self.f == f0,
                f0 == old(self).f,
                forall|a: FallibleSpecLend<L>| call_requires(f0, (a,)),
                s0 == old(self).lender.outcomes(),
                0 <= k <= s0.len(),
                self.lender.outcomes() == s0.skip(k),
                none_outcomes_upto(f0, s0, k),
            decreases self.lender.outcomes().len(),
        {
            let o = self.lender.next();
            match o {
                Ok(Some(x)) => {
                    proof {
                        assert(s0[k] == Ok::<FallibleSpecLend<L>, L::Error>(x));
                        assert(s0.skip(k).drop_first() =~= s0.skip(k + 1));
                    }
                    let made = (self.f)(x);
                    proof {
                        assert(call_ensures(f0, (x,), made));
                        k = k + 1;
                    }
                    match made {
                        Ok(Some(y)) => {
                            proof {
                                assert(filter_map_stop(f0, s0[k - 1], made, Ok::<Option<B>, L::Error>(Some(y))));
                            }
                            return Ok(Some(y));
                        },
                        Ok(None) => {},
                        Err(e) => {
                            proof {
                                assert(filter_map_stop(f0, s0[k - 1], made, Err::<Option<B>, L::Error>(e)));
                            }
                            return Err(e);
                        },
                    }
                },
                Ok(None) => {
                    proof {
                        assert(s0.skip(k).len() == 0);
                    }
                    return Ok(None);
                },
                Err(e) => {
                    proof {
                        assert(s0[k] == Err::<FallibleSpecLend<L>, L::Error>(e));
                        assert(s0.skip(k).drop_first() =~= s0.skip(k + 1));
                        k = k + 1;
                        assert(filter_map_stop(f0, s0[k - 1], Ok::<Option<B>, L::Error>(None), Err::<Option<B>, L::Error>(e)));
                    }
                    return Err(e);
                },
            }
        }
    }
}

impl<'lend, L: FallibleLender, F, B> FallibleLending<'lend> for FilterMap<L, F>
    where F: FnMut(FallibleLend<'lend, L>) -> Result<Option<B>, L::Error>,
{
    type Lend = B;
}

impl<L: FallibleLender, F, B> FallibleLender for FilterMap<L, F>
    where F: for<'all> FnMut(FallibleLend<'all, L>) -> Result<Option<B>, L::Error>,
{
    type Error = L::Error;

    open spec fn wf(&self) -> bool {
        self.lender.wf() && fn_pure::<FallibleSpecLend<L>, Result<Option<B>, L::Error>, F>(self.f)
    }

    open spec fn outcomes(&self) -> Seq<Result<B, L::Error>> {
        mapped_some_outcomes::<FallibleSpecLend<L>, B, L::Error, F>(self.f, self.lender.outcomes())
    }

    fn next(&mut self) -> (r: Result<Option<B>, L::Error>)
        ensures
            final(self).f == old(self).f,
            exists|k: int|
                0 <= k <= old(self).lender.outcomes().len() && #[trigger] old(self).lender.outcomes().skip(k)
                    == final(self).lender.outcomes() && forall|j: int|
                    0 <= j < k ==> (#[trigger] old(self).lender.outcomes()[j] matches Ok(x) ==> fn_called::<
                        FallibleSpecLend<L>,
                        Result<Option<B>, L::Error>,
                        F,
                    >(old(self).f, x)),
    {
        let ghost s0 = self.lender.outcomes();
        let ghost mut k: int = 0;
        proof {
            assert(s0.skip(0) =~= s0);
        }
        loop
            invariant
                FallibleLender::wf(self),
                self.f == old(self).f,
                FallibleLender::outcomes(self) == FallibleLender::outcomes(old(self)),
                s0 == old(self).lender.outcomes(),
                0 <= k <= s0.len(),
                self.lender.outcomes() == s0.skip(k),
                forall|j: int| 0 <= j < k ==> (#[trigger] s0[j] matches Ok(x) ==> fn_called::<FallibleSpecLend<L>, Result<Option<B>, L::Error>, F>(self.f, x)),
            decreases self.lender.outcomes().len(),
        {
            let ghost s = self.lender.outcomes();
            proof {
                if s.len() > 0 {
                    let rest = mapped_some_outcomes::<FallibleSpecLend<L>, B, L::Error, F>(self.f, s.drop_first());
                    assert(forall|o: Result<B, L::Error>| #[trigger] (seq![o] + rest).drop_first() == rest);
                }
            }
            let o = self.lender.next();
            match o {
                Ok(Some(x)) => {
                    let made = (self.f)(x);
                    proof {
                        assert(call_ensures(self.f, (x,), made));
                        assert(s0[k] == Ok::<FallibleSpecLend<L>, L::Error>(x));
                        assert(fn_called::<FallibleSpecLend<L>, Result<Option<B>, L::Error>, F>(self.f, x));
                        assert(s0.skip(k).drop_first() =~= s0.skip(k + 1));
                        k = k + 1;
                    }
                    match made {
                        Ok(Some(y)) => {
                            return Ok(Some(y));
                        },
                        Ok(None) => {},
                        Err(e) => {
                            return Err(e);
                        },
                    }
                },
                Ok(None) => {
                    proof {
                        assert(s0.skip(k).len() == 0);
                    }
                    return Ok(None);
                },
                Err(e) => {
                    proof {
                        assert(s0.skip(k).drop_first() =~= s0.skip(k + 1));
                        k = k + 1;
                    }
                    return Err(e);
                },
            }
        }
    }

    open spec fn hint(&self) -> (usize, Option<usize>) {
        (0, self.lender.hint().1)
    }

    fn size_hint(&self) -> (r: (usize, Option<usize>)) {
        proof {
            lemma_mapped_some_outcomes_len::<FallibleSpecLend<L>, B, L::Error, F>(self.f, self.lender.outcomes());
        }
        let (_, upper) = self.lender.size_hint();
        (0, upper)
    }
}

impl<L: FusedFallibleLender, F, B> FusedFallibleLender for FilterMap<L, F>
    where F: for<'all> FnMut(FallibleLend<'all, L>) -> Result<Option<B>, L::Error>,
{
}

} // verus!

verus! {

/// What a `Filter` over a fallible lender is: well formed exactly when its
/// lender is and its predicate is deterministic, and its outcomes are the
/// errors of its lender and of the predicate and the lends it accepts.
pub proof fn lemma_fallible_filter_model<L, P, T>(f: Filter<L, P>)
    where
        L: FallibleLender + for<'all> FallibleLending<'all, Lend = T>,
        P: FnMut(&T) -> Result<bool, L::Error>,
    ensures
        FallibleLender::wf(&f) == (f.lender.wf() && ref_pure::<T, Result<bool, L::Error>, P>(f.predicate)),
        FallibleLender::outcomes(&f) == kept_outcomes(f.predicate, f.lender.outcomes()),
{
}

/// What a `FilterMap` over a fallible lender is: well formed exactly when its
/// lender is and its closure is deterministic.
pub proof fn lemma_fallible_filter_map_model<L: FallibleLender, F, B>(m: FilterMap<L, F>)
    where F: for<'all> FnMut(FallibleLend<'all, L>) -> Result<Option<B>, L::Error>,
    ensures
        FallibleLender::wf(&m) == (m.lender.wf() && fn_pure::<FallibleSpecLend<L>, Result<Option<B>, L::Error>, F>(m.f)),
        FallibleLender::outcomes(&m) == mapped_some_outcomes::<FallibleSpecLend<L>, B, L::Error, F>(m.f, m.lender.outcomes()),
{
}

} // verus!
