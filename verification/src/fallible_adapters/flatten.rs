//! `FlatMap` and `Flatten` for fallible lenders: the outcomes of the
//! fallible lenders that a closure makes from each lend, or that the lender
//! hands out, one lender after the other.
use vstd::prelude::*;

use crate::fallible::{fallible_next_post, FallibleLend, FallibleLender, FallibleLending, FallibleSpecLend, FusedFallibleLender};
use crate::spec::{fn_called, fn_out};

verus! {

/// What one outcome of the underlying lender turns into: the outcomes of the
/// lender that `f` makes from a lend, or a single error when there is an
/// error instead, from the underlying lender or from `f`.
pub open spec fn expand<A, I: FallibleLender, F: FnMut(A) -> Result<I, I::Error>>(
    f: F,
    o: Result<A, I::Error>,
) -> Seq<Result<FallibleSpecLend<I>, I::Error>> {
    match o {
        Ok(a) => match fn_out(f, a) {
            Ok(i) => i.outcomes(),
            Err(e) => seq![Err(e)],
        },
        Err(e) => seq![Err(e)],
    }
}

/// `f` can be called on every argument; whenever it makes a lender from an
/// argument `a`, that lender is well formed and has the outcomes of the one in
/// `fn_out(f, a)`, and whenever it fails on `a`, it fails with the error in
/// `fn_out(f, a)`. The made lenders may differ as values as long as they hand
/// out the same outcomes.
pub open spec fn fallible_maker_ok<A, I: FallibleLender, F: FnMut(A) -> Result<I, I::Error>>(f: F) -> bool {
    &&& forall|a: A| call_requires(f, (a,))
    &&& forall|a: A, r: Result<I, I::Error>| #[trigger] call_ensures(f, (a,), r) ==> match r {
        Ok(i) => i.wf() && (fn_out(f, a) matches Ok(j) && i.outcomes() == j.outcomes()),
        Err(e) => fn_out(f, a) == Result::<I, I::Error>::Err(e),
    }
}

/// The expansions of the outcomes of `s`, one after the other.
pub open spec fn flat_outcomes<A, I: FallibleLender, F: FnMut(A) -> Result<I, I::Error>>(
    f: F,
    s: Seq<Result<A, I::Error>>,
) -> Seq<Result<FallibleSpecLend<I>, I::Error>>
    decreases s.len(),
{
    if s.len() == 0 {
        Seq::empty()
    } else {
        expand(f, s[0]) + flat_outcomes(f, s.drop_first())
    }
}

/// The outcomes still to come from the lender being drained, if any.
pub open spec fn front_outcomes<I: FallibleLender>(inner: Option<I>) -> Seq<Result<FallibleSpecLend<I>, I::Error>> {
    match inner {
        Some(i) => i.outcomes(),
        None => Seq::empty(),
    }
}

/// One step of `flat_outcomes`, for callers that hold a concrete closure.
pub proof fn lemma_flat_outcomes_step<A, I: FallibleLender, F: FnMut(A) -> Result<I, I::Error>>(
    f: F,
    s: Seq<Result<A, I::Error>>,
)
    ensures
        flat_outcomes(f, s) == if s.len() == 0 {
            Seq::empty()
        } else {
            expand(f, s[0]) + flat_outcomes(f, s.drop_first())
        },
{
}

/// `r` is what `next` hands out for the outcome `o`.
pub open spec fn hands_out<T, E>(o: Result<T, E>, r: Result<Option<T>, E>) -> bool {
    match o {
        Ok(x) => r == Ok::<Option<T>, E>(Some(x)),
        Err(e) => r == Err::<Option<T>, E>(e),
    }
}

/// `f` has been called on every lend among the first `k` outcomes of `s`.
pub open spec fn fallible_made_upto<A, I: FallibleLender, F: FnMut(A) -> Result<I, I::Error>>(
    f: F,
    s: Seq<Result<A, I::Error>>,
    k: int,
) -> bool {
    forall|j: int| 0 <= j < k ==> (#[trigger] s[j] matches Ok(a) ==> fn_called(f, a))
}

/// Where what `next` handed out comes from, when it pulled `k` outcomes of the
/// underlying lender `s`: with `k == 0`, from the lender being drained;
/// otherwise from the expansion of the `k`-th outcome, the lender being drained
/// and the expansions of the outcomes before it having been empty.
pub open spec fn fallible_flat_map_source<A, I: FallibleLender, F: FnMut(A) -> Result<I, I::Error>>(
    f: F,
    inner: Option<I>,
    s: Seq<Result<A, I::Error>>,
    k: int,
    r: Result<Option<FallibleSpecLend<I>>, I::Error>,
) -> bool {
    if k == 0 {
        front_outcomes(inner).len() > 0 && hands_out(front_outcomes(inner)[0], r)
    } else {
        &&& front_outcomes(inner).len() == 0
        &&& forall|j: int| 0 <= j < k - 1 ==> (#[trigger] expand(f, s[j])).len() == 0
        &&& expand(f, s[k - 1]).len() > 0
        &&& hands_out(expand(f, s[k - 1])[0], r)
    }
}

/// A fallible lender that hands out the outcomes of the fallible lenders that
/// `f` makes from the lends of the underlying fallible lender, one lender
/// after the other; an error of the underlying lender or of `f` is handed
/// out in its place.
///
/// The lends of the made lenders must not borrow from them.
pub struct FlatMap<L, F, I> {
    pub lender: L,
    pub f: F,
    /// The lender being drained.
    pub inner: Option<I>,
}

impl<L, F, I> FlatMap<L, F, I> {
    /// Maps each lend of `lender` to a fallible lender with `f` and flattens
    /// them.
    pub fn new(lender: L, f: F) -> (r: FlatMap<L, F, I>)
        ensures
            r.lender == lender,
            r.f == f,
            r.inner is None,
    {
        FlatMap { lender, f, inner: None }
    }

    /// Returns the inner lender.
    pub fn into_inner(self) -> (r: L)
        ensures
            r == self.lender,
    {
        self.lender
    }

    /// Returns the inner lender and the closure.
    pub fn into_parts(self) -> (r: (L, F))
        ensures
            r == (self.lender, self.f),
    {
        (self.lender, self.f)
    }
}

impl<L, F, I, T> FlatMap<L, F, I>
    where
        L: FallibleLender,
        F: for<'all> FnMut(FallibleLend<'all, L>) -> Result<I, L::Error>,
        I: FallibleLender<Error = L::Error> + for<'all> FallibleLending<'all, Lend = T>,
{
    /// Hands out the next outcome of the lender being drained, moving on to
    /// the lender that the closure makes from the next lend of the underlying
    /// lender while the current one is empty; an error of the underlying
    /// lender or of the closure is handed out in place of a lender. The
    /// closure may make different lenders from equal lends: this speaks of
    /// the lenders its calls made.
    pub fn next(&mut self) -> (r: Result<Option<T>, L::Error>)
        requires
            old(self).lender.wf(),
            forall|a: FallibleSpecLend<L>| call_requires(old(self).f, (a,)),
            forall|a: FallibleSpecLend<L>, m: Result<I, L::Error>|
                #[trigger] call_ensures(old(self).f, (a,), m) ==> (m matches Ok(i) ==> i.wf()),
            old(self).inner matches Some(i) ==> i.wf(),
        ensures
            final(self).lender.wf(),
            final(self).f == old(self).f,
            final(self).inner matches Some(i) ==> i.wf(),
            exists|made: Seq<Result<I, L::Error>>|
                #[trigger] made_for(old(self).f, old(self).lender.outcomes(), made) && final(self).lender.outcomes()
                    == old(self).lender.outcomes().skip(made.len() as int) && fallible_next_post(
                    front_outcomes(old(self).inner) + flat_lender_outcomes(made),
                    front_outcomes(final(self).inner),
                    r,
                ),
    {
        let ghost s0 = self.lender.outcomes();
        let ghost f0 = self.f;
        let ghost mut made: Seq<Result<I, L::Error>> = Seq::empty();
        let ghost mut q: Seq<Result<T, L::Error>> = front_outcomes(self.inner);
        proof {
            assert(s0.skip(0) =~= s0);
            assert(q =~= front_outcomes(old(self).inner) + flat_lender_outcomes(made));
        }
        loop
            invariant
                self.lender.wf(),
                self.f == f0,
                f0 == old(self).f,
                forall|a: FallibleSpecLend<L>| call_requires(f0, (a,)),
                forall|a: FallibleSpecLend<L>, m: Result<I, L::Error>|
                    #[trigger] call_ensures(f0, (a,), m) ==> (m matches Ok(i) ==> i.wf()),
                self.inner matches Some(i) ==> i.wf(),
                s0 == old(self).lender.outcomes(),
                made_for(f0, s0, made),
                self.lender.outcomes() == s0.skip(made.len() as int),
                q == front_outcomes(old(self).inner) + flat_lender_outcomes(made),
                front_outcomes(self.inner) == q,
            decreases self.lender.outcomes().len(),
        {
            let cur = self.inner.take();
            if let Some(mut inner) = cur {
                match inner.next() {
                    Ok(Some(x)) => {
                        self.inner = Some(inner);
                        return Ok(Some(x));
                    },
                    Err(e) => {
                        self.inner = Some(inner);
                        return Err(e);
                    },
                    Ok(None) => {},
                }
            }
            proof {
                assert(q.len() == 0);
            }
            let ghost k = made.len() as int;
            match self.lender.next() {
                Ok(None) => {
                    proof {
                        assert(s0.skip(k).len() == 0);
                    }
                    return Ok(None);
                },
                Err(e) => {
                    proof {
                        assert(s0[k] == Err::<FallibleSpecLend<L>, L::Error>(e));
                        assert(s0.skip(k).drop_first() =~= s0.skip(k + 1));
                        lemma_flat_lender_outcomes_push(made, Err::<I, L::Error>(e));
                        let old_made = made;
                        made = made.push(Err::<I, L::Error>(e));
                        assert forall|j: int| 0 <= j < made.len() implies match s0[j] {
                            Err(e) => #[trigger] made[j] == Err::<I, L::Error>(e),
                            Ok(a) => call_ensures(f0, (a,), made[j]),
                        } by {
                            if j < old_made.len() {
                                assert(made[j] == old_made[j]);
                            }
                        }
                        q = q + seq![Err::<T, L::Error>(e)];
                        assert(q =~= front_outcomes(old(self).inner) + flat_lender_outcomes(made));
                        assert(q =~= seq![Err::<T, L::Error>(e)]);
                        assert(q.drop_first() =~= front_outcomes::<I>(self.inner));
                        assert(made_for(f0, s0, made));
                    }
                    return Err(e);
                },
                Ok(Some(a)) => {
                    proof {
                        assert(s0[k] == Ok::<FallibleSpecLend<L>, L::Error>(a));
                        assert(s0.skip(k).drop_first() =~= s0.skip(k + 1));
                    }
                    let m = (self.f)(a);
                    proof {
                        assert(call_ensures(f0, (a,), m));
                        lemma_flat_lender_outcomes_push(made, m);
                        let old_made = made;
                        made = made.push(m);
                        assert forall|j: int| 0 <= j < made.len() implies match s0[j] {
                            Err(e) => #[trigger] made[j] == Err::<I, L::Error>(e),
                            Ok(a) => call_ensures(f0, (a,), made[j]),
                        } by {
                            if j < old_made.len() {
                                assert(made[j] == old_made[j]);
                            }
                        }
                    }
                    match m {
                        Ok(i) => {
                            proof {
                                q = q + i.outcomes();
                                assert(q =~= front_outcomes(old(self).inner) + flat_lender_outcomes(made));
                            }
                            self.inner = Some(i);
                        },
                        Err(e) => {
                            proof {
                                q = q + seq![Err::<T, L::Error>(e)];
                                assert(q =~= front_outcomes(old(self).inner) + flat_lender_outcomes(made));
                                assert(q =~= seq![Err::<T, L::Error>(e)]);
                                assert(q.drop_first() =~= front_outcomes::<I>(self.inner));
                                assert(made_for(f0, s0, made));
                            }
                            return Err(e);
                        },
                    }
                },
            }
        }
    }
}

impl<'lend, L, F, I: FallibleLender> FallibleLending<'lend> for FlatMap<L, F, I> {
    type Lend = FallibleLend<'lend, I>;
}

impl<L, F, I, T> FallibleLender for FlatMap<L, F, I>
    where
        L: FallibleLender,
        F: for<'all> FnMut(FallibleLend<'all, L>) -> Result<I, L::Error>,
        I: FallibleLender<Error = L::Error> + for<'all> FallibleLending<'all, Lend = T>,
{
    type Error = L::Error;

    open spec fn wf(&self) -> bool {
        &&& self.lender.wf()
        &&& fallible_maker_ok::<FallibleSpecLend<L>, I, F>(self.f)
        &&& self.inner matches Some(i) ==> i.wf()
    }

    open spec fn outcomes(&self) -> Seq<Result<T, L::Error>> {
        front_outcomes(self.inner) + flat_outcomes::<FallibleSpecLend<L>, I, F>(self.f, self.lender.outcomes())
    }

    fn next(&mut self) -> (r: Result<Option<T>, L::Error>)
        ensures
            final(self).f == old(self).f,
            exists|k: int|
                0 <= k <= old(self).lender.outcomes().len() && #[trigger] old(self).lender.outcomes().skip(k)
                    == final(self).lender.outcomes() && fallible_made_upto::<FallibleSpecLend<L>, I, F>(
                    old(self).f,
                    old(self).lender.outcomes(),
                    k,
                ) && (r != Ok::<Option<T>, L::Error>(None) ==> fallible_flat_map_source::<FallibleSpecLend<L>, I, F>(
                    old(self).f,
                    old(self).inner,
                    old(self).lender.outcomes(),
                    k,
                    r,
                )),
    {
        let ghost s0 = self.lender.outcomes();
        let ghost mut k: int = 0;
        proof {
            assert(s0.skip(0) =~= s0);
        }
        loop
            invariant
                self.wf(),
                self.f == old(self).f,
                self.outcomes() == old(self).outcomes(),
                s0 == old(self).lender.outcomes(),
                0 <= k <= s0.len(),
                self.lender.outcomes() == s0.skip(k),
                fallible_made_upto::<FallibleSpecLend<L>, I, F>(self.f, s0, k),
                k == 0 ==> self.inner == old(self).inner,
                k > 0 ==> front_outcomes(old(self).inner).len() == 0,
                k > 0 ==> forall|j: int| 0 <= j < k - 1 ==> (#[trigger] expand::<FallibleSpecLend<L>, I, F>(self.f, s0[j])).len() == 0,
                k > 0 ==> (self.inner matches Some(i) && i.outcomes() == expand::<FallibleSpecLend<L>, I, F>(self.f, s0[k - 1])),
            decreases self.lender.outcomes().len(),
        {
            let ghost rest = flat_outcomes::<FallibleSpecLend<L>, I, F>(self.f, self.lender.outcomes());
            let ghost was = self.inner;
            let cur = self.inner.take();
            if let Some(mut inner) = cur {
                let ghost before = inner.outcomes();
                let r = inner.next();
                match r {
                    Ok(Some(x)) => {
                        self.inner = Some(inner);
                        proof {
                            assert((before + rest).drop_first() == inner.outcomes() + rest);
                        }
                        return Ok(Some(x));
                    },
                    Err(e) => {
                        self.inner = Some(inner);
                        proof {
                            assert((before + rest).drop_first() == inner.outcomes() + rest);
                        }
                        return Err(e);
                    },
                    Ok(None) => {
                        assert(before + rest == rest);
                    },
                }
            }
            proof {
                assert(front_outcomes(was).len() == 0);
                if k > 0 {
                    assert(expand::<FallibleSpecLend<L>, I, F>(self.f, s0[k - 1]).len() == 0);
                    assert forall|j: int| 0 <= j < k implies (#[trigger] expand::<FallibleSpecLend<L>, I, F>(self.f, s0[j])).len() == 0 by {
                        if j < k - 1 {
                        }
                    }
                }
            }
            let ghost s = self.lender.outcomes();
            match self.lender.next() {
                Ok(None) => {
                    proof {
                        assert(s0.skip(k).len() == 0);
                    }
                    return Ok(None);
                },
                Err(e) => {
                    proof {
                        let tail = flat_outcomes::<FallibleSpecLend<L>, I, F>(self.f, s.drop_first());
                        assert((seq![Err(e)] + tail).drop_first() == tail);
                        assert(front_outcomes::<I>(None) + tail == tail);
                        assert(s0[k] == Err::<FallibleSpecLend<L>, L::Error>(e));
                        assert(s0.skip(k).drop_first() =~= s0.skip(k + 1));
                        k = k + 1;
                    }
                    return Err(e);
                },
                Ok(Some(a)) => {
                    let made = (self.f)(a);
                    proof {
                        assert(call_ensures(self.f, (a,), made));
                        assert(s0[k] == Ok::<FallibleSpecLend<L>, L::Error>(a));
                        assert(fn_called::<FallibleSpecLend<L>, Result<I, L::Error>, F>(self.f, a));
                        assert(s0.skip(k).drop_first() =~= s0.skip(k + 1));
                        k = k + 1;
                    }
                    match made {
                        Ok(i) => {
                            self.inner = Some(i);
                        },
                        Err(e) => {
                            proof {
                                let tail = flat_outcomes::<FallibleSpecLend<L>, I, F>(self.f, s.drop_first());
                                assert((seq![Err(e)] + tail).drop_first() == tail);
                                assert(front_outcomes::<I>(None) + tail == tail);
                            }
                            return Err(e);
                        },
                    }
                },
            }
        }
    }

    open spec fn hint(&self) -> (usize, Option<usize>) {
        match self.inner {
            Some(inner) => (inner.hint().0, None),
            None => (0, None),
        }
    }

    fn size_hint(&self) -> (r: (usize, Option<usize>)) {
        match &self.inner {
            Some(inner) => (inner.size_hint().0, None),
            None => (0, None),
        }
    }
}

impl<L, F, I, T> FusedFallibleLender for FlatMap<L, F, I>
    where
        L: FusedFallibleLender,
        F: for<'all> FnMut(FallibleLend<'all, L>) -> Result<I, L::Error>,
        I: FallibleLender<Error = L::Error> + for<'all> FallibleLending<'all, Lend = T>,
{
}

/// The outcomes of the fallible lenders among `s`, one after the other; an
/// error among `s` stands for itself.
pub open spec fn flat_lender_outcomes<I: FallibleLender>(s: Seq<Result<I, I::Error>>) -> Seq<
    Result<FallibleSpecLend<I>, I::Error>,
>
    decreases s.len(),
{
    if s.len() == 0 {
        Seq::empty()
    } else {
        match s[0] {
            Ok(i) => i.outcomes() + flat_lender_outcomes(s.drop_first()),
            Err(e) => seq![Err(e)] + flat_lender_outcomes(s.drop_first()),
        }
    }
}

/// Appending an outcome appends its outcomes.
pub proof fn lemma_flat_lender_outcomes_push<I: FallibleLender>(s: Seq<Result<I, I::Error>>, m: Result<I, I::Error>)
    ensures
        flat_lender_outcomes(s.push(m)) == flat_lender_outcomes(s) + match m {
            Ok(i) => i.outcomes(),
            Err(e) => seq![Err(e)],
        },
    decreases s.len(),
{
    let tail = match m {
        Ok(i) => i.outcomes(),
        Err(e) => seq![Err(e)],
    };
    if s.len() == 0 {
        assert(s.push(m).drop_first() =~= Seq::<Result<I, I::Error>>::empty());
        assert(s.push(m)[0] == m);
        assert(flat_lender_outcomes(Seq::<Result<I, I::Error>>::empty()) =~= Seq::<Result<FallibleSpecLend<I>, I::Error>>::empty());
        assert(flat_lender_outcomes(s.push(m)) =~= tail + flat_lender_outcomes(Seq::<Result<I, I::Error>>::empty()));
        assert(flat_lender_outcomes(s.push(m)) =~= tail);
    } else {
        assert(s.push(m).drop_first() =~= s.drop_first().push(m));
        assert(s.push(m)[0] == s[0]);
        lemma_flat_lender_outcomes_push(s.drop_first(), m);
        match s[0] {
            Ok(i) => {
                assert(flat_lender_outcomes(s.push(m)) =~= flat_lender_outcomes(s) + tail);
            },
            Err(e) => {
                assert(flat_lender_outcomes(s.push(m)) =~= flat_lender_outcomes(s) + tail);
            },
        }
    }
}

/// `made` stands for the first `made.len()` outcomes of `s`: an error for
/// itself, and a lend for what a call of `f` made from it.
pub open spec fn made_for<A, I: FallibleLender, F: FnMut(A) -> Result<I, I::Error>>(
    f: F,
    s: Seq<Result<A, I::Error>>,
    made: Seq<Result<I, I::Error>>,
) -> bool {
    &&& made.len() <= s.len()
    &&& forall|j: int|
        0 <= j < made.len() ==> match s[j] {
            Err(e) => #[trigger] made[j] == Err::<I, I::Error>(e),
            Ok(a) => call_ensures(f, (a,), made[j]),
        }
}

/// A fallible lender that hands out the outcomes of the fallible lenders that
/// the underlying fallible lender hands out, one lender after the other; an
/// error of the underlying lender is handed out in its place.
///
/// The lends of those lenders must not borrow from them.
pub struct Flatten<L, I> {
    pub lender: L,
    /// The lender being drained.
    pub inner: Option<I>,
}

impl<L, I> Flatten<L, I> {
    /// Flattens the fallible lenders that `lender` hands out.
    pub fn new(lender: L) -> (r: Flatten<L, I>)
        ensures
            r.lender == lender,
            r.inner is None,
    {
        Flatten { lender, inner: None }
    }

    /// Returns the inner lender.
    pub fn into_inner(self) -> (r: L)
        ensures
            r == self.lender,
    {
        self.lender
    }
}

impl<'lend, L, I: FallibleLender> FallibleLending<'lend> for Flatten<L, I> {
    type Lend = FallibleLend<'lend, I>;
}

impl<L, I, T> FallibleLender for Flatten<L, I>
    where
        L: FallibleLender + for<'all> FallibleLending<'all, Lend = I>,
        I: FallibleLender<Error = L::Error> + for<'all> FallibleLending<'all, Lend = T>,
{
    type Error = L::Error;

    open spec fn wf(&self) -> bool {
        &&& self.lender.wf()
        &&& forall|k: int|
            0 <= k < self.lender.outcomes().len() ==> (#[trigger] self.lender.outcomes()[k] matches Ok(i) ==> i.wf())
        &&& self.inner matches Some(i) ==> i.wf()
    }

    open spec fn outcomes(&self) -> Seq<Result<T, L::Error>> {
        front_outcomes(self.inner) + flat_lender_outcomes::<I>(self.lender.outcomes())
    }

    fn next(&mut self) -> (r: Result<Option<T>, L::Error>) {
        loop
            invariant
                self.wf(),
                self.outcomes() == old(self).outcomes(),
            decreases self.lender.outcomes().len(),
        {
            let ghost rest = flat_lender_outcomes::<I>(self.lender.outcomes());
            let cur = self.inner.take();
            if let Some(mut inner) = cur {
                let ghost before = inner.outcomes();
                let r = inner.next();
                match r {
                    Ok(Some(x)) => {
                        self.inner = Some(inner);
                        proof {
                            assert((before + rest).drop_first() == inner.outcomes() + rest);
                        }
                        return Ok(Some(x));
                    },
                    Err(e) => {
                        self.inner = Some(inner);
                        proof {
                            assert((before + rest).drop_first() == inner.outcomes() + rest);
                        }
                        return Err(e);
                    },
                    Ok(None) => {
                        assert(before + rest == rest);
                    },
                }
            }
            let ghost s = self.lender.outcomes();
            proof {
                assert forall|k: int| 0 <= k < s.len() - 1 implies (#[trigger] s.drop_first()[k] matches Ok(i) ==> i.wf()) by {
                    assert(s.drop_first()[k] == s[k + 1]);
                }
            }
            match self.lender.next() {
                Ok(None) => {
                    return Ok(None);
                },
                Err(e) => {
                    proof {
                        let tail = flat_lender_outcomes::<I>(s.drop_first());
                        assert((seq![Err(e)] + tail).drop_first() == tail);
                        assert(front_outcomes::<I>(None) + tail == tail);
                    }
                    return Err(e);
                },
                Ok(Some(i)) => {
                    proof {
                        assert(s[0] matches Ok(j) ==> j.wf());
                    }
                    self.inner = Some(i);
                },
            }
        }
    }

    open spec fn hint(&self) -> (usize, Option<usize>) {
        match self.inner {
            Some(inner) => (inner.hint().0, None),
            None => (0, None),
        }
    }

    fn size_hint(&self) -> (r: (usize, Option<usize>)) {
        match &self.inner {
            Some(inner) => (inner.size_hint().0, None),
            None => (0, None),
        }
    }
}

impl<L, I, T> FusedFallibleLender for Flatten<L, I>
    where
        L: FusedFallibleLender + for<'all> FallibleLending<'all, Lend = I>,
        I: FallibleLender<Error = L::Error> + for<'all> FallibleLending<'all, Lend = T>,
{
}

} // verus!

verus! {

/// What a `FlatMap` over a fallible lender is: well formed exactly when its
/// lender is, its closure makes lenders with the same outcomes (or fails the
/// same way) from the same lend, and the lender being drained is well formed.
pub proof fn lemma_fallible_flat_map_model<L, F, I, T>(m: FlatMap<L, F, I>)
    where
        L: FallibleLender,
        F: for<'all> FnMut(FallibleLend<'all, L>) -> Result<I, L::Error>,
        I: FallibleLender<Error = L::Error> + for<'all> FallibleLending<'all, Lend = T>,
    ensures
        FallibleLender::wf(&m) == (m.lender.wf() && fallible_maker_ok::<FallibleSpecLend<L>, I, F>(m.f) && (
        m.inner matches Some(i) ==> i.wf())),
        FallibleLender::outcomes(&m) == front_outcomes(m.inner) + flat_outcomes::<FallibleSpecLend<L>, I, F>(
            m.f,
            m.lender.outcomes(),
        ),
{
}

} // verus!
