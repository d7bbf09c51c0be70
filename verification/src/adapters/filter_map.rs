//! `FilterMap`: lends passed through a closure that may drop them.
use vstd::prelude::*;

use crate::spec::{fn_called, fn_out, fn_pure};
use crate::traits::{DoubleEndedLender, FusedLender, Lend, Lender, Lending, SpecLend};

verus! {

/// The values that `f` gives as `Some` on the elements of `s`, in order.
pub open spec fn mapped_some<A, B, F: FnMut(A) -> Option<B>>(f: F, s: Seq<A>) -> Seq<B>
    decreases s.len(),
{
    if s.len() == 0 {
        Seq::empty()
    } else {
        let rest = mapped_some(f, s.drop_first());
        match fn_out(f, s[0]) {
            Some(b) => seq![b] + rest,
            None => rest,
        }
    }
}

/// `mapped_some` never gives more values than it was given.
pub proof fn lemma_mapped_some_len<A, B, F: FnMut(A) -> Option<B>>(f: F, s: Seq<A>)
    ensures
        mapped_some(f, s).len() <= s.len(),
    decreases s.len(),
{
    if s.len() > 0 {
        lemma_mapped_some_len(f, s.drop_first());
    }
}

/// How `mapped_some` unfolds at the back of a sequence.
pub proof fn lemma_mapped_some_back<A, B, F: FnMut(A) -> Option<B>>(f: F, s: Seq<A>)
    requires
        s.len() > 0,
    ensures
        mapped_some(f, s) == mapped_some(f, s.drop_last()) + match fn_out(f, s.last()) {
            Some(b) => seq![b],
            None => Seq::<B>::empty(),
        },
    decreases s.len(),
{
    let tail = match fn_out(f, s.last()) {
        Some(b) => seq![b],
        None => Seq::<B>::empty(),
    };
    if s.len() == 1 {
        assert(s.drop_first().len() == 0);
        assert(s.drop_last().len() == 0);
        assert(s[0] == s.last());
        assert(mapped_some(f, s.drop_first()) == Seq::<B>::empty());
        assert(mapped_some(f, s.drop_last()) == Seq::<B>::empty());
        assert(mapped_some(f, s) == Seq::<B>::empty() + tail);
    } else {
        lemma_mapped_some_back(f, s.drop_first());
        assert(s.drop_first().drop_last() == s.drop_last().drop_first());
        assert(s.drop_first().last() == s.last());
        assert(s.drop_last()[0] == s[0]);
        let inner = mapped_some(f, s.drop_last().drop_first());
        match fn_out(f, s[0]) {
            Some(b) => {
                assert(seq![b] + (inner + tail) == (seq![b] + inner) + tail);
            },
            None => {},
        }
    }
}

/// A lender that passes every lend of the underlying lender through `f` and
/// hands out the values that `f` gives as `Some`.
pub struct FilterMap<L, F> {
    pub lender: L,
    pub f: F,
}

impl<L, F> FilterMap<L, F> {
    /// Maps the lends of `lender` through `f`, keeping the `Some`s.
    pub fn new(lender: L, f: F) -> (r: FilterMap<L, F>)
        ensures
            r.lender == lender,
            r.f == f,
    {
        FilterMap { lender, f }
    }

    /// Returns the inner lender.
    pub fn into_inner(self) -> (r: L)
        ensures
            r == self.lender,
    {
        self.lender
    }

    /// Returns the inner lender and the closure.
    pub fn into_parts(self) -> (r: (L, F))
        ensures
            r == (self.lender, self.f),
    {
        (self.lender, self.f)
    }
}

/// Each of the first `k` elements of `s` was mapped to `None` by a call of
/// `f`.
pub open spec fn none_upto<A, B, F: FnMut(A) -> Option<B>>(f: F, s: Seq<A>, k: int) -> bool {
    forall|j: int| 0 <= j < k ==> #[trigger] call_ensures(f, (s[j],), None::<B>)
}

impl<L: Lender, F, B> FilterMap<L, F>
    where F: for<'all> FnMut(Lend<'all, L>) -> Option<B>,
{
    /// Hands out the value in the first `Some` that a call of the closure
    /// makes, after the lends its calls mapped to `None`, or `None` when every
    /// remaining lend was. The closure may give different results for equal
    /// lends: this says what each call it made gave.
    pub fn next(&mut self) -> (r: Option<B>)
        requires
            old(self).lender.wf(),
            forall|a: SpecLend<L>| call_requires(old(self).f, (a,)),
        ensures
            final(self).lender.wf(),
            final(self).f == old(self).f,
            r is None ==> none_upto(old(self).f, old(self).lender.lends(), old(self).lender.lends().len() as int)
                && final(self).lender.lends().len() == 0,
            r matches Some(y) ==> exists|k: int|
                0 < k <= old(self).lender.lends().len() && #[trigger] old(self).lender.lends().skip(k)
                    == final(self).lender.lends() && none_upto(old(self).f, old(self).lender.lends(), k - 1)
                    && call_ensures(old(self).f, (old(self).lender.lends()[k - 1],), Some(y)),
    {
        let ghost s0 = self.lender.lends();
        let ghost f0 = self.f;
        let ghost mut k: int = 0;
        proof {
            assert(s0.skip(0) =~= s0);
        }
        loop
            invariant
                self.lender.wf(),
                self.f == f0,
                f0 == old(self).f,
                forall|a: SpecLend<L>| call_requires(f0, (a,)),
                s0 == old(self).lender.lends(),
                0 <= k <= s0.len(),
                self.lender.lends() == s0.skip(k),
                none_upto(f0, s0, k),
            decreases self.lender.lends().len(),
        {
            let o = self.lender.next();
            match o {
                None => {
                    proof {
                        assert(s0.skip(k).len() == 0);
                    }
                    return None;
                },
                Some(x) => {
                    proof {
                        assert(x == s0[k]);
                        assert(s0.skip(k).drop_first() =~= s0.skip(k + 1));
                    }
                    let made = (self.f)(x);
                    proof {
                        assert(call_ensures(f0, (x,), made));
                        k = k + 1;
                    }
                    if let Some(y) = made {
                        return Some(y);
                    }
                },
            }
        }
    }
}

impl<'lend, L: Lender, F, B> Lending<'lend> for FilterMap<L, F>
    where F: FnMut(Lend<'lend, L>) -> Option<B>,
{
    type Lend = B;
}

impl<L: Lender, F, B> Lender for FilterMap<L, F>
    where F: for<'all> FnMut(Lend<'all, L>) -> Option<B>,
{
    open spec fn wf(&self) -> bool {
        self.lender.wf() && fn_pure::<SpecLend<L>, Option<B>, F>(self.f)
    }

    open spec fn lends(&self) -> Seq<B> {
        mapped_some::<SpecLend<L>, B, F>(self.f, self.lender.lends())
    }

    fn next(&mut self) -> (r: Option<B>)
        ensures
            final(self).f == old(self).f,
            forall|j: int|
                0 <= j < old(self).lender.lends().len() - final(self).lender.lends().len() ==> #[trigger] fn_called::<SpecLend<L>, Option<B>, F>(
                    old(self).f,
                    old(self).lender.lends()[j],
                ),
            exists|k: int| 0 <= k <= old(self).lender.lends().len() && #[trigger] old(self).lender.lends().skip(k) == final(self).lender.lends(),
    {
        let ghost s0 = self.lender.lends();
        let ghost mut k: int = 0;
        proof {
            assert(s0.skip(0) =~= s0);
        }
        loop
            invariant
                self.wf(),
                self.f == old(self).f,
                self.lends() == old(self).lends(),
                s0 == old(self).lender.lends(),
                0 <= k <= s0.len(),
                self.lender.lends() == s0.skip(k),
                forall|j: int| 0 <= j < k ==> #[trigger] fn_called::<SpecLend<L>, Option<B>, F>(self.f, s0[j]),
            decreases self.lender.lends().len(),
        {
            let ghost s = self.lender.lends();
            let o = self.lender.next();
            match o {
                None => {
                    proof {
                        assert(s0.skip(k).len() == 0);
                    }
                    return None;
                },
                Some(x) => {
                    let made = (self.f)(x);
                    proof {
                        assert(call_ensures(self.f, (x,), made));
                        assert(x == s0[k]);
                        assert(fn_called::<SpecLend<L>, Option<B>, F>(self.f, s0[k]));
                        assert(s0.skip(k).drop_first() =~= s0.skip(k + 1));
                        k = k + 1;
                    }
                    if let Some(y) = made {
                        proof {
                            let rest = mapped_some::<SpecLend<L>, B, F>(self.f, s.drop_first());
                            assert((seq![y] + rest).drop_first() == rest);
                        }
                        return Some(y);
                    }
                },
            }
        }
    }

    open spec fn hint(&self) -> (usize, Option<usize>) {
        (0, self.lender.hint().1)
    }

    fn size_hint(&self) -> (r: (usize, Option<usize>)) {
        proof {
            lemma_mapped_some_len::<SpecLend<L>, B, F>(self.f, self.lender.lends());
        }
        let (_, upper) = self.lender.size_hint();
        (0, upper)
    }
}

impl<L: DoubleEndedLender, F, B> DoubleEndedLender for FilterMap<L, F>
    where F: for<'all> FnMut(Lend<'all, L>) -> Option<B>,
{
    fn next_back(&mut self) -> (r: Option<B>) {
        loop
            invariant
                self.wf(),
                self.f == old(self).f,
                self.lends() == old(self).lends(),
            decreases self.lender.lends().len(),
        {
            let ghost s = self.lender.lends();
            proof {
                if s.len() > 0 {
                    lemma_mapped_some_back::<SpecLend<L>, B, F>(self.f, s);
                }
            }
            let o = self.lender.next_back();
            match o {
                None => {
                    return None;
                },
                Some(x) => {
                    if let Some(y) = (self.f)(x) {
                        proof {
                            let rest = mapped_some::<SpecLend<L>, B, F>(self.f, s.drop_last());
                            assert((rest + seq![y]).drop_last() == rest);
                        }
                        return Some(y);
                    } else {
                        proof {
                            let rest = mapped_some::<SpecLend<L>, B, F>(self.f, s.drop_last());
                            assert(rest + Seq::<B>::empty() == rest);
                        }
                    }
                },
            }
        }
    }
}

impl<L: FusedLender, F, B> FusedLender for FilterMap<L, F>
    where F: for<'all> FnMut(Lend<'all, L>) -> Option<B>,
{
}

} // verus!

verus! {

/// What a `FilterMap` is: well formed exactly when its lender is and its
/// closure is deterministic, and it hands out the values in the closure's
/// `Some` results on the lends.
pub proof fn lemma_filter_map_model<L: Lender, F, B>(m: FilterMap<L, F>)
    where F: for<'all> FnMut(Lend<'all, L>) -> Option<B>,
    ensures
        m.wf() == (m.lender.wf() && fn_pure::<SpecLend<L>, Option<B>, F>(m.f)),
        m.lends() == mapped_some::<SpecLend<L>, B, F>(m.f, m.lender.lends()),
{
}

} // verus!
