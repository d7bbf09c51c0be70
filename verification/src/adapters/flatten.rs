//! `Flatten` and `FlatMap`: the lends of a sequence of lenders, one lender
//! after the other.
use vstd::prelude::*;

use core::ops::ControlFlow;

use crate::spec::{fn_called, fn_out, next_post, try_fold_post, try_fold_ready, try_fold_trace};
use crate::traits::{FusedLender, Lend, Lender, Lending, SpecLend};

verus! {

/// The lends of the lenders in `s`, one lender after the other.
pub open spec fn flat_lends<I: Lender>(s: Seq<I>) -> Seq<SpecLend<I>>
    decreases s.len(),
{
    if s.len() == 0 {
        Seq::empty()
    } else {
        s[0].lends() + flat_lends(s.drop_first())
    }
}

/// Appending a lender appends its lends.
pub proof fn lemma_flat_lends_push<I: Lender>(s: Seq<I>, i: I)
    ensures
        flat_lends(s.push(i)) == flat_lends(s) + i.lends(),
    decreases s.len(),
{
    if s.len() == 0 {
        assert(s.push(i).drop_first() =~= Seq::<I>::empty());
        assert(s.push(i)[0] == i);
        assert(flat_lends(Seq::<I>::empty()) =~= Seq::<SpecLend<I>>::empty());
        assert(flat_lends(s.push(i)) =~= i.lends() + flat_lends(Seq::<I>::empty()));
        assert(flat_lends(s.push(i)) =~= i.lends());
    } else {
        assert(s.push(i).drop_first() =~= s.drop_first().push(i));
        lemma_flat_lends_push(s.drop_first(), i);
        assert(flat_lends(s.push(i)) =~= flat_lends(s) + i.lends());
    }
}

/// `f` can be called on every argument and every lender it makes is well
/// formed; nothing is asked of what the lenders hand out.
pub open spec fn maker_ready<A, I: Lender, F: FnMut(A) -> I>(f: F) -> bool {
    &&& forall|a: A| call_requires(f, (a,))
    &&& forall|a: A, i: I| #[trigger] call_ensures(f, (a,), i) ==> i.wf()
}

/// `made` lists lenders that calls of `f` made, one from each of the first
/// `made.len()` elements of `s`.
pub open spec fn made_from<A, I: Lender, F: FnMut(A) -> I>(f: F, s: Seq<A>, made: Seq<I>) -> bool {
    &&& made.len() <= s.len()
    &&& forall|j: int| 0 <= j < made.len() ==> call_ensures(f, (s[j],), #[trigger] made[j])
}

/// The lends of the lenders that `f` makes from the elements of `s`, one
/// lender after the other.
pub open spec fn flat_mapped<A, I: Lender, F: FnMut(A) -> I>(f: F, s: Seq<A>) -> Seq<SpecLend<I>>
    decreases s.len(),
{
    if s.len() == 0 {
        Seq::empty()
    } else {
        fn_out(f, s[0]).lends() + flat_mapped(f, s.drop_first())
    }
}

/// One step of `flat_mapped`, for callers that hold a concrete closure.
pub proof fn lemma_flat_mapped_step<A, I: Lender, F: FnMut(A) -> I>(f: F, s: Seq<A>)
    ensures
        flat_mapped(f, s) == if s.len() == 0 {
            Seq::empty()
        } else {
            fn_out(f, s[0]).lends() + flat_mapped(f, s.drop_first())
        },
{
}

/// `f` can be called on every argument, and every lender that it makes from
/// an argument is well formed and has the lends of `fn_out(f, a)`: the made
/// lenders may differ as values (each may own fresh storage) as long as they
/// hand out the same lends.
pub open spec fn maker_ok<A, I: Lender, F: FnMut(A) -> I>(f: F) -> bool {
    &&& forall|a: A| call_requires(f, (a,))
    &&& forall|a: A, i: I| #[trigger] call_ensures(f, (a,), i) ==> i.wf() && i.lends() == fn_out(f, a).lends()
}

/// Where the lend `x` that `next` handed out comes from, when it pulled `k`
/// lends of the underlying lender `s`: with `k == 0`, from the lender being
/// drained; otherwise from the lender made from the `k`-th lend, the lender
/// being drained and those made from the lends before it having been empty.
pub open spec fn flat_map_source<A, I: Lender, F: FnMut(A) -> I>(
    f: F,
    inner: Option<I>,
    s: Seq<A>,
    k: int,
    x: SpecLend<I>,
) -> bool {
    if k == 0 {
        front_lends(inner).len() > 0 && x == front_lends(inner)[0]
    } else {
        &&& front_lends(inner).len() == 0
        &&& forall|j: int| 0 <= j < k - 1 ==> (#[trigger] fn_out(f, s[j])).lends().len() == 0
        &&& fn_out(f, s[k - 1]).lends().len() > 0
        &&& x == fn_out(f, s[k - 1]).lends()[0]
    }
}

/// The lender being drained and every lender made from the lends of `s` have
/// nothing to hand out.
pub open spec fn flat_map_empty<A, I: Lender, F: FnMut(A) -> I>(f: F, inner: Option<I>, s: Seq<A>) -> bool {
    &&& front_lends(inner).len() == 0
    &&& forall|j: int| 0 <= j < s.len() ==> (#[trigger] fn_out(f, s[j])).lends().len() == 0
}

/// The lends still to come from the lender being drained, if any.
pub open spec fn front_lends<I: Lender>(inner: Option<I>) -> Seq<SpecLend<I>> {
    match inner {
        Some(i) => i.lends(),
        None => Seq::empty(),
    }
}

/// A lender that hands out the lends of the lenders that `f` makes from the
/// lends of the underlying lender, one lender after the other.
///
/// The lends of the made lenders must not borrow from them: the search for
/// the next lend moves from one made lender to the next.
pub struct FlatMap<L, F, I> {
    pub lender: L,
    pub f: F,
    /// The lender being drained.
    pub inner: Option<I>,
}

impl<L, F, I> FlatMap<L, F, I> {
    /// Maps each lend of `lender` to a lender with `f` and flattens them.
    pub fn new(lender: L, f: F) -> (r: FlatMap<L, F, I>)
        ensures
            r.lender == lender,
            r.f == f,
            r.inner is None,
    {
        FlatMap { lender, f, inner: None }
    }

    /// Returns the inner lender.
    pub fn into_inner(self) -> (r: L)
        ensures
            r == self.lender,
    {
        self.lender
    }

    /// Returns the inner lender and the closure.
    pub fn into_parts(self) -> (r: (L, F))
        ensures
            r == (self.lender, self.f),
    {
        (self.lender, self.f)
    }
}

impl<L, M, I, T> FlatMap<L, M, I>
    where
        L: Lender,
        M: for<'all> FnMut(Lend<'all, L>) -> I,
        I: Lender + for<'all> Lending<'all, Lend = T>,
{
    /// Hands out the next lend of the lender being drained, moving on to the
    /// lender that the closure makes from the next lend of the underlying
    /// lender while the current one is empty. The closure may make different
    /// lenders from equal lends: this speaks of the lenders its calls made.
    pub fn next(&mut self) -> (r: Option<T>)
        requires
            old(self).lender.wf(),
            maker_ready::<SpecLend<L>, I, M>(old(self).f),
            old(self).inner matches Some(i) ==> i.wf(),
        ensures
            final(self).lender.wf(),
            final(self).f == old(self).f,
            final(self).inner matches Some(i) ==> i.wf(),
            exists|made: Seq<I>|
                #[trigger] made_from(old(self).f, old(self).lender.lends(), made) && final(self).lender.lends()
                    == old(self).lender.lends().skip(made.len() as int) && next_post(
                    front_lends(old(self).inner) + flat_lends(made),
                    front_lends(final(self).inner),
                    r,
                ) && (r is None ==> made.len() == old(self).lender.lends().len() && final(self).inner is None),
    {
        let ghost s0 = self.lender.lends();
        let ghost f0 = self.f;
        let ghost mut made: Seq<I> = Seq::empty();
        let ghost mut q: Seq<T> = front_lends(self.inner);
        proof {
            assert(s0.skip(0) =~= s0);
            assert(q =~= front_lends(old(self).inner) + flat_lends(made));
        }
        loop
            invariant
                self.lender.wf(),
                self.f == f0,
                f0 == old(self).f,
                maker_ready::<SpecLend<L>, I, M>(f0),
                self.inner matches Some(i) ==> i.wf(),
                s0 == old(self).lender.lends(),
                made_from(f0, s0, made),
                self.lender.lends() == s0.skip(made.len() as int),
                q == front_lends(old(self).inner) + flat_lends(made),
                front_lends(self.inner) == q,
            decreases self.lender.lends().len(),
        {
            let cur = self.inner.take();
            if let Some(mut inner) = cur {
                match inner.next() {
                    Some(x) => {
                        self.inner = Some(inner);
                        return Some(x);
                    },
                    None => {},
                }
            }
            proof {
                assert(q.len() == 0);
            }
            match self.lender.next() {
                None => {
                    proof {
                        assert(s0.skip(made.len() as int).len() == 0);
                        assert(q.len() == 0);
                    }
                    return None;
                },
                Some(a) => {
                    let i = (self.f)(a);
                    proof {
                        assert(call_ensures(f0, (a,), i));
                        assert(a == s0[made.len() as int]);
                        assert(s0.skip(made.len() as int).drop_first() =~= s0.skip(made.len() + 1 as int));
                        lemma_flat_lends_push(made, i);
                        let old_made = made;
                        made = made.push(i);
                        assert forall|j: int| 0 <= j < made.len() implies call_ensures(f0, (s0[j],), #[trigger] made[j]) by {
                            if j < old_made.len() {
                                assert(made[j] == old_made[j]);
                            }
                        }
                        q = q + i.lends();
                        assert(q =~= front_lends(old(self).inner) + flat_lends(made));
                    }
                    self.inner = Some(i);
                },
            }
        }
    }

    /// Folds `f` over the rest of the lender being drained and then over the
    /// lends of each lender that the closure makes from the next lend of the
    /// underlying lender. The closure may make different lenders from equal
    /// lends: this speaks of the lenders its calls made. On a break, the rest
    /// of the interrupted lender stays to be handed out; on completion the
    /// underlying lender is drained and no lender is left.
    pub fn try_fold<B, R, F>(&mut self, init: B, f: F) -> (r: ControlFlow<R, B>)
        where
            F: FnMut(B, T) -> ControlFlow<R, B>,
        requires
            old(self).lender.wf(),
            maker_ready::<SpecLend<L>, I, M>(old(self).f),
            old(self).inner matches Some(i) ==> i.wf(),
            try_fold_ready::<B, R, T, F>(f),
        ensures
            final(self).lender.wf(),
            final(self).f == old(self).f,
            final(self).inner matches Some(i) ==> i.wf(),
            exists|made: Seq<I>|
                #[trigger] made_from(old(self).f, old(self).lender.lends(), made) && final(self).lender.lends()
                    == old(self).lender.lends().skip(made.len() as int) && try_fold_post(
                    f,
                    init,
                    front_lends(old(self).inner) + flat_lends(made),
                    front_lends(final(self).inner),
                    r,
                ) && (r is Continue ==> made.len() == old(self).lender.lends().len() && final(self).inner is None),
    {
        let ghost s0 = self.lender.lends();
        let ghost f0 = self.f;
        let ghost mut made: Seq<I> = Seq::empty();
        let ghost mut q: Seq<T> = front_lends(self.inner);
        let mut acc = init;
        let mut g = f;
        let ghost mut accs: Seq<B> = seq![init];
        proof {
            assert(s0.skip(0) =~= s0);
            assert(q =~= front_lends(old(self).inner) + flat_lends(made));
            assert(q.skip(0) =~= q);
        }
        loop
            invariant
                self.lender.wf(),
                self.f == f0,
                f0 == old(self).f,
                maker_ready::<SpecLend<L>, I, M>(f0),
                self.inner matches Some(i) ==> i.wf(),
                s0 == old(self).lender.lends(),
                made_from(f0, s0, made),
                self.lender.lends() == s0.skip(made.len() as int),
                q == front_lends(old(self).inner) + flat_lends(made),
                g == f,
                try_fold_ready::<B, R, T, F>(f),
                try_fold_trace(f, init, q, accs),
                acc == accs.last(),
                front_lends(self.inner) == q.skip(accs.len() - 1),
            decreases self.lender.lends().len(), front_lends(self.inner).len(),
        {
            let ghost k = accs.len() - 1;
            let cur = self.inner.take();
            let mut pull = true;
            if let Some(mut inner) = cur {
                match inner.next() {
                    Some(x) => {
                        proof {
                            assert(x == q[k]);
                            assert(q.skip(k).drop_first() =~= q.skip(k + 1));
                        }
                        let c = g(acc, x);
                        let ghost c0 = c;
                        self.inner = Some(inner);
                        match c {
                            ControlFlow::Continue(b) => {
                                acc = b;
                                proof {
                                    accs = accs.push(acc);
                                }
                                pull = false;
                            },
                            ControlFlow::Break(e) => {
                                let c = ControlFlow::Break(e);
                                proof {
                                    assert(c == c0);
                                    assert(try_fold_trace(f, init, q, accs));
                                    assert(call_ensures(f, (accs.last(), q[k]), c));
                                    assert(try_fold_post(f, init, q, front_lends(self.inner), c));
                                    assert(made_from(f0, s0, made));
                                }
                                return c;
                            },
                        }
                    },
                    None => {
                        proof {
                            assert(q.skip(k).len() == 0);
                        }
                    },
                }
            }
            if pull {
                proof {
                    assert(q.skip(k).len() == 0);
                    assert(k == q.len());
                }
                match self.lender.next() {
                    None => {
                        proof {
                            assert(s0.skip(made.len() as int).len() == 0);
                            assert(try_fold_post(f, init, q, front_lends(self.inner), ControlFlow::<R, B>::Continue(acc)));
                            assert(made_from(f0, s0, made));
                        }
                        return ControlFlow::Continue(acc);
                    },
                    Some(a) => {
                        let i = (self.f)(a);
                        proof {
                            assert(call_ensures(f0, (a,), i));
                            assert(a == s0[made.len() as int]);
                            assert(s0.skip(made.len() as int).drop_first() =~= s0.skip(made.len() + 1 as int));
                            lemma_flat_lends_push(made, i);
                            let old_made = made;
                            made = made.push(i);
                            assert forall|j: int| 0 <= j < made.len() implies call_ensures(f0, (s0[j],), #[trigger] made[j]) by {
                                if j < old_made.len() {
                                    assert(made[j] == old_made[j]);
                                }
                            }
                            let old_q = q;
                            q = q + i.lends();
                            assert(q =~= front_lends(old(self).inner) + flat_lends(made));
                            assert(try_fold_trace(f, init, q, accs)) by {
                                assert forall|j: int| 0 <= j < accs.len() - 1 implies #[trigger] q[j] == old_q[j] by {}
                            }
                            assert(q.skip(k) =~= i.lends());
                        }
                        self.inner = Some(i);
                    },
                }
            }
        }
    }
}

impl<'lend, L, F, I: Lender> Lending<'lend> for FlatMap<L, F, I> {
    type Lend = Lend<'lend, I>;
}

impl<L, M, I, T> Lender for FlatMap<L, M, I>
    where
        L: Lender,
        M: for<'all> FnMut(Lend<'all, L>) -> I,
        I: Lender + for<'all> Lending<'all, Lend = T>,
{
    open spec fn wf(&self) -> bool {
        &&& self.lender.wf()
        &&& maker_ok::<SpecLend<L>, I, M>(self.f)
        &&& self.inner matches Some(i) ==> i.wf()
    }

    open spec fn lends(&self) -> Seq<T> {
        front_lends(self.inner) + flat_mapped::<SpecLend<L>, I, M>(self.f, self.lender.lends())
    }

    fn next(&mut self) -> (r: Option<T>)
        ensures
            r is None ==> final(self).inner is None && final(self).lender.lends().len() == 0,
            final(self).f == old(self).f,
            exists|k: int|
                0 <= k <= old(self).lender.lends().len() && #[trigger] old(self).lender.lends().skip(k)
                    == final(self).lender.lends() && (old(self).inner is None && old(self).lender.lends().len()
                    > 0 ==> k > 0) && (forall|j: int|
                    0 <= j < k ==> #[trigger] fn_called::<SpecLend<L>, I, M>(old(self).f, old(self).lender.lends()[j]))
                    && (r matches Some(x) ==> flat_map_source::<SpecLend<L>, I, M>(
                    old(self).f,
                    old(self).inner,
                    old(self).lender.lends(),
                    k,
                    x,
                )) && (r is None ==> k == old(self).lender.lends().len() && flat_map_empty::<SpecLend<L>, I, M>(
                    old(self).f,
                    old(self).inner,
                    old(self).lender.lends(),
                )),
    {
        let ghost s0 = self.lender.lends();
        let ghost mut k: int = 0;
        proof {
            assert(s0.skip(0) =~= s0);
        }
        loop
            invariant
                self.wf(),
                self.f == old(self).f,
                self.lends() == old(self).lends(),
                s0 == old(self).lender.lends(),
                0 <= k <= s0.len(),
                self.lender.lends() == s0.skip(k),
                forall|j: int| 0 <= j < k ==> #[trigger] fn_called::<SpecLend<L>, I, M>(self.f, s0[j]),
                k == 0 ==> self.inner == old(self).inner,
                k > 0 ==> front_lends(old(self).inner).len() == 0,
                k > 0 ==> forall|j: int| 0 <= j < k - 1 ==> (#[trigger] fn_out::<SpecLend<L>, I, M>(self.f, s0[j])).lends().len() == 0,
                k > 0 ==> (self.inner matches Some(i) && i.lends() == fn_out::<SpecLend<L>, I, M>(self.f, s0[k - 1]).lends()),
            decreases self.lender.lends().len(),
        {
            let ghost rest = flat_mapped::<SpecLend<L>, I, M>(self.f, self.lender.lends());
            let ghost was = self.inner;
            let cur = self.inner.take();
            if let Some(mut inner) = cur {
                let ghost before = inner.lends();
                let r = inner.next();
                if let Some(x) = r {
                    self.inner = Some(inner);
                    proof {
                        assert((before + rest).drop_first() == inner.lends() + rest);
                    }
                    return Some(x);
                }
                assert(before + rest == rest);
            }
            proof {
                assert(front_lends(was).len() == 0);
                if k > 0 {
                    assert(fn_out::<SpecLend<L>, I, M>(self.f, s0[k - 1]).lends().len() == 0);
                    assert forall|j: int| 0 <= j < k implies (#[trigger] fn_out::<SpecLend<L>, I, M>(self.f, s0[j])).lends().len() == 0 by {
                        if j < k - 1 {
                        }
                    }
                }
            }
            let ghost s = self.lender.lends();
            let o = self.lender.next();
            match o {
                None => {
                    proof {
                        assert(s0.skip(k).len() == 0);
                    }
                    return None;
                },
                Some(a) => {
                    let i = (self.f)(a);
                    proof {
                        assert(call_ensures(self.f, (a,), i));
                        assert(a == s0[k]);
                        assert(fn_called::<SpecLend<L>, I, M>(self.f, s0[k]));
                        assert(s0.skip(k).drop_first() =~= s0.skip(k + 1));
                        k = k + 1;
                    }
                    self.inner = Some(i);
                },
            }
        }
    }

    open spec fn hint(&self) -> (usize, Option<usize>) {
        match self.inner {
            Some(inner) => (inner.hint().0, None),
            None => (0, None),
        }
    }

    fn size_hint(&self) -> (r: (usize, Option<usize>)) {
        match &self.inner {
            Some(inner) => (inner.size_hint().0, None),
            None => (0, None),
        }
    }

    fn try_fold<B, R, F>(&mut self, init: B, f: F) -> (r: ControlFlow<R, B>)
        where
            F: FnMut(B, Lend<'_, Self>) -> ControlFlow<R, B>,
        ensures
            r is Continue ==> final(self).inner is None && final(self).lender.lends().len() == 0,
            final(self).f == old(self).f,
            exists|m: int|
                0 <= m <= old(self).lender.lends().len() && #[trigger] old(self).lender.lends().skip(m)
                    == final(self).lender.lends() && forall|j: int|
                    0 <= j < m ==> #[trigger] fn_called::<SpecLend<L>, I, M>(old(self).f, old(self).lender.lends()[j]),
    {
        let ghost orig = self.lends();
        let ghost s0 = self.lender.lends();
        let ghost mut m: int = 0;
        let mut acc = init;
        let mut g = f;
        let ghost mut accs: Seq<B> = seq![init];
        proof {
            assert(s0.skip(0) =~= s0);
        }
        loop
            invariant
                self.wf(),
                orig == old(self).lends(),
                g == f,
                try_fold_ready::<B, R, SpecLend<Self>, F>(f),
                try_fold_trace(f, init, orig, accs),
                acc == accs.last(),
                self.lends() == orig.skip(accs.len() - 1),
                self.f == old(self).f,
                s0 == old(self).lender.lends(),
                0 <= m <= s0.len(),
                self.lender.lends() == s0.skip(m),
                forall|j: int| 0 <= j < m ==> #[trigger] fn_called::<SpecLend<L>, I, M>(self.f, s0[j]),
            decreases self.lends().len(),
        {
            let ghost k = accs.len() - 1;
            let ghost pre = self.lender.lends();
            let step = Lender::next(self);
            proof {
                let kk = choose|kk: int|
                    0 <= kk <= pre.len() && #[trigger] pre.skip(kk) == self.lender.lends() && forall|j: int|
                        0 <= j < kk ==> #[trigger] fn_called::<SpecLend<L>, I, M>(self.f, pre[j]);
                assert(s0.skip(m).skip(kk) =~= s0.skip(m + kk));
                assert forall|j: int| 0 <= j < m + kk implies #[trigger] fn_called::<SpecLend<L>, I, M>(self.f, s0[j]) by {
                    if j >= m {
                        assert(s0[j] == pre[j - m]);
                    }
                }
                m = m + kk;
            }
            match step {
                None => {
                    assert(try_fold_trace(f, init, orig, accs));
                    assert(k == orig.len());
                    return ControlFlow::Continue(acc);
                },
                Some(x) => {
                    assert(x == orig[k]);
                    let c = g(acc, x);
                    let ghost c0 = c;
                    match c {
                        ControlFlow::Continue(b) => {
                            acc = b;
                            proof {
                                accs = accs.push(acc);
                                assert(orig.skip(k).drop_first() == orig.skip(k + 1));
                            }
                        },
                        ControlFlow::Break(e) => {
                            let c = ControlFlow::Break(e);
                            proof {
                                assert(orig.skip(k).drop_first() == orig.skip(k + 1));
                                assert(try_fold_trace(f, init, orig, accs));
                                assert(call_ensures(f, (accs.last(), orig[k]), c0));
                                assert(c == c0);
                            }
                            return c;
                        },
                    }
                },
            }
        }
    }
}

impl<L, F, I, T> FusedLender for FlatMap<L, F, I>
    where
        L: FusedLender,
        F: for<'all> FnMut(Lend<'all, L>) -> I,
        I: Lender + for<'all> Lending<'all, Lend = T>,
{
}

/// A lender that hands out the lends of the lenders that the underlying
/// lender hands out, one lender after the other.
///
/// The lends of those lenders must not borrow from them: the search for the
/// next lend moves from one lender to the next.
pub struct Flatten<L, I> {
    pub lender: L,
    /// The lender being drained.
    pub inner: Option<I>,
}

impl<L, I> Flatten<L, I> {
    /// Flattens the lenders that `lender` hands out.
    pub fn new(lender: L) -> (r: Flatten<L, I>)
        ensures
            r.lender == lender,
            r.inner is None,
    {
        Flatten { lender, inner: None }
    }

    /// Returns the inner lender.
    pub fn into_inner(self) -> (r: L)
        ensures
            r == self.lender,
    {
        self.lender
    }
}

impl<'lend, L, I: Lender> Lending<'lend> for Flatten<L, I> {
    type Lend = Lend<'lend, I>;
}

impl<L, I, T> Lender for Flatten<L, I>
    where
        L: Lender + for<'all> Lending<'all, Lend = I>,
        I: Lender + for<'all> Lending<'all, Lend = T>,
{
    open spec fn wf(&self) -> bool {
        &&& self.lender.wf()
        &&& forall|i: int| 0 <= i < self.lender.lends().len() ==> (#[trigger] self.lender.lends()[i]).wf()
        &&& self.inner matches Some(i) ==> i.wf()
    }

    open spec fn lends(&self) -> Seq<T> {
        front_lends(self.inner) + flat_lends::<I>(self.lender.lends())
    }

    fn next(&mut self) -> (r: Option<T>)
        ensures
            r is None ==> final(self).inner is None && final(self).lender.lends().len() == 0,
    {
        loop
            invariant
                self.wf(),
                self.lends() == old(self).lends(),
            decreases self.lender.lends().len(),
        {
            let ghost rest = flat_lends::<I>(self.lender.lends());
            let cur = self.inner.take();
            if let Some(mut inner) = cur {
                let ghost before = inner.lends();
                let r = inner.next();
                if let Some(x) = r {
                    self.inner = Some(inner);
                    proof {
                        assert((before + rest).drop_first() == inner.lends() + rest);
                    }
                    return Some(x);
                }
                assert(before + rest == rest);
            }
            let ghost s = self.lender.lends();
            let o = self.lender.next();
            match o {
                None => {
                    return None;
                },
                Some(i) => {
                    proof {
                        assert(s[0].wf());
                        assert forall|k: int| 0 <= k < self.lender.lends().len() implies (#[trigger] self.lender.lends()[k]).wf() by {
                            assert(self.lender.lends()[k] == s[k + 1]);
                        }
                    }
                    self.inner = Some(i);
                },
            }
        }
    }

    open spec fn hint(&self) -> (usize, Option<usize>) {
        match self.inner {
            Some(inner) => (inner.hint().0, None),
            None => (0, None),
        }
    }

    fn size_hint(&self) -> (r: (usize, Option<usize>)) {
        match &self.inner {
            Some(inner) => (inner.size_hint().0, None),
            None => (0, None),
        }
    }

    fn try_fold<B, R, F>(&mut self, init: B, f: F) -> (r: ControlFlow<R, B>)
        where
            F: FnMut(B, Lend<'_, Self>) -> ControlFlow<R, B>,
        ensures
            r is Continue ==> final(self).inner is None && final(self).lender.lends().len() == 0,
    {
        let ghost orig = self.lends();
        let mut acc = init;
        let mut g = f;
        let ghost mut accs: Seq<B> = seq![init];
        loop
            invariant
                self.wf(),
                orig == old(self).lends(),
                g == f,
                try_fold_ready::<B, R, SpecLend<Self>, F>(f),
                try_fold_trace(f, init, orig, accs),
                acc == accs.last(),
                self.lends() == orig.skip(accs.len() - 1),
            decreases self.lends().len(),
        {
            let ghost k = accs.len() - 1;
            match self.next() {
                None => {
                    assert(try_fold_trace(f, init, orig, accs));
                    assert(k == orig.len());
                    return ControlFlow::Continue(acc);
                },
                Some(x) => {
                    assert(x == orig[k]);
                    let c = g(acc, x);
                    let ghost c0 = c;
                    match c {
                        ControlFlow::Continue(b) => {
                            acc = b;
                            proof {
                                accs = accs.push(acc);
                                assert(orig.skip(k).drop_first() == orig.skip(k + 1));
                            }
                        },
                        ControlFlow::Break(e) => {
                            let c = ControlFlow::Break(e);
                            proof {
                                assert(orig.skip(k).drop_first() == orig.skip(k + 1));
                                assert(try_fold_trace(f, init, orig, accs));
                                assert(call_ensures(f, (accs.last(), orig[k]), c0));
                                assert(c == c0);
                            }
                            return c;
                        },
                    }
                },
            }
        }
    }
}

impl<L, I, T> FusedLender for Flatten<L, I>
    where
        L: FusedLender + for<'all> Lending<'all, Lend = I>,
        I: Lender + for<'all> Lending<'all, Lend = T>,
{
}

} // verus!

verus! {

/// What a `FlatMap` is: well formed exactly when its lender is, its closure
/// makes well-formed lenders with the same lends from the same lend, and the
/// lender being drained, if any, is well formed; it hands out the rest of that
/// lender and then the lends of the lenders made from its lender's lends.
pub proof fn lemma_flat_map_model<L, M, I, T>(m: FlatMap<L, M, I>)
    where
        L: Lender,
        M: for<'all> FnMut(Lend<'all, L>) -> I,
        I: Lender + for<'all> Lending<'all, Lend = T>,
    ensures
        m.wf() == (m.lender.wf() && maker_ok::<SpecLend<L>, I, M>(m.f) && (m.inner matches Some(i) ==> i.wf())),
        m.lends() == front_lends(m.inner) + flat_mapped::<SpecLend<L>, I, M>(m.f, m.lender.lends()),
{
}

} // verus!
