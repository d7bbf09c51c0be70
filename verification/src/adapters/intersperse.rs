//! `Intersperse` and `IntersperseWith`: a separator between each two
//! adjacent lends.
use vstd::prelude::*;
use vstd::pervasive::strictly_cloned;
use core::ops::ControlFlow;

use crate::adapters::peekable::Peekable;
use crate::spec::{fold_ready, fold_trace, hint_ok, min_nat, next_post, try_fold_ready, try_fold_trace};
use crate::traits::{FusedLender, Lend, Lender, Lending};

verus! {

/// Each element of `r` with `sep` in front of it.
pub open spec fn sep_before<T>(r: Seq<T>, sep: T) -> Seq<T>
    decreases r.len(),
{
    if r.len() == 0 {
        Seq::empty()
    } else {
        seq![sep, r[0]] + sep_before(r.drop_first(), sep)
    }
}

/// The elements of `r` with `sep` between each two adjacent ones.
pub open spec fn interleaved<T>(r: Seq<T>, sep: T) -> Seq<T> {
    if r.len() == 0 {
        Seq::empty()
    } else {
        seq![r[0]] + sep_before(r.drop_first(), sep)
    }
}

/// What an interspersing lender in this state still hands out: `r` with a
/// separator in front of each element when one is due next, or between each
/// two otherwise.
pub open spec fn spread<T>(r: Seq<T>, sep: T, needs_sep: bool) -> Seq<T> {
    if needs_sep {
        sep_before(r, sep)
    } else {
        interleaved(r, sep)
    }
}

/// `sep_before` doubles the length.
pub proof fn lemma_sep_before_len<T>(r: Seq<T>, sep: T)
    ensures
        sep_before(r, sep).len() == 2 * r.len(),
    decreases r.len(),
{
    if r.len() > 0 {
        lemma_sep_before_len(r.drop_first(), sep);
    }
}

/// The separator that `g` makes when it is deterministic.
pub open spec fn sep_out<T, G: FnMut() -> T>(g: G) -> T {
    choose|t: T| call_ensures(g, (), t)
}

/// `g` can always be called and always makes the same separator.
pub open spec fn sep_pure<T, G: FnMut() -> T>(g: G) -> bool {
    &&& call_requires(g, ())
    &&& forall|t: T| call_ensures(g, (), t) ==> t == sep_out(g)
}

/// How many lends an interspersing lender hands out for `n` lends of the
/// underlying lender: twice as many when a separator is due first, and one
/// fewer otherwise (none for none).
pub open spec fn doubled(n: nat, needs_sep: bool) -> nat {
    if needs_sep {
        2 * n
    } else if n == 0 {
        0
    } else {
        (2 * n - 1) as nat
    }
}

/// The size hint of an interspersing lender whose underlying lender hints
/// `inner`: the doubled bounds, the lower one saturating at `usize::MAX` and
/// the upper one dropped when it does not fit.
pub open spec fn intersperse_hint(inner: (usize, Option<usize>), needs_sep: bool) -> (usize, Option<usize>) {
    (
        min_nat(doubled(inner.0 as nat, needs_sep), usize::MAX as nat) as usize,
        match inner.1 {
            Some(h) => if doubled(h as nat, needs_sep) <= usize::MAX {
                Some(doubled(h as nat, needs_sep) as usize)
            } else {
                None
            },
            None => None,
        },
    )
}

/// The size hint of an interspersing lender, from that of the lends still to
/// come from the underlying lender.
pub fn intersperse_size_hint(inner: (usize, Option<usize>), needs_sep: bool) -> (r: (usize, Option<usize>))
    ensures
        r == intersperse_hint(inner, needs_sep),
        r.0 == min_nat(doubled(inner.0 as nat, needs_sep), usize::MAX as nat),
        r.1 == match inner.1 {
            Some(h) => if doubled(h as nat, needs_sep) <= usize::MAX {
                Some(doubled(h as nat, needs_sep) as usize)
            } else {
                None
            },
            None => None,
        },
        forall|n: nat| #[trigger] hint_ok(n, inner) ==> hint_ok(
            if needs_sep {
                2 * n
            } else if n == 0 {
                0
            } else {
                (2 * n - 1) as nat
            },
            r,
        ),
{
    let (lo, hi) = inner;
    let next_is_elem: usize = if needs_sep {
        0
    } else {
        1
    };
    let upper = match hi {
        Some(h) => h.saturating_sub(next_is_elem).checked_add(h),
        None => None,
    };
    (lo.saturating_sub(next_is_elem).saturating_add(lo), upper)
}

/// Every clone of `x` is `x` itself, as for integers, `bool` and `char`.
pub open spec fn clone_exact<T: Clone>(x: T) -> bool {
    forall|c: T| #[trigger] strictly_cloned(x, c) ==> c == x
}

/// A lender that hands out the lends of the underlying lender with a clone of
/// `separator` between each two adjacent ones.
///
/// The lends must not borrow from the underlying lender, which is made
/// peekable.
pub struct Intersperse<L, T> {
    pub lender: Peekable<L, T>,
    pub separator: T,
    /// Whether the separator comes before the next lend.
    pub needs_sep: bool,
}

impl<L, T> Intersperse<L, T> {
    /// Puts `separator` between the lends of `lender`.
    pub fn new(lender: L, separator: T) -> (r: Intersperse<L, T>)
        ensures
            r.lender.lender == lender,
            r.lender.peeked is None,
            r.separator == separator,
            !r.needs_sep,
    {
        Intersperse { lender: Peekable::new(lender), separator, needs_sep: false }
    }

    /// Returns the inner lender; a peeked lend is dropped.
    pub fn into_inner(self) -> (r: L)
        ensures
            r == self.lender.lender,
    {
        self.lender.into_inner()
    }

    /// Returns the inner lender and the separator.
    pub fn into_parts(self) -> (r: (L, T))
        ensures
            r == (self.lender.lender, self.separator),
    {
        (self.lender.into_inner(), self.separator)
    }
}

impl<L, T: Clone> Intersperse<L, T>
    where
        L: Lender + for<'all> Lending<'all, Lend = T>,
{
    /// Hands out a clone of the separator when one is due and a lend follows,
    /// and otherwise the next lend. The clone need not equal the separator:
    /// this says only that it is a clone of it.
    pub fn next(&mut self) -> (r: Option<T>)
        requires
            old(self).lender.wf(),
        ensures
            final(self).lender.wf(),
            final(self).separator == old(self).separator,
            old(self).needs_sep && old(self).lender.lends().len() > 0 ==> (r matches Some(y) && strictly_cloned(
                old(self).separator,
                y,
            )) && final(self).lender.lends() == old(self).lender.lends() && !final(self).needs_sep,
            !(old(self).needs_sep && old(self).lender.lends().len() > 0) ==> next_post(
                old(self).lender.lends(),
                final(self).lender.lends(),
                r,
            ) && final(self).needs_sep,
    {
        if self.needs_sep && self.lender.peek().is_some() {
            self.needs_sep = false;
            let y = self.separator.clone();
            Some(y)
        } else {
            self.needs_sep = true;
            self.lender.next()
        }
    }

    /// Folds `f` over the lends with a clone of the separator between each
    /// two, one clone per separator folded. On a break on a separator the lend
    /// after it stays to be handed out.
    pub fn try_fold<B, R, F>(&mut self, init: B, f: F) -> (r: ControlFlow<R, B>)
        where
            F: FnMut(B, T) -> ControlFlow<R, B>,
        requires
            old(self).lender.wf(),
            try_fold_ready::<B, R, T, F>(f),
        ensures
            final(self).lender.wf(),
            final(self).separator == old(self).separator,
            exists|items: Seq<T>, accs: Seq<B>|
                #[trigger] spread_fold_trace(
                    cloned_from(old(self).separator),
                    f,
                    init,
                    old(self).lender.lends(),
                    old(self).needs_sep,
                    items,
                    accs,
                ) && {
                    let s = old(self).lender.lends();
                    let ns = old(self).needs_sep;
                    let k = items.len() as int;
                    ||| k == doubled(s.len(), ns) && r == ControlFlow::<R, B>::Continue(accs.last())
                        && final(self).lender.lends().len() == 0
                    ||| k < doubled(s.len(), ns) && r is Break && exists|y: T|
                        slot_item(cloned_from(old(self).separator), s, ns, k, y) && #[trigger] call_ensures(f, (accs.last(), y), r)
                        && if sep_slot(ns, k) {
                        final(self).lender.lends() == s.skip(slot_lend(ns, k)) && !final(self).needs_sep
                    } else {
                        final(self).lender.lends() == s.skip(slot_lend(ns, k) + 1) && final(self).needs_sep
                    }
                },
    {
        let ghost s0 = self.lender.lends();
        let ghost ns0 = self.needs_sep;
        let ghost g0 = self.separator;
        let mut acc = init;
        let mut g = f;
        let ghost mut items: Seq<T> = Seq::empty();
        let ghost mut accs: Seq<B> = seq![init];
        let ghost mut m: int = 0;
        if !self.needs_sep {
            match self.lender.next() {
                Some(x) => {
                    proof {
                        assert(x == s0[0]);
                        assert(slot_item(cloned_from(g0), s0, ns0, 0, x));
                    }
                    let c = g(acc, x);
                    let ghost c0 = c;
                    match c {
                        ControlFlow::Continue(v) => {
                            acc = v;
                            proof {
                                items = items.push(x);
                                accs = accs.push(acc);
                                m = 1;
                                assert(s0.drop_first() =~= s0.skip(1));
                            }
                        },
                        ControlFlow::Break(e) => {
                            self.needs_sep = true;
                            let c = ControlFlow::Break(e);
                            proof {
                                assert(c == c0);
                                assert(s0.drop_first() =~= s0.skip(1));
                                assert(spread_fold_trace(cloned_from(g0), f, init, s0, ns0, items, accs));
                                assert(call_ensures(f, (accs.last(), x), c));
                            }
                            return c;
                        },
                    }
                },
                None => {
                    proof {
                        assert(spread_fold_trace(cloned_from(g0), f, init, s0, ns0, items, accs));
                    }
                    return ControlFlow::Continue(acc);
                },
            }
            self.needs_sep = true;
        } else {
            proof {
                assert(s0.skip(0) =~= s0);
            }
        }
        loop
            invariant
                self.lender.wf(),
                self.needs_sep,
                self.separator == g0,
                g0 == old(self).separator,
                s0 == old(self).lender.lends(),
                ns0 == old(self).needs_sep,
                g == f,
                try_fold_ready::<B, R, T, F>(f),
                0 <= m <= s0.len(),
                !ns0 ==> m >= 1,
                items.len() == if ns0 { 2 * m } else { 2 * m - 1 },
                spread_fold_trace(cloned_from(g0), f, init, s0, ns0, items, accs),
                acc == accs.last(),
                self.lender.lends() == s0.skip(m),
            decreases self.lender.lends().len(),
        {
            let ghost k = items.len() as int;
            proof {
                assert(sep_slot(ns0, k));
                assert(slot_lend(ns0, k) == m);
            }
            match self.lender.next() {
                None => {
                    proof {
                        assert(s0.skip(m).len() == 0);
                        assert(m == s0.len());
                    }
                    return ControlFlow::Continue(acc);
                },
                Some(x) => {
                    proof {
                        assert(x == s0[m]);
                        assert(s0.skip(m).drop_first() =~= s0.skip(m + 1));
                    }
                    let y = self.separator.clone();
                    proof {
                        assert(strictly_cloned(g0, y));
                        assert(cloned_from(g0)(y));
                        assert(slot_item(cloned_from(g0), s0, ns0, k, y));
                    }
                    let c = g(acc, y);
                    let ghost c0 = c;
                    match c {
                        ControlFlow::Break(e) => {
                            self.lender.peeked = Some(Some(x));
                            self.needs_sep = false;
                            let c = ControlFlow::Break(e);
                            proof {
                                assert(c == c0);
                                assert(self.lender.lends() =~= s0.skip(m));
                                assert(call_ensures(f, (accs.last(), y), c));
                            }
                            return c;
                        },
                        ControlFlow::Continue(v) => {
                            proof {
                                assert(!sep_slot(ns0, k + 1));
                                assert(slot_lend(ns0, k + 1) == m);
                                assert(slot_item(cloned_from(g0), s0, ns0, k + 1, x));
                                let old_items = items;
                                let old_accs = accs;
                                items = items.push(y);
                                accs = accs.push(v);
                                assert forall|j: int| 0 <= j < items.len() implies slot_item(cloned_from(g0), s0, ns0, j, #[trigger] items[j])
                                    && call_ensures(f, (accs[j], items[j]), ControlFlow::<R, B>::Continue(accs[j + 1])) by {
                                    if j < k {
                                        assert(items[j] == old_items[j]);
                                        assert(accs[j] == old_accs[j]);
                                        assert(accs[j + 1] == old_accs[j + 1]);
                                    }
                                }
                            }
                            let c = g(v, x);
                            let ghost c1 = c;
                            match c {
                                ControlFlow::Continue(w) => {
                                    acc = w;
                                    proof {
                                        let old_items = items;
                                        let old_accs = accs;
                                        items = items.push(x);
                                        accs = accs.push(w);
                                        assert forall|j: int| 0 <= j < items.len() implies slot_item(cloned_from(g0), s0, ns0, j, #[trigger] items[j])
                                            && call_ensures(f, (accs[j], items[j]), ControlFlow::<R, B>::Continue(accs[j + 1])) by {
                                            if j < k + 1 {
                                                assert(items[j] == old_items[j]);
                                                assert(accs[j] == old_accs[j]);
                                                assert(accs[j + 1] == old_accs[j + 1]);
                                            }
                                        }
                                        m = m + 1;
                                    }
                                },
                                ControlFlow::Break(e) => {
                                    let c = ControlFlow::Break(e);
                                    proof {
                                        assert(c == c1);
                                        assert(call_ensures(f, (accs.last(), x), c));
                                        assert(spread_fold_trace(cloned_from(g0), f, init, s0, ns0, items, accs));
                                        assert(items.len() == k + 1);
                                        assert(k + 1 < doubled(s0.len(), ns0));
                                        assert(!sep_slot(ns0, k + 1));
                                        assert(slot_item(cloned_from(g0), s0, ns0, k + 1, x));
                                        assert(self.lender.lends() == s0.skip(slot_lend(ns0, k + 1) + 1));
                                    }
                                    return c;
                                },
                            }
                        },
                    }
                },
            }
        }
    }

    /// Folds `f` over every lend with a separator between each two, one clone of
    /// the separator per separator folded: the clones need not equal it.
    pub fn fold<B, F>(self, init: B, f: F) -> (r: B)
        where
            F: FnMut(B, T) -> B,
        requires
            self.lender.wf(),
                        fold_ready::<B, T, F>(f),
        ensures
            exists|items: Seq<T>, accs: Seq<B>|
                #[trigger] spread_fold_steps(cloned_from(self.separator), f, init, self.lender.lends(), self.needs_sep, items, accs)
                    && items.len() == doubled(self.lender.lends().len(), self.needs_sep) && r == accs.last(),
    {
        let ghost s0 = self.lender.lends();
        let ghost ns0 = self.needs_sep;
        let ghost g0 = self.separator;
        let mut this = self;
        let mut acc = init;
        let mut g = f;
        let ghost mut items: Seq<T> = Seq::empty();
        let ghost mut accs: Seq<B> = seq![init];
        let ghost mut m: int = 0;
        if !this.needs_sep {
            match this.lender.next() {
                Some(x) => {
                    proof {
                        assert(x == s0[0]);
                        assert(slot_item(cloned_from(g0), s0, ns0, 0, x));
                    }
                    acc = g(acc, x);
                    proof {
                        items = items.push(x);
                        accs = accs.push(acc);
                        m = 1;
                        assert(s0.drop_first() =~= s0.skip(1));
                    }
                },
                None => {
                    proof {
                        assert(spread_fold_steps(cloned_from(g0), f, init, s0, ns0, items, accs));
                    }
                    return acc;
                },
            }
            this.needs_sep = true;
        } else {
            proof {
                assert(s0.skip(0) =~= s0);
            }
        }
        loop
            invariant
                this.lender.wf(),
                this.needs_sep,
                this.separator == g0,
                                s0 == self.lender.lends(),
                ns0 == self.needs_sep,
                g0 == self.separator,
                g == f,
                fold_ready::<B, T, F>(f),
                0 <= m <= s0.len(),
                !ns0 ==> m >= 1,
                items.len() == if ns0 { 2 * m } else { 2 * m - 1 },
                spread_fold_steps(cloned_from(g0), f, init, s0, ns0, items, accs),
                acc == accs.last(),
                this.lender.lends() == s0.skip(m),
            decreases this.lender.lends().len(),
        {
            let ghost k = items.len() as int;
            proof {
                assert(sep_slot(ns0, k));
                assert(slot_lend(ns0, k) == m);
            }
            match this.lender.next() {
                None => {
                    proof {
                        assert(s0.skip(m).len() == 0);
                        assert(m == s0.len());
                    }
                    return acc;
                },
                Some(x) => {
                    proof {
                        assert(x == s0[m]);
                        assert(s0.skip(m).drop_first() =~= s0.skip(m + 1));
                    }
                    let y = this.separator.clone();
                    proof {
                        assert(strictly_cloned(g0, y));
                        assert(cloned_from(g0)(y));
                        assert(slot_item(cloned_from(g0), s0, ns0, k, y));
                    }
                    let v = g(acc, y);
                    let w = g(v, x);
                    proof {
                        assert(!sep_slot(ns0, k + 1));
                        assert(slot_lend(ns0, k + 1) == m);
                        assert(slot_item(cloned_from(g0), s0, ns0, k + 1, x));
                        let old_items = items;
                        let old_accs = accs;
                        items = items.push(y).push(x);
                        accs = accs.push(v).push(w);
                        assert forall|j: int| 0 <= j < items.len() implies slot_item(cloned_from(g0), s0, ns0, j, #[trigger] items[j])
                            && call_ensures(f, (accs[j], items[j]), accs[j + 1]) by {
                            if j < k {
                                assert(items[j] == old_items[j]);
                                assert(accs[j] == old_accs[j]);
                                assert(accs[j + 1] == old_accs[j + 1]);
                            }
                        }
                        m = m + 1;
                    }
                    acc = w;
                },
            }
        }
    }
}

impl<'lend, L: Lender, T> Lending<'lend> for Intersperse<L, T> {
    type Lend = Lend<'lend, L>;
}

impl<L, T: Clone> Lender for Intersperse<L, T>
    where L: Lender + for<'all> Lending<'all, Lend = T>,
{
    open spec fn wf(&self) -> bool {
        self.lender.wf() && clone_exact(self.separator)
    }

    open spec fn lends(&self) -> Seq<T> {
        spread(self.lender.lends(), self.separator, self.needs_sep)
    }

    fn next(&mut self) -> (r: Option<T>) {
        proof {
            let r = self.lender.lends();
            let sep = self.separator;
            if r.len() > 0 {
                assert(sep_before(r, sep).drop_first() == interleaved(r, sep));
                assert(interleaved(r, sep).drop_first() == sep_before(r.drop_first(), sep));
            }
        }
        if self.needs_sep && self.lender.peek().is_some() {
            self.needs_sep = false;
            let s = self.separator.clone();
            proof {
                assert(strictly_cloned(self.separator, s));
            }
            Some(s)
        } else {
            self.needs_sep = true;
            self.lender.next()
        }
    }

    open spec fn hint(&self) -> (usize, Option<usize>) {
        intersperse_hint(self.lender.hint(), self.needs_sep)
    }

    fn size_hint(&self) -> (r: (usize, Option<usize>)) {
        let h = self.lender.size_hint();
        proof {
            lemma_sep_before_len(self.lender.lends(), self.separator);
            if self.lender.lends().len() > 0 {
                lemma_sep_before_len(self.lender.lends().drop_first(), self.separator);
            }
        }
        let r = intersperse_size_hint(h, self.needs_sep);
        proof {
            assert(hint_ok(self.lender.lends().len(), h));
        }
        r
    }

    fn try_fold<B, R, F>(&mut self, init: B, f: F) -> (r: ControlFlow<R, B>)
        where
            F: FnMut(B, T) -> ControlFlow<R, B>,
    {
        let ghost orig = old(self).lends();
        let mut acc = init;
        let mut g = f;
        let ghost mut accs: Seq<B> = seq![init];
        let ghost sep = self.separator;
        if !self.needs_sep {
            let ghost rest = self.lender.lends();
            match self.lender.next() {
                Some(x) => {
                    assert(orig[0] == x);
                    let c = g(acc, x);
                    let ghost c0 = c;
                    match c {
                        ControlFlow::Continue(v) => {
                            acc = v;
                            proof {
                                accs = accs.push(acc);
                            }
                        },
                        ControlFlow::Break(e) => {
                            self.needs_sep = true;
                            let c = ControlFlow::Break(e);
                            proof {
                                assert(try_fold_trace(f, init, orig, accs));
                                assert(c == c0);
                                assert(orig.skip(1) == self.lends());
                            }
                            return c;
                        },
                    }
                },
                None => {
                    proof {
                        assert(try_fold_trace(f, init, orig, accs));
                    }
                    return ControlFlow::Continue(acc);
                },
            }
            self.needs_sep = true;
            assert(orig.skip(1) == self.lends());
        }
        loop
            invariant
                self.wf(),
                self.needs_sep,
                self.separator == sep,
                orig == old(self).lends(),
                g == f,
                try_fold_ready::<B, R, T, F>(f),
                try_fold_trace(f, init, orig, accs),
                acc == accs.last(),
                self.lends() == orig.skip(accs.len() - 1),
            decreases self.lender.lends().len(),
        {
            let ghost k = accs.len() - 1;
            let ghost r0 = self.lender.lends();
            match self.lender.next() {
                None => {
                    assert(orig.skip(k).len() == 0);
                    return ControlFlow::Continue(acc);
                },
                Some(x) => {
                    proof {
                        assert(orig.skip(k) == seq![sep, x] + sep_before(r0.drop_first(), sep));
                        assert(orig.skip(k)[0] == orig[k]);
                        assert(orig.skip(k)[1] == orig[k + 1]);
                    }
                    let s = self.separator.clone();
                    proof {
                        assert(strictly_cloned(self.separator, s));
                    }
                    let c = g(acc, s);
                    let ghost c0 = c;
                    match c {
                        ControlFlow::Break(e) => {
                            self.lender.peeked = Some(Some(x));
                            self.needs_sep = false;
                            let c = ControlFlow::Break(e);
                            proof {
                                assert(try_fold_trace(f, init, orig, accs));
                                assert(c == c0);
                                assert(self.lender.lends() == r0);
                                assert(orig.skip(k + 1) == orig.skip(k).drop_first());
                                assert((seq![sep, x] + sep_before(r0.drop_first(), sep)).drop_first() == interleaved(r0, sep));
                            }
                            return c;
                        },
                        ControlFlow::Continue(v) => {
                            proof {
                                accs = accs.push(v);
                            }
                            let c = g(v, x);
                            let ghost c1 = c;
                            match c {
                                ControlFlow::Continue(w) => {
                                    acc = w;
                                    proof {
                                        accs = accs.push(w);
                                        assert(orig.skip(k + 2) == orig.skip(k).skip(2));
                                        assert((seq![sep, x] + sep_before(r0.drop_first(), sep)).skip(2) == sep_before(r0.drop_first(), sep));
                                    }
                                },
                                ControlFlow::Break(e) => {
                                    let c = ControlFlow::Break(e);
                                    proof {
                                        assert(try_fold_trace(f, init, orig, accs));
                                        assert(c == c1);
                                        assert(orig.skip(k + 2) == orig.skip(k).skip(2));
                                        assert((seq![sep, x] + sep_before(r0.drop_first(), sep)).skip(2) == sep_before(r0.drop_first(), sep));
                                    }
                                    return c;
                                },
                            }
                        },
                    }
                },
            }
        }
    }

    fn fold<B, F>(self, init: B, f: F) -> (r: B)
        where
            F: FnMut(B, T) -> B,
    {
        let ghost orig = self.lends();
        let mut this = self;
        let mut g = f;
        let mut acc = init;
        let ghost mut accs: Seq<B> = seq![init];
        let ghost sep = this.separator;
        if !this.needs_sep {
            match this.lender.next() {
                Some(x) => {
                    assert(orig[0] == x);
                    acc = g(acc, x);
                    proof {
                        accs = accs.push(acc);
                        assert(orig.take(1).take(0) == orig.take(0));
                    }
                },
                None => {
                    proof {
                        assert(orig.take(0) == orig);
                        assert(fold_trace(f, init, orig, accs));
                        assert(accs.last() == acc);
                    }
                    return acc;
                },
            }
            this.needs_sep = true;
            assert(orig.skip(1) == this.lends());
        }
        loop
            invariant
                g == f,
                this.wf(),
                this.needs_sep,
                this.separator == sep,
                orig == self.lends(),
                fold_ready::<B, T, F>(f),
                accs.len() <= orig.len() + 1,
                fold_trace(f, init, orig.take(accs.len() - 1), accs),
                acc == accs.last(),
                this.lends() == orig.skip(accs.len() - 1),
            decreases this.lender.lends().len(),
        {
            let ghost k = accs.len() - 1;
            let ghost r0 = this.lender.lends();
            match this.lender.next() {
                None => {
                    assert(orig.skip(k).len() == 0);
                    assert(orig.take(k) == orig);
                    return acc;
                },
                Some(x) => {
                    proof {
                        assert(orig.skip(k) == seq![sep, x] + sep_before(r0.drop_first(), sep));
                        assert(orig.skip(k)[0] == orig[k]);
                        assert(orig.skip(k)[1] == orig[k + 1]);
                    }
                    let s = this.separator.clone();
                    proof {
                        assert(strictly_cloned(this.separator, s));
                    }
                    let v = g(acc, s);
                    proof {
                        accs = accs.push(v);
                        assert(orig.take(k + 1).take(k) == orig.take(k));
                    }
                    acc = g(v, x);
                    proof {
                        accs = accs.push(acc);
                        assert(orig.take(k + 2).take(k + 1) == orig.take(k + 1));
                        assert(orig.skip(k + 2) == orig.skip(k).skip(2));
                                        assert((seq![sep, x] + sep_before(r0.drop_first(), sep)).skip(2) == sep_before(r0.drop_first(), sep));
                    }
                },
            }
        }
    }
}

impl<L, T: Clone> FusedLender for Intersperse<L, T>
    where L: FusedLender + for<'all> Lending<'all, Lend = T>,
{
}


/// Whether position `k` of what an interspersing lender hands out is a
/// separator: the even positions when a separator is due first, the odd ones
/// otherwise.
pub open spec fn sep_slot(needs_sep: bool, k: int) -> bool {
    if needs_sep {
        k % 2 == 0
    } else {
        k % 2 == 1
    }
}

/// The index, among the underlying lends, of the lend at position `k`, or of
/// the lend that follows when position `k` is a separator.
pub open spec fn slot_lend(needs_sep: bool, k: int) -> int {
    if needs_sep {
        k / 2
    } else {
        (k + 1) / 2
    }
}

/// The separators that one call of `g` can make.
pub open spec fn made_by<T, G: FnMut() -> T>(g: G) -> spec_fn(T) -> bool {
    |y: T| call_ensures(g, (), y)
}

/// The separators that one clone of `x` can be.
pub open spec fn cloned_from<T: Clone>(x: T) -> spec_fn(T) -> bool {
    |y: T| strictly_cloned(x, y)
}

/// `y` is what position `k` holds: a separator that `is_sep` admits at a
/// separator position, the underlying lend otherwise.
pub open spec fn slot_item<T>(is_sep: spec_fn(T) -> bool, s: Seq<T>, needs_sep: bool, k: int, y: T) -> bool {
    if sep_slot(needs_sep, k) {
        is_sep(y)
    } else {
        y == s[slot_lend(needs_sep, k)]
    }
}

/// `items` and `accs` describe the first `items.len()` steps of a
/// short-circuiting fold of `f` over the lends `s` with separators between
/// them, each separator one that `is_sep` admits (made by its own call), and
/// each step continued.
pub open spec fn spread_fold_trace<B, R, T, F: FnMut(B, T) -> ControlFlow<R, B>>(
    is_sep: spec_fn(T) -> bool,
    f: F,
    init: B,
    s: Seq<T>,
    needs_sep: bool,
    items: Seq<T>,
    accs: Seq<B>,
) -> bool {
    &&& accs.len() == items.len() + 1
    &&& items.len() <= doubled(s.len(), needs_sep)
    &&& accs[0] == init
    &&& forall|j: int|
        0 <= j < items.len() ==> slot_item(is_sep, s, needs_sep, j, #[trigger] items[j]) && call_ensures(
            f,
            (accs[j], items[j]),
            ControlFlow::<R, B>::Continue(accs[j + 1]),
        )
}

/// `items` and `accs` describe the first `items.len()` steps of a fold of
/// `f` over the lends `s` with separators between them, each separator one
/// that `is_sep` admits (made by its own call).
pub open spec fn spread_fold_steps<B, T, F: FnMut(B, T) -> B>(
    is_sep: spec_fn(T) -> bool,
    f: F,
    init: B,
    s: Seq<T>,
    needs_sep: bool,
    items: Seq<T>,
    accs: Seq<B>,
) -> bool {
    &&& accs.len() == items.len() + 1
    &&& items.len() <= doubled(s.len(), needs_sep)
    &&& accs[0] == init
    &&& forall|j: int|
        0 <= j < items.len() ==> slot_item(is_sep, s, needs_sep, j, #[trigger] items[j]) && call_ensures(
            f,
            (accs[j], items[j]),
            accs[j + 1],
        )
}

/// A lender that hands out the lends of the underlying lender with a lend made
/// by `separator` between each two adjacent ones.
///
/// The lends must not borrow from the underlying lender, which is made
/// peekable.
pub struct IntersperseWith<L, G, T> {
    pub lender: Peekable<L, T>,
    pub separator: G,
    /// Whether the separator comes before the next lend.
    pub needs_sep: bool,
}

impl<L, G, T> IntersperseWith<L, G, T> {
    /// Puts a lend made by `separator` between the lends of `lender`.
    pub fn new(lender: L, separator: G) -> (r: IntersperseWith<L, G, T>)
        ensures
            r.lender.lender == lender,
            r.lender.peeked is None,
            r.separator == separator,
            !r.needs_sep,
    {
        IntersperseWith { lender: Peekable::new(lender), separator, needs_sep: false }
    }

    /// Returns the inner lender; a peeked lend is dropped.
    pub fn into_inner(self) -> (r: L)
        ensures
            r == self.lender.lender,
    {
        self.lender.into_inner()
    }

    /// Returns the inner lender and the closure that makes separators.
    pub fn into_parts(self) -> (r: (L, G))
        ensures
            r == (self.lender.lender, self.separator),
    {
        (self.lender.into_inner(), self.separator)
    }
}

impl<L, G, T> IntersperseWith<L, G, T>
    where
        L: Lender + for<'all> Lending<'all, Lend = T>,
        G: FnMut() -> T,
{
    /// Hands out a separator made by one call of the closure when one is due
    /// and a lend follows, and otherwise the next lend. The closure may make a
    /// different separator at each call.
    pub fn next(&mut self) -> (r: Option<T>)
        requires
            old(self).lender.wf(),
            call_requires(old(self).separator, ()),
        ensures
            final(self).lender.wf(),
            final(self).separator == old(self).separator,
            old(self).needs_sep && old(self).lender.lends().len() > 0 ==> (r matches Some(y) && call_ensures(
                old(self).separator,
                (),
                y,
            )) && final(self).lender.lends() == old(self).lender.lends() && !final(self).needs_sep,
            !(old(self).needs_sep && old(self).lender.lends().len() > 0) ==> next_post(
                old(self).lender.lends(),
                final(self).lender.lends(),
                r,
            ) && final(self).needs_sep,
    {
        if self.needs_sep && self.lender.peek().is_some() {
            self.needs_sep = false;
            let y = (self.separator)();
            Some(y)
        } else {
            self.needs_sep = true;
            self.lender.next()
        }
    }

    /// Folds `f` over the lends with a separator between each two, each
    /// separator made by its own call of the closure, which is called once per
    /// separator folded: never before the first lend nor after the last. On a
    /// break on a separator the lend after it stays to be handed out.
    pub fn try_fold<B, R, F>(&mut self, init: B, f: F) -> (r: ControlFlow<R, B>)
        where
            F: FnMut(B, T) -> ControlFlow<R, B>,
        requires
            old(self).lender.wf(),
            call_requires(old(self).separator, ()),
            try_fold_ready::<B, R, T, F>(f),
        ensures
            final(self).lender.wf(),
            final(self).separator == old(self).separator,
            exists|items: Seq<T>, accs: Seq<B>|
                #[trigger] spread_fold_trace(
                    made_by(old(self).separator),
                    f,
                    init,
                    old(self).lender.lends(),
                    old(self).needs_sep,
                    items,
                    accs,
                ) && {
                    let s = old(self).lender.lends();
                    let ns = old(self).needs_sep;
                    let k = items.len() as int;
                    ||| k == doubled(s.len(), ns) && r == ControlFlow::<R, B>::Continue(accs.last())
                        && final(self).lender.lends().len() == 0
                    ||| k < doubled(s.len(), ns) && r is Break && exists|y: T|
                        slot_item(made_by(old(self).separator), s, ns, k, y) && #[trigger] call_ensures(f, (accs.last(), y), r)
                        && if sep_slot(ns, k) {
                        final(self).lender.lends() == s.skip(slot_lend(ns, k)) && !final(self).needs_sep
                    } else {
                        final(self).lender.lends() == s.skip(slot_lend(ns, k) + 1) && final(self).needs_sep
                    }
                },
    {
        let ghost s0 = self.lender.lends();
        let ghost ns0 = self.needs_sep;
        let ghost g0 = self.separator;
        let mut acc = init;
        let mut g = f;
        let ghost mut items: Seq<T> = Seq::empty();
        let ghost mut accs: Seq<B> = seq![init];
        let ghost mut m: int = 0;
        if !self.needs_sep {
            match self.lender.next() {
                Some(x) => {
                    proof {
                        assert(x == s0[0]);
                        assert(slot_item(made_by(g0), s0, ns0, 0, x));
                    }
                    let c = g(acc, x);
                    let ghost c0 = c;
                    match c {
                        ControlFlow::Continue(v) => {
                            acc = v;
                            proof {
                                items = items.push(x);
                                accs = accs.push(acc);
                                m = 1;
                                assert(s0.drop_first() =~= s0.skip(1));
                            }
                        },
                        ControlFlow::Break(e) => {
                            self.needs_sep = true;
                            let c = ControlFlow::Break(e);
                            proof {
                                assert(c == c0);
                                assert(s0.drop_first() =~= s0.skip(1));
                                assert(spread_fold_trace(made_by(g0), f, init, s0, ns0, items, accs));
                                assert(call_ensures(f, (accs.last(), x), c));
                            }
                            return c;
                        },
                    }
                },
                None => {
                    proof {
                        assert(spread_fold_trace(made_by(g0), f, init, s0, ns0, items, accs));
                    }
                    return ControlFlow::Continue(acc);
                },
            }
            self.needs_sep = true;
        } else {
            proof {
                assert(s0.skip(0) =~= s0);
            }
        }
        loop
            invariant
                self.lender.wf(),
                self.needs_sep,
                self.separator == g0,
                g0 == old(self).separator,
                call_requires(g0, ()),
                s0 == old(self).lender.lends(),
                ns0 == old(self).needs_sep,
                g == f,
                try_fold_ready::<B, R, T, F>(f),
                0 <= m <= s0.len(),
                !ns0 ==> m >= 1,
                items.len() == if ns0 { 2 * m } else { 2 * m - 1 },
                spread_fold_trace(made_by(g0), f, init, s0, ns0, items, accs),
                acc == accs.last(),
                self.lender.lends() == s0.skip(m),
            decreases self.lender.lends().len(),
        {
            let ghost k = items.len() as int;
            proof {
                assert(sep_slot(ns0, k));
                assert(slot_lend(ns0, k) == m);
            }
            match self.lender.next() {
                None => {
                    proof {
                        assert(s0.skip(m).len() == 0);
                        assert(m == s0.len());
                    }
                    return ControlFlow::Continue(acc);
                },
                Some(x) => {
                    proof {
                        assert(x == s0[m]);
                        assert(s0.skip(m).drop_first() =~= s0.skip(m + 1));
                    }
                    let y = (self.separator)();
                    proof {
                        assert(call_ensures(g0, (), y));
                        assert(made_by(g0)(y));
                        assert(slot_item(made_by(g0), s0, ns0, k, y));
                    }
                    let c = g(acc, y);
                    let ghost c0 = c;
                    match c {
                        ControlFlow::Break(e) => {
                            self.lender.peeked = Some(Some(x));
                            self.needs_sep = false;
                            let c = ControlFlow::Break(e);
                            proof {
                                assert(c == c0);
                                assert(self.lender.lends() =~= s0.skip(m));
                                assert(call_ensures(f, (accs.last(), y), c));
                            }
                            return c;
                        },
                        ControlFlow::Continue(v) => {
                            proof {
                                assert(!sep_slot(ns0, k + 1));
                                assert(slot_lend(ns0, k + 1) == m);
                                assert(slot_item(made_by(g0), s0, ns0, k + 1, x));
                                let old_items = items;
                                let old_accs = accs;
                                items = items.push(y);
                                accs = accs.push(v);
                                assert forall|j: int| 0 <= j < items.len() implies slot_item(made_by(g0), s0, ns0, j, #[trigger] items[j])
                                    && call_ensures(f, (accs[j], items[j]), ControlFlow::<R, B>::Continue(accs[j + 1])) by {
                                    if j < k {
                                        assert(items[j] == old_items[j]);
                                        assert(accs[j] == old_accs[j]);
                                        assert(accs[j + 1] == old_accs[j + 1]);
                                    }
                                }
                            }
                            let c = g(v, x);
                            let ghost c1 = c;
                            match c {
                                ControlFlow::Continue(w) => {
                                    acc = w;
                                    proof {
                                        let old_items = items;
                                        let old_accs = accs;
                                        items = items.push(x);
                                        accs = accs.push(w);
                                        assert forall|j: int| 0 <= j < items.len() implies slot_item(made_by(g0), s0, ns0, j, #[trigger] items[j])
                                            && call_ensures(f, (accs[j], items[j]), ControlFlow::<R, B>::Continue(accs[j + 1])) by {
                                            if j < k + 1 {
                                                assert(items[j] == old_items[j]);
                                                assert(accs[j] == old_accs[j]);
                                                assert(accs[j + 1] == old_accs[j + 1]);
                                            }
                                        }
                                        m = m + 1;
                                    }
                                },
                                ControlFlow::Break(e) => {
                                    let c = ControlFlow::Break(e);
                                    proof {
                                        assert(c == c1);
                                        assert(call_ensures(f, (accs.last(), x), c));
                                        assert(spread_fold_trace(made_by(g0), f, init, s0, ns0, items, accs));
                                        assert(items.len() == k + 1);
                                        assert(k + 1 < doubled(s0.len(), ns0));
                                        assert(!sep_slot(ns0, k + 1));
                                        assert(slot_item(made_by(g0), s0, ns0, k + 1, x));
                                        assert(self.lender.lends() == s0.skip(slot_lend(ns0, k + 1) + 1));
                                    }
                                    return c;
                                },
                            }
                        },
                    }
                },
            }
        }
    }

    /// Folds `f` over every lend with a separator between each two, each
    /// separator made by its own call of the closure, which may give a
    /// different one each time.
    pub fn fold<B, F>(self, init: B, f: F) -> (r: B)
        where
            F: FnMut(B, T) -> B,
        requires
            self.lender.wf(),
            call_requires(self.separator, ()),
            fold_ready::<B, T, F>(f),
        ensures
            exists|items: Seq<T>, accs: Seq<B>|
                #[trigger] spread_fold_steps(made_by(self.separator), f, init, self.lender.lends(), self.needs_sep, items, accs)
                    && items.len() == doubled(self.lender.lends().len(), self.needs_sep) && r == accs.last(),
    {
        let ghost s0 = self.lender.lends();
        let ghost ns0 = self.needs_sep;
        let ghost g0 = self.separator;
        let mut this = self;
        let mut acc = init;
        let mut g = f;
        let ghost mut items: Seq<T> = Seq::empty();
        let ghost mut accs: Seq<B> = seq![init];
        let ghost mut m: int = 0;
        if !this.needs_sep {
            match this.lender.next() {
                Some(x) => {
                    proof {
                        assert(x == s0[0]);
                        assert(slot_item(made_by(g0), s0, ns0, 0, x));
                    }
                    acc = g(acc, x);
                    proof {
                        items = items.push(x);
                        accs = accs.push(acc);
                        m = 1;
                        assert(s0.drop_first() =~= s0.skip(1));
                    }
                },
                None => {
                    proof {
                        assert(spread_fold_steps(made_by(g0), f, init, s0, ns0, items, accs));
                    }
                    return acc;
                },
            }
            this.needs_sep = true;
        } else {
            proof {
                assert(s0.skip(0) =~= s0);
            }
        }
        loop
            invariant
                this.lender.wf(),
                this.needs_sep,
                this.separator == g0,
                call_requires(g0, ()),
                s0 == self.lender.lends(),
                ns0 == self.needs_sep,
                g0 == self.separator,
                g == f,
                fold_ready::<B, T, F>(f),
                0 <= m <= s0.len(),
                !ns0 ==> m >= 1,
                items.len() == if ns0 { 2 * m } else { 2 * m - 1 },
                spread_fold_steps(made_by(g0), f, init, s0, ns0, items, accs),
                acc == accs.last(),
                this.lender.lends() == s0.skip(m),
            decreases this.lender.lends().len(),
        {
            let ghost k = items.len() as int;
            proof {
                assert(sep_slot(ns0, k));
                assert(slot_lend(ns0, k) == m);
            }
            match this.lender.next() {
                None => {
                    proof {
                        assert(s0.skip(m).len() == 0);
                        assert(m == s0.len());
                    }
                    return acc;
                },
                Some(x) => {
                    proof {
                        assert(x == s0[m]);
                        assert(s0.skip(m).drop_first() =~= s0.skip(m + 1));
                    }
                    let y = (this.separator)();
                    proof {
                        assert(call_ensures(g0, (), y));
                        assert(made_by(g0)(y));
                        assert(slot_item(made_by(g0), s0, ns0, k, y));
                    }
                    let v = g(acc, y);
                    let w = g(v, x);
                    proof {
                        assert(!sep_slot(ns0, k + 1));
                        assert(slot_lend(ns0, k + 1) == m);
                        assert(slot_item(made_by(g0), s0, ns0, k + 1, x));
                        let old_items = items;
                        let old_accs = accs;
                        items = items.push(y).push(x);
                        accs = accs.push(v).push(w);
                        assert forall|j: int| 0 <= j < items.len() implies slot_item(made_by(g0), s0, ns0, j, #[trigger] items[j])
                            && call_ensures(f, (accs[j], items[j]), accs[j + 1]) by {
                            if j < k {
                                assert(items[j] == old_items[j]);
                                assert(accs[j] == old_accs[j]);
                                assert(accs[j + 1] == old_accs[j + 1]);
                            }
                        }
                        m = m + 1;
                    }
                    acc = w;
                },
            }
        }
    }
}

impl<'lend, L: Lender, G, T> Lending<'lend> for IntersperseWith<L, G, T> {
    type Lend = Lend<'lend, L>;
}

impl<L, G, T> Lender for IntersperseWith<L, G, T>
    where
        L: Lender + for<'all> Lending<'all, Lend = T>,
        G: FnMut() -> T,
{
    open spec fn wf(&self) -> bool {
        self.lender.wf() && sep_pure(self.separator)
    }

    open spec fn lends(&self) -> Seq<T> {
        spread(self.lender.lends(), sep_out(self.separator), self.needs_sep)
    }

    fn next(&mut self) -> (r: Option<T>)
        ensures
            final(self).separator == old(self).separator,
            old(self).needs_sep && old(self).lender.lends().len() > 0 ==> (r matches Some(y) && call_ensures(
                old(self).separator,
                (),
                y,
            )),
    {
        proof {
            let r = self.lender.lends();
            let sep = sep_out(self.separator);
            if r.len() > 0 {
                assert(sep_before(r, sep).drop_first() == interleaved(r, sep));
                assert(interleaved(r, sep).drop_first() == sep_before(r.drop_first(), sep));
            }
        }
        if self.needs_sep && self.lender.peek().is_some() {
            self.needs_sep = false;
            let y = (self.separator)();
            Some(y)
        } else {
            self.needs_sep = true;
            self.lender.next()
        }
    }

    open spec fn hint(&self) -> (usize, Option<usize>) {
        intersperse_hint(self.lender.hint(), self.needs_sep)
    }

    fn size_hint(&self) -> (r: (usize, Option<usize>)) {
        let h = self.lender.size_hint();
        proof {
            lemma_sep_before_len(self.lender.lends(), sep_out(self.separator));
            if self.lender.lends().len() > 0 {
                lemma_sep_before_len(self.lender.lends().drop_first(), sep_out(self.separator));
            }
        }
        let r = intersperse_size_hint(h, self.needs_sep);
        proof {
            assert(hint_ok(self.lender.lends().len(), h));
        }
        r
    }

    fn try_fold<B, R, F>(&mut self, init: B, f: F) -> (r: ControlFlow<R, B>)
        where
            F: FnMut(B, T) -> ControlFlow<R, B>,
    {
        let ghost orig = old(self).lends();
        let mut acc = init;
        let mut g = f;
        let ghost mut accs: Seq<B> = seq![init];
        let ghost sep = sep_out(self.separator);
        if !self.needs_sep {
            let ghost rest = self.lender.lends();
            match self.lender.next() {
                Some(x) => {
                    assert(orig[0] == x);
                    let c = g(acc, x);
                    let ghost c0 = c;
                    match c {
                        ControlFlow::Continue(v) => {
                            acc = v;
                            proof {
                                accs = accs.push(acc);
                            }
                        },
                        ControlFlow::Break(e) => {
                            self.needs_sep = true;
                            let c = ControlFlow::Break(e);
                            proof {
                                assert(try_fold_trace(f, init, orig, accs));
                                assert(c == c0);
                                assert(orig.skip(1) == self.lends());
                            }
                            return c;
                        },
                    }
                },
                None => {
                    proof {
                        assert(try_fold_trace(f, init, orig, accs));
                    }
                    return ControlFlow::Continue(acc);
                },
            }
            self.needs_sep = true;
            assert(orig.skip(1) == self.lends());
        }
        loop
            invariant
                self.wf(),
                self.needs_sep,
                self.separator == old(self).separator,
                sep_pure(self.separator),
                sep == sep_out(self.separator),
                orig == old(self).lends(),
                g == f,
                try_fold_ready::<B, R, T, F>(f),
                try_fold_trace(f, init, orig, accs),
                acc == accs.last(),
                self.lends() == orig.skip(accs.len() - 1),
            decreases self.lender.lends().len(),
        {
            let ghost k = accs.len() - 1;
            let ghost r0 = self.lender.lends();
            match self.lender.next() {
                None => {
                    assert(orig.skip(k).len() == 0);
                    return ControlFlow::Continue(acc);
                },
                Some(x) => {
                    proof {
                        assert(orig.skip(k) == seq![sep, x] + sep_before(r0.drop_first(), sep));
                        assert(orig.skip(k)[0] == orig[k]);
                        assert(orig.skip(k)[1] == orig[k + 1]);
                    }
                    let s = (self.separator)();
                    let c = g(acc, s);
                    let ghost c0 = c;
                    match c {
                        ControlFlow::Break(e) => {
                            self.lender.peeked = Some(Some(x));
                            self.needs_sep = false;
                            let c = ControlFlow::Break(e);
                            proof {
                                assert(try_fold_trace(f, init, orig, accs));
                                assert(c == c0);
                                assert(self.lender.lends() == r0);
                                assert(orig.skip(k + 1) == orig.skip(k).drop_first());
                                assert((seq![sep, x] + sep_before(r0.drop_first(), sep)).drop_first() == interleaved(r0, sep));
                            }
                            return c;
                        },
                        ControlFlow::Continue(v) => {
                            proof {
                                accs = accs.push(v);
                            }
                            let c = g(v, x);
                            let ghost c1 = c;
                            match c {
                                ControlFlow::Continue(w) => {
                                    acc = w;
                                    proof {
                                        accs = accs.push(w);
                                        assert(orig.skip(k + 2) == orig.skip(k).skip(2));
                                        assert((seq![sep, x] + sep_before(r0.drop_first(), sep)).skip(2) == sep_before(r0.drop_first(), sep));
                                    }
                                },
                                ControlFlow::Break(e) => {
                                    let c = ControlFlow::Break(e);
                                    proof {
                                        assert(try_fold_trace(f, init, orig, accs));
                                        assert(c == c1);
                                        assert(orig.skip(k + 2) == orig.skip(k).skip(2));
                                        assert((seq![sep, x] + sep_before(r0.drop_first(), sep)).skip(2) == sep_before(r0.drop_first(), sep));
                                    }
                                    return c;
                                },
                            }
                        },
                    }
                },
            }
        }
    }

    fn fold<B, F>(self, init: B, f: F) -> (r: B)
        where
            F: FnMut(B, T) -> B,
    {
        let ghost orig = self.lends();
        let mut this = self;
        let mut g = f;
        let mut acc = init;
        let ghost mut accs: Seq<B> = seq![init];
        let ghost sep = sep_out(this.separator);
        if !this.needs_sep {
            match this.lender.next() {
                Some(x) => {
                    assert(orig[0] == x);
                    acc = g(acc, x);
                    proof {
                        accs = accs.push(acc);
                        assert(orig.take(1).take(0) == orig.take(0));
                    }
                },
                None => {
                    proof {
                        assert(orig.take(0) == orig);
                        assert(fold_trace(f, init, orig, accs));
                        assert(accs.last() == acc);
                    }
                    return acc;
                },
            }
            this.needs_sep = true;
            assert(orig.skip(1) == this.lends());
        }
        loop
            invariant
                g == f,
                this.wf(),
                this.needs_sep,
                this.separator == self.separator,
                sep_pure(this.separator),
                sep == sep_out(this.separator),
                orig == self.lends(),
                fold_ready::<B, T, F>(f),
                accs.len() <= orig.len() + 1,
                fold_trace(f, init, orig.take(accs.len() - 1), accs),
                acc == accs.last(),
                this.lends() == orig.skip(accs.len() - 1),
            decreases this.lender.lends().len(),
        {
            let ghost k = accs.len() - 1;
            let ghost r0 = this.lender.lends();
            match this.lender.next() {
                None => {
                    assert(orig.skip(k).len() == 0);
                    assert(orig.take(k) == orig);
                    return acc;
                },
                Some(x) => {
                    proof {
                        assert(orig.skip(k) == seq![sep, x] + sep_before(r0.drop_first(), sep));
                        assert(orig.skip(k)[0] == orig[k]);
                        assert(orig.skip(k)[1] == orig[k + 1]);
                    }
                    let s = (this.separator)();
                    let v = g(acc, s);
                    proof {
                        accs = accs.push(v);
                        assert(orig.take(k + 1).take(k) == orig.take(k));
                    }
                    acc = g(v, x);
                    proof {
                        accs = accs.push(acc);
                        assert(orig.take(k + 2).take(k + 1) == orig.take(k + 1));
                        assert(orig.skip(k + 2) == orig.skip(k).skip(2));
                                        assert((seq![sep, x] + sep_before(r0.drop_first(), sep)).skip(2) == sep_before(r0.drop_first(), sep));
                    }
                },
            }
        }
    }
}

impl<L, G, T> FusedLender for IntersperseWith<L, G, T>
    where
        L: FusedLender + for<'all> Lending<'all, Lend = T>,
        G: FnMut() -> T,
{
}

} // verus!

verus! {

/// What an `Intersperse` is: well formed exactly when its lender is and every
/// clone of its separator is the separator; it hands out its lender's lends
/// with the separator between each two.
pub proof fn lemma_intersperse_model<L, T: Clone>(i: Intersperse<L, T>)
    where
        L: Lender + for<'all> Lending<'all, Lend = T>,
    ensures
        i.wf() == (i.lender.wf() && clone_exact(i.separator)),
        i.lends() == spread(i.lender.lends(), i.separator, i.needs_sep),
{
}

/// What an `IntersperseWith` is: well formed exactly when its lender is and
/// its separator closure always gives the same lend; it hands out its
/// lender's lends with that lend between each two.
pub proof fn lemma_intersperse_with_model<L, G, T>(i: IntersperseWith<L, G, T>)
    where
        L: Lender + for<'all> Lending<'all, Lend = T>,
        G: FnMut() -> T,
    ensures
        i.wf() == (i.lender.wf() && sep_pure(i.separator)),
        i.lends() == spread(i.lender.lends(), sep_out(i.separator), i.needs_sep),
{
}

} // verus!
