//! `Iter` and `MapIntoIter`: iterators built from lenders whose lends do not
//! borrow from them, or mapped to values that do not.
use vstd::prelude::*;

use crate::spec::{hint_ok, next_back_post, next_post, nth_back_post, nth_post, suffix};
use crate::traits::{DoubleEndedLender, ExactSizeLender, Lend, Lender, Lending, SpecLend};

verus! {

/// An iterator over the lends of a lender whose lends do not borrow from it.
pub struct Iter<'this, L: 'this> {
    pub lender: L,
    pub marker: core::marker::PhantomData<&'this ()>,
}

impl<'this, L: 'this> Iter<'this, L> {
    /// Iterates over the lends of `lender`.
    pub fn new(lender: L) -> (r: Iter<'this, L>)
        ensures
            r.lender == lender,
    {
        Iter { lender, marker: core::marker::PhantomData }
    }

    /// Returns the inner lender.
    pub fn into_inner(self) -> (r: L)
        ensures
            r == self.lender,
    {
        self.lender
    }
}

impl<'this, L: 'this, T> Iter<'this, L>
    where L: Lender + for<'all> Lending<'all, Lend = T>,
{
    /// The items still to come.
    pub open spec fn items(&self) -> Seq<T> {
        self.lender.lends()
    }

    /// Hands out the next item.
    pub fn next(&mut self) -> (r: Option<T>)
        requires
            old(self).lender.wf(),
        ensures
            final(self).lender.wf(),
            next_post(old(self).items(), final(self).items(), r),
    {
        self.lender.next()
    }

    /// Bounds on the number of items still to come.
    pub fn size_hint(&self) -> (r: (usize, Option<usize>))
        requires
            self.lender.wf(),
        ensures
            r == self.lender.hint(),
            hint_ok(self.items().len(), r),
    {
        self.lender.size_hint()
    }

    /// Collects every item still to come, in order.
    pub fn into_vec(self) -> (r: Vec<T>)
        requires
            self.lender.wf(),
        ensures
            r@ == self.items(),
    {
        let mut this = self;
        let mut v: Vec<T> = Vec::new();
        loop
            invariant
                this.lender.wf(),
                v@ + this.items() == self.items(),
            decreases this.items().len(),
        {
            let ghost before = this.items();
            match this.next() {
                Some(x) => {
                    v.push(x);
                    assert(v@ + this.items() == self.items()) by {
                        assert(before == seq![x] + before.drop_first());
                        assert(v@ + this.items() =~= (v@.drop_last() + seq![x]) + before.drop_first());
                    }
                },
                None => {
                    assert(v@ + this.items() == v@);
                    return v;
                },
            }
        }
    }
}

impl<'this, L: 'this, T> Iter<'this, L>
    where L: DoubleEndedLender + for<'all> Lending<'all, Lend = T>,
{
    /// Hands out the last item.
    pub fn next_back(&mut self) -> (r: Option<T>)
        requires
            old(self).lender.wf(),
        ensures
            final(self).lender.wf(),
            next_back_post(old(self).items(), final(self).items(), r),
    {
        self.lender.next_back()
    }
}

impl<'this, L: 'this, T> Iter<'this, L>
    where L: ExactSizeLender + for<'all> Lending<'all, Lend = T>,
{
    /// The number of items still to come.
    pub fn len(&self) -> (r: usize)
        requires
            self.lender.wf(),
        ensures
            r == self.items().len(),
    {
        self.lender.len()
    }
}

/// An iterator over the values that `f` makes from the lends of a lender.
pub struct MapIntoIter<L, O, F> {
    pub lender: L,
    pub f: F,
    pub marker: core::marker::PhantomData<O>,
}

impl<L, O, F> MapIntoIter<L, O, F> {
    /// Maps the lends of `lender` to values with `f`.
    pub fn new(lender: L, f: F) -> (r: MapIntoIter<L, O, F>)
        ensures
            r.lender == lender,
            r.f == f,
    {
        MapIntoIter { lender, f, marker: core::marker::PhantomData }
    }

    /// Returns the inner lender.
    pub fn into_inner(self) -> (r: L)
        ensures
            r == self.lender,
    {
        self.lender
    }

    /// Returns the inner lender and the closure.
    pub fn into_parts(self) -> (r: (L, F))
        ensures
            r == (self.lender, self.f),
    {
        (self.lender, self.f)
    }
}

impl<L: Lender, O, F: for<'all> FnMut(Lend<'all, L>) -> O> MapIntoIter<L, O, F> {
    /// The iterator's own invariant: the lender's, and that the closure can
    /// be called on every lend. The closure may give different values for
    /// equal lends: each method says what the calls it made gave.
    pub open spec fn wf(&self) -> bool {
        self.lender.wf() && forall|a: SpecLend<L>| call_requires(self.f, (a,))
    }

    /// Hands out the value that one call of the closure makes from the next
    /// lend.
    pub fn next(&mut self) -> (r: Option<O>)
        requires
            old(self).wf(),
        ensures
            final(self).wf(),
            final(self).f == old(self).f,
            final(self).lender.lends() == suffix(old(self).lender.lends(), 1),
            old(self).lender.lends().len() > 0 ==> (r matches Some(y) && call_ensures(
                old(self).f,
                (old(self).lender.lends()[0],),
                y,
            )),
            old(self).lender.lends().len() == 0 ==> r is None,
    {
        let ghost s = self.lender.lends();
        let o = self.lender.next();
        proof {
            if s.len() > 0 {
                assert(s.drop_first() =~= suffix(s, 1));
            }
        }
        match o {
            Some(x) => {
                let y = (self.f)(x);
                proof {
                    assert(call_ensures(self.f, (x,), y));
                }
                Some(y)
            },
            None => None,
        }
    }

    /// Skips `n` lends and hands out the value that one call of the closure
    /// makes from the lend after them.
    pub fn nth(&mut self, n: usize) -> (r: Option<O>)
        requires
            old(self).wf(),
        ensures
            final(self).wf(),
            final(self).f == old(self).f,
            n < old(self).lender.lends().len() ==> final(self).lender.lends() == old(self).lender.lends().skip(n + 1)
                && (r matches Some(y) && call_ensures(old(self).f, (old(self).lender.lends()[n as int],), y)),
            n >= old(self).lender.lends().len() ==> r is None && final(self).lender.lends().len() == 0,
    {
        let o = self.lender.nth(n);
        match o {
            Some(x) => {
                let y = (self.f)(x);
                proof {
                    assert(call_ensures(self.f, (x,), y));
                }
                Some(y)
            },
            None => None,
        }
    }

    /// Bounds on the number of values still to come: those of the lender.
    pub fn size_hint(&self) -> (r: (usize, Option<usize>))
        requires
            self.wf(),
        ensures
            r == self.lender.hint(),
            hint_ok(self.lender.lends().len(), r),
    {
        self.lender.size_hint()
    }

    /// Collects the values that one call of the closure makes from each lend
    /// still to come, in order.
    pub fn into_vec(self) -> (r: Vec<O>)
        requires
            self.wf(),
        ensures
            r@.len() == self.lender.lends().len(),
            forall|i: int| 0 <= i < r@.len() ==> call_ensures(self.f, (self.lender.lends()[i],), #[trigger] r@[i]),
    {
        let ghost s = self.lender.lends();
        let mut this = self;
        let mut v: Vec<O> = Vec::new();
        loop
            invariant
                this.wf(),
                this.f == self.f,
                s == self.lender.lends(),
                v@.len() <= s.len(),
                this.lender.lends() == s.skip(v@.len() as int),
                forall|i: int| 0 <= i < v@.len() ==> call_ensures(self.f, (s[i],), #[trigger] v@[i]),
            decreases this.lender.lends().len(),
        {
            let ghost k = v@.len() as int;
            let ghost before = this.lender.lends();
            match this.next() {
                Some(x) => {
                    proof {
                        assert(before[0] == s[k]);
                        assert(before.drop_first() =~= s.skip(k + 1));
                    }
                    let ghost old_v = v@;
                    v.push(x);
                    proof {
                        assert forall|i: int| 0 <= i < v@.len() implies call_ensures(self.f, (s[i],), #[trigger] v@[i]) by {
                            if i < k {
                                assert(v@[i] == old_v[i]);
                            }
                        }
                    }
                },
                None => {
                    proof {
                        assert(before.len() == 0);
                        assert(k == s.len());
                    }
                    return v;
                },
            }
        }
    }
}

impl<L: DoubleEndedLender, O, F: for<'all> FnMut(Lend<'all, L>) -> O> MapIntoIter<L, O, F> {
    /// Hands out the value that one call of the closure makes from the last
    /// lend.
    pub fn next_back(&mut self) -> (r: Option<O>)
        requires
            old(self).wf(),
        ensures
            final(self).wf(),
            final(self).f == old(self).f,
            old(self).lender.lends().len() > 0 ==> final(self).lender.lends() == old(self).lender.lends().drop_last() && (
            r matches Some(y) && call_ensures(old(self).f, (old(self).lender.lends().last(),), y)),
            old(self).lender.lends().len() == 0 ==> r is None && final(self).lender.lends().len() == 0,
    {
        let o = self.lender.next_back();
        match o {
            Some(x) => {
                let y = (self.f)(x);
                proof {
                    assert(call_ensures(self.f, (x,), y));
                }
                Some(y)
            },
            None => None,
        }
    }

    /// Hands out the value that one call of the closure makes from the lend
    /// before the last `n`.
    pub fn nth_back(&mut self, n: usize) -> (r: Option<O>)
        requires
            old(self).wf(),
        ensures
            final(self).wf(),
            final(self).f == old(self).f,
            nth_back_post(old(self).lender.lends(), final(self).lender.lends(), n as nat, match r {
                Some(_) => Some(old(self).lender.lends()[old(self).lender.lends().len() - 1 - n]),
                None => None,
            }),
            n < old(self).lender.lends().len() ==> (r matches Some(y) && call_ensures(
                old(self).f,
                (old(self).lender.lends()[old(self).lender.lends().len() - 1 - n],),
                y,
            )),
    {
        let o = self.lender.nth_back(n);
        match o {
            Some(x) => {
                let y = (self.f)(x);
                proof {
                    assert(call_ensures(self.f, (x,), y));
                }
                Some(y)
            },
            None => None,
        }
    }
}

impl<L: ExactSizeLender, O, F: for<'all> FnMut(Lend<'all, L>) -> O> MapIntoIter<L, O, F> {
    /// The number of values still to come.
    pub fn len(&self) -> (r: usize)
        requires
            self.wf(),
        ensures
            r == self.lender.lends().len(),
    {
        self.lender.len()
    }
}

} // verus!
