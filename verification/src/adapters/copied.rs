//! `Copied`: an iterator over copies of the lends of a lender of references.
use vstd::prelude::*;

use crate::spec::{hint_ok, next_back_post, next_post};
use crate::traits::{DoubleEndedLender, ExactSizeLender, Lend, Lender, Lending, SpecLend};

verus! {

/// The values behind the references in `s`.
pub open spec fn derefs<T>(s: Seq<&T>) -> Seq<T> {
    s.map_values(|r: &T| *r)
}

/// An iterator over copies of the values that a lender of references lends.
pub struct Copied<L> {
    pub lender: L,
}

impl<L> Copied<L> {
    /// Copies the values that `lender` lends.
    pub fn new(lender: L) -> (r: Copied<L>)
        ensures
            r.lender == lender,
    {
        Copied { lender }
    }

    /// Returns the inner lender.
    pub fn into_inner(self) -> (r: L)
        ensures
            r == self.lender,
    {
        self.lender
    }
}

impl<T: Copy, L> Copied<L>
    where L: Lender + for<'all> Lending<'all, Lend = &'all T>,
{
    /// The values still to come.
    pub open spec fn items(&self) -> Seq<T> {
        derefs(self.lender.lends())
    }

    /// Hands out a copy of the next lend.
    pub fn next(&mut self) -> (r: Option<T>)
        requires
            old(self).lender.wf(),
        ensures
            final(self).lender.wf(),
            next_post(old(self).items(), final(self).items(), r),
    {
        proof {
            let s = self.lender.lends();
            if s.len() > 0 {
                assert(derefs(s.drop_first()) == derefs(s).drop_first());
            }
        }
        match self.lender.next() {
            Some(x) => Some(*x),
            None => None,
        }
    }

    /// Bounds on the number of values still to come.
    pub fn size_hint(&self) -> (r: (usize, Option<usize>))
        requires
            self.lender.wf(),
        ensures
            r == self.lender.hint(),
            hint_ok(self.items().len(), r),
    {
        self.lender.size_hint()
    }

    /// Copies out every value still to come, in order.
    pub fn into_vec(self) -> (r: Vec<T>)
        requires
            self.lender.wf(),
        ensures
            r@ == self.items(),
    {
        let mut this = self;
        let mut v: Vec<T> = Vec::new();
        loop
            invariant
                this.lender.wf(),
                v@ + this.items() == self.items(),
            decreases this.items().len(),
        {
            let ghost before = this.items();
            match this.next() {
                Some(x) => {
                    v.push(x);
                    assert(v@ + this.items() == self.items()) by {
                        assert(before == seq![x] + before.drop_first());
                        assert(v@ + this.items() =~= (v@.drop_last() + seq![x]) + before.drop_first());
                    }
                },
                None => {
                    assert(v@ + this.items() == v@);
                    return v;
                },
            }
        }
    }
}

impl<T: Copy, L> Copied<L>
    where L: DoubleEndedLender + for<'all> Lending<'all, Lend = &'all T>,
{
    /// Hands out a copy of the last lend.
    pub fn next_back(&mut self) -> (r: Option<T>)
        requires
            old(self).lender.wf(),
        ensures
            final(self).lender.wf(),
            next_back_post(old(self).items(), final(self).items(), r),
    {
        proof {
            let s = self.lender.lends();
            if s.len() > 0 {
                assert(derefs(s.drop_last()) == derefs(s).drop_last());
            }
        }
        match self.lender.next_back() {
            Some(x) => Some(*x),
            None => None,
        }
    }
}

impl<T: Copy, L> Copied<L>
    where L: ExactSizeLender + for<'all> Lending<'all, Lend = &'all T>,
{
    /// The number of values still to come.
    pub fn len(&self) -> (r: usize)
        requires
            self.lender.wf(),
        ensures
            r == self.items().len(),
    {
        self.lender.len()
    }
}

/// An iterator over clones of the values that a lender of references lends.
pub struct Cloned<L> {
    pub lender: L,
}

impl<L> Cloned<L> {
    /// Clones the values that `lender` lends.
    pub fn new(lender: L) -> (r: Cloned<L>)
        ensures
            r.lender == lender,
    {
        Cloned { lender }
    }

    /// Returns the inner lender.
    pub fn into_inner(self) -> (r: L)
        ensures
            r == self.lender,
    {
        self.lender
    }
}

impl<T: Clone, L> Cloned<L>
    where L: Lender + for<'all> Lending<'all, Lend = &'all T>,
{
    /// Hands out a clone of the next lend.
    pub fn next(&mut self) -> (r: Option<T>)
        requires
            old(self).lender.wf(),
        ensures
            final(self).lender.wf(),
            old(self).lender.lends().len() > 0 ==> {
                &&& r matches Some(y) && cloned(*old(self).lender.lends()[0], y)
                &&& final(self).lender.lends() == old(self).lender.lends().drop_first()
            },
            old(self).lender.lends().len() == 0 ==> r is None && final(self).lender.lends().len() == 0,
    {
        match self.lender.next() {
            Some(x) => Some(x.clone()),
            None => None,
        }
    }

    /// Bounds on the number of values still to come.
    pub fn size_hint(&self) -> (r: (usize, Option<usize>))
        requires
            self.lender.wf(),
        ensures
            r == self.lender.hint(),
            hint_ok(self.lender.lends().len(), r),
    {
        self.lender.size_hint()
    }
}

impl<T: Clone, L> Cloned<L>
    where L: DoubleEndedLender + for<'all> Lending<'all, Lend = &'all T>,
{
    /// Hands out a clone of the last lend.
    pub fn next_back(&mut self) -> (r: Option<T>)
        requires
            old(self).lender.wf(),
        ensures
            final(self).lender.wf(),
            old(self).lender.lends().len() > 0 ==> {
                &&& r matches Some(y) && cloned(*old(self).lender.lends().last(), y)
                &&& final(self).lender.lends() == old(self).lender.lends().drop_last()
            },
            old(self).lender.lends().len() == 0 ==> r is None && final(self).lender.lends().len() == 0,
    {
        match self.lender.next_back() {
            Some(x) => Some(x.clone()),
            None => None,
        }
    }
}

} // verus!

verus! {

/// Calls `ToOwned::to_owned` from std on `b`. Nothing is claimed of the owned
/// value it makes; std documents it as made from `b`, usually by cloning.
#[verifier::external_body]
fn owned_of<B: ToOwned>(b: &B) -> (r: B::Owned) {
    b.to_owned()
}

/// An iterator over owned values made from the lends of a lender.
pub struct Owned<L> {
    pub lender: L,
}

impl<L> Owned<L> {
    /// Makes owned values from the lends of `lender`.
    pub fn new(lender: L) -> (r: Owned<L>)
        ensures
            r.lender == lender,
    {
        Owned { lender }
    }

    /// Returns the inner lender.
    pub fn into_inner(self) -> (r: L)
        ensures
            r == self.lender,
    {
        self.lender
    }
}

impl<T, L> Owned<L>
    where
        L: Lender,
        for<'all> Lend<'all, L>: ToOwned<Owned = T>,
{
    /// Hands out a value made from the next lend; it is `None` exactly when
    /// the lender is exhausted.
    pub fn next(&mut self) -> (r: Option<T>)
        requires
            old(self).lender.wf(),
        ensures
            final(self).lender.wf(),
            old(self).lender.lends().len() > 0 ==> r is Some && final(self).lender.lends() == old(
                self,
            ).lender.lends().drop_first(),
            old(self).lender.lends().len() == 0 ==> r is None && final(self).lender.lends().len() == 0,
    {
        match self.lender.next() {
            Some(x) => Some(owned_of(&x)),
            None => None,
        }
    }

    /// Bounds on the number of values still to come.
    pub fn size_hint(&self) -> (r: (usize, Option<usize>))
        requires
            self.lender.wf(),
        ensures
            r == self.lender.hint(),
            hint_ok(self.lender.lends().len(), r),
    {
        self.lender.size_hint()
    }
}

impl<T, L> Owned<L>
    where
        L: DoubleEndedLender,
        for<'all> Lend<'all, L>: ToOwned<Owned = T>,
{
    /// Hands out a value made from the last lend; it is `None` exactly when
    /// the lender is exhausted.
    pub fn next_back(&mut self) -> (r: Option<T>)
        requires
            old(self).lender.wf(),
        ensures
            final(self).lender.wf(),
            old(self).lender.lends().len() > 0 ==> r is Some && final(self).lender.lends() == old(
                self,
            ).lender.lends().drop_last(),
            old(self).lender.lends().len() == 0 ==> r is None && final(self).lender.lends().len() == 0,
    {
        match self.lender.next_back() {
            Some(x) => Some(owned_of(&x)),
            None => None,
        }
    }
}

impl<T, L> Owned<L>
    where
        L: ExactSizeLender,
        for<'all> Lend<'all, L>: ToOwned<Owned = T>,
{
    /// The number of values still to come.
    pub fn len(&self) -> (r: usize)
        requires
            self.lender.wf(),
        ensures
            r == self.lender.lends().len(),
    {
        self.lender.len()
    }
}

} // verus!
