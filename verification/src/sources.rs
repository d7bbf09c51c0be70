//! Lenders built from plain values: `empty`, `once` and `from_vec`.
use vstd::prelude::*;
use std::collections::VecDeque;

use crate::traits::{DoubleEndedLender, ExactSizeLender, FusedLender, Lend, Lender, Lending, SpecLend};

verus! {

/// A lender that hands out nothing.
pub struct Empty<T> {
    pub marker: core::marker::PhantomData<T>,
}

/// Creates a lender of `T` that hands out nothing.
pub fn empty<T>() -> (r: Empty<T>)
    ensures
        r.wf(),
        r.lends() == Seq::<T>::empty(),
{
    Empty { marker: core::marker::PhantomData }
}

impl<'lend, T> Lending<'lend> for Empty<T> {
    type Lend = T;
}

impl<T> Lender for Empty<T> {
    open spec fn wf(&self) -> bool {
        true
    }

    open spec fn lends(&self) -> Seq<T> {
        Seq::empty()
    }

    fn next(&mut self) -> (r: Option<T>) {
        None
    }

    open spec fn hint(&self) -> (usize, Option<usize>) {
        (0, Some(0))
    }

    fn size_hint(&self) -> (r: (usize, Option<usize>)) {
        (0, Some(0))
    }
}

impl<T> DoubleEndedLender for Empty<T> {
    fn next_back(&mut self) -> (r: Option<T>) {
        None
    }
}

impl<T> ExactSizeLender for Empty<T> {
    fn len(&self) -> (r: usize) {
        0
    }
}

impl<T> FusedLender for Empty<T> {}

/// A lender that hands out one value.
pub struct Once<T> {
    pub value: Option<T>,
}

/// Creates a lender that hands out `value` once.
pub fn once<T>(value: T) -> (r: Once<T>)
    ensures
        r.wf(),
        r.lends() == seq![value],
{
    Once { value: Some(value) }
}

impl<'lend, T> Lending<'lend> for Once<T> {
    type Lend = T;
}

impl<T> Lender for Once<T> {
    open spec fn wf(&self) -> bool {
        true
    }

    open spec fn lends(&self) -> Seq<T> {
        match self.value {
            Some(v) => seq![v],
            None => Seq::empty(),
        }
    }

    fn next(&mut self) -> (r: Option<T>) {
        let r = self.value.take();
        proof {
            if r is Some {
                assert(old(self).lends().drop_first() == Seq::<T>::empty());
            }
        }
        r
    }

    open spec fn hint(&self) -> (usize, Option<usize>) {
        if self.value is Some {
            (1, Some(1))
        } else {
            (0, Some(0))
        }
    }

    fn size_hint(&self) -> (r: (usize, Option<usize>)) {
        let n = self.len();
        (n, Some(n))
    }
}

impl<T> DoubleEndedLender for Once<T> {
    fn next_back(&mut self) -> (r: Option<T>) {
        let r = self.value.take();
        proof {
            if r is Some {
                assert(old(self).lends().drop_last() == Seq::<T>::empty());
            }
        }
        r
    }
}

impl<T> ExactSizeLender for Once<T> {
    fn len(&self) -> (r: usize) {
        if self.value.is_some() {
            1
        } else {
            0
        }
    }
}

impl<T> FusedLender for Once<T> {}

/// A lender that hands out, in order, the values of a vector.
pub struct FromVec<T> {
    pub items: VecDeque<T>,
}

impl<T: Clone> Clone for FromVec<T> {
    /// A lender over clones of the values still to come.
    fn clone(&self) -> (r: Self)
        ensures
            r.items@.len() == self.items@.len(),
            forall|i: int| 0 <= i < self.items@.len() ==> cloned::<T>(self.items@[i], #[trigger] r.items@[i]),
    {
        FromVec { items: self.items.clone() }
    }
}

/// Creates a lender that hands out the values of `v`, first to last.
pub fn from_vec<T>(v: Vec<T>) -> (r: FromVec<T>)
    ensures
        r.wf(),
        r.lends() == v@,
{
    let ghost orig = v@;
    let mut v = v;
    let mut items: VecDeque<T> = VecDeque::new();
    while v.len() > 0
        invariant
            v@ + items@ == orig,
        decreases v.len(),
    {
        let ghost before = v@;
        let x = v.pop().unwrap();
        items.push_front(x);
        assert(before == v@.push(x));
        assert(v@ + items@ == before + (items@.drop_first()));
    }
    assert(v@ + items@ == items@);
    FromVec { items }
}

impl<'lend, T> Lending<'lend> for FromVec<T> {
    type Lend = T;
}

impl<T> Lender for FromVec<T> {
    open spec fn wf(&self) -> bool {
        true
    }

    open spec fn lends(&self) -> Seq<T> {
        self.items@
    }

    fn next(&mut self) -> (r: Option<T>) {
        let r = self.items.pop_front();
        proof {
            if r is Some {
                assert(old(self).lends().drop_first() == self.lends());
            }
        }
        r
    }

    open spec fn hint(&self) -> (usize, Option<usize>) {
        (self.items@.len() as usize, Some(self.items@.len() as usize))
    }

    fn size_hint(&self) -> (r: (usize, Option<usize>)) {
        let n = self.items.len();
        (n, Some(n))
    }
}

impl<T> DoubleEndedLender for FromVec<T> {
    fn next_back(&mut self) -> (r: Option<T>) {
        let r = self.items.pop_back();
        proof {
            if r is Some {
                assert(old(self).lends().drop_last() == self.lends());
            }
        }
        r
    }
}

impl<T> ExactSizeLender for FromVec<T> {
    fn len(&self) -> (r: usize) {
        self.items.len()
    }
}

impl<T> FusedLender for FromVec<T> {}

} // verus!

verus! {

/// A lender that lends, in order, references to the values of a vector it
/// owns. The values may not borrow anything themselves.
pub struct LendVec<T> {
    pub items: Vec<T>,
    /// The position of the next value to lend.
    pub pos: usize,
}

/// The references to the elements of `s`.
pub open spec fn refs<'a, T>(s: Seq<T>) -> Seq<&'a T> {
    s.map_values(|x: T| &x)
}

/// Creates a lender that lends references to the values of `v`, first to
/// last.
pub fn lend_vec<T: 'static>(v: Vec<T>) -> (r: LendVec<T>)
    ensures
        r.wf(),
        r.lends() == refs(v@),
{
    let r = LendVec { items: v, pos: 0 };
    assert(r.items@.skip(0) == v@);
    r
}

impl<'lend, T: 'static> Lending<'lend> for LendVec<T> {
    type Lend = &'lend T;
}

impl<T: 'static> Lender for LendVec<T> {
    open spec fn wf(&self) -> bool {
        self.pos <= self.items.len()
    }

    open spec fn lends(&self) -> Seq<&'static T> {
        refs(self.items@.skip(self.pos as int))
    }

    fn next(&mut self) -> (r: Option<&T>) {
        if self.pos < self.items.len() {
            let i = self.pos;
            self.pos = self.pos + 1;
            proof {
                assert(refs(self.items@.skip(self.pos as int)) == refs(self.items@.skip(i as int)).drop_first());
            }
            Some(&self.items[i])
        } else {
            None
        }
    }

    open spec fn hint(&self) -> (usize, Option<usize>) {
        (
            (self.items@.len() - self.pos) as usize,
            Some((self.items@.len() - self.pos) as usize),
        )
    }

    fn size_hint(&self) -> (r: (usize, Option<usize>)) {
        let n = self.items.len() - self.pos;
        (n, Some(n))
    }
}

impl<T: 'static> ExactSizeLender for LendVec<T> {
    fn len(&self) -> (r: usize) {
        self.items.len() - self.pos
    }
}

impl<T: 'static> FusedLender for LendVec<T> {}

} // verus!
