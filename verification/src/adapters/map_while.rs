//! `MapWhile`: lends passed through a closure until it gives `None`.
use vstd::prelude::*;

use crate::spec::{suffix, fn_called, fn_out, fn_pure};
use crate::traits::{Lend, Lender, Lending, SpecLend};

verus! {

/// The values that `f` gives on the elements of `s`, up to the first `None`.
pub open spec fn mapped_while<A, B, F: FnMut(A) -> Option<B>>(f: F, s: Seq<A>) -> Seq<B>
    decreases s.len(),
{
    if s.len() == 0 {
        Seq::empty()
    } else {
        match fn_out(f, s[0]) {
            Some(b) => seq![b] + mapped_while(f, s.drop_first()),
            None => Seq::empty(),
        }
    }
}

/// `mapped_while` never gives more values than it was given.
pub proof fn lemma_mapped_while_len<A, B, F: FnMut(A) -> Option<B>>(f: F, s: Seq<A>)
    ensures
        mapped_while(f, s).len() <= s.len(),
    decreases s.len(),
{
    if s.len() > 0 {
        lemma_mapped_while_len(f, s.drop_first());
    }
}

/// A lender that passes the lends of the underlying lender through `f` and
/// hands out what `f` gives, until `f` gives `None`; from then on it hands out
/// `None`.
pub struct MapWhile<L, P> {
    pub lender: L,
    pub predicate: P,
    /// Set once `predicate` has given `None`.
    pub done: bool,
}

impl<L, P> MapWhile<L, P> {
    /// Maps the lends of `lender` through `predicate` while it gives `Some`.
    pub fn new(lender: L, predicate: P) -> (r: MapWhile<L, P>)
        ensures
            r.lender == lender,
            r.predicate == predicate,
            !r.done,
    {
        MapWhile { lender, predicate, done: false }
    }

    /// Returns the inner lender.
    pub fn into_inner(self) -> (r: L)
        ensures
            r == self.lender,
    {
        self.lender
    }

    /// Returns the inner lender and the closure.
    pub fn into_parts(self) -> (r: (L, P))
        ensures
            r == (self.lender, self.predicate),
    {
        (self.lender, self.predicate)
    }
}

impl<L: Lender, P, B> MapWhile<L, P>
    where P: for<'all> FnMut(Lend<'all, L>) -> Option<B>,
{
    /// Hands out the value that one call of the closure makes from the next
    /// lend while it gives `Some`; once a call has given `None`, hands out
    /// `None` without touching the lender. The closure may give different
    /// results for equal lends: this says what the one call it made gave.
    pub fn next(&mut self) -> (r: Option<B>)
        requires
            old(self).lender.wf(),
            forall|a: SpecLend<L>| call_requires(old(self).predicate, (a,)),
        ensures
            final(self).lender.wf(),
            final(self).predicate == old(self).predicate,
            old(self).done ==> r is None && final(self).done && final(self).lender == old(self).lender,
            !old(self).done && old(self).lender.lends().len() == 0 ==> r is None && !final(self).done
                && final(self).lender.lends().len() == 0,
            !old(self).done && old(self).lender.lends().len() > 0 ==> final(self).lender.lends()
                == old(self).lender.lends().drop_first() && exists|o: Option<B>|
                #[trigger] call_ensures(old(self).predicate, (old(self).lender.lends()[0],), o) && r == o && (
                final(self).done <==> o is None),
    {
        if self.done {
            return None;
        }
        let o = self.lender.next();
        match o {
            None => None,
            Some(x) => {
                let r = (self.predicate)(x);
                proof {
                    assert(call_ensures(self.predicate, (x,), r));
                }
                match r {
                    Some(y) => Some(y),
                    None => {
                        self.done = true;
                        None
                    },
                }
            },
        }
    }
}

impl<'lend, L: Lender, P, B> Lending<'lend> for MapWhile<L, P>
    where P: FnMut(Lend<'lend, L>) -> Option<B>,
{
    type Lend = B;
}

impl<L: Lender, P, B> Lender for MapWhile<L, P>
    where P: for<'all> FnMut(Lend<'all, L>) -> Option<B>,
{
    open spec fn wf(&self) -> bool {
        self.lender.wf() && fn_pure::<SpecLend<L>, Option<B>, P>(self.predicate)
    }

    open spec fn lends(&self) -> Seq<B> {
        if self.done {
            Seq::empty()
        } else {
            mapped_while::<SpecLend<L>, B, P>(self.predicate, self.lender.lends())
        }
    }

    fn next(&mut self) -> (r: Option<B>)
        ensures
            final(self).predicate == old(self).predicate,
            old(self).done ==> final(self).lender == old(self).lender && final(self).done,
            !old(self).done ==> final(self).lender.lends() == suffix(old(self).lender.lends(), 1),
            !old(self).done ==> (final(self).done <==> (old(self).lender.lends().len() > 0 && r is None)),
            !old(self).done && old(self).lender.lends().len() > 0 ==> fn_called::<SpecLend<L>, Option<B>, P>(
                old(self).predicate,
                old(self).lender.lends()[0],
            ),
    {
        if self.done {
            return None;
        }
        let ghost s = self.lender.lends();
        let o = self.lender.next();
        match o {
            None => None,
            Some(x) => {
                let r = (self.predicate)(x);
                proof {
                    assert(call_ensures(self.predicate, (x,), r));
                }
                match r {
                    Some(y) => {
                        proof {
                            let rest = mapped_while::<SpecLend<L>, B, P>(self.predicate, s.drop_first());
                            assert((seq![y] + rest).drop_first() == rest);
                        }
                        Some(y)
                    },
                    None => {
                        self.done = true;
                        None
                    },
                }
            },
        }
    }

    open spec fn hint(&self) -> (usize, Option<usize>) {
        if self.done {
            (0, Some(0))
        } else {
            (0, self.lender.hint().1)
        }
    }

    fn size_hint(&self) -> (r: (usize, Option<usize>)) {
        if self.done {
            return (0, Some(0));
        }
        proof {
            lemma_mapped_while_len::<SpecLend<L>, B, P>(self.predicate, self.lender.lends());
        }
        let (_, upper) = self.lender.size_hint();
        (0, upper)
    }
}

} // verus!

verus! {

/// What a `MapWhile` is: well formed exactly when its lender is and its
/// closure is deterministic; until it stops, it hands out the closure's
/// results up to the first `None`.
pub proof fn lemma_map_while_model<L: Lender, P, B>(m: MapWhile<L, P>)
    where P: for<'all> FnMut(Lend<'all, L>) -> Option<B>,
    ensures
        m.wf() == (m.lender.wf() && fn_pure::<SpecLend<L>, Option<B>, P>(m.predicate)),
        m.lends() == if m.done {
            Seq::empty()
        } else {
            mapped_while::<SpecLend<L>, B, P>(m.predicate, m.lender.lends())
        },
{
}

} // verus!
