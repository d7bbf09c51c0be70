//! `Filter`: only the lends that a predicate accepts.
use vstd::prelude::*;

use crate::spec::{kept, lemma_kept_back, lemma_kept_front, lemma_kept_len, pred_called, pred_out, pred_pure, pred_ready, rejected_upto};
use crate::traits::{DoubleEndedLender, FusedLender, Lend, Lender, Lending, SpecLend};

verus! {

/// A lender that hands out the lends of the underlying lender that the
/// predicate accepts, skipping the others.
///
/// The lends must not borrow from the underlying lender: a rejected lend is
/// dropped before the next one is asked for, and an accepted one is handed
/// out from inside that search.
pub struct Filter<L, P> {
    pub lender: L,
    pub predicate: P,
}

impl<L, P> Filter<L, P> {
    /// Keeps the lends of `lender` that `predicate` accepts.
    pub fn new(lender: L, predicate: P) -> (r: Filter<L, P>)
        ensures
            r.lender == lender,
            r.predicate == predicate,
    {
        Filter { lender, predicate }
    }

    /// Returns the inner lender.
    pub fn into_inner(self) -> (r: L)
        ensures
            r == self.lender,
    {
        self.lender
    }

    /// Returns the inner lender and the predicate.
    pub fn into_parts(self) -> (r: (L, P))
        ensures
            r == (self.lender, self.predicate),
    {
        (self.lender, self.predicate)
    }
}

impl<L, P, T> Filter<L, P>
    where
        L: Lender + for<'all> Lending<'all, Lend = T>,
        P: FnMut(&T) -> bool,
{
    /// Hands out the first lend that a call of the predicate accepts, after
    /// the ones its calls rejected, or `None` when every remaining lend was
    /// rejected. The predicate may answer differently from one call to the
    /// next: this says what each call it made answered.
    pub fn next(&mut self) -> (r: Option<T>)
        requires
            old(self).lender.wf(),
            pred_ready::<T, P>(old(self).predicate),
        ensures
            final(self).lender.wf(),
            final(self).predicate == old(self).predicate,
            r is None ==> rejected_upto(old(self).predicate, old(self).lender.lends(), old(self).lender.lends().len() as int)
                && final(self).lender.lends().len() == 0,
            r matches Some(x) ==> exists|k: int|
                0 < k <= old(self).lender.lends().len() && #[trigger] old(self).lender.lends().skip(k)
                    == final(self).lender.lends() && rejected_upto(old(self).predicate, old(self).lender.lends(), k - 1)
                    && x == old(self).lender.lends()[k - 1] && call_ensures(
                    old(self).predicate,
                    (&old(self).lender.lends()[k - 1],),
                    true,
                ),
    {
        let ghost s0 = self.lender.lends();
        let ghost p = self.predicate;
        let ghost mut k: int = 0;
        proof {
            assert(s0.skip(0) =~= s0);
        }
        loop
            invariant
                self.lender.wf(),
                self.predicate == p,
                p == old(self).predicate,
                pred_ready::<T, P>(p),
                s0 == old(self).lender.lends(),
                0 <= k <= s0.len(),
                self.lender.lends() == s0.skip(k),
                rejected_upto(p, s0, k),
            decreases self.lender.lends().len(),
        {
            match self.lender.next() {
                None => {
                    proof {
                        assert(s0.skip(k).len() == 0);
                    }
                    return None;
                },
                Some(x) => {
                    proof {
                        assert(x == s0[k]);
                        assert(s0.skip(k).drop_first() =~= s0.skip(k + 1));
                    }
                    let keep = (self.predicate)(&x);
                    proof {
                        assert(call_ensures(p, (&x,), keep));
                        k = k + 1;
                    }
                    if keep {
                        return Some(x);
                    }
                },
            }
        }
    }
}

impl<'lend, L: Lender, P> Lending<'lend> for Filter<L, P> {
    type Lend = Lend<'lend, L>;
}

impl<L, P, T> Lender for Filter<L, P>
    where
        L: Lender + for<'all> Lending<'all, Lend = T>,
        P: FnMut(&T) -> bool,
{
    open spec fn wf(&self) -> bool {
        self.lender.wf() && pred_pure::<T, P>(self.predicate)
    }

    open spec fn lends(&self) -> Seq<T> {
        kept::<T, P>(self.predicate, self.lender.lends())
    }

    fn next(&mut self) -> (r: Option<T>)
        ensures
            final(self).predicate == old(self).predicate,
            r is None ==> final(self).lender.lends().len() == 0,
            exists|k: int|
                0 <= k <= old(self).lender.lends().len() && #[trigger] old(self).lender.lends().skip(k)
                    == final(self).lender.lends() && kept::<T, P>(
                    old(self).predicate,
                    old(self).lender.lends().take(k),
                ) == (match r {
                    Some(x) => seq![x],
                    None => Seq::<T>::empty(),
                }) && forall|j: int|
                    0 <= j < k ==> #[trigger] pred_called::<T, P>(old(self).predicate, old(self).lender.lends()[j]),
    {
        let ghost s0 = self.lender.lends();
        let ghost p = self.predicate;
        let ghost mut k: int = 0;
        proof {
            assert(s0.take(0) =~= Seq::<T>::empty());
            assert(s0.skip(0) =~= s0);
            assert(kept::<T, P>(p, Seq::<T>::empty()) =~= Seq::<T>::empty());
        }
        loop
            invariant
                self.wf(),
                self.predicate == old(self).predicate,
                self.lends() == old(self).lends(),
                p == self.predicate,
                s0 == old(self).lender.lends(),
                0 <= k <= s0.len(),
                self.lender.lends() == s0.skip(k),
                kept::<T, P>(p, s0.take(k)) == Seq::<T>::empty(),
                forall|j: int| 0 <= j < k ==> #[trigger] pred_called::<T, P>(p, s0[j]),
            decreases self.lender.lends().len(),
        {
            let ghost s = self.lender.lends();
            proof {
                if s.len() > 0 {
                    lemma_kept_front::<T, P>(self.predicate, s);
                    assert(s[0] == s0[k]);
                    assert(s0.take(k + 1).drop_last() =~= s0.take(k));
                    lemma_kept_back::<T, P>(p, s0.take(k + 1));
                    assert(s0.skip(k + 1) =~= s.drop_first());
                } else {
                    lemma_kept_len::<T, P>(self.predicate, s);
                    assert(s0.take(k) =~= s0);
                }
            }
            match self.lender.next() {
                None => {
                    proof {
                        lemma_kept_len::<T, P>(self.predicate, self.lender.lends());
                    }
                    return None;
                },
                Some(x) => {
                    let keep = (self.predicate)(&x);
                    proof {
                        assert(call_ensures(p, (&x,), keep));
                        assert(pred_called::<T, P>(p, s0[k]));
                    }
                    if keep {
                        proof {
                            let kk = kept::<T, P>(self.predicate, s.drop_first());
                            assert((seq![x] + kk).drop_first() == kk);
                            assert(kept::<T, P>(p, s0.take(k + 1)) =~= seq![x]);
                            assert(s0.skip(k + 1) == self.lender.lends());
                        }
                        return Some(x);
                    }
                    proof {
                        k = k + 1;
                    }
                },
            }
        }
    }

    open spec fn hint(&self) -> (usize, Option<usize>) {
        (0, self.lender.hint().1)
    }

    fn size_hint(&self) -> (r: (usize, Option<usize>)) {
        proof {
            lemma_kept_len::<T, P>(self.predicate, self.lender.lends());
        }
        let (_, upper) = self.lender.size_hint();
        (0, upper)
    }

    fn count(self) -> (r: usize)
        ensures
            forall|j: int|
                0 <= j < self.lender.lends().len() ==> #[trigger] pred_called::<T, P>(self.predicate, self.lender.lends()[j]),
    {
        let ghost total = self.lends().len();
        let ghost s0 = self.lender.lends();
        let ghost mut k: int = 0;
        let mut this = self;
        let mut c: usize = 0;
        proof {
            assert(s0.skip(0) =~= s0);
        }
        loop
            invariant
                this.wf(),
                this.predicate == self.predicate,
                c + this.lends().len() == total,
                total == self.lends().len(),
                total <= usize::MAX,
                s0 == self.lender.lends(),
                0 <= k <= s0.len(),
                this.lender.lends() == s0.skip(k),
                forall|j: int| 0 <= j < k ==> #[trigger] pred_called::<T, P>(self.predicate, s0[j]),
            decreases this.lender.lends().len(),
        {
            let ghost s = this.lender.lends();
            proof {
                if s.len() > 0 {
                    lemma_kept_front::<T, P>(this.predicate, s);
                } else {
                    lemma_kept_len::<T, P>(this.predicate, s);
                }
            }
            match this.lender.next() {
                None => {
                    proof {
                        lemma_kept_len::<T, P>(this.predicate, this.lender.lends());
                        assert(s0.skip(k).len() == 0);
                    }
                    return c;
                },
                Some(x) => {
                    let keep = (this.predicate)(&x);
                    proof {
                        assert(call_ensures(this.predicate, (&x,), keep));
                        assert(x == s0[k]);
                        assert(pred_called::<T, P>(self.predicate, s0[k]));
                        assert(s0.skip(k).drop_first() =~= s0.skip(k + 1));
                        k = k + 1;
                    }
                    if keep {
                        c = c + 1;
                    }
                },
            }
        }
    }
}

impl<L, P, T> DoubleEndedLender for Filter<L, P>
    where
        L: DoubleEndedLender + for<'all> Lending<'all, Lend = T>,
        P: FnMut(&T) -> bool,
{
    fn next_back(&mut self) -> (r: Option<T>) {
        loop
            invariant
                self.wf(),
                self.predicate == old(self).predicate,
                self.lends() == old(self).lends(),
            decreases self.lender.lends().len(),
        {
            let ghost s = self.lender.lends();
            proof {
                if s.len() > 0 {
                    lemma_kept_back::<T, P>(self.predicate, s);
                } else {
                    lemma_kept_len::<T, P>(self.predicate, s);
                }
            }
            match self.lender.next_back() {
                None => {
                    proof {
                        lemma_kept_len::<T, P>(self.predicate, self.lender.lends());
                    }
                    return None;
                },
                Some(x) => {
                    if (self.predicate)(&x) {
                        proof {
                            let k = kept::<T, P>(self.predicate, s.drop_last());
                            assert(k.push(x).drop_last() == k);
                        }
                        return Some(x);
                    }
                },
            }
        }
    }
}

impl<L, P, T> FusedLender for Filter<L, P>
    where
        L: FusedLender + for<'all> Lending<'all, Lend = T>,
        P: FnMut(&T) -> bool,
{
}

} // verus!

verus! {

/// What a `Filter` built by a verified caller is: well formed exactly when its
/// lender is and its predicate is deterministic, and it hands out the lends of
/// its lender that the predicate accepts.
pub proof fn lemma_filter_model<L, P, T>(f: Filter<L, P>)
    where
        L: Lender + for<'all> Lending<'all, Lend = T>,
        P: FnMut(&T) -> bool,
    ensures
        f.wf() == (f.lender.wf() && pred_pure::<T, P>(f.predicate)),
        f.lends() == kept::<T, P>(f.predicate, f.lender.lends()),
{
}

} // verus!
