//! `TryShunt`, `unzip` and `fallible_unzip`: taking apart lenders of
//! `Result`s and of pairs.
use vstd::prelude::*;

use crate::fallible::{first_err, lemma_first_err, ok_prefix, FallibleLender, FallibleLending};
use crate::traits::{Lender, Lending};

verus! {

/// A lender that hands out the values inside the `Ok` lends of a lender of
/// `Result`s, up to its first `Err` lend, whose error it keeps; from then on
/// it hands out `None`.
///
/// The lends must not borrow from the underlying lender.
pub struct TryShunt<L, E> {
    pub lender: L,
    /// The error that stopped the lender, once one has come.
    pub residual: Option<E>,
}

impl<L, E> TryShunt<L, E> {
    /// Takes the `Ok` values of `lender` up to its first `Err`.
    pub fn new(lender: L) -> (r: TryShunt<L, E>)
        ensures
            r.lender == lender,
            r.residual is None,
    {
        TryShunt { lender, residual: None }
    }

    /// Returns the inner lender and the error that stopped it, if any.
    pub fn into_parts(self) -> (r: (L, Option<E>))
        ensures
            r == (self.lender, self.residual),
    {
        (self.lender, self.residual)
    }
}

impl<'lend, L, E, T> Lending<'lend> for TryShunt<L, E>
    where L: Lending<'lend, Lend = Result<T, E>>,
{
    type Lend = T;
}

impl<L, E, T> Lender for TryShunt<L, E>
    where L: Lender + for<'all> Lending<'all, Lend = Result<T, E>>,
{
    open spec fn wf(&self) -> bool {
        self.lender.wf()
    }

    open spec fn lends(&self) -> Seq<T> {
        if self.residual is Some {
            Seq::empty()
        } else {
            ok_prefix(self.lender.lends())
        }
    }

    fn next(&mut self) -> (r: Option<T>)
        ensures
            old(self).residual is None && old(self).lender.lends().len() > 0 && old(self).lender.lends()[0] is Err
                ==> final(self).residual == Some(old(self).lender.lends()[0]->Err_0),
            old(self).residual is Some ==> final(self).residual == old(self).residual,
    {
        if self.residual.is_some() {
            return None;
        }
        let ghost s = self.lender.lends();
        proof {
            if s.len() > 0 && s[0] is Ok {
                assert((seq![s[0]->Ok_0] + ok_prefix(s.drop_first())).drop_first() == ok_prefix(s.drop_first()));
            }
        }
        if let Some(x) = self.lender.next() {
            match x {
                Ok(v) => {
                    return Some(v);
                },
                Err(e) => {
                    self.residual = Some(e);
                },
            }
        }
        None
    }

    open spec fn hint(&self) -> (usize, Option<usize>) {
        if self.residual is Some {
            (0, Some(0))
        } else {
            (0, self.lender.hint().1)
        }
    }

    fn size_hint(&self) -> (r: (usize, Option<usize>)) {
        if self.residual.is_some() {
            return (0, Some(0));
        }
        proof {
            lemma_first_err(self.lender.lends());
        }
        let (_, upper) = self.lender.size_hint();
        (0, upper)
    }
}

/// The first elements of the pairs in `s`.
pub open spec fn firsts<A, B>(s: Seq<(A, B)>) -> Seq<A> {
    s.map_values(|p: (A, B)| p.0)
}

/// The second elements of the pairs in `s`.
pub open spec fn seconds<A, B>(s: Seq<(A, B)>) -> Seq<B> {
    s.map_values(|p: (A, B)| p.1)
}

/// Drains a lender of pairs into the vector of their first elements and the
/// vector of their second elements.
pub fn unzip<L, A, B>(lender: L) -> (r: (Vec<A>, Vec<B>))
    where L: Lender + for<'all> Lending<'all, Lend = (A, B)>,
    requires
        lender.wf(),
    ensures
        r.0@ == firsts(lender.lends()),
        r.1@ == seconds(lender.lends()),
{
    let ghost orig = lender.lends();
    let mut this = lender;
    let sz = this.size_hint().0;
    let mut a: Vec<A>;
    let mut b: Vec<B>;
    if sz > 0 {
        a = Vec::with_capacity(sz);
        b = Vec::with_capacity(sz);
    } else {
        a = Vec::new();
        b = Vec::new();
    }
    loop
        invariant
            this.wf(),
            orig == lender.lends(),
            a@.len() == b@.len(),
            a@.len() + this.lends().len() == orig.len(),
            this.lends() == orig.skip(a@.len() as int),
            a@ == firsts(orig.take(a@.len() as int)),
            b@ == seconds(orig.take(a@.len() as int)),
        decreases this.lends().len(),
    {
        let ghost k = a@.len() as int;
        match this.next() {
            Some(lend) => {
                let (x, y) = lend;
                a.push(x);
                b.push(y);
                proof {
                    assert(orig.skip(k)[0] == orig[k]);
                    assert(orig.skip(k).drop_first() == orig.skip(k + 1));
                    assert(a@ == firsts(orig.take(k + 1)));
                    assert(b@ == seconds(orig.take(k + 1)));
                }
            },
            None => {
                assert(orig.take(k) == orig);
                return (a, b);
            },
        }
    }
}

/// Drains a fallible lender of pairs into the vector of their first elements
/// and the vector of their second elements, or hands out its first error.
pub fn fallible_unzip<L, A, B>(lender: L) -> (r: Result<(Vec<A>, Vec<B>), L::Error>)
    where L: FallibleLender + for<'all> FallibleLending<'all, Lend = (A, B)>,
    requires
        lender.wf(),
    ensures
        first_err(lender.outcomes()) == lender.outcomes().len() ==> (r matches Ok((a, b)) && a@ == firsts(
            ok_prefix(lender.outcomes()),
        ) && b@ == seconds(ok_prefix(lender.outcomes()))),
        first_err(lender.outcomes()) < lender.outcomes().len() ==> r == Err::<(Vec<A>, Vec<B>), L::Error>(
            lender.outcomes()[first_err(lender.outcomes()) as int]->Err_0,
        ),
{
    let ghost orig = lender.outcomes();
    proof {
        lemma_first_err(orig);
        lemma_ok_prefix_take(orig);
    }
    let mut this = lender;
    let sz = this.size_hint().0;
    let mut a: Vec<A>;
    let mut b: Vec<B>;
    if sz > 0 {
        a = Vec::with_capacity(sz);
        b = Vec::with_capacity(sz);
    } else {
        a = Vec::new();
        b = Vec::new();
    }
    loop
        invariant
            this.wf(),
            orig == lender.outcomes(),
            a@.len() == b@.len(),
            a@.len() <= first_err(orig),
            first_err(orig) <= orig.len(),
            ok_prefix(orig).len() == first_err(orig),
            first_err(orig) < orig.len() ==> orig[first_err(orig) as int] is Err,
            forall|i: int| 0 <= i < first_err(orig) ==> (#[trigger] orig[i]) is Ok,
            forall|i: int| 0 <= i < first_err(orig) ==> #[trigger] ok_prefix(orig)[i] == orig[i]->Ok_0,
            this.outcomes() == orig.skip(a@.len() as int),
            a@ == firsts(ok_prefix(orig).take(a@.len() as int)),
            b@ == seconds(ok_prefix(orig).take(a@.len() as int)),
        decreases this.outcomes().len(),
    {
        let ghost k = a@.len() as int;
        let ghost p = ok_prefix(orig);
        match this.next() {
            Ok(Some(lend)) => {
                proof {
                    assert(orig.skip(k)[0] == orig[k]);
                    if k == first_err(orig) {
                        assert(orig[k] is Err);
                    }
                    assert(p[k] == orig[k]->Ok_0);
                }
                let (x, y) = lend;
                a.push(x);
                b.push(y);
                proof {
                    assert(orig.skip(k).drop_first() == orig.skip(k + 1));
                    assert(a@ == firsts(p.take(k + 1)));
                    assert(b@ == seconds(p.take(k + 1)));
                }
            },
            Ok(None) => {
                proof {
                    assert(orig.skip(k).len() == 0);
                    assert(p.take(k) == p);
                }
                return Ok((a, b));
            },
            Err(e) => {
                proof {
                    assert(orig.skip(k)[0] == orig[k]);
                    if k < first_err(orig) {
                        assert(orig[k] is Ok);
                    }
                }
                return Err(e);
            },
        }
    }
}

/// The lends before the first error are the `Ok` values of those outcomes.
proof fn lemma_ok_prefix_take<T, E>(s: Seq<Result<T, E>>)
    ensures
        forall|i: int| 0 <= i < first_err(s) ==> #[trigger] ok_prefix(s)[i] == s[i]->Ok_0,
    decreases s.len(),
{
    lemma_first_err(s);
    if s.len() > 0 && s[0] is Ok {
        let t = s.drop_first();
        lemma_ok_prefix_take(t);
        assert forall|i: int| 0 <= i < first_err(s) implies #[trigger] ok_prefix(s)[i] == s[i]->Ok_0 by {
            if i > 0 {
                assert(ok_prefix(s)[i] == ok_prefix(t)[i - 1]);
                assert(s[i] == t[i - 1]);
            }
        }
    }
}

} // verus!
