//! `Intersperse` and `IntersperseWith` over a fallible lender: a separator
//! between each two adjacent lends.
use vstd::prelude::*;
use vstd::pervasive::strictly_cloned;

use crate::adapters::intersperse::{clone_exact, doubled, sep_out, sep_pure};
use crate::fallible::{fallible_next_post, FallibleLend, FallibleLender, FallibleLending, FusedFallibleLender};
use crate::fallible_adapters::peekable::Peekable;
use crate::spec::hint_ok;

verus! {

/// The outcomes `r` with the separator outcome `sep` in front of each lend;
/// an error gets no separator.
pub open spec fn sep_before_outcomes<T, E>(r: Seq<Result<T, E>>, sep: Result<T, E>) -> Seq<Result<T, E>>
    decreases r.len(),
{
    if r.len() == 0 {
        Seq::empty()
    } else if r[0] is Ok {
        seq![sep, r[0]] + sep_before_outcomes(r.drop_first(), sep)
    } else {
        seq![r[0]] + sep_before_outcomes(r.drop_first(), sep)
    }
}

/// What an interspersing fallible lender in this state still hands out:
/// `r` with a separator before each lend when one is due next, and
/// otherwise the first outcome as it is, then a separator before each lend.
pub open spec fn spread_outcomes<T, E>(r: Seq<Result<T, E>>, sep: Result<T, E>, needs_sep: bool) -> Seq<
    Result<T, E>,
> {
    if needs_sep {
        sep_before_outcomes(r, sep)
    } else if r.len() == 0 {
        Seq::empty()
    } else {
        seq![r[0]] + sep_before_outcomes(r.drop_first(), sep)
    }
}

/// Each outcome gives one or two outcomes.
pub proof fn lemma_sep_before_outcomes_len<T, E>(r: Seq<Result<T, E>>, sep: Result<T, E>)
    ensures
        r.len() <= sep_before_outcomes(r, sep).len() <= 2 * r.len(),
    decreases r.len(),
{
    if r.len() > 0 {
        lemma_sep_before_outcomes_len(r.drop_first(), sep);
    }
}

/// The size hint of an interspersing fallible lender whose underlying lender
/// hints `inner`: the same lower bound, and the doubled upper bound, dropped
/// when it does not fit.
pub open spec fn intersperse_outcomes_hint(inner: (usize, Option<usize>), needs_sep: bool) -> (
    usize,
    Option<usize>,
) {
    (
        inner.0,
        match inner.1 {
            Some(h) => if doubled(h as nat, needs_sep) <= usize::MAX {
                Some(doubled(h as nat, needs_sep) as usize)
            } else {
                None
            },
            None => None,
        },
    )
}

/// The size hint of an interspersing fallible lender, from that of the
/// outcomes still to come from the underlying lender: every outcome gives at
/// least one and at most two.
pub fn intersperse_outcomes_size_hint(inner: (usize, Option<usize>), needs_sep: bool) -> (r: (
    usize,
    Option<usize>,
))
    ensures
        r == intersperse_outcomes_hint(inner, needs_sep),
        r.0 == inner.0,
        r.1 == match inner.1 {
            Some(h) => if doubled(h as nat, needs_sep) <= usize::MAX {
                Some(doubled(h as nat, needs_sep) as usize)
            } else {
                None
            },
            None => None,
        },
        forall|n: nat, m: nat|
            #![trigger hint_ok(n, inner), hint_ok(m, r)]
            hint_ok(n, inner) && n <= m && (if needs_sep {
                m <= 2 * n
            } else if n == 0 {
                m == 0
            } else {
                m <= 2 * n - 1
            }) ==> hint_ok(m, r),
{
    let (lo, hi) = inner;
    let next_is_elem: usize = if needs_sep {
        0
    } else {
        1
    };
    let upper = match hi {
        Some(h) => h.saturating_sub(next_is_elem).checked_add(h),
        None => None,
    };
    (lo, upper)
}

/// A fallible lender that hands out the outcomes of the underlying one with
/// a clone of `separator` before each lend but the first; an error takes no
/// separator.
///
/// The lends must not borrow from the underlying lender, which is made
/// peekable.
pub struct Intersperse<L, T> {
    pub lender: Peekable<L, T>,
    pub separator: T,
    /// Whether the separator comes before the next lend.
    pub needs_sep: bool,
}

impl<L, T> Intersperse<L, T> {
    /// Puts `separator` between the lends of `lender`.
    pub fn new(lender: L, separator: T) -> (r: Intersperse<L, T>)
        ensures
            r.lender.lender == lender,
            r.lender.peeked is None,
            r.separator == separator,
            !r.needs_sep,
    {
        Intersperse { lender: Peekable::new(lender), separator, needs_sep: false }
    }

    /// Returns the inner lender; a peeked lend is dropped.
    pub fn into_inner(self) -> (r: L)
        ensures
            r == self.lender.lender,
    {
        self.lender.into_inner()
    }

    /// Returns the inner lender and the separator.
    pub fn into_parts(self) -> (r: (L, T))
        ensures
            r == (self.lender.lender, self.separator),
    {
        (self.lender.into_inner(), self.separator)
    }
}

impl<'lend, L: FallibleLender, T> FallibleLending<'lend> for Intersperse<L, T> {
    type Lend = FallibleLend<'lend, L>;
}

impl<L, T: Clone> Intersperse<L, T>
    where L: FallibleLender + for<'all> FallibleLending<'all, Lend = T>,
{
    /// When a separator is due and a lend follows, hands out a clone of the
    /// separator; when an error follows, hands out that error; otherwise hands
    /// out the next outcome. The clone need not equal the separator: this says
    /// only that it is a clone of it.
    pub fn next(&mut self) -> (r: Result<Option<T>, L::Error>)
        requires
            old(self).lender.wf(),
        ensures
            final(self).lender.wf(),
            final(self).separator == old(self).separator,
            old(self).needs_sep && old(self).lender.outcomes().len() > 0 && old(self).lender.outcomes()[0] is Ok ==> (
            r matches Ok(Some(y)) && strictly_cloned(old(self).separator, y)) && final(self).lender.outcomes() == old(
                self,
            ).lender.outcomes() && !final(self).needs_sep,
            old(self).needs_sep && old(self).lender.outcomes().len() > 0 && old(self).lender.outcomes()[0] is Err ==> r
                == Err::<Option<T>, L::Error>(old(self).lender.outcomes()[0]->Err_0) && final(self).lender.outcomes()
                == old(self).lender.outcomes().drop_first() && final(self).needs_sep,
            !(old(self).needs_sep && old(self).lender.outcomes().len() > 0) ==> fallible_next_post(
                old(self).lender.outcomes(),
                final(self).lender.outcomes(),
                r,
            ) && final(self).needs_sep,
    {
        if self.needs_sep {
            let next_is_lend = match self.lender.peek() {
                Ok(p) => p.is_some(),
                Err(e) => {
                    return Err(e);
                },
            };
            if next_is_lend {
                self.needs_sep = false;
                let s = self.separator.clone();
                proof {
                    assert(strictly_cloned(self.separator, s));
                }
                return Ok(Some(s));
            }
        }
        self.needs_sep = true;
        self.lender.next()
    }
}

impl<L, T: Clone> FallibleLender for Intersperse<L, T>
    where L: FallibleLender + for<'all> FallibleLending<'all, Lend = T>,
{
    type Error = L::Error;

    open spec fn wf(&self) -> bool {
        self.lender.wf() && clone_exact(self.separator)
    }

    open spec fn outcomes(&self) -> Seq<Result<T, L::Error>> {
        spread_outcomes(self.lender.outcomes(), Ok(self.separator), self.needs_sep)
    }

    fn next(&mut self) -> (r: Result<Option<T>, L::Error>) {
        proof {
            let r = self.lender.outcomes();
            let sep = Ok::<T, L::Error>(self.separator);
            if r.len() > 0 {
                assert(r[0] is Ok ==> sep_before_outcomes(r, sep).drop_first() == spread_outcomes(r, sep, false));
                assert(r[0] is Err ==> sep_before_outcomes(r, sep).drop_first() == sep_before_outcomes(
                    r.drop_first(),
                    sep,
                ));
                assert(spread_outcomes(r, sep, false).drop_first() == sep_before_outcomes(r.drop_first(), sep));
            }
        }
        if self.needs_sep {
            let next_is_lend = match self.lender.peek() {
                Ok(p) => p.is_some(),
                Err(e) => {
                    return Err(e);
                },
            };
            if next_is_lend {
                self.needs_sep = false;
                let s = self.separator.clone();
                proof {
                    assert(strictly_cloned(self.separator, s));
                }
                return Ok(Some(s));
            }
        }
        self.needs_sep = true;
        self.lender.next()
    }

    open spec fn hint(&self) -> (usize, Option<usize>) {
        intersperse_outcomes_hint(self.lender.hint(), self.needs_sep)
    }

    fn size_hint(&self) -> (r: (usize, Option<usize>)) {
        let h = self.lender.size_hint();
        proof {
            let r = self.lender.outcomes();
            let sep = Ok::<T, L::Error>(self.separator);
            lemma_sep_before_outcomes_len(r, sep);
            if r.len() > 0 {
                lemma_sep_before_outcomes_len(r.drop_first(), sep);
            }
            assert(hint_ok(r.len(), h));
        }
        let r = intersperse_outcomes_size_hint(h, self.needs_sep);
        proof {
            assert(hint_ok(self.outcomes().len(), r));
        }
        r
    }
}

impl<L, T: Clone> FusedFallibleLender for Intersperse<L, T>
    where L: FusedFallibleLender + for<'all> FallibleLending<'all, Lend = T>,
{
}

/// A fallible lender that hands out the outcomes of the underlying one with
/// an outcome of `separator` before each lend but the first; an error takes
/// no separator.
///
/// `separator` must be deterministic. The lends must not borrow from the
/// underlying lender, which is made peekable.
pub struct IntersperseWith<L, G, T> {
    pub lender: Peekable<L, T>,
    pub separator: G,
    /// Whether the separator comes before the next lend.
    pub needs_sep: bool,
}

impl<L, G, T> IntersperseWith<L, G, T> {
    /// Puts an outcome of `separator` between the lends of `lender`.
    pub fn new(lender: L, separator: G) -> (r: IntersperseWith<L, G, T>)
        ensures
            r.lender.lender == lender,
            r.lender.peeked is None,
            r.separator == separator,
            !r.needs_sep,
    {
        IntersperseWith { lender: Peekable::new(lender), separator, needs_sep: false }
    }

    /// Returns the inner lender; a peeked lend is dropped.
    pub fn into_inner(self) -> (r: L)
        ensures
            r == self.lender.lender,
    {
        self.lender.into_inner()
    }

    /// Returns the inner lender and the closure that makes separators.
    pub fn into_parts(self) -> (r: (L, G))
        ensures
            r == (self.lender.lender, self.separator),
    {
        (self.lender.into_inner(), self.separator)
    }
}

impl<L, G, T> IntersperseWith<L, G, T>
    where
        L: FallibleLender + for<'all> FallibleLending<'all, Lend = T>,
        G: FnMut() -> Result<T, L::Error>,
{
    /// When a separator is due and a lend follows, hands out the outcome of
    /// one call of the closure; when an error follows, hands out that error;
    /// otherwise hands out the next outcome. The closure may make a different
    /// separator at each call.
    pub fn next(&mut self) -> (r: Result<Option<T>, L::Error>)
        requires
            old(self).lender.wf(),
            call_requires(old(self).separator, ()),
        ensures
            final(self).lender.wf(),
            final(self).separator == old(self).separator,
            old(self).needs_sep && old(self).lender.outcomes().len() > 0 && old(self).lender.outcomes()[0] is Ok ==> (
            exists|y: Result<T, L::Error>|
                #[trigger] call_ensures(old(self).separator, (), y) && r == match y {
                    Ok(v) => Ok::<Option<T>, L::Error>(Some(v)),
                    Err(e) => Err::<Option<T>, L::Error>(e),
                }) && final(self).lender.outcomes() == old(self).lender.outcomes() && !final(self).needs_sep,
            old(self).needs_sep && old(self).lender.outcomes().len() > 0 && old(self).lender.outcomes()[0] is Err ==> r
                == Err::<Option<T>, L::Error>(old(self).lender.outcomes()[0]->Err_0) && final(self).lender.outcomes()
                == old(self).lender.outcomes().drop_first() && final(self).needs_sep,
            !(old(self).needs_sep && old(self).lender.outcomes().len() > 0) ==> fallible_next_post(
                old(self).lender.outcomes(),
                final(self).lender.outcomes(),
                r,
            ) && final(self).needs_sep,
    {
        if self.needs_sep {
            let next_is_lend = match self.lender.peek() {
                Ok(p) => p.is_some(),
                Err(e) => {
                    return Err(e);
                },
            };
            if next_is_lend {
                self.needs_sep = false;
                let made = (self.separator)();
                proof {
                    assert(call_ensures(self.separator, (), made));
                }
                return match made {
                    Ok(s) => Ok(Some(s)),
                    Err(e) => Err(e),
                };
            }
        }
        self.needs_sep = true;
        self.lender.next()
    }
}

impl<'lend, L: FallibleLender, G, T> FallibleLending<'lend> for IntersperseWith<L, G, T> {
    type Lend = FallibleLend<'lend, L>;
}

impl<L, G, T> FallibleLender for IntersperseWith<L, G, T>
    where
        L: FallibleLender + for<'all> FallibleLending<'all, Lend = T>,
        G: FnMut() -> Result<T, L::Error>,
{
    type Error = L::Error;

    open spec fn wf(&self) -> bool {
        self.lender.wf() && sep_pure(self.separator)
    }

    open spec fn outcomes(&self) -> Seq<Result<T, L::Error>> {
        spread_outcomes(self.lender.outcomes(), sep_out(self.separator), self.needs_sep)
    }

    fn next(&mut self) -> (r: Result<Option<T>, L::Error>)
        ensures
            final(self).separator == old(self).separator,
            old(self).needs_sep && old(self).lender.outcomes().len() > 0 && old(self).lender.outcomes()[0] is Ok ==> exists|
                s: Result<T, L::Error>,
            | #[trigger] call_ensures(old(self).separator, (), s),
    {
        proof {
            let r = self.lender.outcomes();
            let sep = sep_out(self.separator);
            if r.len() > 0 {
                assert(r[0] is Ok ==> sep_before_outcomes(r, sep).drop_first() == spread_outcomes(r, sep, false));
                assert(r[0] is Err ==> sep_before_outcomes(r, sep).drop_first() == sep_before_outcomes(
                    r.drop_first(),
                    sep,
                ));
                assert(spread_outcomes(r, sep, false).drop_first() == sep_before_outcomes(r.drop_first(), sep));
            }
        }
        if self.needs_sep {
            let next_is_lend = match self.lender.peek() {
                Ok(p) => p.is_some(),
                Err(e) => {
                    return Err(e);
                },
            };
            if next_is_lend {
                self.needs_sep = false;
                let made = (self.separator)();
                proof {
                    assert(call_ensures(self.separator, (), made));
                }
                return match made {
                    Ok(s) => Ok(Some(s)),
                    Err(e) => Err(e),
                };
            }
        }
        self.needs_sep = true;
        self.lender.next()
    }

    open spec fn hint(&self) -> (usize, Option<usize>) {
        intersperse_outcomes_hint(self.lender.hint(), self.needs_sep)
    }

    fn size_hint(&self) -> (r: (usize, Option<usize>)) {
        let h = self.lender.size_hint();
        proof {
            let r = self.lender.outcomes();
            let sep = sep_out(self.separator);
            lemma_sep_before_outcomes_len(r, sep);
            if r.len() > 0 {
                lemma_sep_before_outcomes_len(r.drop_first(), sep);
            }
            assert(hint_ok(r.len(), h));
        }
        let r = intersperse_outcomes_size_hint(h, self.needs_sep);
        proof {
            assert(hint_ok(self.outcomes().len(), r));
        }
        r
    }
}

impl<L, G, T> FusedFallibleLender for IntersperseWith<L, G, T>
    where
        L: FusedFallibleLender + for<'all> FallibleLending<'all, Lend = T>,
        G: FnMut() -> Result<T, L::Error>,
{
}

} // verus!

verus! {

/// What an `IntersperseWith` over a fallible lender is: well formed exactly
/// when its lender is and its separator closure always gives the same outcome.
pub proof fn lemma_fallible_intersperse_with_model<L, G, T>(i: IntersperseWith<L, G, T>)
    where
        L: FallibleLender + for<'all> FallibleLending<'all, Lend = T>,
        G: FnMut() -> Result<T, L::Error>,
    ensures
        i.wf() == (i.lender.wf() && sep_pure(i.separator)),
        i.outcomes() == spread_outcomes(i.lender.outcomes(), sep_out(i.separator), i.needs_sep),
{
}

} // verus!
