//! Laws of the adapters that drop, stop at or map lends (`filter`,
//! `filter_map`, `take_while`, `skip_while`, `map_while`, plain and
//! fallible): what they hand out, stated over the lends or outcomes of the
//! underlying lender and the answers of their closures, one by one.
//!
//! The answer of a closure on a value is `pred_out`, `ref_out` or `fn_out`:
//! for a well-formed adapter, whose closure gives one answer per value, it is
//! what every call on that value gives.
use vstd::prelude::*;

use crate::adapters::filter::Filter;
use crate::adapters::filter_map::FilterMap;
use crate::fallible::{FallibleLender, FallibleLending};
use crate::adapters::map_while::MapWhile;
use crate::adapters::take_while::TakeWhile;
use crate::fallible_adapters::filter::{kept_outcomes, mapped_some_outcomes};
use crate::fallible_adapters::map_while::mapped_while_outcomes;
use crate::fallible_adapters::take_while::taken_outcomes;
use crate::fallible_adapters::skip::skipped_while_outcomes;
use crate::adapters::skip_while::SkipWhile;
use crate::adapters::filter_map::mapped_some;
use crate::adapters::map_while::mapped_while;
use crate::adapters::skip_while::skipped_while;
use crate::adapters::take_while::taken_while;
use crate::spec::{fn_out, kept, pred_out, ref_out};
use crate::traits::{Lender, Lending};

verus! {

/// The number of errors among the outcomes `s`.
pub open spec fn err_count<T, E>(s: Seq<Result<T, E>>) -> nat
    decreases s.len(),
{
    if s.len() == 0 {
        0
    } else {
        (if s[0] is Err { 1nat } else { 0nat }) + err_count(s.drop_first())
    }
}

/// `p` rejects the outcome `o`: it is a lend on which `p` answers `Ok(false)`.
pub open spec fn rejected<T, E, P: FnMut(&T) -> Result<bool, E>>(p: P, o: Result<T, E>) -> bool {
    o matches Ok(x) && ref_out(p, x) == Ok::<bool, E>(false)
}

/// `f` drops the outcome `o`: it is a lend on which `f` answers `Ok(None)`.
pub open spec fn dropped<A, B, E, F: FnMut(A) -> Result<Option<B>, E>>(f: F, o: Result<A, E>) -> bool {
    o matches Ok(x) && fn_out(f, x) == Ok::<Option<B>, E>(None)
}

/// What a step that checks a lend with `p` hands out for the outcome `o`
/// when `p` does not reject it: an error of the lender, the error of `p`, or
/// the lend.
pub open spec fn checked<T, E, P: FnMut(&T) -> Result<bool, E>>(p: P, o: Result<T, E>) -> Result<T, E> {
    match o {
        Err(e) => Err(e),
        Ok(x) => match ref_out(p, x) {
            Err(e) => Err(e),
            Ok(_) => Ok(x),
        },
    }
}

/// What a step that maps a lend with `f` hands out for the outcome `o` when
/// `f` does not drop it: an error of the lender, the error of `f`, or what
/// `f` made of the lend.
pub open spec fn mapped_checked<A, B, E, F: FnMut(A) -> Result<Option<B>, E>>(f: F, o: Result<A, E>) -> Result<B, E> {
    match o {
        Err(e) => Err(e),
        Ok(x) => match fn_out(f, x) {
            Err(e) => Err(e),
            Ok(Some(b)) => Ok(b),
            Ok(None) => vstd::pervasive::arbitrary(),
        },
    }
}

proof fn lemma_kept_errors<T, E, P: FnMut(&T) -> Result<bool, E>>(p: P, s: Seq<Result<T, E>>)
    ensures
        err_count(kept_outcomes(p, s)) >= err_count(s),
        kept_outcomes(p, s).len() <= s.len(),
        forall|i: int| 0 <= i < kept_outcomes(p, s).len() && (#[trigger] kept_outcomes(p, s)[i]) is Ok ==> exists|j: int|
            0 <= j < s.len() && s[j] == kept_outcomes(p, s)[i] && ref_out(p, s[j]->Ok_0) == Ok::<bool, E>(true),
    decreases s.len(),
{
    if s.len() > 0 {
        let t = s.drop_first();
        lemma_kept_errors(p, t);
        let rest = kept_outcomes(p, t);
        let out = kept_outcomes(p, s);
        match s[0] {
            Err(e) => {
                assert(out == seq![Err(e)] + rest);
                assert(out.drop_first() =~= rest);
            },
            Ok(x) => match ref_out(p, x) {
                Err(e) => {
                    assert(out == seq![Err(e)] + rest);
                    assert(out.drop_first() =~= rest);
                },
                Ok(true) => {
                    assert(out == seq![Ok(x)] + rest);
                    assert(out.drop_first() =~= rest);
                },
                Ok(false) => {},
            },
        }
        assert forall|i: int| 0 <= i < out.len() && (#[trigger] out[i]) is Ok implies exists|j: int|
            0 <= j < s.len() && s[j] == out[i] && ref_out(p, s[j]->Ok_0) == Ok::<bool, E>(true) by {
            if s[0] matches Ok(x) && ref_out(p, x) == Ok::<bool, E>(false) {
                assert(out == rest);
                let j = choose|j: int| 0 <= j < t.len() && t[j] == rest[i] && ref_out(p, t[j]->Ok_0) == Ok::<bool, E>(true);
                assert(s[j + 1] == t[j]);
            } else if i == 0 {
                assert(s[0] is Ok);
                assert(s[0] == out[0]);
            } else {
                assert(out[i] == rest[i - 1]);
                let j = choose|j: int| 0 <= j < t.len() && t[j] == rest[i - 1] && ref_out(p, t[j]->Ok_0) == Ok::<bool, E>(true);
                assert(s[j + 1] == t[j]);
            }
        }
    }
}

proof fn lemma_kept_unrejected<T, E, P: FnMut(&T) -> Result<bool, E>>(p: P, s: Seq<Result<T, E>>)
    requires
        forall|i: int| 0 <= i < s.len() ==> !rejected(p, #[trigger] s[i]),
    ensures
        kept_outcomes(p, s).len() == s.len(),
        forall|i: int| 0 <= i < s.len() ==> #[trigger] kept_outcomes(p, s)[i] == checked(p, s[i]),
    decreases s.len(),
{
    if s.len() > 0 {
        let t = s.drop_first();
        assert forall|i: int| 0 <= i < t.len() implies !rejected(p, #[trigger] t[i]) by {
            assert(t[i] == s[i + 1]);
        }
        lemma_kept_unrejected(p, t);
        assert(!rejected(p, s[0]));
        let out = kept_outcomes(p, s);
        assert(out == seq![checked(p, s[0])] + kept_outcomes(p, t));
        assert forall|i: int| 0 <= i < s.len() implies #[trigger] out[i] == checked(p, s[i]) by {
            if i > 0 {
                assert(out[i] == kept_outcomes(p, t)[i - 1]);
                assert(t[i - 1] == s[i]);
            }
        }
    }
}

/// A fallible `filter` hands out every error of its lender, in its place: an
/// error that comes first is handed out first, and there are at least as
/// many errors among what it hands out as among the lender's outcomes. It
/// hands out no more outcomes than the lender has, and each lend it hands out
/// is one of the lender's that the predicate accepts. A lend that comes first
/// is handed out when the predicate accepts it, and replaced by the error
/// when the predicate fails on it.
pub proof fn law_fallible_filter_keeps_errors<L, P, T>(f: Filter<L, P>)
    where
        L: FallibleLender + for<'all> FallibleLending<'all, Lend = T>,
        P: FnMut(&T) -> Result<bool, L::Error>,
    ensures
        ({
            let s = f.lender.outcomes();
            let out = f.outcomes();
            &&& err_count(out) >= err_count(s)
            &&& out.len() <= s.len()
            &&& forall|i: int| 0 <= i < out.len() && (#[trigger] out[i]) is Ok ==> exists|j: int|
                0 <= j < s.len() && s[j] == out[i] && ref_out(f.predicate, s[j]->Ok_0) == Ok::<bool, L::Error>(true)
            &&& s.len() > 0 && s[0] is Err ==> out.len() > 0 && out[0] == s[0]
            &&& s.len() > 0 && s[0] is Ok && ref_out(f.predicate, s[0]->Ok_0) is Err ==> out.len() > 0 && out[0]
                == Err::<T, L::Error>(ref_out(f.predicate, s[0]->Ok_0)->Err_0)
            &&& s.len() > 0 && s[0] is Ok && ref_out(f.predicate, s[0]->Ok_0) == Ok::<bool, L::Error>(true) ==> out.len()
                > 0 && out[0] == s[0]
        }),
{
    lemma_kept_errors(f.predicate, f.lender.outcomes());
}

/// When the predicate rejects none of the lender's lends, a fallible
/// `filter` hands out one outcome for each of the lender's, in order: the
/// lender's error, the predicate's error, or the lend.
pub proof fn law_fallible_filter_without_rejections<L, P, T>(f: Filter<L, P>)
    where
        L: FallibleLender + for<'all> FallibleLending<'all, Lend = T>,
        P: FnMut(&T) -> Result<bool, L::Error>,
    requires
        forall|i: int| 0 <= i < f.lender.outcomes().len() ==> !rejected(f.predicate, #[trigger] f.lender.outcomes()[i]),
    ensures
        f.outcomes().len() == f.lender.outcomes().len(),
        forall|i: int|
            0 <= i < f.lender.outcomes().len() ==> #[trigger] f.outcomes()[i] == checked(f.predicate, f.lender.outcomes()[i]),
{
    lemma_kept_unrejected(f.predicate, f.lender.outcomes());
}

proof fn lemma_mapped_some_errors<A, B, E, F: FnMut(A) -> Result<Option<B>, E>>(f: F, s: Seq<Result<A, E>>)
    ensures
        err_count(mapped_some_outcomes(f, s)) >= err_count(s),
        mapped_some_outcomes(f, s).len() <= s.len(),
        forall|i: int| 0 <= i < mapped_some_outcomes(f, s).len() && (#[trigger] mapped_some_outcomes(f, s)[i]) is Ok
            ==> exists|j: int| 0 <= j < s.len() && s[j] is Ok && fn_out(f, s[j]->Ok_0) == Ok::<Option<B>, E>(
            Some(mapped_some_outcomes(f, s)[i]->Ok_0),
        ),
    decreases s.len(),
{
    if s.len() > 0 {
        let t = s.drop_first();
        lemma_mapped_some_errors(f, t);
        let rest = mapped_some_outcomes(f, t);
        let out = mapped_some_outcomes(f, s);
        match s[0] {
            Err(e) => {
                assert(out == seq![Err(e)] + rest);
                assert(out.drop_first() =~= rest);
            },
            Ok(x) => match fn_out(f, x) {
                Err(e) => {
                    assert(out == seq![Err(e)] + rest);
                    assert(out.drop_first() =~= rest);
                },
                Ok(Some(b)) => {
                    assert(out == seq![Ok(b)] + rest);
                    assert(out.drop_first() =~= rest);
                },
                Ok(None) => {},
            },
        }
        assert forall|i: int| 0 <= i < out.len() && (#[trigger] out[i]) is Ok implies exists|j: int|
            0 <= j < s.len() && s[j] is Ok && fn_out(f, s[j]->Ok_0) == Ok::<Option<B>, E>(Some(out[i]->Ok_0)) by {
            if s[0] matches Ok(x) && fn_out(f, x) == Ok::<Option<B>, E>(None) {
                assert(out == rest);
                let j = choose|j: int| 0 <= j < t.len() && t[j] is Ok && fn_out(f, t[j]->Ok_0) == Ok::<Option<B>, E>(Some(rest[i]->Ok_0));
                assert(s[j + 1] == t[j]);
            } else if i == 0 {
                assert(s[0] is Ok);
            } else {
                assert(out[i] == rest[i - 1]);
                let j = choose|j: int| 0 <= j < t.len() && t[j] is Ok && fn_out(f, t[j]->Ok_0) == Ok::<Option<B>, E>(Some(rest[i - 1]->Ok_0));
                assert(s[j + 1] == t[j]);
            }
        }
    }
}

proof fn lemma_mapped_some_undropped<A, B, E, F: FnMut(A) -> Result<Option<B>, E>>(f: F, s: Seq<Result<A, E>>)
    requires
        forall|i: int| 0 <= i < s.len() ==> !dropped(f, #[trigger] s[i]),
    ensures
        mapped_some_outcomes(f, s).len() == s.len(),
        forall|i: int| 0 <= i < s.len() ==> #[trigger] mapped_some_outcomes(f, s)[i] == mapped_checked(f, s[i]),
    decreases s.len(),
{
    if s.len() > 0 {
        let t = s.drop_first();
        assert forall|i: int| 0 <= i < t.len() implies !dropped(f, #[trigger] t[i]) by {
            assert(t[i] == s[i + 1]);
        }
        lemma_mapped_some_undropped(f, t);
        assert(!dropped(f, s[0]));
        let out = mapped_some_outcomes(f, s);
        assert(out == seq![mapped_checked(f, s[0])] + mapped_some_outcomes(f, t));
        assert forall|i: int| 0 <= i < s.len() implies #[trigger] out[i] == mapped_checked(f, s[i]) by {
            if i > 0 {
                assert(out[i] == mapped_some_outcomes(f, t)[i - 1]);
                assert(t[i - 1] == s[i]);
            }
        }
    }
}

/// A fallible `filter_map` hands out every error of its lender, in its
/// place: an error that comes first is handed out first, and there are at
/// least as many errors among what it hands out as among the lender's
/// outcomes. It hands out no more outcomes than the lender has, and each
/// value it hands out is what the closure made of one of the lender's lends.
/// For a lend that comes first, it hands out what the closure made of it, or
/// the closure's error.
pub proof fn law_fallible_filter_map_keeps_errors<L, F, B>(m: FilterMap<L, F>)
    where
        L: FallibleLender,
        F: for<'all> FnMut(<L as FallibleLending<'all>>::Lend) -> Result<Option<B>, L::Error>,
    ensures
        ({
            let s = m.lender.outcomes();
            let out = m.outcomes();
            &&& err_count(out) >= err_count(s)
            &&& out.len() <= s.len()
            &&& forall|i: int| 0 <= i < out.len() && (#[trigger] out[i]) is Ok ==> exists|j: int|
                0 <= j < s.len() && s[j] is Ok && fn_out(m.f, s[j]->Ok_0) == Ok::<Option<B>, L::Error>(Some(out[i]->Ok_0))
            &&& s.len() > 0 && s[0] is Err ==> out.len() > 0 && out[0] == Err::<B, L::Error>(s[0]->Err_0)
            &&& s.len() > 0 && s[0] is Ok && fn_out(m.f, s[0]->Ok_0) is Err ==> out.len() > 0 && out[0]
                == Err::<B, L::Error>(fn_out(m.f, s[0]->Ok_0)->Err_0)
            &&& s.len() > 0 && s[0] is Ok && fn_out(m.f, s[0]->Ok_0) is Ok && fn_out(m.f, s[0]->Ok_0)->Ok_0 is Some
                ==> out.len() > 0 && out[0] == Ok::<B, L::Error>(fn_out(m.f, s[0]->Ok_0)->Ok_0->Some_0)
        }),
{
    lemma_mapped_some_errors(m.f, m.lender.outcomes());
}

/// When the closure drops none of the lender's lends, a fallible
/// `filter_map` hands out one outcome for each of the lender's, in order: the
/// lender's error, the closure's error, or what the closure made of the lend.
pub proof fn law_fallible_filter_map_without_drops<L, F, B>(m: FilterMap<L, F>)
    where
        L: FallibleLender,
        F: for<'all> FnMut(<L as FallibleLending<'all>>::Lend) -> Result<Option<B>, L::Error>,
    requires
        forall|i: int| 0 <= i < m.lender.outcomes().len() ==> !dropped(m.f, #[trigger] m.lender.outcomes()[i]),
    ensures
        m.outcomes().len() == m.lender.outcomes().len(),
        forall|i: int| 0 <= i < m.lender.outcomes().len() ==> #[trigger] m.outcomes()[i] == mapped_checked(m.f, m.lender.outcomes()[i]),
{
    lemma_mapped_some_undropped(m.f, m.lender.outcomes());
}

/// `k` is where a step that stops at the first outcome `stop` admits stops:
/// no outcome before it is one, and the outcome at it, if any, is.
pub open spec fn stops_at<T, E>(stop: spec_fn(Result<T, E>) -> bool, s: Seq<Result<T, E>>, k: nat) -> bool {
    &&& k <= s.len()
    &&& forall|i: int| 0 <= i < k ==> !stop(#[trigger] s[i])
    &&& k < s.len() ==> stop(s[k as int])
}

proof fn lemma_taken_upto<T, E, P: FnMut(&T) -> Result<bool, E>>(p: P, s: Seq<Result<T, E>>, k: nat)
    requires
        stops_at(|o: Result<T, E>| rejected(p, o), s, k),
    ensures
        taken_outcomes(p, s).len() == k,
        forall|i: int| 0 <= i < k ==> #[trigger] taken_outcomes(p, s)[i] == checked(p, s[i]),
    decreases s.len(),
{
    if s.len() > 0 {
        let t = s.drop_first();
        if k == 0 {
            assert(rejected(p, s[0]));
        } else {
            assert(!rejected(p, s[0]));
            assert forall|i: int| 0 <= i < k - 1 implies !rejected(p, #[trigger] t[i]) by {
                assert(t[i] == s[i + 1]);
                assert(!(|o: Result<T, E>| rejected(p, o))(s[i + 1]));
            }
            if k - 1 < t.len() {
                assert(t[k - 1] == s[k as int]);
            }
            lemma_taken_upto(p, t, (k - 1) as nat);
            let out = taken_outcomes(p, s);
            assert(out == seq![checked(p, s[0])] + taken_outcomes(p, t));
            assert forall|i: int| 0 <= i < k implies #[trigger] out[i] == checked(p, s[i]) by {
                if i > 0 {
                    assert(out[i] == taken_outcomes(p, t)[i - 1]);
                    assert(t[i - 1] == s[i]);
                }
            }
        }
    }
}

proof fn lemma_mapped_while_upto<A, B, E, F: FnMut(A) -> Result<Option<B>, E>>(f: F, s: Seq<Result<A, E>>, k: nat)
    requires
        stops_at(|o: Result<A, E>| dropped(f, o), s, k),
    ensures
        mapped_while_outcomes(f, s).len() == k,
        forall|i: int| 0 <= i < k ==> #[trigger] mapped_while_outcomes(f, s)[i] == mapped_checked(f, s[i]),
    decreases s.len(),
{
    if s.len() > 0 {
        let t = s.drop_first();
        if k == 0 {
            assert(dropped(f, s[0]));
        } else {
            assert(!dropped(f, s[0]));
            assert forall|i: int| 0 <= i < k - 1 implies !dropped(f, #[trigger] t[i]) by {
                assert(t[i] == s[i + 1]);
                assert(!(|o: Result<A, E>| dropped(f, o))(s[i + 1]));
            }
            if k - 1 < t.len() {
                assert(t[k - 1] == s[k as int]);
            }
            lemma_mapped_while_upto(f, t, (k - 1) as nat);
            let out = mapped_while_outcomes(f, s);
            assert(out == seq![mapped_checked(f, s[0])] + mapped_while_outcomes(f, t));
            assert forall|i: int| 0 <= i < k implies #[trigger] out[i] == mapped_checked(f, s[i]) by {
                if i > 0 {
                    assert(out[i] == mapped_while_outcomes(f, t)[i - 1]);
                    assert(t[i - 1] == s[i]);
                }
            }
        }
    }
}

/// A fallible `take_while` that has not stopped hands out one outcome for
/// each of the lender's up to the first lend that the predicate rejects, and
/// nothing from there on: the lender's error, the predicate's error (after
/// which it goes on taking), or the lend. In particular an error, of the
/// lender or of the predicate, never ends it.
pub proof fn law_fallible_take_while_upto_rejection<L, P>(t: TakeWhile<L, P>, k: nat)
    where
        L: FallibleLender,
        P: FnMut(&<L as FallibleLending<'_>>::Lend) -> Result<bool, L::Error>,
    requires
        !t.flag,
        stops_at(|o: Result<<L as FallibleLending<'_>>::Lend, L::Error>| rejected(t.predicate, o), t.lender.outcomes(), k),
    ensures
        t.outcomes().len() == k,
        forall|i: int| 0 <= i < k ==> #[trigger] t.outcomes()[i] == checked(t.predicate, t.lender.outcomes()[i]),
{
    lemma_taken_upto(t.predicate, t.lender.outcomes(), k);
}

/// A fallible `map_while` that has not stopped hands out one outcome for
/// each of the lender's up to the first lend on which the closure gives
/// `None`, and nothing from there on: the lender's error, the closure's error
/// (after which it goes on), or what the closure made of the lend. In
/// particular an error, of the lender or of the closure, never ends it.
pub proof fn law_fallible_map_while_upto_none<L, P, B>(m: MapWhile<L, P>, k: nat)
    where
        L: FallibleLender,
        P: for<'all> FnMut(<L as FallibleLending<'all>>::Lend) -> Result<Option<B>, L::Error>,
    requires
        !m.done,
        stops_at(|o: Result<<L as FallibleLending<'_>>::Lend, L::Error>| dropped(m.predicate, o), m.lender.outcomes(), k),
    ensures
        m.outcomes().len() == k,
        forall|i: int| 0 <= i < k ==> #[trigger] m.outcomes()[i] == mapped_checked(m.predicate, m.lender.outcomes()[i]),
{
    lemma_mapped_while_upto(m.predicate, m.lender.outcomes(), k);
}

/// A fallible `take_while` that has stopped hands out nothing more, and a
/// fallible `map_while` likewise.
pub proof fn law_fallible_take_while_map_while_after_stop<L, P, F, B>(t: TakeWhile<L, P>, m: MapWhile<L, F>)
    where
        L: FallibleLender,
        P: FnMut(&<L as FallibleLending<'_>>::Lend) -> Result<bool, L::Error>,
        F: for<'all> FnMut(<L as FallibleLending<'all>>::Lend) -> Result<Option<B>, L::Error>,
    ensures
        t.flag ==> t.outcomes().len() == 0,
        m.done ==> m.outcomes().len() == 0,
{
}

proof fn lemma_skipped_while_outcomes<T, E, P: FnMut(&T) -> Result<bool, E>>(p: P, s: Seq<Result<T, E>>, k: nat)
    requires
        stops_at(|o: Result<T, E>| rejected(p, o), s, k),
    ensures
        skipped_while_outcomes(p, s).len() >= s.len() - k,
        ({
            let out = skipped_while_outcomes(p, s);
            let h = out.len() - (s.len() - k);
            &&& out.skip(h) == s.skip(k as int)
            &&& forall|i: int| 0 <= i < h ==> (#[trigger] out[i]) is Err
            &&& err_count(out.take(h)) >= err_count(s.take(k as int))
            &&& h <= k
        }),
    decreases s.len(),
{
    let out = skipped_while_outcomes(p, s);
    if s.len() == 0 {
        assert(out.skip(0) =~= s.skip(0));
        assert(out.take(0) =~= s.take(0));
    } else if k == 0 {
        assert(rejected(p, s[0]));
        assert(out == s);
        assert(out.skip(0) =~= s.skip(0));
        assert(out.take(0) =~= s.take(0));
    } else {
        let t = s.drop_first();
        assert(!rejected(p, s[0]));
        assert forall|i: int| 0 <= i < k - 1 implies !rejected(p, #[trigger] t[i]) by {
            assert(t[i] == s[i + 1]);
            assert(!(|o: Result<T, E>| rejected(p, o))(s[i + 1]));
        }
        if k - 1 < t.len() {
            assert(t[k - 1] == s[k as int]);
        }
        lemma_skipped_while_outcomes(p, t, (k - 1) as nat);
        let rest = skipped_while_outcomes(p, t);
        let hr = rest.len() - (t.len() - (k - 1));
        assert(t.skip(k - 1) =~= s.skip(k as int));
        assert(s.take(k as int).drop_first() =~= t.take(k - 1));
        if s[0] is Err || (s[0] is Ok && ref_out(p, s[0]->Ok_0) is Err) {
            let e0 = if s[0] is Err { s[0]->Err_0 } else { ref_out(p, s[0]->Ok_0)->Err_0 };
            assert(out == seq![Err(e0)] + rest);
            let h = hr + 1;
            assert(out.skip(h) =~= rest.skip(hr));
            assert forall|i: int| 0 <= i < h implies (#[trigger] out[i]) is Err by {
                if i > 0 {
                    assert(out[i] == rest[i - 1]);
                }
            }
            assert(out.take(h).drop_first() =~= rest.take(hr));
            assert(out.take(h)[0] is Err);
        } else {
            assert(s[0] is Ok && ref_out(p, s[0]->Ok_0) == Ok::<bool, E>(true));
            assert(out == rest);
            assert(s.take(k as int)[0] is Ok);
        }
    }
}

/// A fallible `skip_while` that has not stopped skipping hands out, for the
/// outcomes before the first lend that the predicate rejects, only the
/// errors among them (every error of the lender and every error of the
/// predicate, the accepted lends being skipped), and then every outcome from
/// that lend on, unchanged. An error that comes first is handed out first.
pub proof fn law_fallible_skip_while_upto_rejection<L, P, T>(w: SkipWhile<L, P>, k: nat)
    where
        L: FallibleLender + for<'all> FallibleLending<'all, Lend = T>,
        P: FnMut(&T) -> Result<bool, L::Error>,
    requires
        !w.flag,
        stops_at(|o: Result<T, L::Error>| rejected(w.predicate, o), w.lender.outcomes(), k),
    ensures
        ({
            let s = w.lender.outcomes();
            let out = w.outcomes();
            let h = out.len() - (s.len() - k);
            &&& out.len() >= s.len() - k
            &&& h <= k
            &&& out.skip(h) == s.skip(k as int)
            &&& forall|i: int| 0 <= i < h ==> (#[trigger] out[i]) is Err
            &&& err_count(out.take(h)) >= err_count(s.take(k as int))
            &&& s.len() > 0 && s[0] is Err ==> out.len() > 0 && out[0] == s[0]
            &&& s.len() > 0 && s[0] is Ok && ref_out(w.predicate, s[0]->Ok_0) is Err ==> out.len() > 0 && out[0]
                == Err::<T, L::Error>(ref_out(w.predicate, s[0]->Ok_0)->Err_0)
        }),
{
    let s = w.lender.outcomes();
    lemma_skipped_while_outcomes(w.predicate, s, k);
    if s.len() > 0 && (s[0] is Err || (s[0] is Ok && ref_out(w.predicate, s[0]->Ok_0) is Err)) {
        assert(k > 0);
    }
}

/// A fallible `skip_while` that has stopped skipping hands out the outcomes
/// of its lender unchanged.
pub proof fn law_fallible_skip_while_after_stop<L, P, T>(w: SkipWhile<L, P>)
    where
        L: FallibleLender + for<'all> FallibleLending<'all, Lend = T>,
        P: FnMut(&T) -> Result<bool, L::Error>,
    requires
        w.flag,
    ensures
        w.outcomes() == w.lender.outcomes(),
{
}

proof fn lemma_kept_selects<T, P: FnMut(&T) -> bool>(p: P, s: Seq<T>)
    ensures
        kept(p, s).len() <= s.len(),
        (forall|i: int| 0 <= i < s.len() ==> pred_out(p, #[trigger] s[i])) ==> kept(p, s) == s,
        (forall|i: int| 0 <= i < s.len() ==> !pred_out(p, #[trigger] s[i])) ==> kept(p, s).len() == 0,
        s.len() > 0 && pred_out(p, s[0]) ==> kept(p, s).len() > 0 && kept(p, s)[0] == s[0],
        s.len() > 0 && !pred_out(p, s[0]) ==> kept(p, s).len() < s.len(),
    decreases s.len(),
{
    if s.len() > 0 {
        let t = s.drop_first();
        lemma_kept_selects(p, t);
        assert(s == seq![s[0]] + t);
        t.lemma_filter_prepend(s[0], |a: T| pred_out(p, a));
        if forall|i: int| 0 <= i < s.len() ==> pred_out(p, #[trigger] s[i]) {
            assert forall|i: int| 0 <= i < t.len() implies pred_out(p, #[trigger] t[i]) by {
                assert(t[i] == s[i + 1]);
            }
            assert(kept(p, s) =~= seq![s[0]] + t);
            assert(seq![s[0]] + t =~= s);
        }
        if forall|i: int| 0 <= i < s.len() ==> !pred_out(p, #[trigger] s[i]) {
            assert forall|i: int| 0 <= i < t.len() implies !pred_out(p, #[trigger] t[i]) by {
                assert(t[i] == s[i + 1]);
            }
            assert(!pred_out(p, s[0]));
        }
    } else {
        assert(kept(p, s) =~= s);
    }
}

/// `filter` hands out a lend that comes first exactly when the predicate
/// accepts it; it hands out every lend when the predicate accepts them all,
/// none when it rejects them all, and never more lends than the lender has.
pub proof fn law_filter_selects<L, P, T>(l: L, p: P)
    where
        L: Lender + for<'all> Lending<'all, Lend = T>,
        P: FnMut(&T) -> bool,
    ensures
        ({
            let s = l.lends();
            let out = (Filter { lender: l, predicate: p }).lends();
            &&& out.len() <= s.len()
            &&& (forall|i: int| 0 <= i < s.len() ==> pred_out(p, #[trigger] s[i])) ==> out == s
            &&& (forall|i: int| 0 <= i < s.len() ==> !pred_out(p, #[trigger] s[i])) ==> out.len() == 0
            &&& s.len() > 0 && pred_out(p, s[0]) ==> out.len() > 0 && out[0] == s[0]
            &&& s.len() > 0 && !pred_out(p, s[0]) ==> out.len() < s.len()
        }),
{
    lemma_kept_selects(p, l.lends());
}

proof fn lemma_mapped_some_selects<A, B, F: FnMut(A) -> Option<B>>(f: F, s: Seq<A>)
    ensures
        mapped_some(f, s).len() <= s.len(),
        forall|i: int| 0 <= i < mapped_some(f, s).len() ==> exists|j: int|
            0 <= j < s.len() && fn_out(f, s[j]) == Some(#[trigger] mapped_some(f, s)[i]),
        (forall|i: int| 0 <= i < s.len() ==> (#[trigger] fn_out(f, s[i])) is Some) ==> mapped_some(f, s).len() == s.len()
            && forall|i: int| 0 <= i < s.len() ==> Some(#[trigger] mapped_some(f, s)[i]) == fn_out(f, s[i]),
        (forall|i: int| 0 <= i < s.len() ==> (#[trigger] fn_out(f, s[i])) is None) ==> mapped_some(f, s).len() == 0,
    decreases s.len(),
{
    if s.len() > 0 {
        let t = s.drop_first();
        lemma_mapped_some_selects(f, t);
        let out = mapped_some(f, s);
        let rest = mapped_some(f, t);
        assert forall|i: int| 0 <= i < out.len() implies exists|j: int|
            0 <= j < s.len() && fn_out(f, s[j]) == Some(#[trigger] out[i]) by {
            if fn_out(f, s[0]) is Some && i == 0 {
            } else {
                let i2 = if fn_out(f, s[0]) is Some { i - 1 } else { i };
                assert(out[i] == rest[i2]);
                let j = choose|j: int| 0 <= j < t.len() && fn_out(f, t[j]) == Some(#[trigger] rest[i2]);
                assert(s[j + 1] == t[j]);
            }
        }
        if forall|i: int| 0 <= i < s.len() ==> (#[trigger] fn_out(f, s[i])) is Some {
            assert forall|i: int| 0 <= i < t.len() implies (#[trigger] fn_out(f, t[i])) is Some by {
                assert(t[i] == s[i + 1]);
            }
            assert(fn_out(f, s[0]) is Some);
            assert forall|i: int| 0 <= i < s.len() implies Some(#[trigger] out[i]) == fn_out(f, s[i]) by {
                if i > 0 {
                    assert(out[i] == rest[i - 1]);
                    assert(t[i - 1] == s[i]);
                }
            }
        }
        if forall|i: int| 0 <= i < s.len() ==> (#[trigger] fn_out(f, s[i])) is None {
            assert forall|i: int| 0 <= i < t.len() implies (#[trigger] fn_out(f, t[i])) is None by {
                assert(t[i] == s[i + 1]);
            }
            assert(fn_out(f, s[0]) is None);
        }
    }
}

/// `filter_map` hands out only values that the closure made of some lend of
/// the lender, never more values than the lender has lends; what the closure
/// makes of each lend, in order, when it makes a value of every one, and
/// nothing when it makes none.
pub proof fn law_filter_map_selects<L: Lender, F, B>(m: FilterMap<L, F>)
    where
        F: for<'all> FnMut(<L as Lending<'all>>::Lend) -> Option<B>,
    ensures
        ({
            let s = m.lender.lends();
            let out = m.lends();
            &&& out.len() <= s.len()
            &&& forall|i: int| 0 <= i < out.len() ==> exists|j: int| 0 <= j < s.len() && fn_out(m.f, s[j]) == Some(#[trigger] out[i])
            &&& (forall|i: int| 0 <= i < s.len() ==> (#[trigger] fn_out(m.f, s[i])) is Some) ==> out.len() == s.len()
                && forall|i: int| 0 <= i < s.len() ==> Some(#[trigger] out[i]) == fn_out(m.f, s[i])
            &&& (forall|i: int| 0 <= i < s.len() ==> (#[trigger] fn_out(m.f, s[i])) is None) ==> out.len() == 0
        }),
{
    lemma_mapped_some_selects(m.f, m.lender.lends());
}

proof fn lemma_mapped_while_upto_none<A, B, F: FnMut(A) -> Option<B>>(f: F, s: Seq<A>, k: nat)
    requires
        k <= s.len(),
        forall|i: int| 0 <= i < k ==> (#[trigger] fn_out(f, s[i])) is Some,
        k < s.len() ==> fn_out(f, s[k as int]) is None,
    ensures
        mapped_while(f, s).len() == k,
        forall|i: int| 0 <= i < k ==> Some(#[trigger] mapped_while(f, s)[i]) == fn_out(f, s[i]),
    decreases s.len(),
{
    if s.len() > 0 && k > 0 {
        let t = s.drop_first();
        assert(fn_out(f, s[0]) is Some);
        assert forall|i: int| 0 <= i < k - 1 implies (#[trigger] fn_out(f, t[i])) is Some by {
            assert(t[i] == s[i + 1]);
        }
        if k - 1 < t.len() {
            assert(t[k - 1] == s[k as int]);
        }
        lemma_mapped_while_upto_none(f, t, (k - 1) as nat);
        let out = mapped_while(f, s);
        assert forall|i: int| 0 <= i < k implies Some(#[trigger] out[i]) == fn_out(f, s[i]) by {
            if i > 0 {
                assert(out[i] == mapped_while(f, t)[i - 1]);
                assert(t[i - 1] == s[i]);
            }
        }
    }
}

/// A `map_while` that has not stopped hands out what the closure makes of
/// each lend, in order, up to the first lend of which it makes nothing, and
/// nothing from there on; one that has stopped hands out nothing.
pub proof fn law_map_while_upto_none<L: Lender, F, B>(m: MapWhile<L, F>, k: nat)
    where
        F: for<'all> FnMut(<L as Lending<'all>>::Lend) -> Option<B>,
    requires
        k <= m.lender.lends().len(),
        forall|i: int| 0 <= i < k ==> (#[trigger] fn_out(m.predicate, m.lender.lends()[i])) is Some,
        k < m.lender.lends().len() ==> fn_out(m.predicate, m.lender.lends()[k as int]) is None,
    ensures
        m.done ==> m.lends().len() == 0,
        !m.done ==> m.lends().len() == k,
        !m.done ==> forall|i: int| 0 <= i < k ==> Some(#[trigger] m.lends()[i]) == fn_out(m.predicate, m.lender.lends()[i]),
{
    lemma_mapped_while_upto_none(m.predicate, m.lender.lends(), k);
}

proof fn lemma_take_skip_upto<T, P: FnMut(&T) -> bool>(p: P, s: Seq<T>, k: nat)
    requires
        k <= s.len(),
        forall|i: int| 0 <= i < k ==> pred_out(p, #[trigger] s[i]),
        k < s.len() ==> !pred_out(p, s[k as int]),
    ensures
        taken_while(p, s) == s.take(k as int),
        skipped_while(p, s) == s.skip(k as int),
    decreases s.len(),
{
    if s.len() > 0 && k > 0 {
        let t = s.drop_first();
        assert(pred_out(p, s[0]));
        assert forall|i: int| 0 <= i < k - 1 implies pred_out(p, #[trigger] t[i]) by {
            assert(t[i] == s[i + 1]);
        }
        if k - 1 < t.len() {
            assert(t[k - 1] == s[k as int]);
        }
        lemma_take_skip_upto(p, t, (k - 1) as nat);
        assert(seq![s[0]] + t.take(k - 1) =~= s.take(k as int));
        assert(t.skip(k - 1) =~= s.skip(k as int));
    } else {
        assert(s.take(0) =~= Seq::<T>::empty());
        assert(s.skip(0) =~= s);
    }
}

/// `take_while` hands out the lends before the first one that the predicate
/// rejects, and `skip_while` that lend and all after it; once stopped,
/// `take_while` hands out nothing and `skip_while` everything left.
pub proof fn law_take_while_skip_while_split_at_rejection<L, P, T>(l: L, p: P, k: nat)
    where
        L: Lender + for<'all> Lending<'all, Lend = T>,
        P: FnMut(&T) -> bool,
    requires
        k <= l.lends().len(),
        forall|i: int| 0 <= i < k ==> pred_out(p, #[trigger] l.lends()[i]),
        k < l.lends().len() ==> !pred_out(p, l.lends()[k as int]),
    ensures
        (TakeWhile { lender: l, flag: false, predicate: p }).lends() == l.lends().take(k as int),
        (SkipWhile { lender: l, flag: false, predicate: p }).lends() == l.lends().skip(k as int),
        (TakeWhile { lender: l, flag: true, predicate: p }).lends().len() == 0,
        (SkipWhile { lender: l, flag: true, predicate: p }).lends() == l.lends(),
{
    lemma_take_skip_upto(p, l.lends(), k);
}

} // verus!
