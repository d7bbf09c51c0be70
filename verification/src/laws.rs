//! Laws that relate the lenders and adapters of this library to one another.
//!
//! Each law is stated over `lends()` (or `outcomes()` for fallible lenders),
//! the model that every contract of the library is written in, and over the
//! adapters in the state in which their constructors leave them.
use vstd::prelude::*;

use crate::adapters::enumerate::numbered;
use crate::adapters::map::mapped;
use crate::adapters::flatten::{flat_lends, flat_mapped, front_lends};
use crate::adapters::skip_while::skipped_while;
use crate::adapters::step_by::{lemma_stepped_index, lemma_stepped_len, selected, stepped};
use crate::adapters::take_while::taken_while;
use crate::adapters::zip::zipped;
use crate::adapters::intersperse::{interleaved, lemma_sep_before_len, sep_before};
use crate::adapters::peekable::Peekable;
use crate::adapters::{Intersperse, TryShunt, Chain, Enumerate, Filter, FlatMap, Flatten, Fuse, MapLend, Rev, Skip, SkipWhile, StepBy, Take, TakeWhile, Zip};
use crate::fallible::{
    fallible_next_post, first_err, lemma_first_err, ok_prefix, FallibleLender, FallibleSpecLend,
};
use crate::fallible_adapters::into_fallible::oks;
use crate::fallible_adapters::map_err::{lemma_map_outcomes, map_outcomes};
use crate::fallible_adapters::{Convert, IntoFallible, MapErr, NonFallibleAdapter};
use crate::spec::{
    advance_post, fn_out, kept, lemma_kept_len, lemma_reverse, min_nat, next_post, nth_post, pred_out,
    prefix, suffix,
};
use crate::traits::{DoubleEndedLender, Lend, Lender, Lending, SpecLend};

verus! {

/// Once `next` has handed out `None`, the next call hands out `None` again:
/// every lender is fused.
pub proof fn law_exhausted_stays_exhausted<T>(s0: Seq<T>, s1: Seq<T>, r1: Option<T>, s2: Seq<T>, r2: Option<T>)
    requires
        next_post(s0, s1, r1),
        r1 is None,
        next_post(s1, s2, r2),
    ensures
        r2 is None,
        s2.len() == 0,
{
}

/// Once `next` has handed out `Ok(None)`, the next call hands out `Ok(None)`
/// again: every fallible lender is fused.
pub proof fn law_fallible_exhausted_stays_exhausted<T, E>(
    s0: Seq<Result<T, E>>,
    s1: Seq<Result<T, E>>,
    r1: Result<Option<T>, E>,
    s2: Seq<Result<T, E>>,
    r2: Result<Option<T>, E>,
)
    requires
        fallible_next_post(s0, s1, r1),
        r1 == Ok::<Option<T>, E>(None),
        fallible_next_post(s1, s2, r2),
    ensures
        r2 == Ok::<Option<T>, E>(None),
        s2.len() == 0,
{
}

/// Peeking does not advance: the lend that `peek` shows is the one that the
/// next call of `next` hands out, and after the end both give nothing.
pub proof fn law_peek_then_next<T>(s0: Seq<T>, p: Option<T>, s1: Seq<T>, r: Option<T>, s2: Seq<T>)
    requires
        s1 == s0,
        s0.len() > 0 ==> p == Some(s0[0]),
        s0.len() == 0 ==> p is None,
        next_post(s1, s2, r),
    ensures
        r == p,
        s2 == s0.skip(1) || (s0.len() == 0 && s2.len() == 0),
{
}

/// `nth(n)` hands out what `next` hands out after `advance_by(n)` succeeded,
/// and leaves the lender in the same state.
pub proof fn law_nth_is_advance_then_next<T>(s: Seq<T>, mid: Seq<T>, new: Seq<T>, n: nat, r: Option<T>)
    requires
        advance_post(s, mid, n, Ok(())),
        next_post(mid, new, r),
    ensures
        nth_post(s, new, n, r),
{
    if n < s.len() {
        assert(mid[0] == s[n as int]);
        assert(mid.drop_first() == s.skip(n + 1 as int));
    }
}

/// After `m` calls of `next` from the state `states[0]`, the lender holds the
/// lends of `states[0]` past the first `m`, and the last call handed out the
/// `m`-th lend, if there was one.
proof fn lemma_repeated_next<T>(states: Seq<Seq<T>>, outs: Seq<Option<T>>, m: nat)
    requires
        states.len() == outs.len() + 1,
        forall|i: int| 0 <= i < outs.len() ==> next_post(#[trigger] states[i], states[i + 1], outs[i]),
        m < states.len(),
    ensures
        states[m as int] == suffix(states[0], m),
        m > 0 ==> outs[m - 1] == (if m - 1 < states[0].len() { Some(states[0][m - 1]) } else { None }),
    decreases m,
{
    let s0 = states[0];
    if m == 0 {
        assert(s0.skip(0) =~= s0);
    } else {
        lemma_repeated_next(states, outs, (m - 1) as nat);
        let k = m - 1;
        assert(next_post(states[k], states[k + 1], outs[k]));
        if k < s0.len() {
            assert(states[k as int] == s0.skip(k));
            assert(states[k as int][0] == s0[k]);
            if m < s0.len() {
                assert(s0.skip(k).drop_first() =~= s0.skip(m as int));
            } else {
                assert(states[m as int] =~= suffix(s0, m));
            }
        } else {
            assert(states[m as int] =~= suffix(s0, m));
        }
    }
}

/// `nth(n)` hands out what the last of `n + 1` calls of `next` from the same
/// state hands out, and leaves the lender with the lends that those calls
/// leave.
pub proof fn law_nth_is_repeated_next<T>(states: Seq<Seq<T>>, outs: Seq<Option<T>>, n: nat, new: Seq<T>, r: Option<T>)
    requires
        states.len() == n + 2,
        outs.len() == n + 1,
        forall|i: int| 0 <= i <= n ==> next_post(#[trigger] states[i], states[i + 1], outs[i]),
        nth_post(states[0], new, n, r),
    ensures
        r == outs[n as int],
        new == states[n + 1 as int],
{
    lemma_repeated_next(states, outs, n + 1);
    let s0 = states[0];
    if n + 1 < s0.len() {
        assert(new =~= states[n + 1 as int]);
    } else {
        assert(new =~= states[n + 1 as int]);
    }
}

/// A step of a lender is a step of the fallible lender made from it: where
/// `next` hands out `r`, the fallible lender's `next` hands out `Ok(r)`, and
/// the outcomes that remain are the remaining lends, each as `Ok`. So after
/// any number of steps the fallible lender still gives what the lender gives.
pub proof fn law_into_fallible_step<T, E>(s: Seq<T>, new: Seq<T>, r: Option<T>)
    requires
        next_post(s, new, r),
    ensures
        fallible_next_post(oks::<T, E>(s), oks::<T, E>(new), Ok::<Option<T>, E>(r)),
{
    if s.len() > 0 {
        assert(oks::<T, E>(s).drop_first() =~= oks::<T, E>(new));
    }
}

/// Turning a lender into a fallible one and back undoes nothing: after `k`
/// calls of the fallible lender's `next`, each handing out a lend, the lender
/// inside hands out exactly the lends of the original from position `k` on.
pub proof fn law_into_fallible_then_into_inner<T>(states: Seq<Seq<T>>, outs: Seq<Option<T>>, k: nat)
    requires
        states.len() == k + 1,
        outs.len() == k,
        forall|i: int| 0 <= i < k ==> next_post(#[trigger] states[i], states[i + 1], outs[i]),
        forall|i: int| 0 <= i < k ==> #[trigger] outs[i] is Some,
    ensures
        k <= states[0].len(),
        states[k as int] == states[0].skip(k as int),
{
    if k > 0 {
        lemma_repeated_next(states, outs, k);
        let j = (k - 1) as int;
        assert(outs[j] is Some);
        assert(next_post(states[j], states[j + 1], outs[j]));
        assert(states[j].len() > 0);
        lemma_repeated_next(states, outs, (k - 1) as nat);
        assert(k - 1 < states[0].len());
        if k < states[0].len() {
        } else {
            assert(states[k as int] =~= states[0].skip(k as int));
        }
    } else {
        assert(states[0].skip(0) =~= states[0]);
    }
}

/// Once a fused lender has handed out `None` it has nothing left to hand out
/// and says so in its size hint, whatever its lender would do.
pub proof fn law_fuse_after_none<L: Lender>(f: Fuse<L>)
    requires
        f.flag,
    ensures
        f.lends().len() == 0,
        f.hint() == (0usize, Some(0usize)),
{
}

/// Reversing a double-ended lender twice gives back its lends.
pub proof fn law_rev_rev<L: DoubleEndedLender>(l: L)
    ensures
        (Rev { lender: Rev { lender: l } }).lends() == l.lends(),
{
    lemma_reverse(l.lends());
}

/// Fusing a lender does not change its lends, and fusing twice is fusing
/// once.
pub proof fn law_fuse<L: Lender>(l: L)
    ensures
        (Fuse { lender: l, flag: false }).lends() == l.lends(),
        (Fuse { lender: Fuse { lender: l, flag: false }, flag: false }).lends() == l.lends(),
{
}

/// The first `n` lends followed by the lends after the first `n` are all the
/// lends.
pub proof fn law_take_skip<L: Lender>(l: L, n: usize)
    ensures
        (Take { lender: l, n }).lends() + (Skip { lender: l, n }).lends() == l.lends(),
{
    let s = l.lends();
    if n < s.len() {
        assert(s.take(n as int) + s.skip(n as int) =~= s);
    } else {
        assert(s + Seq::<SpecLend<L>>::empty() =~= s);
    }
}

/// Taking `a` lends and then `b` of them is taking the smaller number.
pub proof fn law_take_take<L: Lender>(l: L, a: usize, b: usize)
    ensures
        (Take { lender: Take { lender: l, n: a }, n: b }).lends() == (Take {
            lender: l,
            n: if a <= b { a } else { b },
        }).lends(),
{
    let s = l.lends();
    assert(prefix(prefix(s, a as nat), b as nat) =~= prefix(s, min_nat(a as nat, b as nat)));
}

/// Skipping `a` lends and then `b` is skipping `a + b`.
pub proof fn law_skip_skip<L: Lender>(l: L, a: usize, b: usize)
    requires
        a + b <= usize::MAX,
    ensures
        (Skip { lender: Skip { lender: l, n: a }, n: b }).lends() == (Skip {
            lender: l,
            n: (a + b) as usize,
        }).lends(),
{
    let s = l.lends();
    assert(suffix(suffix(s, a as nat), b as nat) =~= suffix(s, (a + b) as nat));
}

/// Chaining two lenders hands out the lends of the first and then those of
/// the second.
pub proof fn law_chain<A, B>(a: A, b: B)
    where
        A: Lender,
        B: Lender + for<'all> Lending<'all, Lend = Lend<'all, A>>,
    ensures
        (Chain { a: Fuse { lender: a, flag: false }, b: Fuse { lender: b, flag: false } }).lends() == a.lends()
            + b.lends(),
{
}

/// Zipping pairs the lends at the same position and stops with the shorter
/// lender.
pub proof fn law_zip<A: Lender, B: Lender>(a: A, b: B)
    ensures
        (Zip { a, b }).lends().len() == min_nat(a.lends().len(), b.lends().len()),
        forall|i: int|
            0 <= i < (Zip { a, b }).lends().len() ==> #[trigger] (Zip { a, b }).lends()[i] == (a.lends()[i], b.lends()[i]),
{
}

/// Enumerating pairs the `i`-th lend with `i`.
pub proof fn law_enumerate<L: Lender>(l: L)
    ensures
        (Enumerate { lender: l, count: 0 }).lends().len() == l.lends().len(),
        forall|i: int|
            0 <= i < l.lends().len() ==> #[trigger] (Enumerate { lender: l, count: 0 }).lends()[i] == (
                i as usize,
                l.lends()[i],
            ),
{
}

/// Stepping by `step` hands out the lends at positions `0, step, 2 * step,
/// ...`, as many as there are such positions.
pub proof fn law_step_by<L: Lender>(l: L, step: usize)
    requires
        step > 0,
    ensures
        (StepBy { lender: l, step: (step - 1) as usize, first_take: true }).lends().len() == if l.lends().len()
            == 0 {
            0
        } else {
            1 + (l.lends().len() - 1) / (step as int)
        },
        forall|i: int|
            0 <= i < (StepBy { lender: l, step: (step - 1) as usize, first_take: true }).lends().len() ==> #[trigger] (
            StepBy { lender: l, step: (step - 1) as usize, first_take: true }).lends()[i] == l.lends()[i * step] && i
                * step < l.lends().len(),
{
    let k = step as nat;
    let st = StepBy { lender: l, step: (step - 1) as usize, first_take: true };
    assert(st.step + 1 == k);
    assert(st.lends() == stepped(l.lends(), k));
    lemma_stepped_len(l.lends(), k);
    lemma_stepped_index(l.lends(), k);
    assert forall|i: int| 0 <= i < st.lends().len() implies #[trigger] st.lends()[i] == l.lends()[i * step] && i
        * step < l.lends().len() by {
        assert(st.lends()[i] == stepped(l.lends(), k)[i]);
        assert(i * k == i * step);
        assert(i * step < l.lends().len());
    }
    assert(st.lends().len() == if l.lends().len() == 0 { 0 } else { 1 + (l.lends().len() - 1) / (step as int) });
}

/// Mapping keeps the number of lends and passes each one through the
/// closure.
pub proof fn law_map<L: Lender, F, B>(l: L, f: F)
    where
        F: for<'all> FnMut(Lend<'all, L>) -> B,
    ensures
        (MapLend { lender: l, f }).lends().len() == l.lends().len(),
        forall|i: int|
            0 <= i < l.lends().len() ==> #[trigger] (MapLend { lender: l, f }).lends()[i] == fn_out::<
                SpecLend<L>,
                B,
                F,
            >(f, l.lends()[i]),
{
}

/// The lenders that `f` makes from the elements of `s`, flattened, hand out
/// what mapping and flattening in one step hands out.
proof fn lemma_flat_lends_mapped<A, I: Lender, F: FnMut(A) -> I>(f: F, s: Seq<A>)
    ensures
        flat_lends(mapped(f, s)) == flat_mapped(f, s),
    decreases s.len(),
{
    if s.len() > 0 {
        assert(mapped(f, s).drop_first() =~= mapped(f, s.drop_first()));
        lemma_flat_lends_mapped(f, s.drop_first());
    }
}

/// Mapping each lend to a lender and flattening in one step (`flat_map`) hands
/// out what mapping and then flattening (`map` then `flatten`) hands out.
pub proof fn law_flat_map_is_map_flatten<L, F, I, T>(l: L, f: F)
    where
        L: Lender,
        F: for<'all> FnMut(Lend<'all, L>) -> I,
        I: Lender + for<'all> Lending<'all, Lend = T>,
    ensures
        (FlatMap { lender: l, f, inner: None }).lends() == (Flatten { lender: MapLend { lender: l, f }, inner: None::<I> }).lends(),
{
    lemma_flat_lends_mapped::<SpecLend<L>, I, F>(f, l.lends());
    assert(front_lends::<I>(None) + flat_mapped::<SpecLend<L>, I, F>(f, l.lends()) =~= flat_mapped::<SpecLend<L>, I, F>(f, l.lends()));
    assert(front_lends::<I>(None) + flat_lends(mapped::<SpecLend<L>, I, F>(f, l.lends())) =~= flat_lends(mapped::<SpecLend<L>, I, F>(f, l.lends())));
}

/// Filtering never adds lends, and every lend it keeps is accepted by the
/// predicate.
pub proof fn law_filter<L, P, T>(l: L, p: P)
    where
        L: Lender + for<'all> Lending<'all, Lend = T>,
        P: FnMut(&T) -> bool,
    ensures
        (Filter { lender: l, predicate: p }).lends().len() <= l.lends().len(),
        forall|i: int|
            0 <= i < (Filter { lender: l, predicate: p }).lends().len() ==> pred_out(
                p,
                #[trigger] (Filter { lender: l, predicate: p }).lends()[i],
            ),
{
    lemma_kept_len(p, l.lends());
    let s = l.lends();
    let q = |a: T| pred_out(p, a);
    assert forall|i: int| 0 <= i < kept(p, s).len() implies pred_out(p, #[trigger] kept(p, s)[i]) by {
        s.lemma_filter_pred(q, i);
    }
}

/// The lends taken while the predicate accepts them, followed by the lends
/// left after skipping while it accepts them, are all the lends.
pub proof fn law_take_while_skip_while<L, P, T>(l: L, p: P)
    where
        L: Lender + for<'all> Lending<'all, Lend = T>,
        P: FnMut(&T) -> bool,
    ensures
        (TakeWhile { lender: l, flag: false, predicate: p }).lends() + (SkipWhile {
            lender: l,
            flag: false,
            predicate: p,
        }).lends() == l.lends(),
{
    lemma_take_skip_while(p, l.lends());
}

/// `taken_while` and `skipped_while` split a sequence in two.
proof fn lemma_take_skip_while<T, P: FnMut(&T) -> bool>(p: P, s: Seq<T>)
    ensures
        taken_while(p, s) + skipped_while(p, s) == s,
    decreases s.len(),
{
    if s.len() > 0 && pred_out(p, s[0]) {
        lemma_take_skip_while(p, s.drop_first());
        assert(seq![s[0]] + s.drop_first() == s);
        assert((seq![s[0]] + taken_while(p, s.drop_first())) + skipped_while(p, s.drop_first()) =~= seq![s[0]]
            + (taken_while(p, s.drop_first()) + skipped_while(p, s.drop_first())));
    } else {
        assert(Seq::<T>::empty() + s =~= s);
    }
}

/// Seeing a lender as a fallible lender never fails and keeps its lends.
pub proof fn law_into_fallible<L: Lender>(l: L)
    ensures
        (IntoFallible { lender: l }).outcomes() == oks::<SpecLend<L>, core::convert::Infallible>(l.lends()),
        first_err((IntoFallible { lender: l }).outcomes()) == l.lends().len(),
        ok_prefix((IntoFallible { lender: l }).outcomes()) == l.lends(),
{
    lemma_oks::<SpecLend<L>, core::convert::Infallible>(l.lends());
}

/// A sequence of successes has no error and its lends are the sequence.
proof fn lemma_oks<T, E>(s: Seq<T>)
    ensures
        first_err(oks::<T, E>(s)) == s.len(),
        ok_prefix(oks::<T, E>(s)) == s,
    decreases s.len(),
{
    if s.len() > 0 {
        lemma_oks::<T, E>(s.drop_first());
        assert(oks::<T, E>(s).drop_first() == oks::<T, E>(s.drop_first()));
        assert(seq![s[0]] + s.drop_first() == s);
    }
}

/// Going from a lender to a fallible one and back gives its lends back.
pub proof fn law_fallible_round_trip<L: Lender>(l: L)
    ensures
        (NonFallibleAdapter { lender: IntoFallible { lender: l }, error: None }).lends() == l.lends(),
{
    lemma_oks::<SpecLend<L>, core::convert::Infallible>(l.lends());
}

/// Seen as a lender, a fallible lender hands out its lends up to its first
/// error, as many as come before it.
pub proof fn law_non_fallible<L: FallibleLender>(l: L)
    ensures
        (NonFallibleAdapter { lender: l, error: None }).lends() == ok_prefix(l.outcomes()),
        (NonFallibleAdapter { lender: l, error: None }).lends().len() == first_err(l.outcomes()),
{
    lemma_first_err(l.outcomes());
}

/// Mapping the errors keeps the lends before the first error and where that
/// error comes.
pub proof fn law_map_err<E, L: FallibleLender, F: FnMut(L::Error) -> E>(l: L, f: F)
    ensures
        first_err((MapErr { lender: l, f, marker: core::marker::PhantomData }).outcomes()) == first_err(
            l.outcomes(),
        ),
        ok_prefix((MapErr { lender: l, f, marker: core::marker::PhantomData }).outcomes()) == ok_prefix(
            l.outcomes(),
        ),
{
    lemma_map_outcomes(f, l.outcomes());
}

/// Interspersing puts the separator between each two adjacent lends: there
/// are `2 * n - 1` lends for `n > 0`, the lends at even positions are those
/// of the lender and those at odd positions are the separator.
pub proof fn law_intersperse<L, T: Clone>(l: L, sep: T)
    where
        L: Lender + for<'all> Lending<'all, Lend = T>,
    ensures
        ({
            let s = (Intersperse { lender: Peekable { lender: l, peeked: None }, separator: sep, needs_sep: false }).lends();
            let n = l.lends().len();
            &&& s.len() == if n == 0 { 0 } else { 2 * n - 1 }
            &&& forall|i: int| 0 <= i < s.len() && i % 2 == 0 ==> s[i] == l.lends()[i / 2]
            &&& forall|i: int| 0 <= i < s.len() && i % 2 == 1 ==> s[i] == sep
        }),
{
    let r = l.lends();
    if r.len() > 0 {
        lemma_sep_before_index(r.drop_first(), sep);
        lemma_sep_before_len(r.drop_first(), sep);
        let s = interleaved(r, sep);
        assert forall|i: int| 0 <= i < s.len() && i % 2 == 0 implies s[i] == r[i / 2] by {
            if i > 0 {
                assert(s[i] == sep_before(r.drop_first(), sep)[i - 1]);
                assert((i - 1) % 2 == 1);
                assert((i - 1) / 2 == i / 2 - 1);
            }
        }
        assert forall|i: int| 0 <= i < s.len() && i % 2 == 1 implies s[i] == sep by {
            assert(s[i] == sep_before(r.drop_first(), sep)[i - 1]);
            assert((i - 1) % 2 == 0);
        }
    }
}

/// The elements of `sep_before(r, sep)`: the separator at even positions and
/// the elements of `r` at odd ones.
proof fn lemma_sep_before_index<T>(r: Seq<T>, sep: T)
    ensures
        forall|i: int| 0 <= i < 2 * r.len() && i % 2 == 0 ==> #[trigger] sep_before(r, sep)[i] == sep,
        forall|i: int| 0 <= i < 2 * r.len() && i % 2 == 1 ==> #[trigger] sep_before(r, sep)[i] == r[i / 2],
    decreases r.len(),
{
    lemma_sep_before_len(r, sep);
    if r.len() > 0 {
        let t = r.drop_first();
        lemma_sep_before_index(t, sep);
        lemma_sep_before_len(t, sep);
        assert forall|i: int| 0 <= i < 2 * r.len() && i % 2 == 0 implies #[trigger] sep_before(r, sep)[i] == sep by {
            if i >= 2 {
                assert(sep_before(r, sep)[i] == sep_before(t, sep)[i - 2]);
                assert((i - 2) % 2 == 0);
            }
        }
        assert forall|i: int| 0 <= i < 2 * r.len() && i % 2 == 1 implies #[trigger] sep_before(r, sep)[i] == r[i / 2] by {
            if i >= 2 {
                assert(sep_before(r, sep)[i] == sep_before(t, sep)[i - 2]);
                assert((i - 2) % 2 == 1);
                assert((i - 2) / 2 == i / 2 - 1);
                assert(t[i / 2 - 1] == r[i / 2]);
            }
        }
    }
}

/// Shunting a lender of `Result`s hands out what seeing it as a fallible
/// lender and back hands out: the `Ok` values up to the first `Err`.
pub proof fn law_try_shunt<L, T, E>(l: L)
    where
        L: Lender + for<'all> Lending<'all, Lend = Result<T, E>>,
    ensures
        (TryShunt { lender: l, residual: None::<E> }).lends() == (NonFallibleAdapter {
            lender: Convert { iter: l, marker: core::marker::PhantomData::<E> },
            error: None,
        }).lends(),
        (TryShunt { lender: l, residual: None::<E> }).lends() == ok_prefix(l.lends()),
{
}

} // verus!
