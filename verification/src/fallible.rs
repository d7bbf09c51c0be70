//! Fallible lending iterators: lenders whose every step may fail.
use vstd::prelude::*;

use crate::adapters::{
    Enumerate, Filter, FilterMap, Fuse, Inspect, MapLend, MapWhile, Rev, Skip, SkipWhile, StepBy, Take, TakeWhile,
};
use crate::fallible_adapters::{FallibleFlatten, FallibleIntersperse, FallibleIntersperseWith, FalliblePeekable, FlatMap, MapErr};
use core::ops::ControlFlow;
use crate::spec::{hint_ok, lemma_reverse};

verus! {

/// The type of the lends that a fallible lender hands out while it is
/// borrowed for `'lend`.
pub trait FallibleLending<'lend> {
    type Lend;
}

/// The lend of `L` for the borrow `'lend`.
pub type FallibleLend<'lend, L> = <L as FallibleLending<'lend>>::Lend;

/// A lend of `L` as contracts see it (lifetimes play no part in them).
pub type FallibleSpecLend<L> = <L as FallibleLending<'static>>::Lend;

/// What `next` does to a fallible lender described by `old`: the first
/// outcome is consumed and handed out, as `Ok(Some(..))` for a lend and as
/// `Err(..)` for an error; when nothing is left it hands out `Ok(None)`.
pub open spec fn fallible_next_post<T, E>(
    old: Seq<Result<T, E>>,
    new: Seq<Result<T, E>>,
    r: Result<Option<T>, E>,
) -> bool {
    if old.len() > 0 {
        &&& new == old.drop_first()
        &&& match old[0] {
            Ok(x) => r == Ok::<Option<T>, E>(Some(x)),
            Err(e) => r == Err::<Option<T>, E>(e),
        }
    } else {
        r == Ok::<Option<T>, E>(None) && new.len() == 0
    }
}

/// What `next_back` does: the last outcome is consumed and handed out.
pub open spec fn fallible_next_back_post<T, E>(
    old: Seq<Result<T, E>>,
    new: Seq<Result<T, E>>,
    r: Result<Option<T>, E>,
) -> bool {
    if old.len() > 0 {
        &&& new == old.drop_last()
        &&& match old.last() {
            Ok(x) => r == Ok::<Option<T>, E>(Some(x)),
            Err(e) => r == Err::<Option<T>, E>(e),
        }
    } else {
        r == Ok::<Option<T>, E>(None) && new.len() == 0
    }
}

/// The index of the first error among `s`, or `s.len()` when there is none.
pub open spec fn first_err<T, E>(s: Seq<Result<T, E>>) -> nat
    decreases s.len(),
{
    if s.len() == 0 {
        0
    } else if s[0] is Err {
        0
    } else {
        1 + first_err(s.drop_first())
    }
}

/// What `advance_by(n)` does to a fallible lender described by `old`: it
/// skips `n` lends; an error among them is handed out at once, with what
/// follows it left; when fewer are left it drains the lender and reports how
/// many steps were missing.
pub open spec fn fallible_advance_post<T, E>(
    old: Seq<Result<T, E>>,
    new: Seq<Result<T, E>>,
    n: nat,
    r: Result<Result<(), usize>, E>,
) -> bool {
    let k = first_err(old);
    if k < n && k < old.len() {
        r == Err::<Result<(), usize>, E>(old[k as int]->Err_0) && new == old.skip(k + 1 as int)
    } else if n <= old.len() {
        r == Ok::<Result<(), usize>, E>(Ok(())) && new == old.skip(n as int)
    } else {
        r == Ok::<Result<(), usize>, E>(Err((n - old.len()) as usize)) && new.len() == 0
    }
}

/// What `nth(n)` does: it skips `n` lends and hands out the outcome after
/// them; an error among the skipped ones is handed out instead.
pub open spec fn fallible_nth_post<T, E>(
    old: Seq<Result<T, E>>,
    new: Seq<Result<T, E>>,
    n: nat,
    r: Result<Option<T>, E>,
) -> bool {
    let k = first_err(old);
    if k < n && k < old.len() {
        r == Err::<Option<T>, E>(old[k as int]->Err_0) && new == old.skip(k + 1 as int)
    } else if n < old.len() {
        &&& new == old.skip(n + 1 as int)
        &&& match old[n as int] {
            Ok(x) => r == Ok::<Option<T>, E>(Some(x)),
            Err(e) => r == Err::<Option<T>, E>(e),
        }
    } else {
        r == Ok::<Option<T>, E>(None) && new.len() == 0
    }
}

/// The lends before the first error among `s`.
pub open spec fn ok_prefix<T, E>(s: Seq<Result<T, E>>) -> Seq<T>
    decreases s.len(),
{
    if s.len() > 0 && s[0] is Ok {
        seq![s[0]->Ok_0] + ok_prefix(s.drop_first())
    } else {
        Seq::empty()
    }
}

/// `first_err` points at an error or at the end, and everything before it is
/// a lend.
pub proof fn lemma_first_err<T, E>(s: Seq<Result<T, E>>)
    ensures
        first_err(s) <= s.len(),
        first_err(s) < s.len() ==> s[first_err(s) as int] is Err,
        forall|i: int| 0 <= i < first_err(s) ==> (#[trigger] s[i]) is Ok,
        ok_prefix(s).len() == first_err(s),
    decreases s.len(),
{
    if s.len() > 0 && s[0] is Ok {
        let t = s.drop_first();
        lemma_first_err(t);
        assert forall|i: int| 0 <= i < first_err(s) implies (#[trigger] s[i]) is Ok by {
            if i > 0 {
                assert(s[i] == t[i - 1]);
            }
        }
        if first_err(s) < s.len() {
            assert(s[first_err(s) as int] == t[first_err(t) as int]);
        }
    }
}

/// `accs` lists the accumulators of the first steps of a fallible fold of
/// `f` over the outcomes `s` from `init`: each of those outcomes is a lend and
/// `f` succeeded on it.
pub open spec fn fallible_fold_trace<B, T, E, F: FnMut(B, T) -> Result<B, E>>(
    f: F,
    init: B,
    s: Seq<Result<T, E>>,
    accs: Seq<B>,
) -> bool {
    &&& 1 <= accs.len() <= s.len() + 1
    &&& accs[0] == init
    &&& forall|i: int| 0 <= i < accs.len() - 1 ==> (#[trigger] s[i]) is Ok
    &&& forall|i: int|
        0 <= i < accs.len() - 1 ==> call_ensures(f, (#[trigger] accs[i], s[i]->Ok_0), Ok::<B, E>(accs[i + 1]))
}

/// `r` is a possible result of a fallible fold of `f` over the outcomes `s`
/// from `init`: the last accumulator when every outcome is a lend on which
/// `f` succeeds, and otherwise the first error, of the lender or of `f`.
pub open spec fn fallible_fold_result<B, T, E, F: FnMut(B, T) -> Result<B, E>>(
    f: F,
    init: B,
    s: Seq<Result<T, E>>,
    r: Result<B, E>,
) -> bool {
    exists|accs: Seq<B>| #[trigger] fallible_fold_trace(f, init, s, accs) && {
        let k = accs.len() - 1;
        ||| k == s.len() && r == Ok::<B, E>(accs.last())
        ||| k < s.len() && s[k] is Err && r == Err::<B, E>(s[k]->Err_0)
        ||| k < s.len() && s[k] is Ok && r is Err && call_ensures(f, (accs.last(), s[k]->Ok_0), r)
    }
}

/// `f` accepts every accumulator and every lend.
pub open spec fn fallible_fold_ready<B, T, E, F: FnMut(B, T) -> Result<B, E>>(f: F) -> bool {
    forall|b: B, t: T| call_requires(f, (b, t))
}

/// `accs` lists the accumulators of the first steps of a fallible
/// short-circuiting fold of `f` over the outcomes `s` from `init`: each of
/// those outcomes is a lend and `f` continued on it.
pub open spec fn fallible_try_fold_trace<B, R, T, E, F: FnMut(B, T) -> Result<ControlFlow<R, B>, E>>(
    f: F,
    init: B,
    s: Seq<Result<T, E>>,
    accs: Seq<B>,
) -> bool {
    &&& 1 <= accs.len() <= s.len() + 1
    &&& accs[0] == init
    &&& forall|i: int| 0 <= i < accs.len() - 1 ==> (#[trigger] s[i]) is Ok
    &&& forall|i: int|
        0 <= i < accs.len() - 1 ==> call_ensures(
            f,
            (#[trigger] accs[i], s[i]->Ok_0),
            Ok::<ControlFlow<R, B>, E>(ControlFlow::Continue(accs[i + 1])),
        )
}

/// What a fallible short-circuiting fold of `f` over the outcomes `old` from
/// `init` does: either `f` continues on every lend and the lender is drained,
/// or it stops at the `k`-th outcome, which is an error of the lender, handed
/// out, or a lend on which `f` failed or broke, whose result is handed out;
/// the outcomes after it remain.
pub open spec fn fallible_try_fold_post<B, R, T, E, F: FnMut(B, T) -> Result<ControlFlow<R, B>, E>>(
    f: F,
    init: B,
    old: Seq<Result<T, E>>,
    new: Seq<Result<T, E>>,
    r: Result<ControlFlow<R, B>, E>,
) -> bool {
    exists|accs: Seq<B>| #[trigger] fallible_try_fold_trace(f, init, old, accs) && {
        let k = accs.len() - 1;
        ||| k == old.len() && r == Ok::<ControlFlow<R, B>, E>(ControlFlow::Continue(accs.last())) && new.len() == 0
        ||| k < old.len() && old[k] is Err && r == Err::<ControlFlow<R, B>, E>(old[k]->Err_0) && new == old.skip(
            k + 1,
        )
        ||| k < old.len() && old[k] is Ok && !(r matches Ok(ControlFlow::Continue(_))) && call_ensures(
            f,
            (accs.last(), old[k]->Ok_0),
            r,
        ) && new == old.skip(k + 1)
    }
}

/// `f` accepts every accumulator and every lend.
pub open spec fn fallible_try_fold_ready<B, R, T, E, F: FnMut(B, T) -> Result<ControlFlow<R, B>, E>>(
    f: F,
) -> bool {
    forall|b: B, t: T| call_requires(f, (b, t))
}

/// A fallible fold trace goes on by one step when `f` succeeds on the next
/// outcome, a lend.
pub proof fn lemma_fallible_fold_trace_push<B, T, E, F: FnMut(B, T) -> Result<B, E>>(
    f: F,
    init: B,
    s: Seq<Result<T, E>>,
    accs: Seq<B>,
    b: B,
)
    requires
        fallible_fold_trace(f, init, s, accs),
        accs.len() - 1 < s.len(),
        s[accs.len() - 1] is Ok,
        call_ensures(f, (accs.last(), s[accs.len() - 1]->Ok_0), Ok::<B, E>(b)),
    ensures
        fallible_fold_trace(f, init, s, accs.push(b)),
{
    let n = accs.push(b);
    assert forall|i: int| 0 <= i < n.len() - 1 implies call_ensures(
        f,
        (#[trigger] n[i], s[i]->Ok_0),
        Ok::<B, E>(n[i + 1]),
    ) by {
        if i < accs.len() - 1 {
            assert(n[i] == accs[i] && n[i + 1] == accs[i + 1]);
        }
    }
}

/// A fallible short-circuiting fold trace goes on by one step when `f`
/// continues on the next outcome, a lend.
pub proof fn lemma_fallible_try_fold_trace_push<B, R, T, E, F: FnMut(B, T) -> Result<ControlFlow<R, B>, E>>(
    f: F,
    init: B,
    s: Seq<Result<T, E>>,
    accs: Seq<B>,
    b: B,
)
    requires
        fallible_try_fold_trace(f, init, s, accs),
        accs.len() - 1 < s.len(),
        s[accs.len() - 1] is Ok,
        call_ensures(
            f,
            (accs.last(), s[accs.len() - 1]->Ok_0),
            Ok::<ControlFlow<R, B>, E>(ControlFlow::Continue(b)),
        ),
    ensures
        fallible_try_fold_trace(f, init, s, accs.push(b)),
{
    let n = accs.push(b);
    assert forall|i: int| 0 <= i < n.len() - 1 implies call_ensures(
        f,
        (#[trigger] n[i], s[i]->Ok_0),
        Ok::<ControlFlow<R, B>, E>(ControlFlow::Continue(n[i + 1])),
    ) by {
        if i < accs.len() - 1 {
            assert(n[i] == accs[i] && n[i + 1] == accs[i + 1]);
        }
    }
}

/// A fallible fold over no outcomes succeeds with the initial accumulator.
pub proof fn lemma_fallible_fold_empty<B, T, E, F: FnMut(B, T) -> Result<B, E>>(f: F, init: B, s: Seq<Result<T, E>>)
    requires
        s.len() == 0,
    ensures
        fallible_fold_result(f, init, s, Ok(init)),
{
    let w = seq![init];
    assert(w.last() == init);
    assert(fallible_fold_trace(f, init, s, w));
}

/// A fallible short-circuiting fold over no outcomes continues with the
/// initial accumulator.
pub proof fn lemma_fallible_try_fold_empty<B, R, T, E, F: FnMut(B, T) -> Result<ControlFlow<R, B>, E>>(
    f: F,
    init: B,
    s: Seq<Result<T, E>>,
    new: Seq<Result<T, E>>,
)
    requires
        s.len() == 0,
        new.len() == 0,
    ensures
        fallible_try_fold_post(f, init, s, new, Ok(ControlFlow::Continue(init))),
{
    let w = seq![init];
    assert(w.last() == init);
    assert(fallible_try_fold_trace(f, init, s, w));
}

/// A fallible fold over a lend and then `rest` is the step on that lend
/// followed by a fold over `rest`.
pub proof fn lemma_fallible_fold_step<B, T, E, F: FnMut(B, T) -> Result<B, E>>(
    f: F,
    init: B,
    v: T,
    a: B,
    rest: Seq<Result<T, E>>,
    r: Result<B, E>,
)
    requires
        call_ensures(f, (init, v), Ok::<B, E>(a)),
        fallible_fold_result(f, a, rest, r),
    ensures
        fallible_fold_result(f, init, seq![Ok(v)] + rest, r),
{
    let s = seq![Ok::<T, E>(v)] + rest;
    let a2 = choose|w: Seq<B>| #[trigger] fallible_fold_trace(f, a, rest, w) && {
        let k = w.len() - 1;
        ||| k == rest.len() && r == Ok::<B, E>(w.last())
        ||| k < rest.len() && rest[k] is Err && r == Err::<B, E>(rest[k]->Err_0)
        ||| k < rest.len() && rest[k] is Ok && r is Err && call_ensures(f, (w.last(), rest[k]->Ok_0), r)
    };
    let w = seq![init] + a2;
    assert forall|i: int| 0 <= i < w.len() - 1 implies (#[trigger] s[i]) is Ok by {
        if i > 0 {
            assert(s[i] == rest[i - 1]);
        }
    }
    assert forall|i: int| 0 <= i < w.len() - 1 implies call_ensures(
        f,
        (#[trigger] w[i], s[i]->Ok_0),
        Ok::<B, E>(w[i + 1]),
    ) by {
        if i > 0 {
            assert(w[i] == a2[i - 1] && w[i + 1] == a2[i] && s[i] == rest[i - 1]);
        }
    }
    assert(fallible_fold_trace(f, init, s, w));
    assert(w.last() == a2.last());
    let k = a2.len() - 1;
    if k < rest.len() {
        assert(s[k + 1] == rest[k]);
    }
}

/// A fallible fold stops at a lend on which `f` fails.
pub proof fn lemma_fallible_fold_stop<B, T, E, F: FnMut(B, T) -> Result<B, E>>(
    f: F,
    init: B,
    v: T,
    rest: Seq<Result<T, E>>,
    r: Result<B, E>,
)
    requires
        call_ensures(f, (init, v), r),
        r is Err,
    ensures
        fallible_fold_result(f, init, seq![Ok(v)] + rest, r),
{
    let s = seq![Ok::<T, E>(v)] + rest;
    let w = seq![init];
    assert(w.last() == init);
    assert(s[0] == Ok::<T, E>(v));
    assert(fallible_fold_trace(f, init, s, w));
}

/// A fallible short-circuiting fold over a lend and then `rest`, when `f`
/// continues on that lend, is the step on it followed by a fold over `rest`.
pub proof fn lemma_fallible_try_fold_step<B, R, T, E, F: FnMut(B, T) -> Result<ControlFlow<R, B>, E>>(
    f: F,
    init: B,
    v: T,
    a: B,
    rest: Seq<Result<T, E>>,
    new: Seq<Result<T, E>>,
    r: Result<ControlFlow<R, B>, E>,
)
    requires
        call_ensures(f, (init, v), Ok::<ControlFlow<R, B>, E>(ControlFlow::Continue(a))),
        fallible_try_fold_post(f, a, rest, new, r),
    ensures
        fallible_try_fold_post(f, init, seq![Ok(v)] + rest, new, r),
{
    let s = seq![Ok::<T, E>(v)] + rest;
    let a2 = choose|w: Seq<B>| #[trigger] fallible_try_fold_trace(f, a, rest, w) && {
        let k = w.len() - 1;
        ||| k == rest.len() && r == Ok::<ControlFlow<R, B>, E>(ControlFlow::Continue(w.last())) && new.len() == 0
        ||| k < rest.len() && rest[k] is Err && r == Err::<ControlFlow<R, B>, E>(rest[k]->Err_0) && new
            == rest.skip(k + 1)
        ||| k < rest.len() && rest[k] is Ok && !(r matches Ok(ControlFlow::Continue(_))) && call_ensures(
            f,
            (w.last(), rest[k]->Ok_0),
            r,
        ) && new == rest.skip(k + 1)
    };
    let w = seq![init] + a2;
    assert forall|i: int| 0 <= i < w.len() - 1 implies (#[trigger] s[i]) is Ok by {
        if i > 0 {
            assert(s[i] == rest[i - 1]);
        }
    }
    assert forall|i: int| 0 <= i < w.len() - 1 implies call_ensures(
        f,
        (#[trigger] w[i], s[i]->Ok_0),
        Ok::<ControlFlow<R, B>, E>(ControlFlow::Continue(w[i + 1])),
    ) by {
        if i > 0 {
            assert(w[i] == a2[i - 1] && w[i + 1] == a2[i] && s[i] == rest[i - 1]);
        }
    }
    assert(fallible_try_fold_trace(f, init, s, w));
    assert(w.last() == a2.last());
    let k = a2.len() - 1;
    if k < rest.len() {
        assert(s[k + 1] == rest[k]);
        assert(s.skip(k + 2) == rest.skip(k + 1));
    }
}

/// A fallible short-circuiting fold stops at a lend on which `f` fails or
/// breaks, and leaves what follows it.
pub proof fn lemma_fallible_try_fold_stop<B, R, T, E, F: FnMut(B, T) -> Result<ControlFlow<R, B>, E>>(
    f: F,
    init: B,
    v: T,
    rest: Seq<Result<T, E>>,
    r: Result<ControlFlow<R, B>, E>,
)
    requires
        call_ensures(f, (init, v), r),
        !(r matches Ok(ControlFlow::Continue(_))),
    ensures
        fallible_try_fold_post(f, init, seq![Ok(v)] + rest, rest, r),
{
    let s = seq![Ok::<T, E>(v)] + rest;
    let w = seq![init];
    assert(w.last() == init);
    assert(s[0] == Ok::<T, E>(v));
    assert(s.skip(1) == rest);
    assert(fallible_try_fold_trace(f, init, s, w));
}

/// Skipping a first outcome that is a lend shifts `nth` by one.
pub proof fn lemma_fallible_nth_shift<T, E>(
    s: Seq<Result<T, E>>,
    new: Seq<Result<T, E>>,
    n: nat,
    r: Result<Option<T>, E>,
)
    requires
        s.len() > 0,
        s[0] is Ok,
    ensures
        fallible_nth_post(s, new, n + 1, r) == fallible_nth_post(s.drop_first(), new, n, r),
{
    let t = s.drop_first();
    assert(first_err(s) == 1 + first_err(t));
    lemma_first_err(t);
    let p = first_err(t);
    if p < t.len() {
        assert(s[p + 1 as int] == t[p as int]);
        assert(s.skip(p + 2 as int) == t.skip(p + 1 as int));
    }
    if n < t.len() {
        assert(s[n + 1 as int] == t[n as int]);
        assert(s.skip(n + 2 as int) == t.skip(n + 1 as int));
    }
}

/// Skipping `m` first outcomes that are all lends shifts `nth` by `m`.
pub proof fn lemma_fallible_nth_skip<T, E>(
    s: Seq<Result<T, E>>,
    new: Seq<Result<T, E>>,
    n: nat,
    m: nat,
    r: Result<Option<T>, E>,
)
    requires
        m <= s.len(),
        first_err(s) >= m,
    ensures
        fallible_nth_post(s, new, n + m, r) == fallible_nth_post(s.skip(m as int), new, n, r),
        first_err(s) == m + first_err(s.skip(m as int)),
    decreases m,
{
    if m == 0 {
        assert(s.skip(0) == s);
    } else {
        lemma_first_err(s);
        assert(s[0] is Ok);
        let t = s.drop_first();
        lemma_fallible_nth_shift(s, new, (n + m - 1) as nat, r);
        assert(first_err(s) == 1 + first_err(t));
        lemma_fallible_nth_skip(t, new, n, (m - 1) as nat, r);
        assert(t.skip(m - 1) == s.skip(m as int));
    }
}

/// An error or the end that `nth(a)` hands out is also what `nth(b)` hands
/// out for any `b >= a`, with the same outcomes left.
pub proof fn lemma_fallible_nth_raise<T, E>(
    s: Seq<Result<T, E>>,
    new: Seq<Result<T, E>>,
    a: nat,
    b: nat,
    r: Result<Option<T>, E>,
)
    requires
        fallible_nth_post(s, new, a, r),
        a <= b,
        r is Err || r == Ok::<Option<T>, E>(None),
    ensures
        fallible_nth_post(s, new, b, r),
{
    lemma_first_err(s);
}

/// The first `k` outcomes of `s` are lends, each of which `p` rejected.
pub open spec fn fallible_rejects_first<T, E, P: FnMut(&T) -> Result<bool, E>>(
    p: P,
    s: Seq<Result<T, E>>,
    k: int,
) -> bool {
    &&& 0 <= k <= s.len()
    &&& forall|i: int| 0 <= i < k ==> (#[trigger] s[i]) is Ok
    &&& forall|i: int| 0 <= i < k ==> call_ensures(p, (&(#[trigger] s[i])->Ok_0,), Ok::<bool, E>(false))
}

/// What `find(p)` does to a fallible lender described by `old`: it consumes
/// the outcomes up to the first lend that `p` accepts and hands that one
/// out; an error met first, of the lender or of `p`, is handed out instead;
/// when `p` rejects every lend, the lender is drained and `Ok(None)` handed
/// out.
pub open spec fn fallible_find_post<T, E, P: FnMut(&T) -> Result<bool, E>>(
    p: P,
    old: Seq<Result<T, E>>,
    new: Seq<Result<T, E>>,
    r: Result<Option<T>, E>,
) -> bool {
    exists|k: int| #[trigger] fallible_rejects_first(p, old, k) && {
        ||| k == old.len() && r == Ok::<Option<T>, E>(None) && new.len() == 0
        ||| k < old.len() && old[k] is Err && r == Err::<Option<T>, E>(old[k]->Err_0) && new == old.skip(k + 1)
        ||| k < old.len() && old[k] is Ok && call_ensures(p, (&old[k]->Ok_0,), Ok::<bool, E>(true)) && r == Ok::<
            Option<T>,
            E,
        >(Some(old[k]->Ok_0)) && new == old.skip(k + 1)
        ||| k < old.len() && old[k] is Ok && r is Err && call_ensures(
            p,
            (&old[k]->Ok_0,),
            Err::<bool, E>(r->Err_0),
        ) && new == old.skip(k + 1)
    }
}

/// `p` can be called on a reference to every value.
pub open spec fn fallible_pred_ready<T, E, P: FnMut(&T) -> Result<bool, E>>(p: P) -> bool {
    forall|t: T| call_requires(p, (&t,))
}

/// A lending iterator whose steps may fail.
///
/// A fallible lender is described by `outcomes()`, the finite sequence of
/// what its steps still have to hand out: each a lend (`Ok`) or an error
/// (`Err`). After an error the lender may go on. Once it has handed out
/// `Ok(None)` it keeps doing so.
pub trait FallibleLender: for<'all> FallibleLending<'all> + Sized {
    /// The error that a step may hand out.
    type Error;

    /// The lender's own invariant.
    spec fn wf(&self) -> bool;

    /// The outcomes still to come, front first.
    spec fn outcomes(&self) -> Seq<Result<FallibleSpecLend<Self>, Self::Error>>;

    /// Hands out the next lend, the next error, or `Ok(None)` when the lender
    /// is exhausted.
    fn next(&mut self) -> (r: Result<Option<FallibleLend<'_, Self>>, Self::Error>)
        requires
            old(self).wf(),
        ensures
            final(self).wf(),
            fallible_next_post(old(self).outcomes(), final(self).outcomes(), r),
    ;

    /// The bounds that `size_hint` gives in this state.
    spec fn hint(&self) -> (usize, Option<usize>);

    /// Bounds on the number of outcomes still to come: those of `hint`.
    fn size_hint(&self) -> (r: (usize, Option<usize>))
        requires
            self.wf(),
        ensures
            r == self.hint(),
            hint_ok(self.outcomes().len(), r),
    ;

    /// Consumes the lender and counts its lends, stopping at the first error,
    /// which it hands out.
    fn count(self) -> (r: Result<usize, Self::Error>)
        requires
            self.wf(),
            self.outcomes().len() <= usize::MAX,
        ensures
            first_err(self.outcomes()) == self.outcomes().len() ==> r == Ok::<usize, Self::Error>(
                self.outcomes().len() as usize,
            ),
            first_err(self.outcomes()) < self.outcomes().len() ==> r == Err::<usize, Self::Error>(
                self.outcomes()[first_err(self.outcomes()) as int]->Err_0,
            ),
    {
        let ghost orig = self.outcomes();
        proof {
            lemma_first_err(orig);
        }
        let mut this = self;
        let mut c: usize = 0;
        loop
            invariant
                this.wf(),
                orig == self.outcomes(),
                c <= first_err(orig),
                first_err(orig) <= orig.len(),
                orig.len() <= usize::MAX,
                first_err(orig) < orig.len() ==> orig[first_err(orig) as int] is Err,
                forall|i: int| 0 <= i < first_err(orig) ==> (#[trigger] orig[i]) is Ok,
                this.outcomes() == orig.skip(c as int),
            decreases orig.len() - c,
        {
            let ghost k = c;
            match this.next() {
                Ok(None) => {
                    assert(orig.skip(k as int).len() == 0);
                    return Ok(c);
                },
                Ok(Some(_)) => {
                    proof {
                        assert(orig.skip(k as int)[0] == orig[k as int]);
                        if k == first_err(orig) {
                            assert(orig[k as int] is Err);
                        }
                        assert(orig.skip(k as int).drop_first() == orig.skip(k + 1));
                    }
                    c = c + 1;
                },
                Err(e) => {
                    proof {
                        assert(orig.skip(k as int)[0] == orig[k as int]);
                        if k < first_err(orig) {
                            assert(orig[k as int] is Ok);
                        }
                    }
                    return Err(e);
                },
            }
        }
    }

    /// Folds the lends into an accumulator with `f`, which may fail, until
    /// `f` breaks; an error, of the lender or of `f`, is handed out at once.
    fn try_fold<B, R, F>(&mut self, init: B, f: F) -> (r: Result<ControlFlow<R, B>, Self::Error>)
        where
            F: FnMut(B, FallibleLend<'_, Self>) -> Result<ControlFlow<R, B>, Self::Error>,
        requires
            old(self).wf(),
            fallible_try_fold_ready::<B, R, FallibleSpecLend<Self>, Self::Error, F>(f),
        ensures
            final(self).wf(),
            fallible_try_fold_post::<B, R, FallibleSpecLend<Self>, Self::Error, F>(
                f,
                init,
                old(self).outcomes(),
                final(self).outcomes(),
                r,
            ),
    {
        let ghost orig = self.outcomes();
        let mut acc = init;
        let mut g = f;
        let ghost mut accs: Seq<B> = seq![init];
        loop
            invariant
                self.wf(),
                orig == old(self).outcomes(),
                g == f,
                fallible_try_fold_ready::<B, R, FallibleSpecLend<Self>, Self::Error, F>(f),
                fallible_try_fold_trace(f, init, orig, accs),
                acc == accs.last(),
                self.outcomes() == orig.skip(accs.len() - 1),
            decreases self.outcomes().len(),
        {
            let ghost k = accs.len() - 1;
            match self.next() {
                Ok(None) => {
                    assert(k == orig.len());
                    return Ok(ControlFlow::Continue(acc));
                },
                Err(e) => {
                    proof {
                        assert(orig.skip(k)[0] == orig[k]);
                        assert(orig.skip(k).drop_first() == orig.skip(k + 1));
                    }
                    return Err(e);
                },
                Ok(Some(x)) => {
                    proof {
                        assert(orig.skip(k)[0] == orig[k]);
                        assert(orig.skip(k).drop_first() == orig.skip(k + 1));
                        assert(orig[k] is Ok && orig[k]->Ok_0 == x);
                    }
                    let c = g(acc, x);
                    let ghost c0 = c;
                    match c {
                        Ok(ControlFlow::Continue(b)) => {
                            proof {
                                assert(c0 == Ok::<ControlFlow<R, B>, Self::Error>(ControlFlow::Continue(b)));
                                lemma_fallible_try_fold_trace_push(f, init, orig, accs, b);
                                accs = accs.push(b);
                            }
                            acc = b;
                        },
                        Ok(ControlFlow::Break(e)) => {
                            let c = Ok(ControlFlow::Break(e));
                            proof {
                                assert(c == c0);
                            }
                            return c;
                        },
                        Err(e) => {
                            let c = Err(e);
                            proof {
                                assert(c == c0);
                            }
                            return c;
                        },
                    }
                },
            }
        }
    }

    /// Folds every lend into an accumulator with `f`, which may fail; an
    /// error, of the lender or of `f`, is handed out at once.
    fn fold<B, F>(self, init: B, f: F) -> (r: Result<B, Self::Error>)
        where
            F: FnMut(B, FallibleLend<'_, Self>) -> Result<B, Self::Error>,
        requires
            self.wf(),
            fallible_fold_ready::<B, FallibleSpecLend<Self>, Self::Error, F>(f),
        ensures
            fallible_fold_result::<B, FallibleSpecLend<Self>, Self::Error, F>(f, init, self.outcomes(), r),
    {
        let ghost orig = self.outcomes();
        let mut this = self;
        let mut acc = init;
        let mut g = f;
        let ghost mut accs: Seq<B> = seq![init];
        loop
            invariant
                this.wf(),
                orig == self.outcomes(),
                g == f,
                fallible_fold_ready::<B, FallibleSpecLend<Self>, Self::Error, F>(f),
                fallible_fold_trace(f, init, orig, accs),
                acc == accs.last(),
                this.outcomes() == orig.skip(accs.len() - 1),
            decreases this.outcomes().len(),
        {
            let ghost k = accs.len() - 1;
            match this.next() {
                Ok(None) => {
                    assert(k == orig.len());
                    return Ok(acc);
                },
                Err(e) => {
                    proof {
                        assert(orig.skip(k)[0] == orig[k]);
                    }
                    return Err(e);
                },
                Ok(Some(x)) => {
                    proof {
                        assert(orig.skip(k)[0] == orig[k]);
                        assert(orig.skip(k).drop_first() == orig.skip(k + 1));
                        assert(orig[k] is Ok && orig[k]->Ok_0 == x);
                    }
                    let c = g(acc, x);
                    let ghost c0 = c;
                    match c {
                        Ok(b) => {
                            proof {
                                assert(c0 == Ok::<B, Self::Error>(b));
                                lemma_fallible_fold_trace_push(f, init, orig, accs, b);
                                accs = accs.push(b);
                            }
                            acc = b;
                        },
                        Err(e) => {
                            let c = Err(e);
                            proof {
                                assert(c == c0);
                            }
                            return c;
                        },
                    }
                },
            }
        }
    }

    /// Hands out the first lend that `predicate`, which may fail, accepts,
    /// consuming the outcomes up to it; an error met first, of the lender or
    /// of `predicate`, is handed out at once; `Ok(None)`, with the lender
    /// drained, when it accepts none. The lends must not borrow from the
    /// lender.
    fn find<P, T>(&mut self, predicate: P) -> (r: Result<Option<T>, Self::Error>)
        where
            Self: for<'all> FallibleLending<'all, Lend = T>,
            P: FnMut(&T) -> Result<bool, Self::Error>,
        requires
            old(self).wf(),
            fallible_pred_ready::<T, Self::Error, P>(predicate),
        ensures
            final(self).wf(),
            fallible_find_post(predicate, old(self).outcomes(), final(self).outcomes(), r),
    {
        let ghost orig = self.outcomes();
        let mut p = predicate;
        let ghost mut k: int = 0;
        loop
            invariant
                self.wf(),
                orig == old(self).outcomes(),
                p == predicate,
                fallible_pred_ready::<T, Self::Error, P>(predicate),
                fallible_rejects_first(predicate, orig, k),
                self.outcomes() == orig.skip(k),
            decreases self.outcomes().len(),
        {
            let n = self.next();
            proof {
                if k < orig.len() {
                    assert(orig.skip(k)[0] == orig[k]);
                    assert(orig.skip(k).drop_first() == orig.skip(k + 1));
                }
            }
            match n {
                Ok(None) => {
                    return Ok(None);
                },
                Err(e) => {
                    return Err(e);
                },
                Ok(Some(x)) => {
                    let verdict = p(&x);
                    match verdict {
                        Ok(true) => {
                            return Ok(Some(x));
                        },
                        Ok(false) => {
                            proof {
                                k = k + 1;
                            }
                        },
                        Err(e) => {
                            return Err(e);
                        },
                    }
                },
            }
        }
    }

    /// Drains the lender and hands out its last lend, if any; an error is
    /// handed out at once, with the outcomes after it left. The lends must not
    /// borrow from the lender.
    fn last<T>(&mut self) -> (r: Result<Option<T>, Self::Error>)
        where
            Self: for<'all> FallibleLending<'all, Lend = T>,
        requires
            old(self).wf(),
        ensures
            final(self).wf(),
            ({
                let s = old(self).outcomes();
                let k = first_err(s);
                if k < s.len() {
                    r == Err::<Option<T>, Self::Error>(s[k as int]->Err_0) && final(self).outcomes() == s.skip(k + 1 as int)
                } else if s.len() > 0 {
                    r == Ok::<Option<T>, Self::Error>(Some(s.last()->Ok_0)) && final(self).outcomes().len() == 0
                } else {
                    r == Ok::<Option<T>, Self::Error>(None) && final(self).outcomes().len() == 0
                }
            }),
    {
        let ghost orig = self.outcomes();
        proof {
            lemma_first_err(orig);
        }
        let mut last: Option<T> = None;
        let ghost mut k: int = 0;
        loop
            invariant
                self.wf(),
                orig == old(self).outcomes(),
                0 <= k <= first_err(orig),
                first_err(orig) <= orig.len(),
                first_err(orig) < orig.len() ==> orig[first_err(orig) as int] is Err,
                forall|j: int| 0 <= j < first_err(orig) ==> (#[trigger] orig[j]) is Ok,
                self.outcomes() == orig.skip(k),
                k == 0 ==> last is None,
                k > 0 ==> last == Some(orig[k - 1]->Ok_0),
            decreases self.outcomes().len(),
        {
            let n = self.next();
            proof {
                if k < orig.len() {
                    assert(orig.skip(k)[0] == orig[k]);
                    assert(orig.skip(k).drop_first() == orig.skip(k + 1));
                }
            }
            match n {
                Ok(None) => {
                    return Ok(last);
                },
                Err(e) => {
                    proof {
                        if k < first_err(orig) {
                            assert(orig[k] is Ok);
                        }
                    }
                    return Err(e);
                },
                Ok(Some(x)) => {
                    proof {
                        if k == first_err(orig) {
                            assert(orig[k] is Err);
                        }
                    }
                    last = Some(x);
                    proof {
                        k = k + 1;
                    }
                },
            }
        }
    }

    /// Hands out at most the first `n` outcomes.
    fn take(self, n: usize) -> (r: Take<Self>)
        ensures
            r.lender == self,
            r.n == n,
    {
        Take { lender: self, n }
    }

    /// Skips the first `n` lends; an error among them is handed out at once
    /// and the skipping ends there.
    fn skip(self, n: usize) -> (r: Skip<Self>)
        ensures
            r.lender == self,
            r.n == n,
    {
        Skip { lender: self, n }
    }

    /// Hands out the first outcome and then the outcome after each `step - 1`
    /// skipped lends.
    fn step_by(self, step: usize) -> (r: StepBy<Self>)
        requires
            step != 0,
        ensures
            r.lender == self,
            r.step == step - 1,
            r.first_take,
    {
        StepBy { lender: self, step: step - 1, first_take: true }
    }

    /// Skips the lends while `predicate`, which may fail, accepts them.
    fn skip_while<P>(self, predicate: P) -> (r: SkipWhile<Self, P>)
        ensures
            r.lender == self,
            r.predicate == predicate,
            !r.flag,
    {
        SkipWhile { lender: self, flag: false, predicate }
    }

    /// Keeps handing out `Ok(None)` once `Ok(None)` has been handed out.
    fn fuse(self) -> (r: Fuse<Self>)
        ensures
            r.lender == self,
            !r.flag,
    {
        Fuse { lender: self, flag: false }
    }

    /// Hands out each lend together with its position among the lends.
    fn enumerate(self) -> (r: Enumerate<Self>)
        ensures
            r.lender == self,
            r.count == 0,
    {
        Enumerate { lender: self, count: 0 }
    }

    /// Passes every lend through `f`, which may fail.
    fn map<F>(self, f: F) -> (r: MapLend<Self, F>)
        ensures
            r.lender == self,
            r.f == f,
    {
        MapLend { lender: self, f }
    }

    /// Calls `f`, which may fail, on every lend as it goes by.
    fn inspect<F>(self, f: F) -> (r: Inspect<Self, F>)
        ensures
            r.lender == self,
            r.f == f,
    {
        Inspect { lender: self, f }
    }

    /// Keeps the lends that `predicate`, which may fail, accepts.
    fn filter<P>(self, predicate: P) -> (r: Filter<Self, P>)
        ensures
            r.lender == self,
            r.predicate == predicate,
    {
        Filter { lender: self, predicate }
    }

    /// Passes every lend through `f`, which may fail, and keeps the `Some`s.
    fn filter_map<F>(self, f: F) -> (r: FilterMap<Self, F>)
        ensures
            r.lender == self,
            r.f == f,
    {
        FilterMap { lender: self, f }
    }

    /// Passes the lends through `predicate`, which may fail, until it gives
    /// `None`.
    fn map_while<P>(self, predicate: P) -> (r: MapWhile<Self, P>)
        ensures
            r.lender == self,
            r.predicate == predicate,
            !r.done,
    {
        MapWhile { lender: self, predicate, done: false }
    }

    /// Hands out the lends while `predicate`, which may fail, accepts them.
    fn take_while<P>(self, predicate: P) -> (r: TakeWhile<Self, P>)
        ensures
            r.lender == self,
            r.predicate == predicate,
            !r.flag,
    {
        TakeWhile { lender: self, flag: false, predicate }
    }

    /// Skips `n` lends; an error among them is handed out at once; when fewer
    /// are left, drains the lender and reports, as a positive number, how
    /// many steps were missing.
    fn advance_by(&mut self, n: usize) -> (r: Result<Result<(), usize>, Self::Error>)
        requires
            old(self).wf(),
        ensures
            final(self).wf(),
            fallible_advance_post(old(self).outcomes(), final(self).outcomes(), n as nat, r),
    {
        let ghost orig = self.outcomes();
        proof {
            lemma_first_err(orig);
        }
        let mut i: usize = 0;
        while i < n
            invariant
                self.wf(),
                orig == old(self).outcomes(),
                i <= n,
                i <= orig.len(),
                i <= first_err(orig),
                first_err(orig) <= orig.len(),
                first_err(orig) < orig.len() ==> orig[first_err(orig) as int] is Err,
                forall|j: int| 0 <= j < first_err(orig) ==> (#[trigger] orig[j]) is Ok,
                self.outcomes() == orig.skip(i as int),
            decreases n - i,
        {
            let ghost k = i;
            match self.next() {
                Ok(Some(_)) => {
                    proof {
                        assert(orig.skip(k as int)[0] == orig[k as int]);
                        if k == first_err(orig) {
                            assert(orig[k as int] is Err);
                        }
                        assert(orig.skip(k as int).drop_first() == orig.skip(k + 1));
                    }
                    i = i + 1;
                },
                Ok(None) => {
                    proof {
                        assert(orig.skip(k as int).len() == 0);
                    }
                    return Ok(Err(n - i));
                },
                Err(e) => {
                    proof {
                        assert(orig.skip(k as int)[0] == orig[k as int]);
                        if k < first_err(orig) {
                            assert(orig[k as int] is Ok);
                        }
                        assert(orig.skip(k as int).drop_first() == orig.skip(k + 1));
                    }
                    return Err(e);
                },
            }
        }
        Ok(Ok(()))
    }

    /// Skips `n` lends and hands out the outcome after them; an error among
    /// the skipped ones is handed out instead.
    fn nth(&mut self, n: usize) -> (r: Result<Option<FallibleLend<'_, Self>>, Self::Error>)
        requires
            old(self).wf(),
        ensures
            final(self).wf(),
            fallible_nth_post(old(self).outcomes(), final(self).outcomes(), n as nat, r),
    {
        match self.advance_by(n) {
            Err(e) => Err(e),
            Ok(Err(_)) => Ok(None),
            Ok(Ok(())) => {
                let ghost mid = self.outcomes();
                proof {
                    let s = old(self).outcomes();
                    if n < s.len() {
                        assert(mid[0] == s[n as int]);
                        assert(mid.drop_first() == s.skip(n + 1));
                    }
                }
                self.next()
            },
        }
    }

    /// Makes the lender able to look at its next lend without handing it out.
    fn peekable<T>(self) -> (r: FalliblePeekable<Self, T>)
        ensures
            r.lender == self,
            r.peeked is None,
    {
        FalliblePeekable { lender: self, peeked: None }
    }

    /// Puts a copy of `separator` between each two adjacent lends.
    fn intersperse<T>(self, separator: T) -> (r: FallibleIntersperse<Self, T>)
        ensures
            r.lender.lender == self,
            r.lender.peeked is None,
            r.separator == separator,
            !r.needs_sep,
    {
        FallibleIntersperse { lender: FalliblePeekable { lender: self, peeked: None }, separator, needs_sep: false }
    }

    /// Puts an outcome of `separator`, which may fail, between each two
    /// adjacent lends.
    fn intersperse_with<G, T>(self, separator: G) -> (r: FallibleIntersperseWith<Self, G, T>)
        ensures
            r.lender.lender == self,
            r.lender.peeked is None,
            r.separator == separator,
            !r.needs_sep,
    {
        FallibleIntersperseWith {
            lender: FalliblePeekable { lender: self, peeked: None },
            separator,
            needs_sep: false,
        }
    }

    /// Hands out the outcomes of the fallible lenders that this lender hands
    /// out, one lender after the other.
    fn flatten<I>(self) -> (r: FallibleFlatten<Self, I>)
        ensures
            r.lender == self,
            r.inner is None,
    {
        FallibleFlatten { lender: self, inner: None }
    }

    /// Passes every error through `f`.
    fn map_err<E, F>(self, f: F) -> (r: MapErr<E, Self, F>)
        ensures
            r.lender == self,
            r.f == f,
    {
        MapErr { lender: self, f, marker: core::marker::PhantomData }
    }

    /// Maps every lend to a fallible lender with `f` and hands out their
    /// outcomes, one lender after the other.
    fn flat_map<F, I>(self, f: F) -> (r: FlatMap<Self, F, I>)
        ensures
            r.lender == self,
            r.f == f,
            r.inner is None,
    {
        FlatMap { lender: self, f, inner: None }
    }
}

/// A fallible lender that can also hand out outcomes from the back.
pub trait DoubleEndedFallibleLender: FallibleLender {
    /// Hands out the last lend, the last error, or `Ok(None)` when the lender
    /// is exhausted.
    fn next_back(&mut self) -> (r: Result<Option<FallibleLend<'_, Self>>, Self::Error>)
        requires
            old(self).wf(),
        ensures
            final(self).wf(),
            fallible_next_back_post(old(self).outcomes(), final(self).outcomes(), r),
    ;

    /// Folds the lends back to front with `f`, which may fail, until `f`
    /// breaks; an error, of the lender or of `f`, is handed out at once.
    fn try_rfold<B, R, F>(&mut self, init: B, f: F) -> (r: Result<ControlFlow<R, B>, Self::Error>)
        where
            F: FnMut(B, FallibleLend<'_, Self>) -> Result<ControlFlow<R, B>, Self::Error>,
        requires
            old(self).wf(),
            fallible_try_fold_ready::<B, R, FallibleSpecLend<Self>, Self::Error, F>(f),
        ensures
            final(self).wf(),
            fallible_try_fold_post::<B, R, FallibleSpecLend<Self>, Self::Error, F>(
                f,
                init,
                old(self).outcomes().reverse(),
                final(self).outcomes().reverse(),
                r,
            ),
    {
        let ghost orig = self.outcomes().reverse();
        let mut acc = init;
        let mut g = f;
        let ghost mut accs: Seq<B> = seq![init];
        proof {
            lemma_reverse(self.outcomes());
        }
        loop
            invariant
                self.wf(),
                orig == old(self).outcomes().reverse(),
                g == f,
                fallible_try_fold_ready::<B, R, FallibleSpecLend<Self>, Self::Error, F>(f),
                fallible_try_fold_trace(f, init, orig, accs),
                acc == accs.last(),
                self.outcomes().reverse() == orig.skip(accs.len() - 1),
            decreases self.outcomes().len(),
        {
            let ghost k = accs.len() - 1;
            let ghost before = self.outcomes();
            proof {
                lemma_reverse(before);
            }
            match self.next_back() {
                Ok(None) => {
                    assert(orig.skip(k).len() == 0);
                    return Ok(ControlFlow::Continue(acc));
                },
                Err(e) => {
                    proof {
                        assert(orig.skip(k)[0] == orig[k]);
                        assert(orig.skip(k).drop_first() == orig.skip(k + 1));
                    }
                    return Err(e);
                },
                Ok(Some(x)) => {
                    proof {
                        assert(orig.skip(k)[0] == orig[k]);
                        assert(orig.skip(k).drop_first() == orig.skip(k + 1));
                        assert(orig[k] is Ok && orig[k]->Ok_0 == x);
                    }
                    let c = g(acc, x);
                    let ghost c0 = c;
                    match c {
                        Ok(ControlFlow::Continue(b)) => {
                            proof {
                                assert(c0 == Ok::<ControlFlow<R, B>, Self::Error>(ControlFlow::Continue(b)));
                                lemma_fallible_try_fold_trace_push(f, init, orig, accs, b);
                                accs = accs.push(b);
                            }
                            acc = b;
                        },
                        Ok(ControlFlow::Break(e)) => {
                            let c = Ok(ControlFlow::Break(e));
                            proof {
                                assert(c == c0);
                            }
                            return c;
                        },
                        Err(e) => {
                            let c = Err(e);
                            proof {
                                assert(c == c0);
                            }
                            return c;
                        },
                    }
                },
            }
        }
    }

    /// Folds every lend back to front with `f`, which may fail; an error, of
    /// the lender or of `f`, is handed out at once.
    fn rfold<B, F>(self, init: B, f: F) -> (r: Result<B, Self::Error>)
        where
            F: FnMut(B, FallibleLend<'_, Self>) -> Result<B, Self::Error>,
        requires
            self.wf(),
            fallible_fold_ready::<B, FallibleSpecLend<Self>, Self::Error, F>(f),
        ensures
            fallible_fold_result::<B, FallibleSpecLend<Self>, Self::Error, F>(f, init, self.outcomes().reverse(), r),
    {
        let ghost orig = self.outcomes().reverse();
        let mut this = self;
        let mut acc = init;
        let mut g = f;
        let ghost mut accs: Seq<B> = seq![init];
        proof {
            lemma_reverse(self.outcomes());
        }
        loop
            invariant
                this.wf(),
                orig == self.outcomes().reverse(),
                g == f,
                fallible_fold_ready::<B, FallibleSpecLend<Self>, Self::Error, F>(f),
                fallible_fold_trace(f, init, orig, accs),
                acc == accs.last(),
                this.outcomes().reverse() == orig.skip(accs.len() - 1),
            decreases this.outcomes().len(),
        {
            let ghost k = accs.len() - 1;
            let ghost before = this.outcomes();
            proof {
                lemma_reverse(before);
            }
            match this.next_back() {
                Ok(None) => {
                    assert(orig.skip(k).len() == 0);
                    return Ok(acc);
                },
                Err(e) => {
                    proof {
                        assert(orig.skip(k)[0] == orig[k]);
                    }
                    return Err(e);
                },
                Ok(Some(x)) => {
                    proof {
                        assert(orig.skip(k)[0] == orig[k]);
                        assert(orig.skip(k).drop_first() == orig.skip(k + 1));
                        assert(orig[k] is Ok && orig[k]->Ok_0 == x);
                    }
                    let c = g(acc, x);
                    let ghost c0 = c;
                    match c {
                        Ok(b) => {
                            proof {
                                assert(c0 == Ok::<B, Self::Error>(b));
                                lemma_fallible_fold_trace_push(f, init, orig, accs, b);
                                accs = accs.push(b);
                            }
                            acc = b;
                        },
                        Err(e) => {
                            let c = Err(e);
                            proof {
                                assert(c == c0);
                            }
                            return c;
                        },
                    }
                },
            }
        }
    }

    /// Drops `n` lends from the back; an error among them is handed out at
    /// once; when fewer are left, drains the lender and reports, as a
    /// positive number, how many steps were missing.
    fn advance_back_by(&mut self, n: usize) -> (r: Result<Result<(), usize>, Self::Error>)
        requires
            old(self).wf(),
        ensures
            final(self).wf(),
            fallible_advance_post(old(self).outcomes().reverse(), final(self).outcomes().reverse(), n as nat, r),
    {
        let ghost orig = self.outcomes().reverse();
        proof {
            lemma_reverse(self.outcomes());
            lemma_first_err(orig);
        }
        let mut i: usize = 0;
        while i < n
            invariant
                self.wf(),
                orig == old(self).outcomes().reverse(),
                i <= n,
                i <= orig.len(),
                i <= first_err(orig),
                first_err(orig) <= orig.len(),
                first_err(orig) < orig.len() ==> orig[first_err(orig) as int] is Err,
                forall|j: int| 0 <= j < first_err(orig) ==> (#[trigger] orig[j]) is Ok,
                self.outcomes().reverse() == orig.skip(i as int),
            decreases n - i,
        {
            let ghost k = i;
            let ghost before = self.outcomes();
            proof {
                lemma_reverse(before);
            }
            let step: Result<bool, Self::Error> = match self.next_back() {
                Ok(Some(_)) => Ok(true),
                Ok(None) => Ok(false),
                Err(e) => Err(e),
            };
            match step {
                Ok(true) => {
                    proof {
                        assert(orig.skip(k as int)[0] == orig[k as int]);
                        if k == first_err(orig) {
                            assert(orig[k as int] is Err);
                        }
                        assert(orig.skip(k as int).drop_first() == orig.skip(k + 1));
                    }
                    i = i + 1;
                },
                Ok(false) => {
                    proof {
                        assert(orig.skip(k as int).len() == 0);
                        lemma_reverse(self.outcomes());
                    }
                    return Ok(Err(n - i));
                },
                Err(e) => {
                    proof {
                        assert(orig.skip(k as int)[0] == orig[k as int]);
                        if k < first_err(orig) {
                            assert(orig[k as int] is Ok);
                        }
                        assert(orig.skip(k as int).drop_first() == orig.skip(k + 1));
                    }
                    return Err(e);
                },
            }
        }
        Ok(Ok(()))
    }

    /// Drops `n` lends from the back and hands out the outcome before them; an
    /// error among the dropped ones is handed out instead.
    fn nth_back(&mut self, n: usize) -> (r: Result<Option<FallibleLend<'_, Self>>, Self::Error>)
        requires
            old(self).wf(),
        ensures
            final(self).wf(),
            fallible_nth_post(old(self).outcomes().reverse(), final(self).outcomes().reverse(), n as nat, r),
    {
        match self.advance_back_by(n) {
            Err(e) => Err(e),
            Ok(Err(_)) => Ok(None),
            Ok(Ok(())) => {
                let ghost mid = self.outcomes();
                proof {
                    let s = old(self).outcomes().reverse();
                    lemma_reverse(mid);
                    if n < s.len() {
                        assert(mid.reverse()[0] == s[n as int]);
                        assert(mid.reverse().drop_first() == s.skip(n + 1));
                    }
                }
                self.next_back()
            },
        }
    }

    /// Hands out the last lend that `predicate`, which may fail, accepts,
    /// consuming the outcomes from the back up to it; an error met first, of
    /// the lender or of `predicate`, is handed out at once; `Ok(None)`, with
    /// the lender drained, when it accepts none. The lends must not borrow
    /// from the lender.
    fn rfind<P, T>(&mut self, predicate: P) -> (r: Result<Option<T>, Self::Error>)
        where
            Self: for<'all> FallibleLending<'all, Lend = T>,
            P: FnMut(&T) -> Result<bool, Self::Error>,
        requires
            old(self).wf(),
            fallible_pred_ready::<T, Self::Error, P>(predicate),
        ensures
            final(self).wf(),
            fallible_find_post(predicate, old(self).outcomes().reverse(), final(self).outcomes().reverse(), r),
    {
        let ghost orig = self.outcomes().reverse();
        proof {
            lemma_reverse(self.outcomes());
        }
        let mut p = predicate;
        let ghost mut k: int = 0;
        loop
            invariant
                self.wf(),
                orig == old(self).outcomes().reverse(),
                p == predicate,
                fallible_pred_ready::<T, Self::Error, P>(predicate),
                fallible_rejects_first(predicate, orig, k),
                self.outcomes().reverse() == orig.skip(k),
            decreases self.outcomes().len(),
        {
            let ghost before = self.outcomes();
            proof {
                lemma_reverse(before);
            }
            let n = self.next_back();
            proof {
                if k < orig.len() {
                    assert(orig.skip(k)[0] == orig[k]);
                    assert(orig.skip(k).drop_first() == orig.skip(k + 1));
                }
            }
            match n {
                Ok(None) => {
                    proof {
                        lemma_reverse(self.outcomes());
                    }
                    return Ok(None);
                },
                Err(e) => {
                    return Err(e);
                },
                Ok(Some(x)) => {
                    let verdict = p(&x);
                    match verdict {
                        Ok(true) => {
                            return Ok(Some(x));
                        },
                        Ok(false) => {
                            proof {
                                k = k + 1;
                            }
                        },
                        Err(e) => {
                            return Err(e);
                        },
                    }
                },
            }
        }
    }

    /// Hands out the outcomes back to front.
    fn rev(self) -> (r: Rev<Self>)
        ensures
            r.lender == self,
    {
        Rev { lender: self }
    }
}

/// A fallible lender that knows exactly how many outcomes it has left.
pub trait ExactSizeFallibleLender: FallibleLender {
    /// The number of outcomes still to come.
    fn len(&self) -> (r: usize)
        requires
            self.wf(),
        ensures
            r == self.outcomes().len(),
    ;

    /// Whether no outcome is left.
    fn is_empty(&self) -> (r: bool)
        requires
            self.wf(),
        ensures
            r == (self.outcomes().len() == 0),
    {
        self.len() == 0
    }
}

/// A fallible lender that keeps handing out `Ok(None)` once it has done so.
/// In this library's model every fallible lender behaves so; the marker is
/// kept for code that asks for it.
pub trait FusedFallibleLender: FallibleLender {}

} // verus!
