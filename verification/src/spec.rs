//! Spec-level vocabulary shared by the contracts of every lender.
use vstd::prelude::*;
use core::ops::ControlFlow;

verus! {

/// The first `n` elements of `s`, or all of `s` when it is shorter.
pub open spec fn prefix<T>(s: Seq<T>, n: nat) -> Seq<T> {
    if n < s.len() { s.take(n as int) } else { s }
}

/// `s` without its first `n` elements (empty when `s` is shorter).
pub open spec fn suffix<T>(s: Seq<T>, n: nat) -> Seq<T> {
    if n < s.len() { s.skip(n as int) } else { Seq::empty() }
}

/// `s` without its last `n` elements (empty when `s` is shorter).
pub open spec fn drop_back<T>(s: Seq<T>, n: nat) -> Seq<T> {
    if n < s.len() { s.take(s.len() - n) } else { Seq::empty() }
}

/// The smaller of two naturals.
pub open spec fn min_nat(a: nat, b: nat) -> nat {
    if a <= b { a } else { b }
}

/// What `next` does to a lender described by `old`: it hands out the first
/// lend, or `None` once nothing is left.
pub open spec fn next_post<T>(old: Seq<T>, new: Seq<T>, r: Option<T>) -> bool {
    if old.len() > 0 {
        r == Some(old[0]) && new == old.drop_first()
    } else {
        r is None && new.len() == 0
    }
}

/// What `next_back` does: it hands out the last lend.
pub open spec fn next_back_post<T>(old: Seq<T>, new: Seq<T>, r: Option<T>) -> bool {
    if old.len() > 0 {
        r == Some(old.last()) && new == old.drop_last()
    } else {
        r is None && new.len() == 0
    }
}

/// What `nth(n)` does: it skips `n` lends and hands out the next one.
pub open spec fn nth_post<T>(old: Seq<T>, new: Seq<T>, n: nat, r: Option<T>) -> bool {
    if n < old.len() {
        r == Some(old[n as int]) && new == old.skip(n + 1 as int)
    } else {
        r is None && new.len() == 0
    }
}

/// What `nth_back(n)` does: it skips `n` lends from the back and hands out the
/// one before them.
pub open spec fn nth_back_post<T>(old: Seq<T>, new: Seq<T>, n: nat, r: Option<T>) -> bool {
    if n < old.len() {
        r == Some(old[old.len() - 1 - n]) && new == old.take(old.len() - 1 - n)
    } else {
        r is None && new.len() == 0
    }
}

/// A size hint is sound for `len` lends when its lower bound does not exceed
/// `len` and its upper bound, if any, is not below it.
pub open spec fn hint_ok(len: nat, hint: (usize, Option<usize>)) -> bool {
    &&& hint.0 <= len
    &&& hint.1 matches Some(hi) ==> len <= hi
}

/// `accs` lists the accumulators of a fold of `f` over `s` from `init`.
pub open spec fn fold_trace<B, T, F: FnMut(B, T) -> B>(f: F, init: B, s: Seq<T>, accs: Seq<B>) -> bool {
    &&& accs.len() == s.len() + 1
    &&& accs[0] == init
    &&& forall|i: int| 0 <= i < s.len() ==> call_ensures(f, (#[trigger] accs[i], s[i]), accs[i + 1])
}

/// The outcome `r` is a possible result of folding `f` over `s` from `init`.
pub open spec fn fold_result<B, T, F: FnMut(B, T) -> B>(f: F, init: B, s: Seq<T>, r: B) -> bool {
    exists|accs: Seq<B>| fold_trace(f, init, s, accs) && r == accs.last()
}

/// `f` accepts every accumulator and every element.
pub open spec fn fold_ready<B, T, F: FnMut(B, T) -> B>(f: F) -> bool {
    forall|b: B, t: T| call_requires(f, (b, t))
}

/// `accs` lists the accumulators of the first `k` steps of a short-circuiting
/// fold of `f` over `s`, each of which continued.
pub open spec fn try_fold_trace<B, R, T, F: FnMut(B, T) -> ControlFlow<R, B>>(
    f: F,
    init: B,
    s: Seq<T>,
    accs: Seq<B>,
) -> bool {
    &&& 1 <= accs.len() <= s.len() + 1
    &&& accs[0] == init
    &&& forall|i: int|
        0 <= i < accs.len() - 1 ==> call_ensures(f, (#[trigger] accs[i], s[i]), ControlFlow::<R, B>::Continue(accs[i + 1]))
}

/// What a short-circuiting fold of `f` over `old` from `init` does: either
/// every step continues and the lender is drained, or the step on the `k`-th
/// lend breaks, its result is returned, and the lends after it remain.
pub open spec fn try_fold_post<B, R, T, F: FnMut(B, T) -> ControlFlow<R, B>>(
    f: F,
    init: B,
    old: Seq<T>,
    new: Seq<T>,
    r: ControlFlow<R, B>,
) -> bool {
    exists|accs: Seq<B>| #[trigger] try_fold_trace(f, init, old, accs) && {
        let k = accs.len() - 1;
        ||| k == old.len() && r == ControlFlow::<R, B>::Continue(accs.last()) && new.len() == 0
        ||| k < old.len() && r is Break && call_ensures(f, (accs.last(), old[k]), r) && new == old.skip(k + 1)
    }
}

/// `f` accepts every accumulator and every element.
pub open spec fn try_fold_ready<B, R, T, F: FnMut(B, T) -> ControlFlow<R, B>>(f: F) -> bool {
    forall|b: B, t: T| call_requires(f, (b, t))
}

/// The result that `f` gives on `a` when it is deterministic.
pub open spec fn fn_out<A, B, F: FnMut(A) -> B>(f: F, a: A) -> B {
    choose|b: B| call_ensures(f, (a,), b)
}

/// Some call of `f` on `a` returned: for a deterministic `f`, `fn_out(f, a)`
/// is then what it returned.
pub open spec fn fn_called<A, B, F: FnMut(A) -> B>(f: F, a: A) -> bool {
    exists|b: B| call_ensures(f, (a,), b)
}

/// `f` can be called on every argument and always gives the same result for
/// the same argument: it behaves as a mathematical function.
pub open spec fn fn_pure<A, B, F: FnMut(A) -> B>(f: F) -> bool {
    &&& forall|a: A| call_requires(f, (a,))
    &&& forall|a: A, b: B| call_ensures(f, (a,), b) ==> b == fn_out(f, a)
}

} // verus!

verus! {

/// What `advance_by(n)` does: it skips `n` lends, or drains the lender and
/// reports how many steps were missing (never zero).
pub open spec fn advance_post<T>(
    old: Seq<T>,
    new: Seq<T>,
    n: nat,
    r: Result<(), usize>,
) -> bool {
    if n <= old.len() {
        r is Ok && new == old.skip(n as int)
    } else {
        r matches Err(k) && k == n - old.len() && new.len() == 0
    }
}

/// What `advance_back_by(n)` does: it drops `n` lends from the back, or drains
/// the lender and reports how many steps were missing.
pub open spec fn advance_back_post<T>(
    old: Seq<T>,
    new: Seq<T>,
    n: nat,
    r: Result<(), usize>,
) -> bool {
    if n <= old.len() {
        r is Ok && new == old.take(old.len() - n)
    } else {
        r matches Err(k) && k == n - old.len() && new.len() == 0
    }
}

} // verus!

verus! {

/// A short-circuiting fold never adds lends.
pub proof fn lemma_try_fold_shrinks<B, R, T, F: FnMut(B, T) -> ControlFlow<R, B>>(
    f: F,
    init: B,
    old: Seq<T>,
    new: Seq<T>,
    r: ControlFlow<R, B>,
)
    requires
        try_fold_post(f, init, old, new, r),
    ensures
        new.len() <= old.len(),
{
}

} // verus!

verus! {

/// Folding over nothing gives back the initial accumulator.
pub proof fn lemma_fold_empty<B, T, F: FnMut(B, T) -> B>(f: F, init: B, s: Seq<T>)
    requires
        s.len() == 0,
    ensures
        fold_result(f, init, s, init),
{
    let w = seq![init];
    assert(w.last() == init);
    assert(fold_trace(f, init, s, w));
}

/// A short-circuiting fold over nothing continues with the initial
/// accumulator.
pub proof fn lemma_try_fold_empty<B, R, T, F: FnMut(B, T) -> ControlFlow<R, B>>(
    f: F,
    init: B,
    s: Seq<T>,
    new: Seq<T>,
)
    requires
        s.len() == 0,
        new.len() == 0,
    ensures
        try_fold_post(f, init, s, new, ControlFlow::Continue(init)),
{
    let w = seq![init];
    assert(w.last() == init);
    assert(try_fold_trace(f, init, s, w));
}

} // verus!

verus! {

/// How reversing a sequence relates its two ends.
pub proof fn lemma_reverse<T>(s: Seq<T>)
    ensures
        s.reverse().len() == s.len(),
        s.reverse().reverse() == s,
        s.len() > 0 ==> s.reverse()[0] == s.last() && s.reverse().last() == s[0],
        s.len() > 0 ==> s.reverse().drop_first() == s.drop_last().reverse(),
        s.len() > 0 ==> s.reverse().drop_last() == s.drop_first().reverse(),
        forall|n: int| 0 <= n <= s.len() ==> #[trigger] s.reverse().skip(n) == s.take(s.len() - n).reverse(),
        forall|n: int| 0 <= n <= s.len() ==> #[trigger] s.reverse().take(s.len() - n) == s.skip(n).reverse(),
{
    assert(s.reverse().reverse() =~= s);
    if s.len() > 0 {
        assert(s.reverse().drop_first() =~= s.drop_last().reverse());
        assert(s.reverse().drop_last() =~= s.drop_first().reverse());
    }
    assert forall|n: int| 0 <= n <= s.len() implies #[trigger] s.reverse().skip(n) == s.take(s.len() - n).reverse() by {
        assert(s.reverse().skip(n) =~= s.take(s.len() - n).reverse());
    }
    assert forall|n: int| 0 <= n <= s.len() implies #[trigger] s.reverse().take(s.len() - n) == s.skip(n).reverse() by {
        assert(s.reverse().take(s.len() - n) =~= s.skip(n).reverse());
    }
}

} // verus!

verus! {

/// Reversing twice gives back the sequence.
pub proof fn lemma_reverse_involutive<T>()
    ensures
        forall|s: Seq<T>| #[trigger] s.reverse().reverse() == s,
{
    assert forall|s: Seq<T>| #[trigger] s.reverse().reverse() == s by {
        assert(s.reverse().reverse() =~= s);
    }
}

} // verus!

verus! {

/// Folding over `s1 + s2` is folding over `s1` and then over `s2`.
pub proof fn lemma_fold_append<B, T, F: FnMut(B, T) -> B>(f: F, init: B, s1: Seq<T>, s2: Seq<T>, mid: B, r: B)
    requires
        fold_result(f, init, s1, mid),
        fold_result(f, mid, s2, r),
    ensures
        fold_result(f, init, s1 + s2, r),
{
    let a1 = choose|a: Seq<B>| fold_trace(f, init, s1, a) && mid == a.last();
    let a2 = choose|a: Seq<B>| fold_trace(f, mid, s2, a) && r == a.last();
    let a = a1 + a2.drop_first();
    assert forall|i: int| 0 <= i < (s1 + s2).len() implies call_ensures(f, (#[trigger] a[i], (s1 + s2)[i]), a[i + 1]) by {
        if i < s1.len() {
            assert(a[i] == a1[i]);
            assert(a[i + 1] == a1[i + 1]);
        } else {
            let j = i - s1.len();
            assert(a[i] == a2[j]);
            assert(a[i + 1] == a2[j + 1]);
        }
    }
    assert(fold_trace(f, init, s1 + s2, a));
    assert(a.last() == r) by {
        if s2.len() == 0 {
            assert(a.last() == a1.last());
            assert(a2[0] == mid);
        } else {
            assert(a.last() == a2.last());
        }
    }
}

/// A short-circuiting fold over `s1 + s2` runs over `s1` and, when every step
/// there continued, over `s2`.
pub proof fn lemma_try_fold_append<B, R, T, F: FnMut(B, T) -> ControlFlow<R, B>>(
    f: F,
    init: B,
    s1: Seq<T>,
    s2: Seq<T>,
    new1: Seq<T>,
    r1: ControlFlow<R, B>,
)
    requires
        try_fold_post(f, init, s1, new1, r1),
    ensures
        r1 is Break ==> try_fold_post(f, init, s1 + s2, new1 + s2, r1),
        r1 matches ControlFlow::Continue(mid) ==> new1.len() == 0 && forall|new2: Seq<T>, r2: ControlFlow<R, B>|
            #[trigger] try_fold_post(f, mid, s2, new2, r2) ==> try_fold_post(f, init, s1 + s2, new2, r2),
{
    let a1 = choose|a: Seq<B>| #[trigger] try_fold_trace(f, init, s1, a) && {
        let k = a.len() - 1;
        ||| k == s1.len() && r1 == ControlFlow::<R, B>::Continue(a.last()) && new1.len() == 0
        ||| k < s1.len() && r1 is Break && call_ensures(f, (a.last(), s1[k]), r1) && new1 == s1.skip(k + 1)
    };
    let k1 = a1.len() - 1;
    if r1 is Break {
        assert(k1 < s1.len());
        assert(try_fold_trace(f, init, s1 + s2, a1));
        assert(new1 + s2 == (s1 + s2).skip(k1 + 1));
        assert((s1 + s2)[k1] == s1[k1]);
    }
    if let ControlFlow::Continue(mid) = r1 {
        assert(k1 == s1.len());
        assert forall|new2: Seq<T>, r2: ControlFlow<R, B>| #[trigger] try_fold_post(f, mid, s2, new2, r2) implies try_fold_post(f, init, s1 + s2, new2, r2) by {
            let a2 = choose|a: Seq<B>| #[trigger] try_fold_trace(f, mid, s2, a) && {
                let k = a.len() - 1;
                ||| k == s2.len() && r2 == ControlFlow::<R, B>::Continue(a.last()) && new2.len() == 0
                ||| k < s2.len() && r2 is Break && call_ensures(f, (a.last(), s2[k]), r2) && new2 == s2.skip(k + 1)
            };
            let a = a1 + a2.drop_first();
            let k2 = a2.len() - 1;
            assert forall|i: int| 0 <= i < a.len() - 1 implies call_ensures(f, (#[trigger] a[i], (s1 + s2)[i]), ControlFlow::<R, B>::Continue(a[i + 1])) by {
                if i < s1.len() {
                    assert(a[i] == a1[i]);
                    assert(a[i + 1] == a1[i + 1]);
                } else {
                    let j = i - s1.len();
                    assert(a[i] == a2[j]);
                    assert(a[i + 1] == a2[j + 1]);
                }
            }
            assert(try_fold_trace(f, init, s1 + s2, a));
            assert(a.last() == a2.last());
            if k2 < s2.len() {
                assert((s1 + s2)[a.len() - 1] == s2[k2]);
                assert(new2 == (s1 + s2).skip(a.len() as int));
            }
        }
    }
}

} // verus!

verus! {

/// The verdict that the predicate `p` gives on `a` when it is deterministic.
pub open spec fn pred_out<T, P: FnMut(&T) -> bool>(p: P, a: T) -> bool {
    choose|b: bool| call_ensures(p, (&a,), b)
}

/// `p` can be called on every value and always gives the same verdict for the
/// same value.
pub open spec fn pred_pure<T, P: FnMut(&T) -> bool>(p: P) -> bool {
    &&& forall|a: T| call_requires(p, (&a,))
    &&& forall|a: T, b: bool| call_ensures(p, (&a,), b) ==> b == pred_out(p, a)
}

/// Some call of `p` on `a` returned: for a deterministic `p`,
/// `pred_out(p, a)` is then what it returned.
pub open spec fn pred_called<T, P: FnMut(&T) -> bool>(p: P, a: T) -> bool {
    exists|b: bool| call_ensures(p, (&a,), b)
}

/// Each of the first `k` elements of `s` was rejected by a call of `p`.
pub open spec fn rejected_upto<T, P: FnMut(&T) -> bool>(p: P, s: Seq<T>, k: int) -> bool {
    forall|j: int| 0 <= j < k ==> #[trigger] call_ensures(p, (&s[j],), false)
}

/// Each of the first `k` elements of `s` was accepted by a call of `p`.
pub open spec fn accepted_upto<T, P: FnMut(&T) -> bool>(p: P, s: Seq<T>, k: int) -> bool {
    forall|j: int| 0 <= j < k ==> #[trigger] call_ensures(p, (&s[j],), true)
}

/// The values of `s` that `p` accepts, in order.
pub open spec fn kept<T, P: FnMut(&T) -> bool>(p: P, s: Seq<T>) -> Seq<T> {
    s.filter(|a: T| pred_out(p, a))
}

/// How `kept` unfolds at the front of a sequence.
pub proof fn lemma_kept_front<T, P: FnMut(&T) -> bool>(p: P, s: Seq<T>)
    requires
        s.len() > 0,
    ensures
        kept(p, s) == (if pred_out(p, s[0]) { seq![s[0]] } else { Seq::empty() }) + kept(p, s.drop_first()),
{
    assert(s == seq![s[0]] + s.drop_first());
    s.drop_first().lemma_filter_prepend(s[0], |a: T| pred_out(p, a));
}

/// How `kept` unfolds at the back of a sequence.
pub proof fn lemma_kept_back<T, P: FnMut(&T) -> bool>(p: P, s: Seq<T>)
    requires
        s.len() > 0,
    ensures
        kept(p, s) == if pred_out(p, s.last()) {
            kept(p, s.drop_last()).push(s.last())
        } else {
            kept(p, s.drop_last())
        },
{
    reveal(Seq::filter);
}

/// A filtered sequence is never longer than the sequence.
pub proof fn lemma_kept_len<T, P: FnMut(&T) -> bool>(p: P, s: Seq<T>)
    ensures
        kept(p, s).len() <= s.len(),
{
    s.lemma_filter_len(|a: T| pred_out(p, a));
}

} // verus!

verus! {

/// A fold whose first step turns `init` into `b` on `x` and which then folds
/// `rest` from `b` is a fold of `seq![x] + rest` from `init`.
pub proof fn lemma_fold_step<B, T, F: FnMut(B, T) -> B>(f: F, init: B, x: T, b: B, rest: Seq<T>, r: B)
    requires
        call_ensures(f, (init, x), b),
        fold_result(f, b, rest, r),
    ensures
        fold_result(f, init, seq![x] + rest, r),
{
    let w = seq![init, b];
    assert(fold_trace(f, init, seq![x], w));
    assert(w.last() == b);
    lemma_fold_append(f, init, seq![x], rest, b, r);
}

/// A short-circuiting fold whose first step continues from `init` to `b` on
/// `x` and which then runs over `rest` from `b` is one over `seq![x] + rest`.
pub proof fn lemma_try_fold_step<B, R, T, F: FnMut(B, T) -> ControlFlow<R, B>>(
    f: F,
    init: B,
    x: T,
    b: B,
    rest: Seq<T>,
    new: Seq<T>,
    r: ControlFlow<R, B>,
)
    requires
        call_ensures(f, (init, x), ControlFlow::<R, B>::Continue(b)),
        try_fold_post(f, b, rest, new, r),
    ensures
        try_fold_post(f, init, seq![x] + rest, new, r),
{
    let w = seq![init, b];
    assert(try_fold_trace(f, init, seq![x], w));
    assert(w.last() == b);
    let c: ControlFlow<R, B> = ControlFlow::Continue(b);
    assert(try_fold_post(f, init, seq![x], Seq::<T>::empty(), c));
    lemma_try_fold_append(f, init, seq![x], rest, Seq::<T>::empty(), c);
    assert(c matches ControlFlow::Continue(mid) && mid == b);
    assert(try_fold_post(f, b, rest, new, r));
}

/// A short-circuiting fold whose first step breaks stops there.
pub proof fn lemma_try_fold_break<B, R, T, F: FnMut(B, T) -> ControlFlow<R, B>>(
    f: F,
    init: B,
    x: T,
    rest: Seq<T>,
    r: ControlFlow<R, B>,
)
    requires
        call_ensures(f, (init, x), r),
        r is Break,
    ensures
        try_fold_post(f, init, seq![x] + rest, rest, r),
{
    let w = seq![init];
    let s = seq![x] + rest;
    assert(try_fold_trace(f, init, s, w));
    assert(s[0] == x);
    assert(s.skip(1) == rest);
}

} // verus!

verus! {

/// The result that `f` gives on a reference to `a` when it is deterministic.
pub open spec fn ref_out<T, R, F: FnMut(&T) -> R>(f: F, a: T) -> R {
    choose|r: R| call_ensures(f, (&a,), r)
}

/// Some call of `f` on a reference to `a` returned: for a deterministic `f`,
/// `ref_out(f, a)` is then what it returned.
pub open spec fn ref_called<T, R, F: FnMut(&T) -> R>(f: F, a: T) -> bool {
    exists|r: R| call_ensures(f, (&a,), r)
}

/// `f` can be called on a reference to every value and always gives the same
/// result for the same value.
pub open spec fn ref_pure<T, R, F: FnMut(&T) -> R>(f: F) -> bool {
    &&& forall|a: T| call_requires(f, (&a,))
    &&& forall|a: T, r: R| call_ensures(f, (&a,), r) ==> r == ref_out(f, a)
}

} // verus!


verus! {

/// `p` rejected each of the first `k` values of `s`.
pub open spec fn rejects_first<T, P: FnMut(&T) -> bool>(p: P, s: Seq<T>, k: int) -> bool {
    &&& 0 <= k <= s.len()
    &&& forall|i: int| 0 <= i < k ==> call_ensures(p, (&s[i],), false)
}

/// What `find(p)` does to a lender described by `old`: it consumes the lends
/// up to and including the first one that `p` accepts and hands that one out;
/// when `p` accepts none, it drains the lender and hands out `None`.
pub open spec fn find_post<T, P: FnMut(&T) -> bool>(p: P, old: Seq<T>, new: Seq<T>, r: Option<T>) -> bool {
    exists|k: int| #[trigger] rejects_first(p, old, k) && {
        ||| k == old.len() && r is None && new.len() == 0
        ||| k < old.len() && call_ensures(p, (&old[k],), true) && r == Some(old[k]) && new == old.skip(k + 1)
    }
}

/// `p` can be called on a reference to every value.
pub open spec fn pred_ready<T, P: FnMut(&T) -> bool>(p: P) -> bool {
    forall|t: T| call_requires(p, (&t,))
}

} // verus!
