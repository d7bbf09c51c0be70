//! `StepBy`: every `step`-th lend, starting with the first.
use vstd::prelude::*;
use core::ops::ControlFlow;

use crate::spec::{lemma_reverse, 
    fold_ready, fold_result, fold_trace, suffix, try_fold_post, try_fold_ready, try_fold_trace,
};
use crate::traits::{DoubleEndedLender, ExactSizeLender, Lend, Lender, Lending, SpecLend};

verus! {

/// Every `k`-th element of `s`, starting with its first.
pub open spec fn stepped<T>(s: Seq<T>, k: nat) -> Seq<T>
    decreases s.len(),
{
    if s.len() == 0 || k == 0 {
        Seq::empty()
    } else {
        seq![s[0]] + stepped(suffix(s, k), k)
    }
}

/// Skipping twice is skipping the sum.
pub proof fn lemma_suffix_suffix<T>(s: Seq<T>, a: nat, b: nat)
    ensures
        suffix(suffix(s, a), b) == suffix(s, a + b),
{
    assert(suffix(suffix(s, a), b) =~= suffix(s, a + b));
}

/// The `n`-th element of `stepped(s, k)` is the `n * k`-th of `s`, and what
/// follows it is `stepped` of what follows that one.
pub proof fn lemma_stepped_nth<T>(s: Seq<T>, k: nat, n: nat)
    requires
        k > 0,
    ensures
        (n < stepped(s, k).len()) == (n * k < s.len()),
        n * k < s.len() ==> stepped(s, k)[n as int] == s[(n * k) as int],
        n * k < s.len() ==> stepped(s, k).skip((n + 1) as int) == stepped(suffix(s, (n + 1) * k), k),
    decreases n,
{
    if s.len() == 0 {
        assert(n * k >= 0) by (nonlinear_arith);
    } else if n == 0 {
        assert((n + 1) * k == k) by (nonlinear_arith)
            requires
                n == 0,
        ;
        assert(n * k == 0) by (nonlinear_arith)
            requires
                n == 0,
        ;
        assert(stepped(s, k).skip(1) =~= stepped(suffix(s, k), k));
    } else {
        let t = suffix(s, k);
        lemma_stepped_nth(t, k, (n - 1) as nat);
        assert((n - 1) * k + k == n * k) by (nonlinear_arith);
        assert(n * k + k == (n + 1) * k) by (nonlinear_arith);
        assert(n * k >= k) by (nonlinear_arith)
            requires
                n >= 1,
        ;
        if k < s.len() {
            assert(t.len() == s.len() - k);
            if (n - 1) * k < t.len() {
                assert(t[((n - 1) * k) as int] == s[(n * k) as int]);
                lemma_suffix_suffix(s, k, n * k);
                assert(stepped(s, k).skip((n + 1) as int) =~= stepped(t, k).skip(n as int));
            }
        } else {
            assert(t.len() == 0);
        }
    }
}

/// The number of elements of `stepped(s, k)`.
pub proof fn lemma_stepped_len<T>(s: Seq<T>, k: nat)
    requires
        k > 0,
    ensures
        stepped(s, k).len() == if s.len() == 0 { 0 } else { 1 + (s.len() - 1) / (k as int) },
    decreases s.len(),
{
    if s.len() > 0 {
        lemma_stepped_len(suffix(s, k), k);
        if k < s.len() {
            vstd::arithmetic::div_mod::lemma_div_minus_one((s.len() - 1) as int, k as int);
        } else {
            vstd::arithmetic::div_mod::lemma_basic_div((s.len() - 1) as int, k as int);
        }
    }
}

/// How `nth` lands: the lend wanted is the last of the `mul` lends that
/// follow the `consumed` already skipped in `base`.
proof fn lemma_nth_landing<T>(
    o: Seq<T>,
    s0: Seq<T>,
    base: Seq<T>,
    first: bool,
    step: nat,
    n: nat,
    n1: nat,
    consumed: int,
    mul: int,
)
    requires
        consumed >= 0,
        mul >= 1,
        consumed + mul - 1 == step + n1 * (step + 1),
        first ==> n == n1 + 1,
        first && s0.len() > 0 ==> base == s0.drop_first(),
        first && s0.len() == 0 ==> base.len() == 0,
        !first ==> n == n1 && base == s0,
        o == (if first { stepped(s0, step + 1) } else { stepped(suffix(s0, step), step + 1) }),
    ensures
        ({
            let cur = suffix(base, consumed as nat);
            &&& (mul - 1 < cur.len()) == (n < o.len())
            &&& mul - 1 < cur.len() ==> cur[mul - 1] == o[n as int] && stepped(
                suffix(cur.skip(mul), step),
                step + 1,
            ) == o.skip(n + 1 as int)
        }),
{
    let k = step + 1;
    let target: int = (step + n1 * k) as int;
    let cur = suffix(base, consumed as nat);
    let sb = suffix(base, step);
    let o1 = stepped(sb, k);
    lemma_stepped_nth(sb, k, n1);
    assert(n1 * k + step + 1 == (n1 + 1) * k) by (nonlinear_arith)
        requires
            k == step + 1,
    ;
    if step < base.len() {
        assert(sb.len() == base.len() - step);
    } else {
        assert(sb.len() == 0);
    }
    assert((mul - 1 < cur.len()) == (n1 < o1.len()));
    if target < base.len() {
        assert(cur[mul - 1] == base[target]);
        assert(cur.skip(mul) =~= suffix(base, (target + 1) as nat));
        lemma_suffix_suffix(base, (target + 1) as nat, step);
        lemma_suffix_suffix(base, step, ((n1 + 1) * k) as nat);
        assert(sb[(n1 * k) as int] == base[target]);
        assert(o1[n1 as int] == base[target]);
        assert(stepped(suffix(cur.skip(mul), step), k) == o1.skip((n1 + 1) as int));
    }
    if first {
        if s0.len() > 0 {
            assert(o =~= stepped(s0, k));
            assert(stepped(s0, k).drop_first() =~= stepped(suffix(s0, k), k));
            assert(suffix(s0, k) =~= sb);
            assert(o.drop_first() == o1);
            if n1 < o1.len() {
                assert(o.skip(n + 1 as int) =~= o1.skip((n1 + 1) as int));
            }
        } else {
            assert(o.len() == 0);
            assert(base.len() == 0);
        }
    } else {
        assert(o == o1);
    }
}

/// How many lends a stepping lender that still hands out its first lend
/// gives for `n` lends of the underlying lender.
pub open spec fn stepped_count(n: usize, step: usize) -> usize {
    if n == 0 {
        0
    } else {
        (1 + (n - 1) / (step + 1) as int) as usize
    }
}

/// One round of the overflow-free walk in `nth`: when `n * step` does not fit
/// in a `usize`, the largest multiples of `n` and of `step` that do fit are
/// positive and shrink the product.
pub(crate) proof fn lemma_split_product(n: int, step: int, div_n: int, div_step: int)
    requires
        1 <= n <= usize::MAX,
        1 <= step <= usize::MAX,
        n * step > usize::MAX,
        div_n == usize::MAX as int / n,
        div_step == usize::MAX as int / step,
    ensures
        1 <= div_n,
        div_n * n <= usize::MAX,
        1 <= div_step,
        div_step * step <= usize::MAX,
        step > div_n,
        n > div_step,
{
    let mx = usize::MAX as int;
    vstd::arithmetic::div_mod::lemma_fundamental_div_mod(mx, n);
    vstd::arithmetic::div_mod::lemma_fundamental_div_mod(mx, step);
    vstd::arithmetic::div_mod::lemma_mod_bound(mx, n);
    vstd::arithmetic::div_mod::lemma_mod_bound(mx, step);
    let rn = mx % n;
    let rs = mx % step;
    assert(div_n * n <= mx && div_n >= 1) by (nonlinear_arith)
        requires
            mx == n * div_n + rn,
            0 <= rn < n,
            n <= mx,
    ;
    assert(div_step * step <= mx && div_step >= 1) by (nonlinear_arith)
        requires
            mx == step * div_step + rs,
            0 <= rs < step,
            step <= mx,
    ;
    assert(step > div_n && n > div_step) by (nonlinear_arith)
        requires
            n * step > mx,
            div_n * n <= mx,
            div_step * step <= mx,
            n >= 1,
            step >= 1,
    ;
}

/// The step `next` takes: with `first_take` the first lend of `s` is handed
/// out, otherwise the one after the `step` skipped ones; either way what
/// remains is stepped in the same way without `first_take`.
pub proof fn lemma_stepped_next<T>(s: Seq<T>, step: nat, first: bool)
    ensures
        ({
            let k = step + 1;
            let sel = if first { stepped(s, k) } else { stepped(suffix(s, step), k) };
            let skipped: nat = if first { 0 } else { step };
            &&& (sel.len() > 0) == (skipped < s.len())
            &&& skipped < s.len() ==> sel[0] == s[skipped as int] && sel.drop_first() == stepped(
                suffix(s.skip(skipped + 1 as int), step),
                k,
            )
        }),
{
    let k = step + 1;
    lemma_stepped_nth(s, k, 0);
    lemma_stepped_nth(suffix(s, step), k, 0);
    lemma_suffix_suffix(s, step, k);
    if step < s.len() {
        assert(suffix(s, step) =~= s.skip(step as int));
        assert(suffix(s.skip(step + 1 as int), step) =~= suffix(suffix(s, step), k));
        assert(stepped(suffix(s, step), k).drop_first() =~= stepped(suffix(suffix(s, step), k), k));
    }
    if s.len() > 0 {
        assert(suffix(s.skip(1), step) =~= suffix(s, k));
        assert(stepped(s, k).drop_first() =~= stepped(suffix(s, k), k));
    }
}

/// Every element of `stepped(u, k)` is the element of `u` at `k` times its
/// position.
#[verifier::spinoff_prover]
pub proof fn lemma_stepped_index<T>(u: Seq<T>, k: nat)
    requires
        k > 0,
    ensures
        forall|i: int| 0 <= i < stepped(u, k).len() ==> #[trigger] stepped(u, k)[i] == u[i * k] && i * k < u.len(),
{
    assert forall|i: int| 0 <= i < stepped(u, k).len() implies #[trigger] stepped(u, k)[i] == u[i * k] && i * k < u.len() by {
        let n = i as nat;
        lemma_stepped_nth(u, k, n);
        assert(n * k == i * k);
        assert(i * k < u.len());
    }
}

/// Stepping through the first `j * k` elements gives the first `j` steps.
pub proof fn lemma_stepped_take<T>(u: Seq<T>, k: nat, j: nat)
    requires
        k > 0,
        j * k <= u.len(),
    ensures
        j <= stepped(u, k).len(),
        stepped(u.take((j * k) as int), k) == stepped(u, k).take(j as int),
{
    let p = u.take((j * k) as int);
    lemma_stepped_len(u, k);
    lemma_stepped_len(p, k);
    if j == 0 {
        assert(j * k == 0) by (nonlinear_arith)
            requires
                j == 0,
        ;
        assert(p.len() == 0);
        assert(stepped(p, k) =~= stepped(u, k).take(0));
    } else {
        assert(j * k >= k) by (nonlinear_arith)
            requires
                j >= 1,
        ;
        assert(j * k - 1 == (j - 1) * k + (k - 1)) by (nonlinear_arith);
        vstd::arithmetic::div_mod::lemma_fundamental_div_mod_converse(j * k - 1, k as int, j - 1, k - 1);
        vstd::arithmetic::div_mod::lemma_div_is_ordered(j * k - 1, u.len() - 1, k as int);
        lemma_stepped_index(u, k);
        lemma_stepped_index(p, k);
        assert forall|i: int| 0 <= i < j implies #[trigger] stepped(p, k)[i] == stepped(u, k).take(j as int)[i] by {
            assert(i * k < j * k) by (nonlinear_arith)
                requires
                    0 <= i < j,
                    k > 0,
            ;
        }
        assert(stepped(p, k) =~= stepped(u, k).take(j as int));
    }
}

/// Cutting `s` short and then skipping its first `off` elements is skipping
/// them first and then cutting short.
pub proof fn lemma_suffix_take<T>(s: Seq<T>, off: nat, len: nat)
    requires
        off <= len <= s.len(),
    ensures
        suffix(s.take(len as int), off) == suffix(s, off).take(len - off),
{
    assert(suffix(s.take(len as int), off) =~= suffix(s, off).take(len - off));
}

/// The number of elements after the last one that a `StepBy` over `n`
/// elements would hand out, as computed from `n` and the step.
pub open spec fn back_index(n: nat, k: nat, first: bool) -> int {
    if first {
        if n % k == 0 {
            k - 1
        } else {
            n % k - 1
        }
    } else {
        (n % k) as int
    }
}

/// `back_index` is how far the last selected element is from the end: with
/// `off` elements skipped before the first selected one, and `n - off`
/// elements from there on, it is `(n - off - 1) % k`; when nothing is
/// selected it reaches past the front.
pub proof fn lemma_back_index(n: nat, k: nat, first: bool)
    requires
        k > 0,
    ensures
        ({
            let off: nat = if first { 0 } else { (k - 1) as nat };
            &&& n > off ==> back_index(n, k, first) == (n - off - 1) % (k as int)
            &&& n <= off ==> back_index(n, k, first) >= n
            &&& 0 <= back_index(n, k, first) < k
        }),
{
    let q = n as int / k as int;
    let r = n as int % k as int;
    vstd::arithmetic::div_mod::lemma_fundamental_div_mod(n as int, k as int);
    vstd::arithmetic::div_mod::lemma_mod_bound(n as int, k as int);
    if first {
        if n > 0 {
            if r == 0 {
                assert(q >= 1) by (nonlinear_arith)
                    requires
                        n == k * q + r,
                        r == 0,
                        n > 0,
                        k > 0,
                ;
                assert(n - 1 == (q - 1) * k + (k - 1)) by (nonlinear_arith)
                    requires
                        n == k * q + r,
                        r == 0,
                ;
                vstd::arithmetic::div_mod::lemma_fundamental_div_mod_converse(n - 1, k as int, q - 1, k - 1);
            } else {
                assert(n - 1 == q * k + (r - 1)) by (nonlinear_arith)
                    requires
                        n == k * q + r,
                ;
                vstd::arithmetic::div_mod::lemma_fundamental_div_mod_converse(n - 1, k as int, q, r - 1);
            }
        }
    } else {
        if n > k - 1 {
            assert(q >= 1) by (nonlinear_arith)
                requires
                    n == k * q + r,
                    0 <= r < k,
                    n >= k,
            ;
            assert(n - (k - 1) - 1 == (q - 1) * k + r) by (nonlinear_arith)
                requires
                    n == k * q + r,
            ;
            vstd::arithmetic::div_mod::lemma_fundamental_div_mod_converse(n - (k - 1) - 1, k as int, q - 1, r);
        } else {
            vstd::arithmetic::div_mod::lemma_fundamental_div_mod_converse(n as int, k as int, 0, n as int);
        }
    }
}

/// What lies at the back of `stepped(u, k)`: its last element is the one at
/// `last`, which is `(u.len() - 1) % k` elements before the end of `u`, and
/// stepping through what comes before `last` gives all the other ones.
pub proof fn lemma_stepped_last<T>(u: Seq<T>, k: nat)
    requires
        k > 0,
        u.len() > 0,
    ensures
        ({
            let m = stepped(u, k).len();
            let last = (m - 1) * k;
            &&& m >= 1
            &&& 0 <= last < u.len()
            &&& u.len() - 1 - last == (u.len() - 1) % (k as int)
            &&& stepped(u, k)[m - 1] == u[last]
            &&& stepped(u.take(last), k) == stepped(u, k).drop_last()
        }),
{
    lemma_stepped_len(u, k);
    let m = stepped(u, k).len();
    let q = (u.len() - 1) / (k as int);
    vstd::arithmetic::div_mod::lemma_fundamental_div_mod(u.len() - 1, k as int);
    vstd::arithmetic::div_mod::lemma_mod_bound(u.len() - 1, k as int);
    assert(m - 1 == q);
    assert(q * k <= u.len() - 1 && q * k >= 0) by (nonlinear_arith)
        requires
            u.len() - 1 == k * q + (u.len() - 1) % (k as int),
            (u.len() - 1) % (k as int) >= 0,
            q >= 0,
            k > 0,
    ;
    lemma_stepped_nth(u, k, (m - 1) as nat);
    lemma_stepped_take(u, k, (m - 1) as nat);
    assert(stepped(u, k).take(m - 1) =~= stepped(u, k).drop_last());
}

/// The lends that a `StepBy` with step `step` hands out from `s`.
pub open spec fn selected<T>(s: Seq<T>, step: nat, first: bool) -> Seq<T> {
    if first {
        stepped(s, step + 1)
    } else {
        stepped(suffix(s, step), step + 1)
    }
}

/// Going back from the end of `s`: the `j`-th selected lend from the back is
/// `j * k + back_index` lends before the end, what comes before it selects
/// the rest, and that rest again ends `k - 1` lends after a selected one.
pub proof fn lemma_step_back<T>(s: Seq<T>, step: nat, first: bool, j: nat)
    ensures
        ({
            let k = step + 1;
            let off: nat = if first { 0 } else { step };
            let sel = selected(s, step, first);
            let idx = back_index(s.len(), k, first);
            &&& 0 <= idx < k
            &&& j < sel.len() ==> {
                let n2 = j * k + idx;
                &&& n2 < s.len()
                &&& s[s.len() - 1 - n2] == sel[sel.len() - 1 - j]
                &&& selected(s.take(s.len() - 1 - n2), step, first) == sel.take(sel.len() - 1 - j)
                &&& s.len() - 1 - n2 >= off
                &&& back_index((s.len() - 1 - n2) as nat, k, first) == step
            }
            &&& j >= sel.len() ==> j * k + idx >= s.len()
        }),
{
    let k = step + 1;
    let off: nat = if first { 0 } else { step };
    let u = suffix(s, off);
    let sel = selected(s, step, first);
    let idx = back_index(s.len(), k, first);
    lemma_back_index(s.len(), k, first);
    assert(stepped(u, k) == sel) by {
        if first {
            assert(u =~= s);
        }
    }
    if u.len() == 0 {
        lemma_stepped_len(u, k);
        assert(j * k >= 0) by (nonlinear_arith);
        if off < s.len() {
            assert(u.len() == s.len() - off);
        }
    } else {
        assert(off < s.len());
        assert(u.len() == s.len() - off);
        lemma_stepped_last(u, k);
        let m = sel.len();
        let last = (m - 1) * k;
        if j < m {
            assert(j * k <= last) by (nonlinear_arith)
                requires
                    j < m,
                    last == (m - 1) * k,
                    k > 0,
            ;
            let n2 = j * k + idx;
            let rest = ((m - 1 - j) * k) as nat;
            assert(rest == last - j * k) by (nonlinear_arith)
                requires
                    last == (m - 1) * k,
                    rest == (m - 1 - j) * k,
            ;
            assert(s.len() - 1 - n2 == off + rest);
            lemma_stepped_index(u, k);
            assert(u[rest as int] == s[off + rest as int]);
            assert(sel[m - 1 - j] == u[(m - 1 - j) * k]);
            lemma_suffix_take(s, off, off + rest);
            lemma_stepped_take(u, k, (m - 1 - j) as nat);
            let t = s.take(s.len() - 1 - n2);
            assert(suffix(t, off) == u.take(rest as int));
            assert(selected(t, step, first) == stepped(suffix(t, off), k)) by {
                if first {
                    assert(suffix(t, off) =~= t);
                }
            }
            assert((off + rest) as int - off == (m - 1 - j) * k);
            vstd::arithmetic::div_mod::lemma_mod_multiples_basic((m - 1 - j) as int, k as int);
            lemma_back_index_aligned((off + rest) as nat, step, first);
        } else {
            assert(j * k >= m * k) by (nonlinear_arith)
                requires
                    j >= m,
                    k > 0,
            ;
            assert(m * k == last + k) by (nonlinear_arith)
                requires
                    last == (m - 1) * k,
            ;
        }
    }
}

/// When `n - off` is a multiple of `k`, the last selected lend, if any, is
/// `k - 1` lends before the end.
pub proof fn lemma_back_index_aligned(n: nat, step: nat, first: bool)
    requires
        n >= (if first { 0 } else { step }),
        (n - (if first { 0 } else { step })) % ((step + 1) as int) == 0,
    ensures
        back_index(n, step + 1, first) == step,
{
    let k = step + 1;
    let off: int = if first { 0 } else { step as int };
    let q = (n - off) / (k as int);
    vstd::arithmetic::div_mod::lemma_fundamental_div_mod(n - off, k as int);
    if first {
        assert((n as int) % (k as int) == 0);
    } else {
        assert(n == q * k + step) by (nonlinear_arith)
            requires
                n - off == k * q + 0,
                off == step,
        ;
        vstd::arithmetic::div_mod::lemma_fundamental_div_mod_converse(n as int, k as int, q, step as int);
    }
}


/// A lender that hands out every `step`-th lend of the underlying one,
/// starting with the first.
pub struct StepBy<L> {
    pub lender: L,
    /// The number of lends skipped between two that are handed out.
    pub step: usize,
    /// Whether the next lend is the first of the underlying lender.
    pub first_take: bool,
}

impl<L> StepBy<L> {
    /// The lends of `s` that a `StepBy` in this state hands out.
    pub open spec fn select(&self, s: Seq<SpecLend<L>>) -> Seq<SpecLend<L>> where L: Lender {
        selected(s, self.step as nat, self.first_take)
    }
}

impl<L> StepBy<L> {
    /// Hands out every `step`-th lend of `lender`; `step` must not be zero.
    pub fn new(lender: L, step: usize) -> (r: StepBy<L>)
        requires
            step != 0,
        ensures
            r.lender == lender,
            r.step == step - 1,
            r.first_take,
    {
        StepBy { lender, step: step - 1, first_take: true }
    }
}

impl<'lend, L: Lender> Lending<'lend> for StepBy<L> {
    type Lend = Lend<'lend, L>;
}

impl<L: Lender> Lender for StepBy<L> {
    open spec fn wf(&self) -> bool {
        self.lender.wf() && self.step < usize::MAX
    }

    open spec fn lends(&self) -> Seq<SpecLend<Self>> {
        self.select(self.lender.lends())
    }

    fn next(&mut self) -> (r: Option<Lend<'_, Self>>)
        ensures
            !final(self).first_take,
            final(self).step == old(self).step,
            final(self).lender.lends() == suffix(
                old(self).lender.lends(),
                if old(self).first_take { 1 } else { (old(self).step + 1) as nat },
            ),
    {
        let ghost s = self.lender.lends();
        let ghost k = (self.step + 1) as nat;
        proof {
            lemma_stepped_nth(s, k, 0);
            lemma_stepped_nth(suffix(s, self.step as nat), k, 0);
            lemma_suffix_suffix(s, self.step as nat, k);
            if self.step < s.len() {
                assert(suffix(s, self.step as nat) =~= s.skip(self.step as int));
            }
        }
        if self.first_take {
            self.first_take = false;
            proof {
                if s.len() > 0 {
                    assert(suffix(s.drop_first(), self.step as nat) =~= suffix(s, k));
                    assert(stepped(s, k).drop_first() =~= stepped(suffix(s, k), k));
                }
            }
            self.lender.next()
        } else {
            proof {
                let t = suffix(s, self.step as nat);
                if self.step < s.len() {
                    assert(suffix(s.skip(self.step + 1), self.step as nat) =~= suffix(t, k));
                    assert(stepped(t, k).drop_first() =~= stepped(suffix(t, k), k));
                }
            }
            self.lender.nth(self.step)
        }
    }

    fn nth(&mut self, n: usize) -> (r: Option<Lend<'_, Self>>) {
        let ghost k = (self.step + 1) as nat;
        let ghost o = old(self).lends();
        let mut m = n;
        if self.first_take {
            self.first_take = false;
            if m == 0 {
                proof {
                    let s = self.lender.lends();
                    lemma_stepped_nth(s, k, 0);
                    if s.len() > 0 {
                        assert(suffix(s.drop_first(), self.step as nat) =~= suffix(s, k));
                        assert(stepped(s, k).drop_first() =~= stepped(suffix(s, k), k));
                    }
                }
                return self.lender.next();
            }
            proof {
                let s = self.lender.lends();
                if s.len() > 0 {
                    assert(suffix(s.drop_first(), self.step as nat) =~= suffix(s, k));
                    assert(stepped(s, k).drop_first() =~= stepped(suffix(s, k), k));
                }
            }
            self.lender.next();
            m = m - 1;
        }
        // From here on the lends are `stepped(suffix(base, step), k)` and the
        // `n`-th of them, at index `target` of `base`, is wanted.

        let ghost base = self.lender.lends();
        let ghost n1 = m as nat;
        let ghost target: int = self.step + n1 * k;
        proof {
            let o1 = stepped(suffix(base, self.step as nat), k);
            assert(o1 == self.lends());
            assert(n1 * k + self.step + 1 == (n1 + 1) * k) by (nonlinear_arith)
                requires
                    k == self.step + 1,
            ;
        }
        let mut step = self.step + 1;
        if m == usize::MAX {
            self.lender.nth(step - 1);
            proof {
                assert(n1 * k == (n1 - 1) * k + k) by (nonlinear_arith)
                    requires
                        n1 >= 1,
                ;
            }
        } else {
            m = m + 1;
            proof {
                assert(m * k == n1 * k + k) by (nonlinear_arith)
                    requires
                        m == n1 + 1,
                ;
            }
        }
        let ghost consumed: int = target + 1 - m * step;
        assert(self.lender.lends() == suffix(base, consumed as nat)) by {
            if n1 == usize::MAX {
                assert(consumed == k);
            } else {
                assert(consumed == 0);
            }
            assert(suffix(base, 0) =~= base);
        }
        loop
            invariant
                self.lender.wf(),
                self.step < usize::MAX,
                !self.first_take,
                k == self.step + 1,
                m >= 1,
                step >= 1,
                consumed >= 0,
                consumed + m * step == target + 1,
                self.lender.lends() == suffix(base, consumed as nat),
                target == self.step + n1 * k,
                self.step == old(self).step,
                o == old(self).lends(),
                old(self).first_take ==> n == n1 + 1,
                old(self).first_take && old(self).lender.lends().len() > 0 ==> base == old(self).lender.lends().drop_first(),
                old(self).first_take && old(self).lender.lends().len() == 0 ==> base.len() == 0,
                !old(self).first_take ==> n == n1 && base == old(self).lender.lends(),
            decreases m * step,
        {
            let mul = m.checked_mul(step);
            if let Some(mul) = mul {
                proof {
                    assert(mul >= 1) by (nonlinear_arith)
                        requires
                            mul == m * step,
                            m >= 1,
                            step >= 1,
                    ;
                    lemma_nth_landing(
                        o,
                        old(self).lender.lends(),
                        base,
                        old(self).first_take,
                        self.step as nat,
                        n as nat,
                        n1,
                        consumed,
                        mul as int,
                    );
                }
                return self.lender.nth(mul - 1);
            }
            let div_n = usize::MAX / m;
            let div_step = usize::MAX / step;
            proof {
                lemma_split_product(m as int, step as int, div_n as int, div_step as int);
            }
            let nth_n = div_n * m;
            let nth_step = div_step * step;
            let ghost prod = m * step;
            let nth = if nth_n > nth_step {
                step = step - div_n;
                proof {
                    assert(m * step == prod - nth_n) by (nonlinear_arith)
                        requires
                            step == (step + div_n) - div_n,
                            prod == m * (step + div_n),
                            nth_n == div_n * m,
                    ;
                }
                nth_n
            } else {
                m = m - div_step;
                proof {
                    assert(m * step == prod - nth_step) by (nonlinear_arith)
                        requires
                            prod == (m + div_step) * step,
                            nth_step == div_step * step,
                    ;
                }
                nth_step
            };
            proof {
                assert(nth >= 1) by (nonlinear_arith)
                    requires
                        nth == div_n * m || nth == div_step * step,
                        div_n >= 1,
                        div_step >= 1,
                        m >= 1,
                        step >= 1,
                ;
            }
            self.lender.nth(nth - 1);
            proof {
                let cur = suffix(base, consumed as nat);
                assert(suffix(cur, nth as nat) =~= suffix(base, (consumed + nth) as nat));
                consumed = consumed + nth;
            }
        }
    }

    fn try_fold<B, R, F>(&mut self, init: B, f: F) -> (r: ControlFlow<R, B>)
        where
            F: FnMut(B, Lend<'_, Self>) -> ControlFlow<R, B>,
    {
        let ghost orig = old(self).lends();
        let mut acc = init;
        let mut g = f;
        let ghost mut accs: Seq<B> = seq![init];
        if self.first_take {
            self.first_take = false;
            proof {
                lemma_stepped_next(self.lender.lends(), self.step as nat, true);
            }
            match self.lender.next() {
                None => {
                    assert(orig.len() == 0);
                    assert(try_fold_trace(f, init, orig, accs));
                    return ControlFlow::Continue(acc);
                },
                Some(x) => {
                    let c = g(acc, x);
                    let ghost c0 = c;
                    acc = match c {
                        ControlFlow::Break(b) => {
                            let c = ControlFlow::Break(b);
                            proof {
                                assert(try_fold_trace(f, init, orig, accs));
                                assert(c == c0);
                            }
                            return c;
                        },
                        ControlFlow::Continue(c) => c,
                    };
                    proof {
                        accs = accs.push(acc);
                    }
                },
            }
        }
        loop
            invariant
                self.wf(),
                !self.first_take,
                orig == old(self).lends(),
                g == f,
                try_fold_ready::<B, R, SpecLend<L>, F>(f),
                try_fold_trace(f, init, orig, accs),
                acc == accs.last(),
                self.lends() == orig.skip(accs.len() - 1),
            decreases self.lends().len(),
        {
            let ghost k = accs.len() - 1;
            proof {
                lemma_stepped_next(self.lender.lends(), self.step as nat, false);
            }
            match self.lender.nth(self.step) {
                None => {
                    assert(k == orig.len());
                    return ControlFlow::Continue(acc);
                },
                Some(x) => {
                    assert(x == orig[k]);
                    assert(orig.skip(k).drop_first() == orig.skip(k + 1));
                    let c = g(acc, x);
                    let ghost c0 = c;
                    match c {
                        ControlFlow::Continue(b) => {
                            acc = b;
                            proof {
                                accs = accs.push(acc);
                            }
                        },
                        ControlFlow::Break(e) => {
                            let c = ControlFlow::Break(e);
                            proof {
                                assert(try_fold_trace(f, init, orig, accs));
                                assert(c == c0);
                            }
                            return c;
                        },
                    }
                },
            }
        }
    }

    fn fold<B, F>(self, init: B, f: F) -> (r: B)
        where
            F: FnMut(B, Lend<'_, Self>) -> B,
    {
        let ghost orig = self.lends();
        let mut this = self;
        let mut acc = init;
        let mut g = f;
        let ghost mut accs: Seq<B> = seq![init];
        if this.first_take {
            this.first_take = false;
            proof {
                lemma_stepped_next(this.lender.lends(), this.step as nat, true);
            }
            match this.lender.next() {
                None => {
                    assert(orig.len() == 0);
                    assert(accs.last() == acc);
                    assert(fold_trace(f, init, orig, accs));
                    return acc;
                },
                Some(x) => {
                    acc = g(acc, x);
                    proof {
                        accs = accs.push(acc);
                        assert(orig.take(1).take(0) == orig.take(0));
                    }
                },
            }
        }
        loop
            invariant
                g == f,
                this.wf(),
                !this.first_take,
                orig == self.lends(),
                fold_ready::<B, SpecLend<L>, F>(f),
                accs.len() <= orig.len() + 1,
                fold_trace(f, init, orig.take(accs.len() - 1), accs),
                acc == accs.last(),
                this.lends() == orig.skip(accs.len() - 1),
            decreases this.lends().len(),
        {
            let ghost k = accs.len() - 1;
            proof {
                lemma_stepped_next(this.lender.lends(), this.step as nat, false);
            }
            match this.lender.nth(this.step) {
                None => {
                    assert(orig.take(k) == orig);
                    assert(fold_trace(f, init, orig, accs));
                    return acc;
                },
                Some(x) => {
                    assert(x == orig[k]);
                    acc = g(acc, x);
                    proof {
                        accs = accs.push(acc);
                        assert(orig.take(k + 1).take(k) == orig.take(k));
                        assert(orig.skip(k).drop_first() == orig.skip(k + 1));
                    }
                },
            }
        }
    }

    open spec fn hint(&self) -> (usize, Option<usize>) {
        if self.first_take {
            (
                stepped_count(self.lender.hint().0, self.step),
                match self.lender.hint().1 {
                    Some(n) => Some(stepped_count(n, self.step)),
                    None => None,
                },
            )
        } else {
            (
                (self.lender.hint().0 as int / (self.step + 1)) as usize,
                match self.lender.hint().1 {
                    Some(n) => Some((n as int / (self.step + 1)) as usize),
                    None => None,
                },
            )
        }
    }

    fn size_hint(&self) -> (r: (usize, Option<usize>)) {
        let (low, high) = self.lender.size_hint();
        let step = self.step;
        let ghost s = self.lender.lends();
        let ghost k = (self.step + 1) as int;
        proof {
            lemma_stepped_len(s, k as nat);
            lemma_stepped_len(suffix(s, self.step as nat), k as nat);
        }
        if self.first_take {
            let lo = if low == 0 {
                0
            } else {
                1 + (low - 1) / (step + 1)
            };
            let hi = match high {
                Some(n) => Some(
                    if n == 0 {
                        0
                    } else {
                        1 + (n - 1) / (step + 1)
                    },
                ),
                None => None,
            };
            proof {
                if low > 0 {
                    vstd::arithmetic::div_mod::lemma_div_is_ordered((low - 1) as int, (s.len() - 1) as int, k);
                }
                if let Some(n) = high {
                    if s.len() > 0 {
                        vstd::arithmetic::div_mod::lemma_div_is_ordered((s.len() - 1) as int, (n - 1) as int, k);
                    }
                    if n > 0 {
                        vstd::arithmetic::div_mod::lemma_div_pos_is_pos((n - 1) as int, k);
                    }
                }
                if low > 0 {
                    vstd::arithmetic::div_mod::lemma_div_pos_is_pos((low - 1) as int, k);
                }
            }
            (lo, hi)
        } else {
            let lo = low / (step + 1);
            let hi = match high {
                Some(n) => Some(n / (step + 1)),
                None => None,
            };
            proof {
                let t = suffix(s, self.step as nat);
                if s.len() > self.step {
                    vstd::arithmetic::div_mod::lemma_div_minus_one(s.len() as int, k);
                    assert(t.len() == s.len() - self.step);
                } else {
                    vstd::arithmetic::div_mod::lemma_basic_div(s.len() as int, k);
                }
                vstd::arithmetic::div_mod::lemma_div_is_ordered(low as int, s.len() as int, k);
                if let Some(n) = high {
                    vstd::arithmetic::div_mod::lemma_div_is_ordered(s.len() as int, n as int, k);
                }
            }
            (lo, hi)
        }
    }
}

impl<L: DoubleEndedLender + ExactSizeLender> StepBy<L> {
    /// How many lends of the underlying lender come after the last one that
    /// this lender hands out.
    fn next_back_index(&self) -> (r: usize)
        requires
            self.wf(),
        ensures
            r == back_index(self.lender.lends().len(), (self.step + 1) as nat, self.first_take),
            self.lender.lends().len() <= usize::MAX,
    {
        let rem = self.lender.len() % (self.step + 1);
        if self.first_take {
            if rem == 0 {
                self.step
            } else {
                rem - 1
            }
        } else {
            rem
        }
    }
}

impl<L: DoubleEndedLender + ExactSizeLender> DoubleEndedLender for StepBy<L> {
    fn next_back(&mut self) -> (r: Option<Lend<'_, Self>>) {
        proof {
            lemma_step_back(self.lender.lends(), self.step as nat, self.first_take, 0);
            let sel = self.lends();
            if sel.len() > 0 {
                assert(sel.take(sel.len() - 1) =~= sel.drop_last());
            }
        }
        let idx = self.next_back_index();
        self.lender.nth_back(idx)
    }

    fn nth_back(&mut self, n: usize) -> (r: Option<Lend<'_, Self>>) {
        proof {
            lemma_step_back(self.lender.lends(), self.step as nat, self.first_take, n as nat);
        }
        let idx = self.next_back_index();
        let prod = match n.checked_mul(self.step + 1) {
            Some(p) => p,
            None => usize::MAX,
        };
        let m = prod.saturating_add(idx);
        self.lender.nth_back(m)
    }

    fn try_rfold<B, R, F>(&mut self, init: B, f: F) -> (r: ControlFlow<R, B>)
        where
            F: FnMut(B, Lend<'_, Self>) -> ControlFlow<R, B>,
    {
        let ghost orig = old(self).lends().reverse();
        let mut acc = init;
        let mut g = f;
        let ghost mut accs: Seq<B> = seq![init];
        let ghost before = self.lends();
        proof {
            lemma_step_back(self.lender.lends(), self.step as nat, self.first_take, 0);
            lemma_reverse(before);
        }
        proof {
            if before.len() > 0 {
                assert(orig.skip(1) == before.drop_last().reverse());
                assert(before.take(before.len() - 1) =~= before.drop_last());
            }
        }
        {
            let idx = self.next_back_index();
            let first = self.lender.nth_back(idx);
            match first {
                None => {
                    proof {
                        assert(try_fold_trace(f, init, orig, accs));
                    }
                    return ControlFlow::Continue(acc);
                },
                Some(x) => {
                    assert(x == orig[0]);
                    let c = g(acc, x);
                    let ghost c0 = c;
                    match c {
                        ControlFlow::Break(e) => {
                            let c = ControlFlow::Break(e);
                            proof {
                                assert(try_fold_trace(f, init, orig, accs));
                                assert(c == c0);
                            }
                            return c;
                        },
                        ControlFlow::Continue(b) => {
                            acc = b;
                            proof {
                                accs = accs.push(acc);
                            }
                        },
                    }
                },
            }
        }
        loop
            invariant
                self.wf(),
                self.first_take == old(self).first_take,
                self.step == old(self).step,
                orig == old(self).lends().reverse(),
                g == f,
                try_fold_ready::<B, R, SpecLend<L>, F>(f),
                try_fold_trace(f, init, orig, accs),
                acc == accs.last(),
                self.lends().reverse() == orig.skip(accs.len() - 1),
                back_index(self.lender.lends().len(), (self.step + 1) as nat, self.first_take) == self.step
                    || self.lends().len() == 0,
            decreases self.lends().len(),
        {
            let ghost k = accs.len() - 1;
            let ghost cur = self.lends();
            proof {
                lemma_step_back(self.lender.lends(), self.step as nat, self.first_take, 0);
                lemma_reverse(cur);
                if cur.len() > 0 {
                    assert(cur.take(cur.len() - 1) =~= cur.drop_last());
                }
            }
            match self.lender.nth_back(self.step) {
                None => {
                    assert(k == orig.len());
                    return ControlFlow::Continue(acc);
                },
                Some(x) => {
                    assert(x == orig[k]);
                    assert(orig.skip(k).drop_first() == orig.skip(k + 1));
                    let c = g(acc, x);
                    let ghost c0 = c;
                    match c {
                        ControlFlow::Continue(b) => {
                            acc = b;
                            proof {
                                accs = accs.push(acc);
                            }
                        },
                        ControlFlow::Break(e) => {
                            let c = ControlFlow::Break(e);
                            proof {
                                assert(try_fold_trace(f, init, orig, accs));
                                assert(c == c0);
                            }
                            return c;
                        },
                    }
                },
            }
        }
    }

    fn rfold<B, F>(self, init: B, f: F) -> (r: B)
        where
            F: FnMut(B, Lend<'_, Self>) -> B,
    {
        let ghost orig = self.lends().reverse();
        let mut this = self;
        let mut g = f;
        let mut acc = init;
        let ghost mut accs: Seq<B> = seq![init];
        let ghost before = this.lends();
        proof {
            lemma_step_back(this.lender.lends(), this.step as nat, this.first_take, 0);
            lemma_reverse(before);
        }
        proof {
            if before.len() > 0 {
                assert(orig.skip(1) == before.drop_last().reverse());
                assert(orig.take(1).take(0) == orig.take(0));
                assert(before.take(before.len() - 1) =~= before.drop_last());
            }
        }
        {
            let idx = this.next_back_index();
            let first = this.lender.nth_back(idx);
            match first {
                None => {
                    proof {
                        assert(orig.take(0) == orig);
                        assert(fold_trace(f, init, orig, accs));
                        assert(accs.last() == acc);
                    }
                    return acc;
                },
                Some(x) => {
                    assert(x == orig[0]);
                    acc = g(acc, x);
                    proof {
                        accs = accs.push(acc);
                    }
                },
            }
        }
        loop
            invariant
                g == f,
                this.wf(),
                this.step == self.step,
                this.first_take == self.first_take,
                orig == self.lends().reverse(),
                fold_ready::<B, SpecLend<L>, F>(f),
                accs.len() <= orig.len() + 1,
                fold_trace(f, init, orig.take(accs.len() - 1), accs),
                acc == accs.last(),
                this.lends().reverse() == orig.skip(accs.len() - 1),
                back_index(this.lender.lends().len(), (this.step + 1) as nat, this.first_take) == this.step
                    || this.lends().len() == 0,
            decreases this.lends().len(),
        {
            let ghost k = accs.len() - 1;
            let ghost cur = this.lends();
            proof {
                lemma_step_back(this.lender.lends(), this.step as nat, this.first_take, 0);
                lemma_reverse(cur);
                if cur.len() > 0 {
                    assert(cur.take(cur.len() - 1) =~= cur.drop_last());
                }
            }
            match this.lender.nth_back(this.step) {
                None => {
                    assert(orig.take(k) == orig);
                    return acc;
                },
                Some(x) => {
                    assert(x == orig[k]);
                    acc = g(acc, x);
                    proof {
                        accs = accs.push(acc);
                        assert(orig.take(k + 1).take(k) == orig.take(k));
                        assert(orig.skip(k).drop_first() == orig.skip(k + 1));
                    }
                },
            }
        }
    }
}

impl<L: ExactSizeLender> ExactSizeLender for StepBy<L> {
    fn len(&self) -> (r: usize) {
        let n = self.lender.len();
        proof {
            lemma_stepped_len(self.lender.lends(), (self.step + 1) as nat);
            lemma_stepped_len(suffix(self.lender.lends(), self.step as nat), (self.step + 1) as nat);
            if n > self.step {
                vstd::arithmetic::div_mod::lemma_div_minus_one(n as int, (self.step + 1) as int);
            } else {
                vstd::arithmetic::div_mod::lemma_basic_div(n as int, (self.step + 1) as int);
            }
        }
        if self.first_take {
            if n == 0 {
                0
            } else {
                1 + (n - 1) / (self.step + 1)
            }
        } else {
            n / (self.step + 1)
        }
    }
}

} // verus!
