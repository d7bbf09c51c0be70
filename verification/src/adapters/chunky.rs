//! `Chunky`: chunks of a lender, each a `Chunk` that borrows it.
use vstd::prelude::*;
use core::ops::ControlFlow;

use crate::adapters::chunk::Chunk;
use crate::spec::suffix;
use crate::traits::{ExactSizeLender, Lender};
use crate::fallible::{fallible_advance_post, first_err, ExactSizeFallibleLender, FallibleLender};

verus! {

/// `n` divided by `d`, rounded up.
pub open spec fn div_ceil(n: nat, d: nat) -> nat {
    if n % d == 0 {
        n / d
    } else {
        n / d + 1
    }
}

/// `div_ceil(n, d)` is the least number of chunks of `d` that cover `n`
/// items: that many chunks cover them, and one chunk fewer leaves some out.
pub proof fn law_div_ceil_covers(n: nat, d: nat)
    requires
        d > 0,
    ensures
        div_ceil(n, d) * d >= n,
        n > 0 ==> (div_ceil(n, d) - 1) * d < n,
        n == 0 ==> div_ceil(n, d) == 0,
{
    vstd::arithmetic::div_mod::lemma_fundamental_div_mod(n as int, d as int);
    let q = n / d;
    let r = n % d;
    assert(n == d * q + r);
    assert(0 <= r < d) by {
        vstd::arithmetic::div_mod::lemma_mod_bound(n as int, d as int);
    }
    if r == 0 {
        assert(div_ceil(n, d) == q);
        assert(q * d == n) by (nonlinear_arith)
            requires
                n == d * q + r,
                r == 0,
        ;
        if n > 0 {
            assert(q > 0) by (nonlinear_arith)
                requires
                    n == d * q,
                    n > 0,
            ;
            assert((q - 1) * d < n) by (nonlinear_arith)
                requires
                    n == d * q,
                    d > 0,
                    q > 0,
            ;
        } else {
            assert(q == 0) by (nonlinear_arith)
                requires
                    0 == d * q,
                    d > 0,
            ;
        }
    } else {
        assert(div_ceil(n, d) == q + 1);
        assert((q + 1) * d >= n) by (nonlinear_arith)
            requires
                n == d * q + r,
                r < d,
        ;
        assert(q * d < n) by (nonlinear_arith)
            requires
                n == d * q + r,
                r > 0,
        ;
    }
}

/// Hands out `len` chunks of at most `chunk_size` lends of a lender. Each
/// chunk borrows the lender, and the next chunk starts where the caller left
/// it: lends of a chunk that are not taken are taken by the next one.
pub struct Chunky<L> {
    pub lender: L,
    pub chunk_size: usize,
    /// The number of chunks still to hand out.
    pub len: usize,
}

impl<L: ExactSizeLender> Chunky<L> {
    /// Splits the lends of `lender` into chunks of `chunk_size`: as many
    /// chunks as it takes to cover them, the last one possibly shorter.
    pub fn new(lender: L, chunk_size: usize) -> (r: Chunky<L>)
        requires
            chunk_size != 0,
            lender.wf(),
        ensures
            r.lender == lender,
            r.chunk_size == chunk_size,
            r.len == div_ceil(lender.lends().len(), chunk_size as nat),
            r.len * chunk_size >= lender.lends().len(),
            lender.lends().len() > 0 ==> (r.len - 1) * chunk_size < lender.lends().len(),
    {
        proof {
            law_div_ceil_covers(lender.lends().len(), chunk_size as nat);
        }
        let n = lender.len();
        let q = n / chunk_size;
        let len = if n % chunk_size == 0 {
            q
        } else {
            proof {
                vstd::arithmetic::div_mod::lemma_fundamental_div_mod(n as int, chunk_size as int);
                assert(q * chunk_size <= n) by (nonlinear_arith)
                    requires
                        n == chunk_size * q + n % chunk_size,
                        n % chunk_size >= 0,
                ;
                assert(q < usize::MAX) by (nonlinear_arith)
                    requires
                        q * chunk_size <= n,
                        chunk_size >= 1,
                        n <= usize::MAX,
                        n % chunk_size > 0,
                        n == chunk_size * q + n % chunk_size,
                ;
            }
            q + 1
        };
        Chunky { lender, chunk_size, len }
    }
}

impl<L: ExactSizeFallibleLender> Chunky<L> {
    /// Splits the outcomes of a fallible `lender` into chunks of
    /// `chunk_size`: as many chunks as it takes to cover them, the last one
    /// possibly shorter.
    pub fn fallible_new(lender: L, chunk_size: usize) -> (r: Chunky<L>)
        requires
            chunk_size != 0,
            lender.wf(),
        ensures
            r.lender == lender,
            r.chunk_size == chunk_size,
            r.len == div_ceil(lender.outcomes().len(), chunk_size as nat),
            r.len * chunk_size >= lender.outcomes().len(),
            lender.outcomes().len() > 0 ==> (r.len - 1) * chunk_size < lender.outcomes().len(),
    {
        proof {
            law_div_ceil_covers(lender.outcomes().len(), chunk_size as nat);
        }
        let n = lender.len();
        let q = n / chunk_size;
        let len = if n % chunk_size == 0 {
            q
        } else {
            proof {
                vstd::arithmetic::div_mod::lemma_fundamental_div_mod(n as int, chunk_size as int);
                assert(q * chunk_size <= n) by (nonlinear_arith)
                    requires
                        n == chunk_size * q + n % chunk_size,
                        n % chunk_size >= 0,
                ;
                assert(q < usize::MAX) by (nonlinear_arith)
                    requires
                        q * chunk_size <= n,
                        chunk_size >= 1,
                        n <= usize::MAX,
                        n % chunk_size > 0,
                        n == chunk_size * q + n % chunk_size,
                ;
            }
            q + 1
        };
        Chunky { lender, chunk_size, len }
    }
}

impl<L> Chunky<L> {
    /// Returns the inner lender.
    pub fn into_inner(self) -> (r: L)
        ensures
            r == self.lender,
    {
        self.lender
    }

    /// Returns the inner lender and the chunk size.
    pub fn into_parts(self) -> (r: (L, usize))
        ensures
            r == (self.lender, self.chunk_size),
    {
        (self.lender, self.chunk_size)
    }

    /// The number of chunks still to hand out, exactly.
    pub fn size_hint(&self) -> (r: (usize, Option<usize>))
        ensures
            r == (self.len, Some(self.len)),
    {
        (self.len, Some(self.len))
    }

    /// The number of chunks still to hand out.
    pub fn count(self) -> (r: usize)
        ensures
            r == self.len,
    {
        self.len
    }

    /// Hands out the next chunk, which borrows the lender; the lender then
    /// stands where the caller leaves the chunk.
    pub fn next(&mut self) -> (r: Option<Chunk<'_, L>>)
        ensures
            final(self).chunk_size == old(self).chunk_size,
            old(self).len == 0 ==> r is None && final(self).lender == old(self).lender && final(self).len == 0,
            old(self).len > 0 ==> (r matches Some(c) && *c.lender == old(self).lender && c.len
                == old(self).chunk_size && final(self).lender == *final(c.lender)),
            old(self).len > 0 ==> final(self).len == old(self).len - 1,
    {
        if self.len > 0 {
            self.len = self.len - 1;
            Some(Chunk::new(&mut self.lender, self.chunk_size))
        } else {
            None
        }
    }

    /// Folds `f` over the chunks still to hand out until it breaks, handing
    /// each chunk to `f`, which may take as many of its lends as it likes: the
    /// next chunk starts where `f` left the lender. `ls` lists the lender as
    /// each chunk found it and as the last call of `f` left it.
    pub fn try_fold<B, R, F>(&mut self, init: B, f: F) -> (r: ControlFlow<R, B>)
        where F: for<'c> FnMut(B, Chunk<'c, L>) -> ControlFlow<R, B>,
        requires
            forall|b: B, c: Chunk<'_, L>| call_requires(f, (b, c)),
        ensures
            final(self).chunk_size == old(self).chunk_size,
            exists|ls: Seq<L>, accs: Seq<B>| {
                &&& ls.len() == accs.len()
                &&& 1 <= accs.len() <= old(self).len + 1
                &&& ls[0] == old(self).lender
                &&& accs[0] == init
                &&& forall|i: int| 0 <= i < accs.len() - 1 ==> exists|c: Chunk<'_, L>|
                    *c.lender == #[trigger] ls[i] && *final(c.lender) == ls[i + 1] && c.len == old(self).chunk_size
                    && call_ensures(f, (accs[i], c), ControlFlow::<R, B>::Continue(accs[i + 1]))
                &&& {
                    let k = accs.len() - 1;
                    ||| k == old(self).len && r == ControlFlow::<R, B>::Continue(accs.last()) && final(self).lender == ls.last()
                        && final(self).len == 0
                    ||| k < old(self).len && r is Break && final(self).len == old(self).len - k - 1 && exists|c: Chunk<'_, L>|
                        *c.lender == ls.last() && *final(c.lender) == final(self).lender && c.len == old(self).chunk_size
                        && call_ensures(f, (accs.last(), c), r)
                }
            },
    {
        let mut acc = init;
        let mut g = f;
        let sz = self.chunk_size;
        let ghost mut ls: Seq<L> = seq![self.lender];
        let ghost mut accs: Seq<B> = seq![init];
        while self.len > 0
            invariant
                g == f,
                forall|b: B, c: Chunk<'_, L>| call_requires(f, (b, c)),
                sz == self.chunk_size,
                self.chunk_size == old(self).chunk_size,
                ls.len() == accs.len(),
                1 <= accs.len(),
                self.len + accs.len() - 1 == old(self).len,
                ls[0] == old(self).lender,
                accs[0] == init,
                self.lender == ls.last(),
                acc == accs.last(),
                forall|i: int| 0 <= i < accs.len() - 1 ==> exists|c: Chunk<'_, L>|
                    *c.lender == #[trigger] ls[i] && *final(c.lender) == ls[i + 1] && c.len == sz
                    && call_ensures(f, (accs[i], c), ControlFlow::<R, B>::Continue(accs[i + 1])),
            decreases self.len,
        {
            self.len = self.len - 1;
            let c = Chunk::new(&mut self.lender, sz);
            let ghost gc = c;
            let res = g(acc, c);
            proof {
                assert(self.lender == *final(gc.lender));
            }
            match res {
                ControlFlow::Break(x) => {
                    let r = ControlFlow::Break(x);
                    proof {
                        assert(call_ensures(f, (accs.last(), gc), r));
                    }
                    return r;
                },
                ControlFlow::Continue(x) => {
                    proof {
                        let ls2 = ls.push(self.lender);
                        let accs2 = accs.push(x);
                        assert forall|i: int| 0 <= i < accs2.len() - 1 implies exists|c: Chunk<'_, L>|
                            *c.lender == #[trigger] ls2[i] && *final(c.lender) == ls2[i + 1] && c.len == sz
                            && call_ensures(f, (accs2[i], c), ControlFlow::<R, B>::Continue(accs2[i + 1])) by {
                            if i < accs.len() - 1 {
                                assert(ls2[i] == ls[i] && ls2[i + 1] == ls[i + 1] && accs2[i] == accs[i] && accs2[i + 1] == accs[i + 1]);
                            } else {
                                assert(*gc.lender == ls2[i]);
                            }
                        }
                        ls = ls2;
                        accs = accs2;
                    }
                    acc = x;
                },
            }
        }
        ControlFlow::Continue(acc)
    }

    /// Folds `f` over all the chunks still to hand out, handing each chunk to
    /// `f`, which may take as many of its lends as it likes: the next chunk
    /// starts where `f` left the lender.
    pub fn fold<B, F>(self, init: B, f: F) -> (r: B)
        where F: for<'c> FnMut(B, Chunk<'c, L>) -> B,
        requires
            forall|b: B, c: Chunk<'_, L>| call_requires(f, (b, c)),
        ensures
            exists|ls: Seq<L>, accs: Seq<B>| {
                &&& ls.len() == accs.len()
                &&& accs.len() == self.len + 1
                &&& ls[0] == self.lender
                &&& accs[0] == init
                &&& r == accs.last()
                &&& forall|i: int| 0 <= i < accs.len() - 1 ==> exists|c: Chunk<'_, L>|
                    *c.lender == #[trigger] ls[i] && *final(c.lender) == ls[i + 1] && c.len == self.chunk_size
                    && call_ensures(f, (accs[i], c), accs[i + 1])
            },
    {
        let mut this = self;
        let mut acc = init;
        let mut g = f;
        let sz = this.chunk_size;
        let ghost mut ls: Seq<L> = seq![this.lender];
        let ghost mut accs: Seq<B> = seq![init];
        while this.len > 0
            invariant
                g == f,
                forall|b: B, c: Chunk<'_, L>| call_requires(f, (b, c)),
                sz == this.chunk_size,
                this.chunk_size == self.chunk_size,
                ls.len() == accs.len(),
                1 <= accs.len(),
                this.len + accs.len() - 1 == self.len,
                ls[0] == self.lender,
                accs[0] == init,
                this.lender == ls.last(),
                acc == accs.last(),
                forall|i: int| 0 <= i < accs.len() - 1 ==> exists|c: Chunk<'_, L>|
                    *c.lender == #[trigger] ls[i] && *final(c.lender) == ls[i + 1] && c.len == sz
                    && call_ensures(f, (accs[i], c), accs[i + 1]),
            decreases this.len,
        {
            this.len = this.len - 1;
            let c = Chunk::new(&mut this.lender, sz);
            let ghost gc = c;
            let x = g(acc, c);
            proof {
                assert(this.lender == *final(gc.lender));
                let ls2 = ls.push(this.lender);
                let accs2 = accs.push(x);
                assert forall|i: int| 0 <= i < accs2.len() - 1 implies exists|c: Chunk<'_, L>|
                    *c.lender == #[trigger] ls2[i] && *final(c.lender) == ls2[i + 1] && c.len == sz
                    && call_ensures(f, (accs2[i], c), accs2[i + 1]) by {
                    if i < accs.len() - 1 {
                        assert(ls2[i] == ls[i] && ls2[i + 1] == ls[i + 1] && accs2[i] == accs[i] && accs2[i + 1] == accs[i + 1]);
                    } else {
                        assert(*gc.lender == ls2[i]);
                    }
                }
                ls = ls2;
                accs = accs2;
            }
            acc = x;
        }
        acc
    }
}

impl<L: Lender> Chunky<L> {
    /// Skips `n` chunks, each of `chunk_size` lends, and hands out the chunk
    /// after them; when fewer than `n + 1` chunks are left, drains what the
    /// chunks left cover and hands out `None`.
    pub fn nth(&mut self, n: usize) -> (r: Option<Chunk<'_, L>>)
        requires
            old(self).lender.wf(),
            n < old(self).len ==> n * old(self).chunk_size <= old(self).lender.lends().len(),
            n < old(self).len ==> n * old(self).chunk_size <= usize::MAX,
            n >= old(self).len ==> old(self).len * old(self).chunk_size <= usize::MAX,
        ensures
            final(self).chunk_size == old(self).chunk_size,
            n < old(self).len ==> (r matches Some(c) && (*c.lender).lends() == old(self).lender.lends().skip(
                n * old(self).chunk_size,
            ) && (*c.lender).wf() && c.len == old(self).chunk_size && final(self).lender == *final(c.lender)),
            n < old(self).len ==> final(self).len == old(self).len - n - 1,
            n >= old(self).len ==> r is None && final(self).len == 0 && final(self).lender.wf()
                && final(self).lender.lends() == suffix(
                old(self).lender.lends(),
                (old(self).len * old(self).chunk_size) as nat,
            ),
    {
        if n < self.len {
            let skip = n * self.chunk_size;
            self.len = self.len - n;
            let _ = self.lender.advance_by(skip);
            self.len = self.len - 1;
            Some(Chunk::new(&mut self.lender, self.chunk_size))
        } else {
            let ghost s = self.lender.lends();
            if self.len > 0 {
                let skip = self.len * self.chunk_size;
                let _ = self.lender.advance_by(skip);
                proof {
                    if skip as nat <= s.len() {
                        assert(self.lender.lends() =~= suffix(s, skip as nat));
                    }
                }
                self.len = 0;
            } else {
                assert(self.len * self.chunk_size == 0) by (nonlinear_arith)
                    requires
                        self.len == 0,
                ;
                assert(s.skip(0) =~= s);
                assert(suffix(s, 0) =~= s);
            }
            None
        }
    }
}


impl<L: FallibleLender> Chunky<L> {
    /// Hands out the next chunk of a fallible lender, which borrows it; the
    /// lender then stands where the caller leaves the chunk. It never fails:
    /// errors come out of the chunk.
    pub fn fallible_next(&mut self) -> (r: Result<Option<Chunk<'_, L>>, L::Error>)
        ensures
            final(self).chunk_size == old(self).chunk_size,
            old(self).len == 0 ==> (r matches Ok(None) && final(self).lender == old(self).lender && final(self).len == 0),
            old(self).len > 0 ==> (r matches Ok(Some(c)) && *c.lender == old(self).lender && c.len
                == old(self).chunk_size && final(self).lender == *final(c.lender)),
            old(self).len > 0 ==> final(self).len == old(self).len - 1,
    {
        if self.len > 0 {
            self.len = self.len - 1;
            Ok(Some(Chunk::new(&mut self.lender, self.chunk_size)))
        } else {
            Ok(None)
        }
    }

    /// Skips `n` chunks of a fallible lender, each of `chunk_size` outcomes,
    /// and hands out the chunk after them; an error among the skipped
    /// outcomes is handed out at once (the `n` chunks are then counted as
    /// skipped); when fewer than `n + 1` chunks are left, skips what the
    /// chunks left cover and hands out `Ok(None)`, or an error met on the way,
    /// which leaves the count of chunks as it was.
    pub fn fallible_nth(&mut self, n: usize) -> (r: Result<Option<Chunk<'_, L>>, L::Error>)
        requires
            old(self).lender.wf(),
            n < old(self).len ==> n * old(self).chunk_size <= usize::MAX,
            n < old(self).len ==> n * old(self).chunk_size <= old(self).lender.outcomes().len() || (first_err(
                old(self).lender.outcomes(),
            ) < n * old(self).chunk_size && first_err(old(self).lender.outcomes()) < old(self).lender.outcomes().len()),
            n >= old(self).len ==> old(self).len * old(self).chunk_size <= usize::MAX,
        ensures
            final(self).chunk_size == old(self).chunk_size,
            n < old(self).len ==> {
                let s = old(self).lender.outcomes();
                let skip = (n * old(self).chunk_size) as nat;
                if first_err(s) < skip && first_err(s) < s.len() {
                    &&& r == Err::<Option<Chunk<'_, L>>, L::Error>(s[first_err(s) as int]->Err_0)
                    &&& final(self).lender.wf()
                    &&& final(self).lender.outcomes() == s.skip(first_err(s) + 1 as int)
                    &&& final(self).len == old(self).len - n
                } else {
                    &&& r matches Ok(Some(c))
                    &&& (*c.lender).wf()
                    &&& (*c.lender).outcomes() == s.skip(skip as int)
                    &&& c.len == old(self).chunk_size
                    &&& final(self).lender == *final(c.lender)
                    &&& final(self).len == old(self).len - n - 1
                }
            },
            n >= old(self).len ==> final(self).lender.wf() && {
                let s = old(self).lender.outcomes();
                let skip = (old(self).len * old(self).chunk_size) as nat;
                if first_err(s) < skip && first_err(s) < s.len() {
                    &&& r == Err::<Option<Chunk<'_, L>>, L::Error>(s[first_err(s) as int]->Err_0)
                    &&& final(self).lender.outcomes() == s.skip(first_err(s) + 1 as int)
                    &&& final(self).len == old(self).len
                } else {
                    &&& r matches Ok(None)
                    &&& final(self).lender.outcomes() == suffix(s, skip)
                    &&& final(self).len == 0
                }
            },
    {
        if n < self.len {
            let skip = n * self.chunk_size;
            self.len = self.len - n;
            match self.lender.advance_by(skip) {
                Err(e) => {
                    return Err(e);
                },
                Ok(_) => {},
            }
            self.len = self.len - 1;
            Ok(Some(Chunk::new(&mut self.lender, self.chunk_size)))
        } else {
            if self.len > 0 {
                let skip = self.len * self.chunk_size;
                let ghost s = self.lender.outcomes();
                match self.lender.advance_by(skip) {
                    Err(e) => {
                        return Err(e);
                    },
                    Ok(_) => {},
                }
                proof {
                    if skip as nat <= s.len() {
                        assert(self.lender.outcomes() =~= suffix(s, skip as nat));
                    }
                }
                self.len = 0;
            } else {
                let ghost s = self.lender.outcomes();
                assert(self.len * self.chunk_size == 0) by (nonlinear_arith)
                    requires
                        self.len == 0,
                ;
                assert(s.skip(0) =~= s);
                assert(suffix(s, 0) =~= s);
            }
            Ok(None)
        }
    }
}

} // verus!
