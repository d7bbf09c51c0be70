//! `Chunk`: at most `len` lends, taken from a lender that is borrowed.
use vstd::prelude::*;

use core::ops::ControlFlow;

use crate::spec::{suffix, fold_ready, fold_trace, prefix, try_fold_ready, try_fold_trace};
use crate::traits::{FusedLender, Lend, Lender, Lending, SpecLend};

verus! {

/// A lender that hands out at most the next `len` lends of a lender that it
/// borrows mutably; the lender goes on from where the chunk stopped.
pub struct Chunk<'s, T> {
    pub lender: &'s mut T,
    pub len: usize,
}

impl<'s, T> Chunk<'s, T> {
    /// Takes at most the next `len` lends of `lender`.
    pub fn new(lender: &'s mut T, len: usize) -> (r: Chunk<'s, T>)
        ensures
            *r.lender == *old(lender),
            *final(r.lender) == *final(lender),
            r.len == len,
    {
        Chunk { lender, len }
    }

    /// Returns the borrowed lender.
    pub fn into_inner(self) -> (r: &'s mut T)
        ensures
            *r == *old(self.lender),
            *final(r) == *final(self.lender),
    {
        self.lender
    }

    /// Returns the borrowed lender and the number of lends still to take.
    pub fn into_parts(self) -> (r: (&'s mut T, usize))
        ensures
            *r.0 == *old(self.lender),
            *final(r.0) == *final(self.lender),
            r.1 == self.len,
    {
        (self.lender, self.len)
    }
}

impl<'lend, 's, T: Lender> Lending<'lend> for Chunk<'s, T> {
    type Lend = Lend<'lend, T>;
}

impl<'s, T: Lender> Lender for Chunk<'s, T> {
    open spec fn wf(&self) -> bool {
        (*self.lender).wf()
    }

    open spec fn lends(&self) -> Seq<SpecLend<T>> {
        prefix((*self.lender).lends(), self.len as nat)
    }

    fn next(&mut self) -> (r: Option<Lend<'_, Self>>)
        ensures
            *final(final(self).lender) == *final(old(self).lender),
            final(self).len <= old(self).len,
            (*final(self).lender).lends() == suffix((*old(self).lender).lends(), (old(self).len - final(self).len) as nat),
            final(self).len == if old(self).len == 0 { 0 } else { old(self).len - 1 },
    {
        if self.len == 0 {
            None
        } else {
            proof {
                let s = (*self.lender).lends();
                if s.len() > 0 {
                    assert(prefix(s.drop_first(), (self.len - 1) as nat) == prefix(s, self.len as nat).drop_first());
                }
            }
            self.len = self.len - 1;
            self.lender.next()
        }
    }

    open spec fn hint(&self) -> (usize, Option<usize>) {
        (
            if (*self.lender).hint().0 < self.len { (*self.lender).hint().0 } else { self.len },
            match (*self.lender).hint().1 {
                Some(x) => if x < self.len { Some(x) } else { Some(self.len) },
                None => Some(self.len),
            },
        )
    }

    fn size_hint(&self) -> (r: (usize, Option<usize>)) {
        let (lower, upper) = self.lender.size_hint();
        let lower = if lower < self.len {
            lower
        } else {
            self.len
        };
        let upper = match upper {
            Some(x) if x < self.len => Some(x),
            _ => Some(self.len),
        };
        (lower, upper)
    }

    fn count(self) -> (r: usize) {
        let ghost s = (*self.lender).lends();
        let mut this = self;
        let mut c: usize = 0;
        while this.len > 0
            invariant
                this.wf(),
                c + this.lends().len() == self.lends().len(),
                self.lends().len() <= usize::MAX,
            decreases this.len,
        {
            let ghost t = (*this.lender).lends();
            proof {
                if t.len() > 0 {
                    assert(prefix(t.drop_first(), (this.len - 1) as nat) == prefix(t, this.len as nat).drop_first());
                }
            }
            this.len = this.len - 1;
            match this.lender.next() {
                Some(_) => {
                    c = c + 1;
                },
                None => {
                    return c;
                },
            }
        }
        c
    }

    fn nth(&mut self, n: usize) -> (r: Option<Lend<'_, Self>>)
        ensures
            *final(final(self).lender) == *final(old(self).lender),
            final(self).len <= old(self).len,
            (*final(self).lender).lends() == suffix((*old(self).lender).lends(), (old(self).len - final(self).len) as nat),
            final(self).len == if n < old(self).len { old(self).len - n - 1 } else { 0 },
    {
        let ghost s = (*self.lender).lends();
        let ghost big = self.len;
        if n >= self.len {
            let _ = self.lender.advance_by(self.len);
            self.len = 0;
            None
        } else {
            self.len = self.len - (n + 1);
            proof {
                if n < s.len() {
                    assert(prefix(s.skip(n + 1), self.len as nat) == prefix(s, big as nat).skip(n + 1));
                }
            }
            self.lender.nth(n)
        }
    }

    fn try_fold<B, R, F>(&mut self, init: B, f: F) -> (r: ControlFlow<R, B>)
        where
            F: FnMut(B, Lend<'_, Self>) -> ControlFlow<R, B>,
        ensures
            *final(final(self).lender) == *final(old(self).lender),
            final(self).len <= old(self).len,
            (*final(self).lender).lends() == suffix((*old(self).lender).lends(), (old(self).len - final(self).len) as nat),
            r is Continue ==> final(self).len == 0 || (*final(self).lender).lends().len() == 0,
    {
        let ghost orig = self.lends();
        let ghost os = (*self.lender).lends();
        let mut acc = init;
        let mut g = f;
        let ghost mut accs: Seq<B> = seq![init];
        proof {
            assert(os.skip(0) =~= os);
        }
        while self.len > 0
            invariant
                self.wf(),
                orig == old(self).lends(),
                os == (*old(self).lender).lends(),
                *final(self.lender) == *final(old(self).lender),
                self.len <= old(self).len,
                (*self.lender).lends() == suffix(os, (old(self).len - self.len) as nat),
                g == f,
                try_fold_ready::<B, R, SpecLend<T>, F>(f),
                try_fold_trace(f, init, orig, accs),
                acc == accs.last(),
                self.lends() == orig.skip(accs.len() - 1),
            decreases self.len,
        {
            let ghost k = accs.len() - 1;
            let ghost t = (*self.lender).lends();
            let ghost d = (old(self).len - self.len) as nat;
            proof {
                if t.len() > 0 {
                    assert(prefix(t.drop_first(), (self.len - 1) as nat) == prefix(t, self.len as nat).drop_first());
                    assert(t.drop_first() =~= suffix(os, d + 1));
                } else {
                    assert(suffix(os, d + 1).len() == 0);
                }
            }
            self.len = self.len - 1;
            match self.lender.next() {
                Some(x) => {
                    proof {
                        assert(orig.skip(k)[0] == orig[k]);
                        assert(orig.skip(k).drop_first() == orig.skip(k + 1));
                    }
                    let c = g(acc, x);
                    let ghost c0 = c;
                    match c {
                        ControlFlow::Continue(b) => {
                            acc = b;
                            proof {
                                accs = accs.push(acc);
                            }
                        },
                        ControlFlow::Break(e) => {
                            let c = ControlFlow::Break(e);
                            proof {
                                assert(try_fold_trace(f, init, orig, accs));
                                assert(c == c0);
                            }
                            return c;
                        },
                    }
                },
                None => {
                    proof {
                        assert(orig.skip(k).len() == 0);
                    }
                    return ControlFlow::Continue(acc);
                },
            }
        }
        proof {
            assert(orig.skip(accs.len() - 1).len() == 0);
        }
        ControlFlow::Continue(acc)
    }

    fn fold<B, F>(self, init: B, f: F) -> (r: B)
        where
            F: FnMut(B, Lend<'_, Self>) -> B,
    {
        let ghost orig = self.lends();
        let mut this = self;
        let mut g = f;
        let mut acc = init;
        let ghost mut accs: Seq<B> = seq![init];
        while this.len > 0
            invariant
                g == f,
                this.wf(),
                orig == self.lends(),
                fold_ready::<B, SpecLend<T>, F>(f),
                accs.len() <= orig.len() + 1,
                fold_trace(f, init, orig.take(accs.len() - 1), accs),
                acc == accs.last(),
                this.lends() == orig.skip(accs.len() - 1),
            decreases this.len,
        {
            let ghost k = accs.len() - 1;
            let ghost t = (*this.lender).lends();
            proof {
                if t.len() > 0 {
                    assert(prefix(t.drop_first(), (this.len - 1) as nat) == prefix(t, this.len as nat).drop_first());
                }
            }
            this.len = this.len - 1;
            match this.lender.next() {
                Some(x) => {
                    proof {
                        assert(orig.skip(k)[0] == orig[k]);
                        assert(orig.skip(k).drop_first() == orig.skip(k + 1));
                    }
                    acc = g(acc, x);
                    proof {
                        accs = accs.push(acc);
                        assert(orig.take(k + 1).take(k) == orig.take(k));
                    }
                },
                None => {
                    proof {
                        assert(orig.skip(k).len() == 0);
                        assert(orig.take(k) == orig);
                    }
                    return acc;
                },
            }
        }
        proof {
            assert(orig.skip(accs.len() - 1).len() == 0);
            assert(orig.take(accs.len() - 1) == orig);
        }
        acc
    }
}

impl<'s, T: FusedLender> FusedLender for Chunk<'s, T> {}

} // verus!
