//! `Chunk` over a fallible lender: at most `len` outcomes, taken from a
//! borrowed fallible lender.
use vstd::prelude::*;

use crate::adapters::chunk::Chunk;
use crate::fallible::{FallibleLend, FallibleLender, FallibleLending, FallibleSpecLend, FusedFallibleLender};
use crate::spec::{prefix, suffix};

verus! {

impl<'lend, 's, T: FallibleLender> FallibleLending<'lend> for Chunk<'s, T> {
    type Lend = FallibleLend<'lend, T>;
}

impl<'s, T: FallibleLender> FallibleLender for Chunk<'s, T> {
    type Error = T::Error;

    open spec fn wf(&self) -> bool {
        (*self.lender).wf()
    }

    open spec fn outcomes(&self) -> Seq<Result<FallibleSpecLend<T>, T::Error>> {
        prefix((*self.lender).outcomes(), self.len as nat)
    }

    fn next(&mut self) -> (r: Result<Option<FallibleLend<'_, T>>, T::Error>)
        ensures
            *final(final(self).lender) == *final(old(self).lender),
            final(self).len <= old(self).len,
            (*final(self).lender).outcomes() == suffix((*old(self).lender).outcomes(), (old(self).len - final(self).len) as nat),
    {
        if self.len == 0 {
            Ok(None)
        } else {
            proof {
                let s = (*self.lender).outcomes();
                if s.len() > 0 {
                    assert(prefix(s.drop_first(), (self.len - 1) as nat) == prefix(s, self.len as nat).drop_first());
                    assert(s.drop_first() =~= suffix(s, 1));
                }
            }
            self.len = self.len - 1;
            proof {
                let s = (*self.lender).outcomes();
                assert(s.len() == 0 ==> suffix(s, 1).len() == 0);
            }
            self.lender.next()
        }
    }

    open spec fn hint(&self) -> (usize, Option<usize>) {
        (
            if (*self.lender).hint().0 < self.len { (*self.lender).hint().0 } else { self.len },
            match (*self.lender).hint().1 {
                Some(x) => if x < self.len { Some(x) } else { Some(self.len) },
                None => Some(self.len),
            },
        )
    }

    fn size_hint(&self) -> (r: (usize, Option<usize>)) {
        let (lower, upper) = self.lender.size_hint();
        let lower = if lower < self.len {
            lower
        } else {
            self.len
        };
        let upper = match upper {
            Some(x) if x < self.len => Some(x),
            _ => Some(self.len),
        };
        (lower, upper)
    }
}

impl<'s, T: FusedFallibleLender> FusedFallibleLender for Chunk<'s, T> {}

} // verus!
