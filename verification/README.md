# lender

Lending iterators — lenders whose lends may borrow from the lender itself —
and the usual family of adapters, written in Verus and verified.

## Model

A lender is described by `lends()`, the finite sequence of lends it still has
to hand out; every method's contract says how a call changes that sequence
and what it hands out. A fallible lender is described by `outcomes()`, the
sequence of its steps, each a lend (`Ok`) or an error (`Err`). Folds are
specified by traces of accumulators, so closures need not be deterministic.

An adapter that holds a closure is described twice. As a `Lender`, its model
`lends()` applies the closure to the inner lender's lends, which is exact when
the closure always gives the same answer for the same argument (for `FlatMap`,
when the lenders made from equal lends hand out equal lends); each such adapter
has a `lemma_..._model` proof function that establishes this for a caller that
holds a concrete closure. Beside that, each one has inherent methods of the
same names (`next`, and `try_fold` or `fold` where the adapter folds on its
own) whose
contracts speak only of the calls made in that one call: which lends the inner
lender handed out, what the closure answered each time, and what came back.
These ask nothing of the closure beyond its own `requires`, so a counting
predicate or a closure that numbers its separators is covered. Method-call
syntax picks the inherent method; `Lender::next(&mut l)` picks the trait one.
The fallible adapters that share their struct with a plain one have that form
under the name `fallible_next`.

`Chunky` and `Cycle` stand beside the `Lender` trait: each chunk that
`Chunky` hands out borrows the underlying lender, and the next chunk starts
wherever the caller left it; `Cycle` never runs dry, so each of its calls is
described by the lender it currently drains and by the clone it starts over
from.

## Where this library differs, and what it leaves out

- `StepBy::nth` on a fresh adapter consumes the first lend like `next`
  does, so `nth(n)` is the `n`-th lend that `next` would hand out.
- `Intersperse::try_fold` keeps the lend that follows a separator on which
  the fold broke; the fallible `Intersperse::try_fold` puts separators
  between all lends, not only after the first.
- A fallible `Skip` uses its count up on the first call that reaches the
  lender, also when an error among the lends to skip stops that call
  (`advance_by` included); the outcomes model has one place for each error.
- A fallible `Skip` over a double-ended lender of known length has
  `len`, `next_back`, `nth_back`, `advance_back_by` and `try_rfold` of its own,
  described over the outcomes after the first `n` (`back_outcomes`): from the
  back, an error among the outcomes to skip is never reached, while from the
  front it is handed out. No one sequence of outcomes describes both ends, so
  it is not a `DoubleEndedFallibleLender`.
- `Chunky` is not a `Lender`: each chunk it hands out borrows the
  underlying lender, and where the caller leaves that borrow decides where the
  next chunk starts. Its `next`, `nth`, `try_fold` and `fold` (and, over a
  fallible lender, `fallible_new`, `fallible_next` and `fallible_nth`) say so
  through the lender each chunk finds and the one it is left as.
- `Mutate` and `Scan` are not `Lender`s: their closures act through a
  mutable borrow, and what such a call leaves behind is known only when the
  borrow ends, a value that only a contract (not a spec function) can name.
  They have `next`, `size_hint` and, over a fallible lender,
  `fallible_next` (`Mutate` also `next_back`, `try_fold`, `fold` and `len`),
  each saying, in its own contract, what each call of the closure it made
  gave and left.
- `Cycle` has no `try_fold`: when the fold never breaks and the lender is not
  empty it never returns, and every loop here has a measure that decreases.
- The fallible `Copied`, `Cloned`, `Owned`, `Iter` and `MapIntoIter` turn a
  fallible lender into a fallible iterator of the `fallible-iterator` crate,
  which this library does not depend on.
- The fallible `Zip` is not a `FallibleLender`: it can hand out `Ok(None)` and
  still meet an error or a lend later, so it has only a `next` of its own,
  described call by call.

## Layout

- `src/traits.rs`: `Lender`, `DoubleEndedLender`, `ExactSizeLender`,
  `FusedLender`, with verified default methods.
- `src/fallible.rs`: the fallible counterparts and their specifications.
- `src/spec.rs`: the sequence-level specifications and lemmas shared by all.
- `src/sources.rs`: lenders over a vector, a single value, or nothing.
- `src/adapters/`, `src/fallible_adapters/`: the adapters.
- `src/laws.rs`: properties relating several calls or several adapters.
- `tests/`: executable tests, one file per area.
