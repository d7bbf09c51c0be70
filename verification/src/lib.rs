//! Lending iterators: lenders whose lends may borrow from the lender itself,
//! together with the usual family of adapters, each verified against a model
//! in which a lender is described by the finite sequence of lends it still
//! has to hand out.
#![allow(unused_imports)]

pub mod spec;
pub mod traits;
pub mod fallible;
pub mod sources;
pub mod adapters;
pub mod fallible_adapters;
pub mod laws;
pub mod selection_laws;

pub use adapters::{
    fallible_unzip, intersperse_size_hint, unzip, zip, Chain, Chunk, Chunky, Cloned, Cycle, Copied, Enumerate, Filter, FilterMap,
    FlatMap, Flatten, Fuse, Inspect, Intersperse, IntersperseWith, Iter, MapIntoIter, MapLend, MapWhile, Mutate, Owned,
    Peekable, Rev, Scan, Skip, SkipWhile, StepBy, Take, TakeWhile, TryShunt, Zip,
};
pub use fallible::{
    DoubleEndedFallibleLender, ExactSizeFallibleLender, FallibleLend, FallibleLender, FallibleLending,
    FallibleSpecLend, FusedFallibleLender,
};
pub use fallible_adapters::{
    Convert, FallibleFlatMap, FallibleFlatten, FallibleIntersperse, FallibleIntersperseWith, FalliblePeekable,
    IntoFallible, MapErr, NonFallibleAdapter,
};
pub use sources::{empty, from_vec, lend_vec, once, Empty, FromVec, LendVec, Once};
pub use traits::{DoubleEndedLender, ExactSizeLender, FusedLender, Lend, Lender, Lending, SpecLend};
