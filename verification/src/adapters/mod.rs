//! Adapters that build a lender from another.
pub mod chain;
pub mod chunk;
pub mod chunky;
pub mod copied;
pub mod cycle;
pub mod enumerate;
pub mod filter;
pub mod filter_map;
pub mod flatten;
pub mod fuse;
pub mod inspect;
pub mod intersperse;
pub mod iter;
pub mod map;
pub mod map_while;
pub mod mutate;
pub mod peekable;
pub mod rev;
pub mod scan;
pub mod shunt;
pub mod skip;
pub mod skip_while;
pub mod step_by;
pub mod take;
pub mod take_while;
pub mod zip;

pub use chain::Chain;
pub use chunk::Chunk;
pub use chunky::{div_ceil, Chunky};
pub use copied::{Cloned, Copied, Owned};
pub use cycle::Cycle;
pub use enumerate::Enumerate;
pub use filter::Filter;
pub use filter_map::FilterMap;
pub use flatten::{FlatMap, Flatten};
pub use fuse::Fuse;
pub use inspect::Inspect;
pub use intersperse::{intersperse_size_hint, Intersperse, IntersperseWith};
pub use iter::{Iter, MapIntoIter};
pub use map::MapLend;
pub use map_while::MapWhile;
pub use mutate::Mutate;
pub use peekable::Peekable;
pub use rev::Rev;
pub use scan::Scan;
pub use shunt::{fallible_unzip, unzip, TryShunt};
pub use skip::Skip;
pub use skip_while::SkipWhile;
pub use step_by::StepBy;
pub use take::Take;
pub use take_while::TakeWhile;
pub use zip::{zip, Zip};
