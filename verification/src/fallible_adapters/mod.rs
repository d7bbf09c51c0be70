//! The adapters over fallible lenders, and those that turn a lender into a
//! fallible lender or back. Most adapters share their type with the
//! corresponding lender adapter; those that keep a peeked lend or a lender
//! being drained have a type of their own here.
pub mod chain;
pub mod chunk;
pub mod convert;
pub mod enumerate;
pub mod filter;
pub mod flatten;
pub mod fuse;
pub mod inspect;
pub mod intersperse;
pub mod into_fallible;
pub mod map;
pub mod map_err;
pub mod map_while;
pub mod non_fallible_adapter;
pub mod peekable;
pub mod rev;
pub mod skip;
pub mod take;
pub mod take_while;
pub mod zip;

pub use convert::Convert;
pub use flatten::FlatMap;
pub use flatten::FlatMap as FallibleFlatMap;
pub use flatten::Flatten as FallibleFlatten;
pub use intersperse::{Intersperse as FallibleIntersperse, IntersperseWith as FallibleIntersperseWith};
pub use into_fallible::IntoFallible;
pub use map_err::MapErr;
pub use non_fallible_adapter::NonFallibleAdapter;
pub use peekable::Peekable as FalliblePeekable;
