//! LINQ-style query operators over sequence producers.
//!
//! A [`Queryable`] hands out its elements one at a time. Every operator of
//! this crate wraps one or two producers and is a producer itself, so
//! operators stack freely. [`enumerable::Enumerable`] attaches all of them
//! to every producer as methods.
//!
//! # Models
//!
//! Each producer has a mathematical model: `remaining()`, the sequence of
//! elements it has yet to yield. `next` takes the head of that sequence.
//! Every operator states what the model of the producer it builds is, in
//! terms of the models of the producers it wraps: a filter yields the
//! filtered sequence, a concatenation the sum of two sequences, and so on.
//! The operators are lazy; the adapters say, of every call of `next`, what
//! it takes from the producers they wrap.
//!
//! # Closures
//!
//! An operator that takes a closure comes in two forms. `where_by(p)` speaks
//! of `p` through what the contract of `p` fixes;
//! `where_by_with_model(p, Ghost(m))` takes a description `m` of `p` from
//! the caller and speaks of `m` alone. The module [`model`] says more. A
//! caller that wants to know what a query yields on given elements uses the
//! second form, in a function that is generic over the closure:
//!
//! ```text
//! fn small_ones<P: Fn(&u32) -> bool>(v: Vec<u32>, p: P) -> (out: Vec<u32>)
//!     requires
//!         answers_all(p, |x: u32| x <= 5, v@),
//!     ensures
//!         out@ == v@.filter(|x: u32| x <= 5),
//! {
//!     QSource::from_vec(v).where_by_with_model(p, Ghost(|x: u32| x <= 5)).to_vec()
//! }
//! ```
//!
//! # Sources
//!
//! [`QSource`] is a producer over a buffer. [`QSource::from_vec`] makes one
//! of a vector, [`into_queryable`] of any iterator of the standard library.

pub mod average;
pub mod concate;
pub mod distinct;
pub mod enumerable;
pub mod expansion;
pub mod laws;
pub mod model;
pub mod order_by;
pub mod queryable;
pub mod reduce;
pub mod reverse;
pub mod select;
pub mod select_many;
pub mod skip;
pub mod skip_while;
pub mod sorting;
pub mod take;
pub mod take_while;
pub mod union;
pub mod where_by;
pub mod zip_from;

pub use average::Average;
pub use enumerable::Enumerable;
pub use queryable::into_queryable;
pub use queryable::DoubleEndedQueryable;
pub use queryable::QSource;
pub use queryable::Queryable;
