//! A verified front end to the `poppy_filters` Bloom filters.
//!
//! The engine that sizes, hashes and stores the bits is `poppy_filters`. This
//! crate states what a caller may rely on and proves it: which construction
//! requests are accepted, which files are loaded, which bits a lookup reads and
//! an insertion writes, that no insertion makes a filter forget an entry, and
//! that a saved filter loads back as the filter that was saved.
//!
//! * `params` resolves construction requests.
//! * `file` is the layout of a saved filter, and decides which bytes are one.
//! * `image` is the layout in which the engine keeps a filter.
//! * `bits` and `membership` say, bit by bit, what a filter reports and what an
//!   insertion does.
//! * `engine` holds what is taken on trust of `poppy_filters`.
//! * `filter` is the filter itself: `BloomFilter` and the functions on it.
//! * `chain`, `scalable` and `record` are filters that grow by parts, and
//!   their saved form.
//! * `laws` states what follows from the contracts.
//!
//! Nothing here computes with floating point. A false-positive rate travels as
//! the IEEE-754 bit pattern of its double, a `u64`; the engine is sized by the
//! caller, who hands the sized filter to `BloomFilter::from_engine_for`; and
//! the number of entries is estimated by the caller from `count_set`.

pub mod bits;
pub mod chain;
pub mod engine;
pub mod error;
pub mod file;
pub mod filter;
pub mod image;
pub mod laws;
pub mod membership;
pub mod params;
pub mod record;
pub mod scalable;

pub use error::ExPoppyError;
pub use filter::{
    capacity, contains_str, count_set, data, fpp, insert_str, load_filter, save, version,
    BloomFilter,
};
pub use membership::FilterView;
pub use params::{new, with_params, with_version, Params, Variant};
pub use scalable::ScalableFilter;
