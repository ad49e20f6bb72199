//! An insertion-ordered map with `String` keys; a JSON value carried as the
//! text that spelled it, with the walk that checks such a text is one value;
//! and the names of the declaration macros a derived type is described by.
//!
//! Every function here is verified against its contract. The laws the
//! map's operations keep together are stated and proved in [`laws`], and
//! those of the JSON walk in [`json::window`].

mod hash;
mod table;
mod map;
mod iter;
mod entry;
mod eq;
mod sort;
mod error;
pub mod json;
mod emit;
pub mod declare;
pub mod laws;

pub use hash::{hash_key, str_equal};
pub use table::{buckets_for, load_limit, LINEAR_MAX, MAX_INDEXED, MIN_BUCKETS};
pub use map::OrderedMap;
pub use entry::{Entry, OccupiedEntry, VacantEntry};
pub use error::{Error, ErrorCode};
pub use emit::{macro_name, no_keys, per_format, Format, Shape};
pub use sort::key_less;
pub use iter::{IntoIter, Iter, IterMut, Keys, Values, ValuesMut};
