//! JSON: stepping over a value, and carrying one as the text that spelled it.

pub mod walk;
pub mod window;
mod raw;

pub use raw::{read_span, Raw};
