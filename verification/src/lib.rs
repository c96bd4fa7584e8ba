//! Character-indexed operations on UTF-8 text.
//!
//! Positions are counted in Unicode scalar values instead of bytes. The
//! [`CharFns`] trait offers the three operations (length, split, replace) on
//! `str`; all of them rest on [`byte_index`], which maps a character offset to
//! the byte offset at which that character begins.
//!
//! The functions assume well-formed UTF-8, which `str` guarantees. No
//! validation or repair of malformed input takes place.

pub mod model;
pub mod locate;
pub mod ops;
pub mod laws;

pub use locate::{byte_index, starts_code_point};
pub use ops::CharFns;
