//! A compact, immutable dictionary ("kosha") for Sanskrit word forms.
//!
//! The library has two tightly coupled parts:
//!
//! * a record codec ([`packing`]) that maps the structured morphological
//!   record [`semantics::Pada`] to and from a flat packed form, losslessly;
//! * a sorted key-to-records store ([`kosha`]) built once, in key order,
//!   through the single-use [`kosha::Builder`], sealed into a
//!   self-describing byte form ([`disk`]), and read back through the
//!   immutable [`kosha::Kosha`].
//!
//! Keys and stem texts are strings over a fixed phonemic transliteration
//! alphabet, a subset of ASCII; keys are ordered byte-lexicographically.

pub mod disk;
pub mod errors;
pub mod kosha;
pub mod packing;
pub mod semantics;
pub mod text;
pub mod wire;

pub use errors::{DecodeError, KoshaError};
pub use kosha::{Builder, Kosha};
