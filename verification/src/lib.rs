//! Value model and variable-binding environment of a small dynamically-typed
//! scripting language.
//!
//! The crate holds the runtime values ([`types::QType`]), the coercions between
//! their kinds, the operators over them, the codec that maps integer and string
//! keys onto the single key space of an object, and the two-tier environment
//! ([`interp::QInterp`]) that binds names to values.
//!
//! Every contract is stated over the mathematical view of a value,
//! [`types::Value`].
//!
//! A float is held by its IEEE 754 bit pattern. Its comparisons and its
//! conversions from and to integers are computed here on the pattern
//! ([`ieee`]). Its arithmetic, its parsing and its decimal text are left to the
//! caller: an operation whose result depends on them hands back the work that
//! is left ([`outcome::Outcome`]).
pub mod coerce;
pub mod ieee;
pub mod interp;
pub mod key;
pub mod laws;
pub mod ops;
pub mod outcome;
pub mod render;
pub mod text;
pub mod types;

pub use interp::QInterp;
pub use outcome::{FloatAnswer, FloatOp, FloatWork, Outcome};
pub use types::{QObject, QType};
