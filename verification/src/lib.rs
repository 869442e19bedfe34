//! A runtime kind-checked configuration container.
//!
//! A [`Form`] holds a set of named parameters, each carrying a scalar value
//! (boolean, 64-bit integer, float, or string), a description, and a
//! frozen flag. Parameters are declared with defaults, after which their
//! values may be updated from typed maps, string maps, or `key=value`
//! argument lists; the declared kind of a parameter never changes, and a
//! frozen parameter's value can no longer be changed.

pub mod args;
pub mod assoc;
pub mod error;
pub mod form;
pub mod laws;
pub mod maps;
pub mod text;
pub mod value;

pub use crate::args::to_string_map_from_key_val_pairs;
pub use crate::args::to_string_map_from_key_val_pairs_allowing_duplicates;
pub use crate::args::to_string_map_from_key_val_pairs_general;
pub use crate::error::ConfigError;
pub use crate::form::Form;
pub use crate::form::Parameter;
pub use crate::maps::StringMap;
pub use crate::maps::ValueMap;
pub use crate::value::Value;
