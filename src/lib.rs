//! A reader for the Extended XYZ (extxyz) format of atomistic configurations:
//! an atom count, a `key=value` comment line whose values are typed (booleans,
//! integers, reals, strings, arrays and matrices), and one row per atom laid
//! out by the `Properties` descriptor. Every stage is a function of the input
//! bytes with a contract stated over the models in each module.

pub mod dict;
pub mod error;
pub mod info;
pub mod laws;
pub mod lexer;
pub mod properties;
pub mod read;
pub mod rows;
pub mod scalar;
pub mod shape;
pub mod value;

pub use dict::DictHandler;
pub use error::ParseError;
pub use read::{extxyz_read, extxyz_read_bytes};
pub use value::Value;
