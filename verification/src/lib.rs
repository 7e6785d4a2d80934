//! Flattens a nested configuration table into POSIX `export` lines.
//!
//! A parsed document is a tree of [`value::ConfigValue`] nodes.  The
//! flattener walks that tree and emits one [`flatten::Var`] per leaf; the
//! formatter renders each as `KEY=value; export KEY`, with the path segments
//! joined by `_` and upper-cased.

pub mod emit;
pub mod flatten;
pub mod parse;
pub mod render;
pub mod text;
pub mod value;

pub use crate::emit::format_posix;
pub use crate::emit::format_vars;
pub use crate::flatten::Var;
pub use crate::flatten::walk;
pub use crate::parse::ParseError;
pub use crate::parse::flatten_text;
pub use crate::render::ArrayValue;
pub use crate::value::ConfigValue;
pub use crate::value::Entry;
