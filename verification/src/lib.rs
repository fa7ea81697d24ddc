//! A library for declaratively describing and parsing binary data formats.
//!
//! A user composes a tree of patterns (primitive numeric readers, sequence
//! and alternation combinators, variable-length arrays, contextual bindings)
//! and runs that tree against a byte buffer to obtain a structured value.
//! A small renderer encodes numeric trees back into bytes for round-trip
//! testing. Floating-point values are represented throughout by their
//! IEEE-754 binary64 bit patterns.

pub mod context;
pub mod data;
pub mod expr;
pub mod fbits;
pub mod laws;
pub mod num;
pub mod parser;
pub mod prelude;
pub mod render;
pub mod samples;
pub mod semantics;
pub mod text;

pub use context::Context;
pub use context::CtxView;
pub use context::Scope;
pub use data::data_eq;
pub use data::Data;
pub use data::DataView;
pub use expr::Expr;
pub use num::getint;
pub use num::sint;
pub use num::uint;
pub use parser::MapOp;
pub use parser::ParseError;
pub use parser::Pattern;
pub use render::render;
pub use render::Endian;
pub use render::Render;
pub use render::Renderable;
