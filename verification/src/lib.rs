//! A template renderer: function calls, file includes and variables in text.
pub mod text;
pub mod value;
pub mod number;
pub mod pattern;
pub mod syntax;
pub mod literal;
pub mod splitter;
pub mod compiler;
pub mod arguments;
pub mod render;
pub mod engine;
pub mod names;
pub mod laws;
