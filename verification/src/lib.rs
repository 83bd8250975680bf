//! A GDScript source formatter built around an external tree-rewriting
//! engine: the library parses the input with tree-sitter, normalises the
//! text before and after the main formatting pass (pattern rewrites that
//! never touch string literals, canonical blank lines between
//! declarations), and can verify that the whole pipeline left the
//! program's structure unchanged.

pub mod engine;
pub mod formatter;
pub mod frame;
pub mod point;
pub mod rewrite;
pub mod spacer;
pub mod tree;

pub use formatter::FormatterConfig;
