//! Core of a syntax-highlighter grammar engine: a set of Sublime-Text-style
//! syntax definitions is assembled into a linked, serializable grammar
//! database with stable context handles and file-identification lookups.

pub mod strutil;
pub mod scope;
pub mod syntax_definition;
pub mod regex;
pub mod linker;
pub mod syntax_set;
pub mod laws;
