//! Shader programs composed from chunks, the bindings of a virtual gamepad,
//! and colours written in hexadecimal.
//!
//! A chunk is a named piece of shader source that may require other chunks
//! with lines of the form `#require <path>`. The source of a shading stage
//! is composed of a version line, the bodies of all the chunks that the
//! stage requires, directly or through other chunks, and the stage's own
//! body. A material has two stages, and a catalog holds the compiled
//! program of every material.
//!
//! - [`text`]: whitespace, trimming, prefixes.
//! - [`directive`]: the grammar of `#require` lines and the parser.
//! - [`tree`]: a read-only tree of text files.
//! - [`chunks`]: the chunk store, which finds, parses and keeps chunks.
//! - [`resolve`]: the chunks that a source requires, each once, in the
//!   order in which they are found.
//! - [`assemble`]: the source of one stage.
//! - [`program`]: the sources of a material, and the catalog of programs.
//! - [`error`]: the failures, and their diagnostics.
//! - [`input`]: buttons, sticks and what is bound to them.
//! - [`color`]: colours written in hexadecimal.
//!
//! Everything is proved against its contract but for these functions of
//! other libraries, whose contracts are taken on trust: `new`, `contains`,
//! `insert` and `iter` of `linked_hash_set::LinkedHashSet` (in
//! [`ordered_set`]), `String::push` (in [`text`]) and `Rc::clone` (in
//! [`program`]). The compiler of shader programs is an argument of the
//! caller's, and nothing is assumed of what it answers.

pub mod assemble;
pub mod chunks;
pub mod color;
pub mod directive;
pub mod error;
pub mod input;
pub mod ordered_set;
pub mod program;
pub mod resolve;
pub mod sequences;
pub mod text;
pub mod tree;

pub use crate::program::ProgramsCache;
