//! A C-style preprocessor for shader and similar source text.
//!
//! Given an input string, a set of initial symbol definitions, and a
//! pluggable file loader, `processor::process` produces a fully expanded
//! output string: `#include` directives are inlined, `#define`/`#undef`
//! update a symbol table, `#ifdef`/`#ifndef`/`#else`/`#endif` select
//! branches, and identifiers naming defined symbols are replaced by their
//! definitions with a bounded recursion depth.
//!
//! The pipeline has three stages, each a module of its own:
//! lexing (`lexer`), structural parsing (`parser`), and expansion
//! (`processor`). Every stage is specified by a spec-level model and the
//! executable code is verified against it.

pub mod chars;
pub mod error;
pub mod laws;
pub mod lexer;
pub mod loader;
pub mod parser;
pub mod processor;
pub mod table;

pub use lexer::tokenize;
