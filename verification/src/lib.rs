//! A small interpreter for a Lisp-like expression language.
//!
//! Input text is tokenized and parsed into a [`form::MalForm`] term
//! (see [`reader`]), evaluated against a chain of lexical scopes
//! (see [`env`] and [`eval`]), and rendered back to canonical text
//! (see [`printer`]).

pub mod env;
pub mod eval;
pub mod form;
pub mod laws;
pub mod printer;
pub mod reader;

pub use form::MalErr;
pub use form::MalForm;
