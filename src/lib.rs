//! POSIX-shell compatible quoting and unquoting of single tokens.
//!
//! [`quote`] turns any string into a token that a POSIX shell reads back as that
//! exact string; [`unquote`] decodes a token, honouring single quotes, double
//! quotes and backslash escapes, and reports where an unterminated quote opened.
//! Both are specified against mathematical models in [`model`], and the laws
//! relating them are proved in [`laws`].

mod cursor;
pub mod laws;
pub mod model;
pub mod quoting;
pub mod text;
pub mod unquoting;

pub use quoting::quote;
pub use unquoting::{unquote, UnquoteError};
