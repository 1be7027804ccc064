//! A shell-script lexer: it scans raw command-line text and emits typed
//! tokens (words, operators, io-redirection numbers, newlines), handling
//! quoting, escaping, substitutions, comments and maximal-munch operator
//! recognition.
//!
//! The `scan` module states the scanning rules as specification functions;
//! the `lexer` module implements them and is verified against them; the
//! `laws` module proves the global properties of the token stream.

pub mod laws;
pub mod lexer;
pub mod scan;
