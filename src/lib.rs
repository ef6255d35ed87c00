//! A scanner for a small JavaScript-like language: it turns source text into
//! tokens on demand, one `next_token` call at a time.
//!
//! `grammar` states, over the bytes of the source, what the scanner reads at
//! each position; `lexer` is the scanner, proved against it; `laws` holds
//! what follows for whole runs of the scanner.

pub mod token;
pub mod grammar;
pub mod lexer;
pub mod laws;

pub use token::{Decimal, Kind, KindView, LexError, Token, TokenView};
pub use lexer::{tokenize, Lexer};
