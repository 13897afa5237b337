//! Lexical front end of the sled language: turns source text into positioned
//! tokens, or into a diagnostic that explains why it could not.

pub mod lexer;
pub mod rules;
pub mod token;

pub use lexer::{lex, lex_permissive, Diagnostic, Severity};
pub use rules::{classify, Outcome};
pub use token::{LexicalError, Token};
