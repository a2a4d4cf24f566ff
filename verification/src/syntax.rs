//! THP source text split into tokens.

pub mod ast;
pub mod lexer;

pub use ast::{QualifiedName, UseDecl, UseKind};
pub use lexer::{lex, Diagnostic, LexOutput, Span, Token, TokenKind};
