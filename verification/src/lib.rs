//! THP compiler-support library: the lexer, stage metrics, module naming
//! and the module graph, the content-addressed cache, request-local runtime
//! values and the PHPT fixture engine.

pub mod metrics;
pub mod text;
pub mod fixture;
pub mod compare;
pub mod runner;
pub mod cli;
pub mod digest;
pub mod opcache;
pub mod runtime;
pub mod modules;
pub mod syntax;
pub mod lsp;
