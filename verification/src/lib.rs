//! Nano language toolchain: lexer, parser, semantic checker, IR compiler and
//! optimizer, linter, native stack analysis, editor tooling and the small
//! runtime services, each verified against its contract.

pub mod text;
pub mod dtype;
pub mod backend;
pub mod syntax;
pub mod lexer;
pub mod parser;
pub mod semantic;
pub mod ir;
pub mod memory;
pub mod sync;
pub mod runtime;
pub mod builtins;
pub mod vm;
pub mod cli;
pub mod lsp;
pub mod fmt;
pub mod selfhost;
pub mod native;
pub mod codegen;
pub mod lint;
pub mod http;
