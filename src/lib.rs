//! Compiler and tick simulator for a small notation of charge and block relations
//! between named nodes.
//!
//! Source text goes through the lexer, the normalizer that resolves line breaks, the parser and
//! the translator, and comes out as a [`Module`]; a [`Network`] then runs the module one tick
//! at a time.

pub mod compile;
pub mod inverter;
pub mod lex;
pub mod module;
pub mod network;
pub mod parse;
pub mod translate;

pub use compile::{compile, CompilationResult};
pub use inverter::Inverter;
pub use lex::{lex, LexerError, LexerErrorKind, SourcePosition, Token, TokenKind};
pub use module::{Module, ModuleBuilder, ModuleView, NodeConnections};
pub use network::{Network, NetworkView};
pub use parse::{parse, ParserError};
pub use translate::{translate, ConVec, Connection, IdentKind, Identifier, TranslationResult};
