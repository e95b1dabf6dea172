//! A two-pass assembler for the Hack instruction set.
pub mod assembler;
pub mod config;
pub mod error;
pub mod normalize;
pub mod opcodes;
pub mod symbols;
pub mod text;

pub use assembler::parse;
pub use config::Config;
pub use error::AsmError;
pub use symbols::SymbolTable;
