//! Front end and execution engine of a small bytecode language runtime:
//! a lexical scanner that turns source text into a token stream, and a
//! bytecode container plus stack-based virtual machine that executes a
//! compiled instruction sequence.

pub mod chunk;
pub mod disasm;
pub mod scanner;
pub mod token;
pub mod value;
pub mod vm;
