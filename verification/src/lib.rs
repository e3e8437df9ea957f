//! A two-pass assembler and execution engine for a small fixed-format
//! instruction set: token lines are stripped of comments, constants and
//! labels are resolved positionally, the result is decoded into typed
//! instruction records, and those run against a simulated register file,
//! word-addressed memory and a character-stream I/O port.

pub mod assembler;
pub mod isa;
pub mod laws;
pub mod machine;
pub mod symtab;
pub mod text;
