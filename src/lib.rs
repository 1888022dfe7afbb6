//! Compiler and interpreter for the eight-symbol array-machine language:
//! source text is resolved into instructions, compacted by a peephole pass,
//! and executed against a fixed byte memory.

pub mod tokenizer;
pub mod vm;
