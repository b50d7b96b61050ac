/// Scanning source text into tokens.
pub mod tokenizer;
/// Recursive-descent parsing of tokens into syntax trees.
pub mod parser;
/// Generation of RISC-V stack-machine code from syntax trees.
pub mod generator;
/// The assembler text of the generated instructions.
pub mod assembly;
/// A model of the RISC-V machine that runs the generated code, and what the code computes.
pub mod machine;
