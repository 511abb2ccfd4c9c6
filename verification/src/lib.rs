//! A CHIP-8 toolchain: an assembler (lexer, parser, code generator) and an
//! interpreter for the CHIP-8 virtual machine, with their behaviour stated
//! in contracts over mathematical models and proved.

pub mod chip;
pub mod chip_laws;
pub mod text;
pub mod lexer;
pub mod ast;
pub mod parser;
pub mod compiler;
pub mod assembler_laws;
