//! The syntax tree of an assembly program: a sequence of instructions.
use vstd::prelude::*;
use crate::lexer::{SpecToken, Token};
use crate::lexer;

verus! {

/// One line of a program: an instruction word or a label, and its operands.
#[derive(Debug)]
pub struct Instruction {
    pub mnemonic: Token,
    pub operands: Vec<Token>,
}

/// The mathematical value of an [`Instruction`].
pub struct SpecInstruction {
    pub mnemonic: SpecToken,
    pub operands: Seq<SpecToken>,
}

impl View for Instruction {
    type V = SpecInstruction;

    open spec fn view(&self) -> SpecInstruction {
        SpecInstruction { mnemonic: self.mnemonic@, operands: lexer::tokens_view(self.operands@) }
    }
}

/// The values of a sequence of instructions.
pub open spec fn instructions_view(v: Seq<Instruction>) -> Seq<SpecInstruction> {
    v.map_values(|i: Instruction| i@)
}

} // verus!
