//! The code generator: instructions to the bytes of a CHIP-8 program image,
//! with labels resolved to the addresses at which the image is loaded.
use vstd::prelude::*;
use crate::ast::{Instruction, SpecInstruction};
use crate::ast;
use crate::lexer::{SpecToken, Token};

verus! {

/// Why a program cannot be assembled.
#[derive(Debug, PartialEq, Eq, Structural)]
pub enum CompileError {
    /// The program does not fit below address `0x10000`.
    AddressOverflow,
    /// The instruction at this index has a form that no opcode encodes.
    UnhandledInstruction(usize),
    /// The instruction at this index names a label that no line defines.
    UnknownLabel(usize),
}

/// Bytes that an instruction occupies: labels none, `db` one, opcodes two.
pub open spec fn instruction_size(m: SpecToken) -> nat {
    match m {
        SpecToken::LABEL(_) => 0,
        SpecToken::DB => 1,
        _ => 2,
    }
}

/// The address of instruction `k` when the program is loaded at `0x200`.
pub open spec fn address_of(instrs: Seq<SpecInstruction>, k: int) -> nat
    decreases k,
{
    if k <= 0 {
        0x200
    } else {
        address_of(instrs, k - 1) + instruction_size(instrs[k - 1].mnemonic)
    }
}

/// The labels defined by instructions `0..k`; a label defined twice keeps its
/// last address.
pub open spec fn labels_upto(instrs: Seq<SpecInstruction>, k: int) -> Map<Seq<char>, u16>
    decreases k,
{
    if k <= 0 {
        Map::empty()
    } else {
        let m = labels_upto(instrs, k - 1);
        match instrs[k - 1].mnemonic {
            SpecToken::LABEL(name) => m.insert(name, address_of(instrs, k - 1) as u16),
            _ => m,
        }
    }
}

/// The label table of a program.
pub open spec fn label_table(instrs: Seq<SpecInstruction>) -> Map<Seq<char>, u16> {
    labels_upto(instrs, instrs.len() as int)
}

/// An opcode whose high nibble is in `high` and whose low twelve bits are `addr`.
pub open spec fn address_opcode(high: u8, addr: u16) -> Seq<u8> {
    seq![high | ((addr >> 8u16) as u8), (addr & 0xFFu16) as u8]
}

/// The bytes of one instruction, or `None` when no opcode encodes its form or
/// it names an undefined label.
pub open spec fn encode_spec(i: SpecInstruction, labels: Map<Seq<char>, u16>) -> Option<Seq<u8>> {
    let ops = i.operands;
    match i.mnemonic {
        SpecToken::LABEL(_) => Some(Seq::empty()),
        SpecToken::DB => if ops.len() == 1 {
            match ops[0] {
                SpecToken::NUMBER(n) => Some(seq![n as u8]),
                _ => None,
            }
        } else {
            None
        },
        SpecToken::CLS => if ops.len() == 0 {
            Some(seq![0x00u8, 0xE0u8])
        } else {
            None
        },
        SpecToken::RET => if ops.len() == 0 {
            Some(seq![0x00u8, 0xEEu8])
        } else {
            None
        },
        SpecToken::JP => if ops.len() == 1 {
            match ops[0] {
                SpecToken::IDENT(l) => if labels.dom().contains(l) {
                    Some(address_opcode(0x10, labels[l]))
                } else {
                    None
                },
                SpecToken::NUMBER(a) => Some(address_opcode(0x10, a)),
                _ => None,
            }
        } else {
            None
        },
        SpecToken::LD => if ops.len() == 2 {
            match (ops[0], ops[1]) {
                (SpecToken::REGISTER(x), SpecToken::NUMBER(kk)) => Some(seq![0x60u8 | x, kk as u8]),
                (SpecToken::RegI, SpecToken::IDENT(l)) => if labels.dom().contains(l) {
                    Some(address_opcode(0xA0, labels[l]))
                } else {
                    None
                },
                (SpecToken::RegI, SpecToken::NUMBER(a)) => Some(address_opcode(0xA0, a)),
                _ => None,
            }
        } else {
            None
        },
        SpecToken::ADD => if ops.len() == 2 {
            match (ops[0], ops[1]) {
                (SpecToken::REGISTER(x), SpecToken::REGISTER(y)) => Some(
                    seq![0x80u8 | x, (y << 4u8) | 0x04u8],
                ),
                _ => None,
            }
        } else {
            None
        },
        SpecToken::DRW => if ops.len() == 3 {
            match (ops[0], ops[1], ops[2]) {
                (SpecToken::REGISTER(x), SpecToken::REGISTER(y), SpecToken::NUMBER(n)) => Some(
                    seq![0xD0u8 | x, (y << 4u8) | (n as u8)],
                ),
                _ => None,
            }
        } else {
            None
        },
        _ => None,
    }
}

/// The instruction has a form that takes a label, and the label is undefined.
pub open spec fn names_unknown_label(i: SpecInstruction, labels: Map<Seq<char>, u16>) -> bool {
    let ops = i.operands;
    match i.mnemonic {
        SpecToken::JP => ops.len() == 1 && (ops[0] matches SpecToken::IDENT(l) && !labels.dom().contains(l)),
        SpecToken::LD => ops.len() == 2 && ops[0] is RegI && (ops[1] matches SpecToken::IDENT(l)
            && !labels.dom().contains(l)),
        _ => false,
    }
}

/// The bytes of instructions `k..`, or the error of the first one that
/// cannot be encoded.
pub open spec fn encode_from(instrs: Seq<SpecInstruction>, labels: Map<Seq<char>, u16>, k: int) -> Result<
    Seq<u8>,
    CompileError,
>
    decreases instrs.len() - k,
{
    if k >= instrs.len() || k < 0 {
        Ok(Seq::empty())
    } else {
        match encode_spec(instrs[k], labels) {
            None => Err(
                if names_unknown_label(instrs[k], labels) {
                    CompileError::UnknownLabel(k as usize)
                } else {
                    CompileError::UnhandledInstruction(k as usize)
                },
            ),
            Some(b) => match encode_from(instrs, labels, k + 1) {
                Ok(rest) => Ok(b + rest),
                Err(e) => Err(e),
            },
        }
    }
}

/// The program image of `instrs`: the encodings of its instructions in
/// order, labels resolved through the label table.
pub open spec fn compile_spec(instrs: Seq<SpecInstruction>) -> Result<Seq<u8>, CompileError> {
    if address_of(instrs, instrs.len() as int) > 0xFFFF {
        Err(CompileError::AddressOverflow)
    } else {
        encode_from(instrs, label_table(instrs), 0)
    }
}

/// The map that a list of (name, address) definitions builds; later
/// definitions override earlier ones.
pub open spec fn entries_map(e: Seq<(String, u16)>) -> Map<Seq<char>, u16>
    decreases e.len(),
{
    if e.len() == 0 {
        Map::empty()
    } else {
        entries_map(e.drop_last()).insert(e.last().0@, e.last().1)
    }
}

/// Addresses only grow along the program.
pub proof fn lemma_address_monotone(instrs: Seq<SpecInstruction>, j: int, k: int)
    requires
        0 <= j <= k,
    ensures
        address_of(instrs, j) <= address_of(instrs, k),
    decreases k - j,
{
    if j < k {
        lemma_address_monotone(instrs, j, k - 1);
    }
}

/// The address of the last definition of `name`.
fn lookup_label(labels: &Vec<(String, u16)>, name: &String) -> (r: Option<u16>)
    ensures
        r is None <==> !entries_map(labels@).dom().contains(name@),
        r matches Some(a) ==> entries_map(labels@)[name@] == a,
{
    let mut j: usize = labels.len();
    assert(labels@.take(j as int) =~= labels@);
    while j > 0
        invariant
            j <= labels@.len(),
            entries_map(labels@).dom().contains(name@) == entries_map(labels@.take(
                j as int,
            )).dom().contains(name@),
            entries_map(labels@)[name@] == entries_map(labels@.take(j as int))[name@],
        decreases j,
    {
        let ghost prefix = labels@.take(j as int);
        assert(prefix.drop_last() =~= labels@.take(j - 1));
        assert(prefix.last() == labels@[j - 1]);
        if labels[j - 1].0 == *name {
            return Some(labels[j - 1].1);
        }
        j = j - 1;
    }
    assert(labels@.take(0) =~= Seq::<(String, u16)>::empty());
    None
}

/// Why one instruction cannot be encoded.
enum EncodeFailure {
    Unhandled,
    MissingLabel,
}

/// Pushes the two bytes of an opcode with high nibble `high` and address `addr`.
fn push_address_opcode(output: &mut Vec<u8>, high: u8, addr: u16)
    ensures
        final(output)@ == old(output)@ + address_opcode(high, addr),
{
    output.push(high | ((addr >> 8) as u8));
    output.push((addr & 0xFF) as u8);
    assert(output@ =~= old(output)@ + address_opcode(high, addr));
}

/// Appends the bytes of one instruction to `output`.
fn encode_instruction(
    instruction: &Instruction,
    labels: &Vec<(String, u16)>,
    output: &mut Vec<u8>,
) -> (r: Result<(), EncodeFailure>)
    ensures
        r is Ok ==> (encode_spec(instruction@, entries_map(labels@)) matches Some(b)
            && final(output)@ == old(output)@ + b),
        r matches Err(f) ==> encode_spec(instruction@, entries_map(labels@)) is None && ((
        f is MissingLabel) == names_unknown_label(instruction@, entries_map(labels@))),
{
    let ghost spec_ops = instruction@.operands;
    let ops = &instruction.operands;
    let len = ops.len();
    assert(spec_ops.len() == len);
    assert(forall|j: int| 0 <= j < len ==> spec_ops[j] == (#[trigger] ops@[j])@);
    match &instruction.mnemonic {
        Token::LABEL(_) => {
            // skip, already handled in first pass
            assert(output@ =~= old(output)@ + Seq::<u8>::empty());
            Ok(())
        },
        Token::DB => {
            if len == 1 {
                if let Token::NUMBER(n) = &ops[0] {
                    output.push(*n as u8);
                    assert(output@ =~= old(output)@ + seq![*n as u8]);
                    return Ok(());
                }
            }
            Err(EncodeFailure::Unhandled)
        },
        Token::CLS => {
            if len == 0 {
                output.push(0x00);
                output.push(0xE0);
                assert(output@ =~= old(output)@ + seq![0x00u8, 0xE0u8]);
                return Ok(());
            }
            Err(EncodeFailure::Unhandled)
        },
        Token::RET => {
            if len == 0 {
                output.push(0x00);
                output.push(0xEE);
                assert(output@ =~= old(output)@ + seq![0x00u8, 0xEEu8]);
                return Ok(());
            }
            Err(EncodeFailure::Unhandled)
        },
        Token::JP => {
            if len == 1 {
                match &ops[0] {
                    Token::IDENT(label) => {
                        return match lookup_label(labels, label) {
                            Some(addr) => {
                                push_address_opcode(output, 0x10, addr);
                                Ok(())
                            },
                            None => Err(EncodeFailure::MissingLabel),
                        };
                    },
                    Token::NUMBER(addr) => {
                        push_address_opcode(output, 0x10, *addr);
                        return Ok(());
                    },
                    _ => {},
                }
            }
            Err(EncodeFailure::Unhandled)
        },
        Token::LD => {
            if len == 2 {
                match (&ops[0], &ops[1]) {
                    (Token::REGISTER(x), Token::NUMBER(kk)) => {
                        output.push(0x60 | *x);
                        output.push(*kk as u8);
                        assert(output@ =~= old(output)@ + seq![0x60u8 | *x, *kk as u8]);
                        return Ok(());
                    },
                    (Token::RegI, Token::IDENT(label)) => {
                        return match lookup_label(labels, label) {
                            Some(addr) => {
                                push_address_opcode(output, 0xA0, addr);
                                Ok(())
                            },
                            None => Err(EncodeFailure::MissingLabel),
                        };
                    },
                    (Token::RegI, Token::NUMBER(addr)) => {
                        push_address_opcode(output, 0xA0, *addr);
                        return Ok(());
                    },
                    _ => {},
                }
            }
            Err(EncodeFailure::Unhandled)
        },
        Token::ADD => {
            if len == 2 {
                if let (Token::REGISTER(x), Token::REGISTER(y)) = (&ops[0], &ops[1]) {
                    output.push(0x80 | *x);
                    output.push((*y << 4) | 0x04);
                    assert(output@ =~= old(output)@ + seq![0x80u8 | *x, (*y << 4u8) | 0x04u8]);
                    return Ok(());
                }
            }
            Err(EncodeFailure::Unhandled)
        },
        Token::DRW => {
            if len == 3 {
                if let (Token::REGISTER(x), Token::REGISTER(y), Token::NUMBER(n)) = (
                    &ops[0],
                    &ops[1],
                    &ops[2],
                ) {
                    output.push(0xD0 | *x);
                    output.push((*y << 4) | (*n as u8));
                    assert(output@ =~= old(output)@ + seq![0xD0u8 | *x, (*y << 4u8) | (*n as u8)]);
                    return Ok(());
                }
            }
            Err(EncodeFailure::Unhandled)
        },
        _ => Err(EncodeFailure::Unhandled),
    }
}

/// Assembles a program: the image to load at `0x200`, or why there is none.
pub fn try_compile(instructions: &Vec<Instruction>) -> (r: Result<Vec<u8>, CompileError>)
    ensures
        match compile_spec(ast::instructions_view(instructions@)) {
            Ok(b) => r matches Ok(v) && v@ == b,
            Err(e) => r == Err::<Vec<u8>, CompileError>(e),
        },
{
    let ghost instrs = ast::instructions_view(instructions@);
    let n = instructions.len();
    let mut labels: Vec<(String, u16)> = Vec::new();
    // `address` is kept one wider than the address space, to find overflow.
    let mut address: u32 = 0x200;
    let mut k: usize = 0;
    while k < n
        invariant
            n == instructions@.len(),
            instrs == ast::instructions_view(instructions@),
            k <= n,
            address == address_of(instrs, k as int),
            address <= 0xFFFF,
            entries_map(labels@) == labels_upto(instrs, k as int),
        decreases n - k,
    {
        let instruction = &instructions[k];
        assert(instrs[k as int] == instruction@);
        match &instruction.mnemonic {
            Token::LABEL(name) => {
                // labels don't advance the address counter
                let ghost before = labels@;
                labels.push((name.clone(), address as u16));
                assert(labels@.drop_last() =~= before);
            },
            Token::DB => {
                address = address + 1;  // db is one byte
            },
            _ => {
                address = address + 2;  // all opcodes are two bytes
            },
        }
        k = k + 1;
        if address > 0xFFFF {
            proof {
                lemma_address_monotone(instrs, k as int, n as int);
            }
            return Err(CompileError::AddressOverflow);
        }
    }
    let mut output: Vec<u8> = Vec::new();
    let mut k: usize = 0;
    assert(output@ =~= Seq::<u8>::empty());
    while k < n
        invariant
            n == instructions@.len(),
            instrs == ast::instructions_view(instructions@),
            k <= n,
            entries_map(labels@) == label_table(instrs),
            address_of(instrs, n as int) <= 0xFFFF,
            encode_from(instrs, label_table(instrs), 0) == match encode_from(
                instrs,
                label_table(instrs),
                k as int,
            ) {
                Ok(rest) => Ok(output@ + rest),
                Err(e) => Err(e),
            },
        decreases n - k,
    {
        let instruction = &instructions[k];
        assert(instrs[k as int] == instruction@);
        let ghost before = output@;
        match encode_instruction(instruction, &labels, &mut output) {
            Ok(()) => {
                let ghost b = encode_spec(instrs[k as int], label_table(instrs))->Some_0;
                proof {
                    if let Ok(rest) = encode_from(instrs, label_table(instrs), k + 1) {
                        assert(before + (b + rest) =~= output@ + rest);
                    }
                }
            },
            Err(EncodeFailure::MissingLabel) => {
                return Err(CompileError::UnknownLabel(k));
            },
            Err(EncodeFailure::Unhandled) => {
                return Err(CompileError::UnhandledInstruction(k));
            },
        }
        k = k + 1;
    }
    assert(output@ + Seq::<u8>::empty() =~= output@);
    Ok(output)
}

/// Assembles a program that [`try_compile`] accepts.
pub fn compile(instructions: Vec<Instruction>) -> (output: Vec<u8>)
    requires
        compile_spec(ast::instructions_view(instructions@)) is Ok,
    ensures
        compile_spec(ast::instructions_view(instructions@)) == Ok::<Seq<u8>, CompileError>(
            output@,
        ),
{
    match try_compile(&instructions) {
        Ok(output) => output,
        Err(_) => {
            assert(false);
            Vec::new()
        },
    }
}

} // verus!
