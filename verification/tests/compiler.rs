use chip8::ast::Instruction;
use chip8::compiler::{compile, try_compile, CompileError};
use chip8::lexer::{lex_source, Token};
use chip8::parser::build_ast;

fn assemble(src: &str) -> Vec<u8> {
    compile(build_ast(lex_source(src)))
}

fn instr(mnemonic: Token, operands: Vec<Token>) -> Instruction {
    Instruction { mnemonic, operands }
}

#[test]
fn encodes_each_supported_form() {
    assert_eq!(assemble("CLS"), vec![0x00, 0xE0]);
    assert_eq!(assemble("RET"), vec![0x00, 0xEE]);
    assert_eq!(assemble("db 0x1FF"), vec![0xFF]);
    assert_eq!(assemble("JP 0x234"), vec![0x12, 0x34]);
    assert_eq!(assemble("LD V5, 0x42"), vec![0x65, 0x42]);
    assert_eq!(assemble("LD I, 0x345"), vec![0xA3, 0x45]);
    assert_eq!(assemble("ADD V1, V2"), vec![0x81, 0x24]);
    assert_eq!(assemble("DRW V3, V4, 5"), vec![0xD3, 0x45]);
}

#[test]
fn labels_resolve_to_load_addresses() {
    let image = assemble("start:\nCLS\ndb 7\nnext:\nJP next\nJP start\nLD I, next\n");
    assert_eq!(image, vec![0x00, 0xE0, 0x07, 0x12, 0x03, 0x12, 0x00, 0xA2, 0x03]);
}

#[test]
fn forward_references_and_redefinitions() {
    // a label may be used before it is defined; the last definition counts
    let image = assemble("JP here\nhere:\nCLS\nhere:\nRET\n");
    assert_eq!(image, vec![0x12, 0x04, 0x00, 0xE0, 0x00, 0xEE]);
}

#[test]
fn encodings_truncate_as_the_opcode_fields_allow() {
    // addresses above 0xFFF spill into the opcode nibble, numbers into bytes
    assert_eq!(assemble("JP 0x1234"), vec![0x12 | 0x10, 0x34]);
    assert_eq!(assemble("LD V1, 0x1FF"), vec![0x61, 0xFF]);
    assert_eq!(assemble("ADD V1, V1F"), vec![0x81, 0xF4]);
}

#[test]
fn unknown_label_is_an_error() {
    let r = try_compile(&build_ast(lex_source("CLS\nJP nowhere\n")));
    assert_eq!(r, Err(CompileError::UnknownLabel(1)));
    let r = try_compile(&build_ast(lex_source("LD I, nowhere\n")));
    assert_eq!(r, Err(CompileError::UnknownLabel(0)));
}

#[test]
fn unhandled_instruction_is_an_error() {
    let r = try_compile(&build_ast(lex_source("CLS\nCALL 0x300\n")));
    assert_eq!(r, Err(CompileError::UnhandledInstruction(1)));
    let r = try_compile(&build_ast(lex_source("CLS V1\n")));
    assert_eq!(r, Err(CompileError::UnhandledInstruction(0)));
    let r = try_compile(&vec![instr(Token::NEWLINE, vec![])]);
    assert_eq!(r, Err(CompileError::UnhandledInstruction(0)));
    let r = try_compile(&vec![instr(Token::LD, vec![Token::REGISTER(1), Token::REGISTER(2)])]);
    assert_eq!(r, Err(CompileError::UnhandledInstruction(0)));
}

#[test]
fn program_too_large_is_an_error() {
    let mut instrs = Vec::new();
    for _ in 0..((0x10000 - 0x200) / 2) {
        instrs.push(instr(Token::CLS, vec![]));
    }
    assert_eq!(try_compile(&instrs), Err(CompileError::AddressOverflow));
    instrs.pop();
    instrs.push(instr(Token::DB, vec![Token::NUMBER(1)]));
    assert_eq!(try_compile(&instrs).map(|v| v.len()), Ok(0x10000 - 0x200 - 1));
}

#[test]
fn empty_program_assembles_to_nothing() {
    assert_eq!(assemble(""), Vec::<u8>::new());
    assert_eq!(assemble("only_a_label:"), Vec::<u8>::new());
}
