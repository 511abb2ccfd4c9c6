use chip8::lexer::{get_instruct, lex_source, try_lex_source, LexError, Token};

fn chars(s: &str) -> Vec<char> {
    s.chars().collect()
}

#[test]
fn lexes_a_small_program() {
    let src = "CLS\nLD V0, 0x0A\nloop:\n  JP loop ; forever\n";
    let tokens = lex_source(src);
    assert_eq!(
        tokens,
        vec![
            Token::CLS,
            Token::NEWLINE,
            Token::LD,
            Token::REGISTER(0),
            Token::NUMBER(10),
            Token::NEWLINE,
            Token::LABEL("loop".to_string()),
            Token::NEWLINE,
            Token::JP,
            Token::IDENT("loop".to_string()),
            Token::NEWLINE,
        ]
    );
}

#[test]
fn comments_and_blank_lines_give_nothing() {
    let src = "\n   \n; a comment\n\t;another\n";
    assert_eq!(lex_source(src), Vec::<Token>::new());
    assert_eq!(lex_source(""), Vec::<Token>::new());
}

#[test]
fn label_drops_trailing_colons_and_rest_of_line() {
    let tokens = lex_source("start:: CLS");
    assert_eq!(tokens, vec![Token::LABEL("start".to_string()), Token::NEWLINE]);
    let tokens = lex_source(":");
    assert_eq!(tokens, vec![Token::LABEL(String::new()), Token::NEWLINE]);
}

#[test]
fn operand_keywords() {
    let tokens = lex_source("LD I, DT, ST, K, F, B, [I]");
    assert_eq!(
        tokens,
        vec![
            Token::LD,
            Token::RegI,
            Token::RegDT,
            Token::RegST,
            Token::KeyK,
            Token::FontF,
            Token::BCD,
            Token::IndirectI,
            Token::NEWLINE,
        ]
    );
}

#[test]
fn numbers_and_registers() {
    let tokens = lex_source("db 65535, 0xFFFF, 0xff, 0x+1f, VF, V0a, +5, x");
    assert_eq!(
        tokens,
        vec![
            Token::DB,
            Token::NUMBER(65535),
            Token::NUMBER(0xFFFF),
            Token::NUMBER(0xFF),
            Token::NUMBER(0x1F),
            Token::REGISTER(15),
            Token::REGISTER(10),
            Token::IDENT("+5".to_string()),
            Token::IDENT("x".to_string()),
            Token::NEWLINE,
        ]
    );
}

#[test]
fn empty_operands_are_skipped() {
    let tokens = lex_source("DRW V1,, V2 ,3,");
    assert_eq!(
        tokens,
        vec![Token::DRW, Token::REGISTER(1), Token::REGISTER(2), Token::NUMBER(3), Token::NEWLINE]
    );
}

#[test]
fn every_mnemonic_is_recognised() {
    let src = "db\nCLS\nRET\nJP\nCALL\nSE\nSNE\nLD\nADD\nSUB\nSUBN\nOR\nAND\nXOR\nSHR\nSKP\nSKNP\nDRW\nRND";
    let expected = [
        Token::DB,
        Token::CLS,
        Token::RET,
        Token::JP,
        Token::CALL,
        Token::SE,
        Token::SNE,
        Token::LD,
        Token::ADD,
        Token::SUB,
        Token::SUBN,
        Token::OR,
        Token::AND,
        Token::XOR,
        Token::SHR,
        Token::SKP,
        Token::SKNP,
        Token::DRW,
        Token::RND,
    ];
    let mut want = Vec::new();
    for t in expected.iter() {
        want.push(t.clone());
        want.push(Token::NEWLINE);
    }
    assert_eq!(lex_source(src), want);
}

#[test]
fn crlf_and_unicode_whitespace_are_trimmed() {
    let tokens = lex_source("\u{3000}CLS\r\nRET\u{00A0}\r\n");
    assert_eq!(tokens, vec![Token::CLS, Token::NEWLINE, Token::RET, Token::NEWLINE]);
}

#[test]
fn unsupported_instruction_is_an_error() {
    assert_eq!(
        try_lex_source("CLS\nFOO V1\n"),
        Err(LexError::UnsupportedInstruction("FOO".to_string()))
    );
    // mnemonics are case sensitive, and `db` is lower case
    assert_eq!(try_lex_source("cls"), Err(LexError::UnsupportedInstruction("cls".to_string())));
    assert_eq!(try_lex_source("DB 1"), Err(LexError::UnsupportedInstruction("DB".to_string())));
    // a comment must be separated from the instruction word
    assert_eq!(
        try_lex_source("CLS;x"),
        Err(LexError::UnsupportedInstruction("CLS;x".to_string()))
    );
}

#[test]
fn malformed_numbers_are_errors() {
    assert_eq!(try_lex_source("db 65536"), Err(LexError::InvalidNumber("65536".to_string())));
    assert_eq!(try_lex_source("db 0x10000"), Err(LexError::InvalidNumber("0x10000".to_string())));
    assert_eq!(try_lex_source("db 0x"), Err(LexError::InvalidNumber("0x".to_string())));
    assert_eq!(try_lex_source("db 0xG"), Err(LexError::InvalidNumber("0xG".to_string())));
    assert_eq!(try_lex_source("LD V100, 1"), Err(LexError::InvalidNumber("V100".to_string())));
    assert_eq!(try_lex_source("LD VX, 1"), Err(LexError::InvalidNumber("VX".to_string())));
    assert_eq!(try_lex_source("LD V, 1"), Err(LexError::InvalidNumber("V".to_string())));
    assert_eq!(try_lex_source("LD V+, 1"), Err(LexError::InvalidNumber("V+".to_string())));
}

#[test]
fn first_error_wins() {
    assert_eq!(
        try_lex_source("LD V0, 0xZZ\nBAD\n"),
        Err(LexError::InvalidNumber("0xZZ".to_string()))
    );
}

#[test]
fn get_instruct_takes_the_first_word() {
    let line = chars("LD V0, 1");
    assert_eq!(get_instruct(&line), &chars("LD")[..]);
    let word = chars("RET");
    assert_eq!(get_instruct(&word), &chars("RET")[..]);
    let tabbed = chars("JP\tloop");
    assert_eq!(get_instruct(&tabbed), &chars("JP")[..]);
}

#[test]
fn lexing_joined_sources_joins_the_tokens() {
    let a = "start:\nLD V1, 2 ; one";
    let b = "; two\nJP start\n";
    let joined = format!("{}\n{}", a, b);
    let mut expected = lex_source(a);
    expected.extend(lex_source(b));
    assert_eq!(lex_source(&joined), expected);
}
