use chip8::ast::Instruction;
use chip8::lexer::{lex_source, Token};
use chip8::parser::build_ast;

fn flatten(instrs: &[Instruction]) -> Vec<Token> {
    let mut out = Vec::new();
    for i in instrs {
        out.push(i.mnemonic.clone());
        out.extend(i.operands.iter().cloned());
        out.push(Token::NEWLINE);
    }
    out
}

#[test]
fn groups_tokens_by_line() {
    let tokens = lex_source("start:\nLD V1, 2\nCLS\n");
    let instrs = build_ast(tokens);
    assert_eq!(instrs.len(), 3);
    assert_eq!(instrs[0].mnemonic, Token::LABEL("start".to_string()));
    assert!(instrs[0].operands.is_empty());
    assert_eq!(instrs[1].mnemonic, Token::LD);
    assert_eq!(instrs[1].operands, vec![Token::REGISTER(1), Token::NUMBER(2)]);
    assert_eq!(instrs[2].mnemonic, Token::CLS);
    assert!(instrs[2].operands.is_empty());
}

#[test]
fn parse_keeps_every_lexed_token() {
    let tokens = lex_source("a:\nDRW V0, V1, 5\n; c\nJP a\n");
    let instrs = build_ast(tokens.clone());
    assert_eq!(flatten(&instrs), tokens);
}

#[test]
fn unterminated_last_line_and_lone_newlines() {
    let instrs = build_ast(vec![Token::NEWLINE, Token::CLS, Token::NUMBER(1)]);
    assert_eq!(instrs.len(), 2);
    assert_eq!(instrs[0].mnemonic, Token::NEWLINE);
    assert!(instrs[0].operands.is_empty());
    assert_eq!(instrs[1].mnemonic, Token::CLS);
    assert_eq!(instrs[1].operands, vec![Token::NUMBER(1)]);
    assert!(build_ast(Vec::new()).is_empty());
}

#[test]
fn one_instruction_per_source_line() {
    let src = "  main:: CLS\n\n; note\nLD V1 ,  2 ; set\nJP main\n   \ndb 7";
    let instrs = build_ast(lex_source(src));
    assert_eq!(instrs.len(), 4);
    assert_eq!(instrs[0].mnemonic, Token::LABEL("main".to_string()));
    assert!(instrs[0].operands.is_empty());
    assert_eq!(instrs[1].mnemonic, Token::LD);
    assert_eq!(instrs[1].operands, vec![Token::REGISTER(1), Token::NUMBER(2)]);
    assert_eq!(instrs[2].mnemonic, Token::JP);
    assert_eq!(instrs[2].operands, vec![Token::IDENT("main".to_string())]);
    assert_eq!(instrs[3].mnemonic, Token::DB);
    assert_eq!(instrs[3].operands, vec![Token::NUMBER(7)]);
}
