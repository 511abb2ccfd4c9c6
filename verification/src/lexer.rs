//! The lexer: assembly source text to a flat sequence of tokens, one line
//! after another, each line that holds an instruction or a label ending in
//! `NEWLINE`.
use vstd::prelude::*;
use crate::text::{
    chars_eq, chars_to_string, find_char, find_whitespace, is_all_ascii_digits,
    parse_unsigned_chars, to_chars, trim_chars, trim_end_colons_chars,
};
use crate::text;

verus! {

/// A token of the assembly language.
#[derive(Debug, PartialEq, Clone)]
pub enum Token {
    CLS,
    RET,
    JP,
    CALL,
    SE,
    SNE,
    LD,
    ADD,
    SUB,
    SUBN,
    OR,
    AND,
    XOR,
    SHR,
    SKP,
    SKNP,
    DRW,
    RND,
    DB,
    NEWLINE,
    LABEL(String),
    IDENT(String),
    NUMBER(u16),
    REGISTER(u8),
    RegI,
    RegDT,
    RegST,
    KeyK,
    FontF,
    BCD,
    IndirectI,
}

/// The mathematical value of a [`Token`]: names are sequences of characters.
pub enum SpecToken {
    CLS,
    RET,
    JP,
    CALL,
    SE,
    SNE,
    LD,
    ADD,
    SUB,
    SUBN,
    OR,
    AND,
    XOR,
    SHR,
    SKP,
    SKNP,
    DRW,
    RND,
    DB,
    NEWLINE,
    LABEL(Seq<char>),
    IDENT(Seq<char>),
    NUMBER(u16),
    REGISTER(u8),
    RegI,
    RegDT,
    RegST,
    KeyK,
    FontF,
    BCD,
    IndirectI,
}

impl View for Token {
    type V = SpecToken;

    open spec fn view(&self) -> SpecToken {
        match self {
            Token::CLS => SpecToken::CLS,
            Token::RET => SpecToken::RET,
            Token::JP => SpecToken::JP,
            Token::CALL => SpecToken::CALL,
            Token::SE => SpecToken::SE,
            Token::SNE => SpecToken::SNE,
            Token::LD => SpecToken::LD,
            Token::ADD => SpecToken::ADD,
            Token::SUB => SpecToken::SUB,
            Token::SUBN => SpecToken::SUBN,
            Token::OR => SpecToken::OR,
            Token::AND => SpecToken::AND,
            Token::XOR => SpecToken::XOR,
            Token::SHR => SpecToken::SHR,
            Token::SKP => SpecToken::SKP,
            Token::SKNP => SpecToken::SKNP,
            Token::DRW => SpecToken::DRW,
            Token::RND => SpecToken::RND,
            Token::DB => SpecToken::DB,
            Token::NEWLINE => SpecToken::NEWLINE,
            Token::LABEL(s) => SpecToken::LABEL(s@),
            Token::IDENT(s) => SpecToken::IDENT(s@),
            Token::NUMBER(n) => SpecToken::NUMBER(*n),
            Token::REGISTER(n) => SpecToken::REGISTER(*n),
            Token::RegI => SpecToken::RegI,
            Token::RegDT => SpecToken::RegDT,
            Token::RegST => SpecToken::RegST,
            Token::KeyK => SpecToken::KeyK,
            Token::FontF => SpecToken::FontF,
            Token::BCD => SpecToken::BCD,
            Token::IndirectI => SpecToken::IndirectI,
        }
    }
}

/// The values of a sequence of tokens.
pub open spec fn tokens_view(v: Seq<Token>) -> Seq<SpecToken> {
    v.map_values(|t: Token| t@)
}

/// Why a source text cannot be lexed.
#[derive(Debug, PartialEq, Clone)]
pub enum LexError {
    /// A line starts with a word (the payload) that is no instruction.
    UnsupportedInstruction(String),
    /// An operand (the payload) is a malformed or out-of-range number or register.
    InvalidNumber(String),
}

/// The mathematical value of a [`LexError`].
pub enum SpecLexError {
    UnsupportedInstruction(Seq<char>),
    InvalidNumber(Seq<char>),
}

impl View for LexError {
    type V = SpecLexError;

    open spec fn view(&self) -> SpecLexError {
        match self {
            LexError::UnsupportedInstruction(s) => SpecLexError::UnsupportedInstruction(s@),
            LexError::InvalidNumber(s) => SpecLexError::InvalidNumber(s@),
        }
    }
}

/// `h` in front of the tokens of `r`, or the error of `r`.
pub open spec fn prepend(h: Seq<SpecToken>, r: Result<Seq<SpecToken>, SpecLexError>) -> Result<
    Seq<SpecToken>,
    SpecLexError,
> {
    match r {
        Ok(t) => Ok(h + t),
        Err(e) => Err(e),
    }
}

/// The instruction word of a line: everything before its first whitespace.
pub open spec fn instruct_of(line: Seq<char>) -> Seq<char> {
    line.take(text::index_of_ws(line) as int)
}

/// The token of an instruction word, if it names an instruction.
pub open spec fn mnemonic_spec(w: Seq<char>) -> Option<SpecToken> {
    if w == seq!['d', 'b'] {
        Some(SpecToken::DB)
    } else if w == seq!['C', 'L', 'S'] {
        Some(SpecToken::CLS)
    } else if w == seq!['R', 'E', 'T'] {
        Some(SpecToken::RET)
    } else if w == seq!['J', 'P'] {
        Some(SpecToken::JP)
    } else if w == seq!['C', 'A', 'L', 'L'] {
        Some(SpecToken::CALL)
    } else if w == seq!['S', 'E'] {
        Some(SpecToken::SE)
    } else if w == seq!['S', 'N', 'E'] {
        Some(SpecToken::SNE)
    } else if w == seq!['L', 'D'] {
        Some(SpecToken::LD)
    } else if w == seq!['A', 'D', 'D'] {
        Some(SpecToken::ADD)
    } else if w == seq!['S', 'U', 'B'] {
        Some(SpecToken::SUB)
    } else if w == seq!['S', 'U', 'B', 'N'] {
        Some(SpecToken::SUBN)
    } else if w == seq!['O', 'R'] {
        Some(SpecToken::OR)
    } else if w == seq!['A', 'N', 'D'] {
        Some(SpecToken::AND)
    } else if w == seq!['X', 'O', 'R'] {
        Some(SpecToken::XOR)
    } else if w == seq!['S', 'H', 'R'] {
        Some(SpecToken::SHR)
    } else if w == seq!['S', 'K', 'P'] {
        Some(SpecToken::SKP)
    } else if w == seq!['S', 'K', 'N', 'P'] {
        Some(SpecToken::SKNP)
    } else if w == seq!['D', 'R', 'W'] {
        Some(SpecToken::DRW)
    } else if w == seq!['R', 'N', 'D'] {
        Some(SpecToken::RND)
    } else {
        None
    }
}

/// The token of one operand, or `None` when the operand is a malformed
/// number or register: `0x` introduces a hexadecimal number, a run of
/// decimal digits a decimal one, `V` a hexadecimal register number, and
/// anything else that is not a keyword is an identifier.
pub open spec fn lex_operand_spec(s: Seq<char>) -> Option<SpecToken> {
    if s.len() == 1 && s[0] == 'I' {
        Some(SpecToken::RegI)
    } else if s.len() == 2 && s[0] == 'D' && s[1] == 'T' {
        Some(SpecToken::RegDT)
    } else if s.len() == 2 && s[0] == 'S' && s[1] == 'T' {
        Some(SpecToken::RegST)
    } else if s.len() == 1 && s[0] == 'K' {
        Some(SpecToken::KeyK)
    } else if s.len() == 1 && s[0] == 'F' {
        Some(SpecToken::FontF)
    } else if s.len() == 1 && s[0] == 'B' {
        Some(SpecToken::BCD)
    } else if s.len() == 3 && s[0] == '[' && s[1] == 'I' && s[2] == ']' {
        Some(SpecToken::IndirectI)
    } else if s.len() >= 2 && s[0] == '0' && s[1] == 'x' {
        match text::parse_unsigned(s.skip(2), 16, 0xFFFF) {
            Some(v) => Some(SpecToken::NUMBER(v as u16)),
            None => None,
        }
    } else if text::all_ascii_digits(s) {
        match text::parse_unsigned(s, 10, 0xFFFF) {
            Some(v) => Some(SpecToken::NUMBER(v as u16)),
            None => None,
        }
    } else if s.len() >= 1 && s[0] == 'V' {
        match text::parse_unsigned(s.skip(1), 16, 0xFF) {
            Some(v) => Some(SpecToken::REGISTER(v as u8)),
            None => None,
        }
    } else {
        Some(SpecToken::IDENT(s))
    }
}

/// The tokens of a comma-separated operand list; empty operands are skipped.
pub open spec fn lex_operands_spec(rest: Seq<char>) -> Result<Seq<SpecToken>, SpecLexError>
    decreases rest.len(),
{
    let k = text::index_of_char(rest, ',');
    let piece = text::trim(rest.take(k as int));
    let head: Result<Seq<SpecToken>, SpecLexError> = if piece.len() == 0 {
        Ok(Seq::empty())
    } else {
        match lex_operand_spec(piece) {
            Some(t) => Ok(seq![t]),
            None => Err(SpecLexError::InvalidNumber(piece)),
        }
    };
    match head {
        Err(e) => Err(e),
        Ok(h) => if k >= rest.len() {
            Ok(h)
        } else {
            proof {
                text::lemma_index_of_char_bound(rest, ',');
            }
            prepend(h, lex_operands_spec(rest.skip(k + 1 as int)))
        },
    }
}

/// The operand list of an instruction line: the text after the instruction
/// word, trimmed, up to a `;` comment, trimmed again.
pub open spec fn operand_text(line: Seq<char>) -> Seq<char> {
    let after = text::trim(line.skip(instruct_of(line).len() as int));
    let k = text::index_of_char(after, ';');
    if k < after.len() {
        text::trim(after.take(k as int))
    } else {
        after
    }
}

/// The tokens of one (trimmed) line. Blank lines and lines whose first word
/// starts with `;` give nothing; a first word ending in `:` is a label, and
/// the rest of its line is ignored; otherwise the first word is an
/// instruction, followed by operands up to a `;` comment.
pub open spec fn lex_line_spec(line: Seq<char>) -> Result<Seq<SpecToken>, SpecLexError> {
    let instruct = instruct_of(line);
    if line.len() == 0 {
        Ok(Seq::empty())
    } else if instruct.len() > 0 && instruct[0] == ';' {
        Ok(Seq::empty())
    } else if instruct.len() > 0 && instruct.last() == ':' {
        Ok(seq![SpecToken::LABEL(text::trim_end_colons(instruct)), SpecToken::NEWLINE])
    } else {
        match mnemonic_spec(instruct) {
            None => Err(SpecLexError::UnsupportedInstruction(instruct)),
            Some(m) => {
                match lex_operands_spec(operand_text(line)) {
                    Ok(ops) => Ok(seq![m] + ops + seq![SpecToken::NEWLINE]),
                    Err(e) => Err(e),
                }
            },
        }
    }
}

/// The tokens of a source text, line by line; the first line that cannot
/// be lexed decides the error.
pub open spec fn lex_spec(src: Seq<char>) -> Result<Seq<SpecToken>, SpecLexError>
    decreases src.len(),
{
    let k = text::index_of_char(src, '\n');
    match lex_line_spec(text::trim(src.take(k as int))) {
        Err(e) => Err(e),
        Ok(h) => if k >= src.len() {
            Ok(h)
        } else {
            proof {
                text::lemma_index_of_char_bound(src, '\n');
            }
            prepend(h, lex_spec(src.skip(k + 1 as int)))
        },
    }
}

/// `a`, then `b`, in front of `r`, is `a + b` in front of `r`.
pub proof fn lemma_prepend_assoc(
    a: Seq<SpecToken>,
    b: Seq<SpecToken>,
    r: Result<Seq<SpecToken>, SpecLexError>,
)
    ensures
        prepend(a, prepend(b, r)) == prepend(a + b, r),
{
    if let Ok(t) = r {
        assert(a + (b + t) =~= (a + b) + t);
    }
}

/// The instruction word of a line: everything before its first whitespace.
pub fn get_instruct(s: &[char]) -> (r: &[char])
    ensures
        r@ == instruct_of(s@),
{
    let index = find_whitespace(s);
    proof {
        text::lemma_index_of_ws_bound(s@);
    }
    if index < s.len() {
        assert(s@.subrange(0, index as int) =~= s@.take(index as int));
        &s[0..index]
    } else {
        assert(s@.take(s@.len() as int) =~= s@);
        s
    }
}

/// The token of an instruction word, if it names an instruction.
fn lex_mnemonic(w: &[char]) -> (r: Option<Token>)
    ensures
        r matches Some(t) ==> mnemonic_spec(w@) == Some(t@),
        r is None ==> mnemonic_spec(w@) is None,
{
    if chars_eq(w, &['d', 'b']) {
        Some(Token::DB)
    } else if chars_eq(w, &['C', 'L', 'S']) {
        Some(Token::CLS)
    } else if chars_eq(w, &['R', 'E', 'T']) {
        Some(Token::RET)
    } else if chars_eq(w, &['J', 'P']) {
        Some(Token::JP)
    } else if chars_eq(w, &['C', 'A', 'L', 'L']) {
        Some(Token::CALL)
    } else if chars_eq(w, &['S', 'E']) {
        Some(Token::SE)
    } else if chars_eq(w, &['S', 'N', 'E']) {
        Some(Token::SNE)
    } else if chars_eq(w, &['L', 'D']) {
        Some(Token::LD)
    } else if chars_eq(w, &['A', 'D', 'D']) {
        Some(Token::ADD)
    } else if chars_eq(w, &['S', 'U', 'B']) {
        Some(Token::SUB)
    } else if chars_eq(w, &['S', 'U', 'B', 'N']) {
        Some(Token::SUBN)
    } else if chars_eq(w, &['O', 'R']) {
        Some(Token::OR)
    } else if chars_eq(w, &['A', 'N', 'D']) {
        Some(Token::AND)
    } else if chars_eq(w, &['X', 'O', 'R']) {
        Some(Token::XOR)
    } else if chars_eq(w, &['S', 'H', 'R']) {
        Some(Token::SHR)
    } else if chars_eq(w, &['S', 'K', 'P']) {
        Some(Token::SKP)
    } else if chars_eq(w, &['S', 'K', 'N', 'P']) {
        Some(Token::SKNP)
    } else if chars_eq(w, &['D', 'R', 'W']) {
        Some(Token::DRW)
    } else if chars_eq(w, &['R', 'N', 'D']) {
        Some(Token::RND)
    } else {
        None
    }
}

/// The token of one operand; `None` when it is a malformed number or register.
fn lex_operand(s: &[char]) -> (r: Option<Token>)
    ensures
        r matches Some(t) ==> lex_operand_spec(s@) == Some(t@),
        r is None ==> lex_operand_spec(s@) is None,
{
    if s.len() == 1 && s[0] == 'I' {
        Some(Token::RegI)
    } else if s.len() == 2 && s[0] == 'D' && s[1] == 'T' {
        Some(Token::RegDT)
    } else if s.len() == 2 && s[0] == 'S' && s[1] == 'T' {
        Some(Token::RegST)
    } else if s.len() == 1 && s[0] == 'K' {
        Some(Token::KeyK)
    } else if s.len() == 1 && s[0] == 'F' {
        Some(Token::FontF)
    } else if s.len() == 1 && s[0] == 'B' {
        Some(Token::BCD)
    } else if s.len() == 3 && s[0] == '[' && s[1] == 'I' && s[2] == ']' {
        Some(Token::IndirectI)
    } else if s.len() >= 2 && s[0] == '0' && s[1] == 'x' {
        assert(s@.subrange(2, s@.len() as int) =~= s@.skip(2));
        match parse_unsigned_chars(&s[2..s.len()], 16, 0xFFFF) {
            Some(v) => Some(Token::NUMBER(v as u16)),
            None => None,
        }
    } else if is_all_ascii_digits(s) {
        match parse_unsigned_chars(s, 10, 0xFFFF) {
            Some(v) => Some(Token::NUMBER(v as u16)),
            None => None,
        }
    } else if s.len() >= 1 && s[0] == 'V' {
        assert(s@.subrange(1, s@.len() as int) =~= s@.skip(1));
        match parse_unsigned_chars(&s[1..s.len()], 16, 0xFF) {
            Some(v) => Some(Token::REGISTER(v as u8)),
            None => None,
        }
    } else {
        Some(Token::IDENT(chars_to_string(s)))
    }
}

/// Appends the tokens of a comma-separated operand list to `out`.
fn lex_operands(rest: &[char], out: &mut Vec<Token>) -> (r: Result<(), LexError>)
    ensures
        match lex_operands_spec(rest@) {
            Ok(h) => r is Ok && tokens_view(final(out)@) == tokens_view(old(out)@) + h,
            Err(e) => r matches Err(e2) && e2@ == e,
        },
{
    let ghost done: Seq<SpecToken> = Seq::empty();
    let mut pos: usize = 0;
    assert(rest@.skip(0) =~= rest@);
    assert(tokens_view(out@) =~= tokens_view(old(out)@) + done);
    loop
        invariant
            pos <= rest@.len(),
            tokens_view(out@) == tokens_view(old(out)@) + done,
            lex_operands_spec(rest@) == prepend(done, lex_operands_spec(rest@.skip(pos as int))),
        decreases rest@.len() - pos,
    {
        let tail = &rest[pos..rest.len()];
        assert(tail@ =~= rest@.skip(pos as int));
        let k = find_char(tail, ',');
        proof {
            text::lemma_index_of_char_bound(tail@, ',');
        }
        let raw = &tail[0..k];
        assert(raw@ =~= tail@.take(k as int));
        let piece = trim_chars(raw);
        let ghost h: Seq<SpecToken> = Seq::empty();
        if piece.len() > 0 {
            match lex_operand(piece) {
                None => {
                    return Err(LexError::InvalidNumber(chars_to_string(piece)));
                },
                Some(t) => {
                    out.push(t);
                    proof {
                        h = seq![t@];
                        assert(tokens_view(out@) =~= tokens_view(old(out)@) + done + h);
                    }
                },
            }
        }
        proof {
            lemma_prepend_assoc(done, h, lex_operands_spec(tail@.skip(k + 1 as int)));
            assert(tokens_view(old(out)@) + done + h =~= tokens_view(old(out)@) + (done + h));
            done = done + h;
        }
        if k == tail.len() {
            return Ok(());
        }
        assert(tail@.skip(k + 1 as int) =~= rest@.skip(pos + k + 1));
        pos = pos + k + 1;
    }
}

/// Appends the tokens of one trimmed line to `out`.
fn lex_line(line: &[char], out: &mut Vec<Token>) -> (r: Result<(), LexError>)
    ensures
        match lex_line_spec(line@) {
            Ok(h) => r is Ok && tokens_view(final(out)@) == tokens_view(old(out)@) + h,
            Err(e) => r matches Err(e2) && e2@ == e,
        },
{
    if line.len() == 0 {
        assert(tokens_view(out@) =~= tokens_view(old(out)@) + Seq::<SpecToken>::empty());
        return Ok(());
    }
    let instruct = get_instruct(line);
    proof {
        text::lemma_index_of_ws_bound(line@);
    }
    if instruct.len() > 0 && instruct[0] == ';' {
        assert(tokens_view(out@) =~= tokens_view(old(out)@) + Seq::<SpecToken>::empty());
        return Ok(());
    } else if instruct.len() > 0 && instruct[instruct.len() - 1] == ':' {
        out.push(Token::LABEL(chars_to_string(trim_end_colons_chars(instruct))));
        out.push(Token::NEWLINE);
        assert(tokens_view(out@) =~= tokens_view(old(out)@) + lex_line_spec(line@)->Ok_0);
        Ok(())
    } else {
        match lex_mnemonic(instruct) {
            None => {
                return Err(LexError::UnsupportedInstruction(chars_to_string(instruct)));
            },
            Some(t) => {
                out.push(t);
            },
        }
        let ghost after_mnemonic = out@;
        let after = &line[instruct.len()..line.len()];
        assert(after@ =~= line@.skip(instruct@.len() as int));
        let rest = trim_chars(after);
        let k = find_char(rest, ';');
        let operands = if k < rest.len() {
            let before_comment = &rest[0..k];
            assert(before_comment@ =~= rest@.take(k as int));
            trim_chars(before_comment)
        } else {
            rest
        };
        let ghost mid = tokens_view(out@);
        match lex_operands(operands, out) {
            Err(e) => {
                return Err(e);
            },
            Ok(()) => {},
        }
        let ghost ops = lex_operands_spec(operands@)->Ok_0;
        out.push(Token::NEWLINE);
        assert(tokens_view(out@) =~= mid + ops + seq![SpecToken::NEWLINE]);
        assert(tokens_view(out@) =~= tokens_view(old(out)@) + lex_line_spec(line@)->Ok_0);
        Ok(())
    }
}

/// Lexes a source text; fails on the first line that holds an unsupported
/// instruction or a malformed number.
pub fn try_lex_source(source: &str) -> (r: Result<Vec<Token>, LexError>)
    ensures
        match lex_spec(source@) {
            Ok(t) => r matches Ok(v) && tokens_view(v@) == t,
            Err(e) => r matches Err(e2) && e2@ == e,
        },
{
    let chars_vec = to_chars(source);
    let chars = chars_vec.as_slice();
    let mut out: Vec<Token> = Vec::new();
    let mut pos: usize = 0;
    assert(chars@.skip(0) =~= chars@);
    assert(tokens_view(out@) =~= Seq::<SpecToken>::empty());
    loop
        invariant
            chars@ == source@,
            pos <= chars@.len(),
            lex_spec(chars@) == prepend(tokens_view(out@), lex_spec(chars@.skip(pos as int))),
        decreases chars@.len() - pos,
    {
        let rest = &chars[pos..chars.len()];
        assert(rest@ =~= chars@.skip(pos as int));
        let k = find_char(rest, '\n');
        proof {
            text::lemma_index_of_char_bound(rest@, '\n');
        }
        let raw = &rest[0..k];
        assert(raw@ =~= rest@.take(k as int));
        let line = trim_chars(raw);
        let ghost before = tokens_view(out@);
        match lex_line(line, &mut out) {
            Err(e) => {
                return Err(e);
            },
            Ok(()) => {},
        }
        let ghost h = lex_line_spec(line@)->Ok_0;
        proof {
            lemma_prepend_assoc(before, h, lex_spec(rest@.skip(k + 1 as int)));
        }
        if k == rest.len() {
            return Ok(out);
        }
        assert(rest@.skip(k + 1 as int) =~= chars@.skip(pos + k + 1));
        pos = pos + k + 1;
    }
}

/// The tokens of a source text whose every line can be lexed.
pub fn lex_source(source: &str) -> (tokens: Vec<Token>)
    requires
        lex_spec(source@) is Ok,
    ensures
        lex_spec(source@) == Ok::<Seq<SpecToken>, SpecLexError>(tokens_view(tokens@)),
{
    match try_lex_source(source) {
        Ok(tokens) => tokens,
        Err(_) => {
            assert(false);
            Vec::new()
        },
    }
}

} // verus!
