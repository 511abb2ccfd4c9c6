//! Properties of the assembler that relate its stages: where instructions
//! and labels land in the program image, and what the lexer hands the parser.
use vstd::prelude::*;
use crate::ast::SpecInstruction;
use crate::chip::{self, Chip8State};
use crate::compiler;
use crate::lexer::SpecToken;
use crate::lexer;
use crate::parser;
use crate::text;

verus! {

/// Every encodable instruction occupies exactly its size in the image.
proof fn lemma_encoding_size(i: SpecInstruction, labels: Map<Seq<char>, u16>)
    requires
        compiler::encode_spec(i, labels) is Some,
    ensures
        compiler::encode_spec(i, labels)->Some_0.len() == compiler::instruction_size(i.mnemonic),
{
}

/// The bytes of instructions `k..` follow one another, each where the
/// address counter puts it.
proof fn lemma_encode_from_layout(
    instrs: Seq<SpecInstruction>,
    labels: Map<Seq<char>, u16>,
    k: int,
)
    requires
        0 <= k <= instrs.len(),
        compiler::encode_from(instrs, labels, k) is Ok,
    ensures
        ({
            let r = compiler::encode_from(instrs, labels, k)->Ok_0;
            let base = compiler::address_of(instrs, k);
            &&& r.len() == compiler::address_of(instrs, instrs.len() as int) - base
            &&& forall|j: int|
                k <= j < instrs.len() ==> compiler::encode_spec(#[trigger] instrs[j], labels) == Some(
                    r.subrange(
                        compiler::address_of(instrs, j) - base,
                        compiler::address_of(instrs, j + 1) - base,
                    ),
                )
        }),
    decreases instrs.len() - k,
{
    if k < instrs.len() {
        let b = compiler::encode_spec(instrs[k], labels)->Some_0;
        lemma_encoding_size(instrs[k], labels);
        lemma_encode_from_layout(instrs, labels, k + 1);
        let rest = compiler::encode_from(instrs, labels, k + 1)->Ok_0;
        let r = compiler::encode_from(instrs, labels, k)->Ok_0;
        assert(r == b + rest);
        let base = compiler::address_of(instrs, k);
        let next = compiler::address_of(instrs, k + 1);
        assert(next == base + b.len());
        assert(r.subrange(0, next - base) =~= b);
        assert forall|j: int| k + 1 <= j < instrs.len() implies compiler::encode_spec(
            #[trigger] instrs[j],
            labels,
        ) == Some(
            r.subrange(
                compiler::address_of(instrs, j) - base,
                compiler::address_of(instrs, j + 1) - base,
            ),
        ) by {
            compiler::lemma_address_monotone(instrs, k + 1, j);
            compiler::lemma_address_monotone(instrs, j, j + 1);
            compiler::lemma_address_monotone(instrs, j + 1, instrs.len() as int);
            assert(r.subrange(
                compiler::address_of(instrs, j) - base,
                compiler::address_of(instrs, j + 1) - base,
            ) =~= rest.subrange(
                compiler::address_of(instrs, j) - next,
                compiler::address_of(instrs, j + 1) - next,
            ));
        }
    }
}

/// The image of an assembled program: it is as long as the program's
/// instructions are big (labels take no room, `db` one byte, every opcode
/// two), and instruction `j` is encoded at its address minus `0x200`.
pub proof fn lemma_program_layout(instrs: Seq<SpecInstruction>)
    requires
        compiler::compile_spec(instrs) is Ok,
    ensures
        ({
            let image = compiler::compile_spec(instrs)->Ok_0;
            &&& image.len() + 0x200 == compiler::address_of(instrs, instrs.len() as int)
            &&& forall|j: int|
                0 <= j < instrs.len() ==> compiler::encode_spec(
                    #[trigger] instrs[j],
                    compiler::label_table(instrs),
                ) == Some(
                    image.subrange(
                        compiler::address_of(instrs, j) - 0x200,
                        compiler::address_of(instrs, j + 1) - 0x200,
                    ),
                )
        }),
{
    lemma_encode_from_layout(instrs, compiler::label_table(instrs), 0);
}

/// A label resolves to the address of the instruction after its last
/// definition: the address at which that definition stands.
pub proof fn lemma_label_address(instrs: Seq<SpecInstruction>, k: int, name: Seq<char>)
    requires
        0 <= k < instrs.len(),
        instrs[k].mnemonic == SpecToken::LABEL(name),
        forall|j: int| k < j < instrs.len() ==> #[trigger] instrs[j].mnemonic != SpecToken::LABEL(name),
    ensures
        compiler::label_table(instrs).dom().contains(name),
        compiler::label_table(instrs)[name] == compiler::address_of(instrs, k) as u16,
{
    lemma_label_kept(instrs, k, name, instrs.len() as int);
}

proof fn lemma_label_kept(instrs: Seq<SpecInstruction>, k: int, name: Seq<char>, m: int)
    requires
        0 <= k < m <= instrs.len(),
        instrs[k].mnemonic == SpecToken::LABEL(name),
        forall|j: int| k < j < instrs.len() ==> #[trigger] instrs[j].mnemonic != SpecToken::LABEL(name),
    ensures
        compiler::labels_upto(instrs, m).dom().contains(name),
        compiler::labels_upto(instrs, m)[name] == compiler::address_of(instrs, k) as u16,
    decreases m - k,
{
    if m > k + 1 {
        lemma_label_kept(instrs, k, name, m - 1);
        assert(instrs[m - 1].mnemonic != SpecToken::LABEL(name));
    }
}

/// A token stream made of whole lines: empty, or starting with a token that
/// is not `NEWLINE`, ending with `NEWLINE`, and never holding two `NEWLINE`s
/// in a row.
pub open spec fn lines_well_formed(t: Seq<SpecToken>) -> bool {
    t.len() == 0 || {
        &&& !(t[0] is NEWLINE)
        &&& t.last() is NEWLINE
        &&& forall|i: int, j: int|
            #![trigger t[i], t[j]]
            0 <= i && j == i + 1 && j < t.len() && t[i] is NEWLINE ==> !(t[j] is NEWLINE)
    }
}

/// The tokens that the instructions stand for, each closed by `NEWLINE`.
pub open spec fn flatten(instrs: Seq<SpecInstruction>) -> Seq<SpecToken>
    decreases instrs.len(),
{
    if instrs.len() == 0 {
        Seq::empty()
    } else {
        seq![instrs[0].mnemonic] + instrs[0].operands + seq![SpecToken::NEWLINE] + flatten(
            instrs.drop_first(),
        )
    }
}

proof fn lemma_index_of_newline_spec(s: Seq<SpecToken>)
    ensures
        parser::index_of_newline(s) <= s.len(),
        forall|j: int| 0 <= j < parser::index_of_newline(s) ==> !(#[trigger] s[j] is NEWLINE),
        parser::index_of_newline(s) < s.len() ==> s[parser::index_of_newline(s) as int] is NEWLINE,
    decreases s.len(),
{
    if s.len() > 0 && !(s[0] is NEWLINE) {
        lemma_index_of_newline_spec(s.drop_first());
        assert forall|j: int| 0 <= j < parser::index_of_newline(s) implies !(
        #[trigger] s[j] is NEWLINE) by {
            if j > 0 {
                assert(s[j] == s.drop_first()[j - 1]);
            }
        }
    }
}

/// Parsing a stream of whole lines keeps every token: each line becomes one
/// instruction, which stands for the same tokens.
pub proof fn lemma_parse_keeps_lines(t: Seq<SpecToken>)
    requires
        lines_well_formed(t),
    ensures
        flatten(parser::build_ast_spec(t)) == t,
    decreases t.len(),
{
    if t.len() > 0 {
        lemma_index_of_newline_spec(t);
        let k = parser::index_of_newline(t) as int;
        if k == t.len() {
            assert(t[t.len() - 1] is NEWLINE);
        }
        assert(k < t.len());
        assert(k >= 1);
        let rest = t.skip(k + 1);
        if rest.len() > 0 {
            assert(t[k + 1] == rest[0]);
            assert(!(rest[0] is NEWLINE));
            assert(rest.last() == t.last());
            assert forall|i: int, j: int|
                #![trigger rest[i], rest[j]]
                0 <= i && j == i + 1 && j < rest.len() && rest[i] is NEWLINE implies !(
                rest[j] is NEWLINE) by {
                assert(rest[i] == t[i + k + 1]);
                assert(rest[j] == t[j + k + 1]);
            }
        }
        lemma_parse_keeps_lines(rest);
        let b = parser::build_ast_spec(t);
        assert(b.drop_first() == parser::build_ast_spec(rest));
        assert(t =~= seq![t[0]] + t.subrange(1, k) + seq![SpecToken::NEWLINE] + rest);
    }
}

/// No operand lexes to `NEWLINE`.
proof fn lemma_operands_have_no_newline(rest: Seq<char>)
    requires
        lexer::lex_operands_spec(rest) is Ok,
    ensures
        parser::no_newline(lexer::lex_operands_spec(rest)->Ok_0),
    decreases rest.len(),
{
    let k = crate::text::index_of_char(rest, ',');
    crate::text::lemma_index_of_char_bound(rest, ',');
    if k < rest.len() {
        lemma_operands_have_no_newline(rest.skip(k + 1 as int));
    }
    let r = lexer::lex_operands_spec(rest)->Ok_0;
    assert forall|j: int| 0 <= j < r.len() implies !(#[trigger] r[j] is NEWLINE) by {
        let piece = crate::text::trim(rest.take(k as int));
        if piece.len() > 0 && k < rest.len() {
            let tail = lexer::lex_operands_spec(rest.skip(k + 1 as int))->Ok_0;
            assert(r == seq![lexer::lex_operand_spec(piece)->Some_0] + tail);
            if j > 0 {
                assert(r[j] == tail[j - 1]);
            }
        } else if k < rest.len() {
            let tail = lexer::lex_operands_spec(rest.skip(k + 1 as int))->Ok_0;
            assert(r =~= tail);
        }
    }
}

/// Concatenated streams of whole lines are a stream of whole lines.
proof fn lemma_lines_concat(a: Seq<SpecToken>, b: Seq<SpecToken>)
    requires
        lines_well_formed(a),
        lines_well_formed(b),
    ensures
        lines_well_formed(a + b),
{
    let c = a + b;
    if a.len() > 0 && b.len() > 0 {
        assert(c[0] == a[0]);
        assert(c.last() == b.last());
        assert forall|i: int, j: int|
            #![trigger c[i], c[j]]
            0 <= i && j == i + 1 && j < c.len() && c[i] is NEWLINE implies !(c[j] is NEWLINE) by {
            if j < a.len() {
                assert(c[i] == a[i] && c[j] == a[j]);
            } else if i >= a.len() {
                assert(c[i] == b[i - a.len()] && c[j] == b[j - a.len()]);
            } else {
                assert(c[j] == b[0]);
            }
        }
    } else if a.len() == 0 {
        assert(c =~= b);
    } else {
        assert(c =~= a);
    }
}

/// Every line lexes to nothing or to one whole line.
proof fn lemma_line_is_whole(line: Seq<char>)
    requires
        lexer::lex_line_spec(line) is Ok,
    ensures
        lines_well_formed(lexer::lex_line_spec(line)->Ok_0),
{
    let h = lexer::lex_line_spec(line)->Ok_0;
    let instruct = lexer::instruct_of(line);
    if line.len() > 0 && !(instruct.len() > 0 && instruct[0] == ';') && !(instruct.len() > 0
        && instruct.last() == ':') {
        let m = lexer::mnemonic_spec(instruct)->Some_0;
        let operands = lexer::operand_text(line);
        lemma_operands_have_no_newline(operands);
        let ops = lexer::lex_operands_spec(operands)->Ok_0;
        assert(h == seq![m] + ops + seq![SpecToken::NEWLINE]);
        assert(!(m is NEWLINE));
        assert forall|i: int, j: int|
            #![trigger h[i], h[j]]
            0 <= i && j == i + 1 && j < h.len() && h[i] is NEWLINE implies !(h[j] is NEWLINE) by {
            if i > 0 {
                assert(h[i] == ops[i - 1]);
            }
        }
    }
}

/// The lexer hands the parser whole lines.
pub proof fn lemma_lexed_lines_well_formed(src: Seq<char>)
    requires
        lexer::lex_spec(src) is Ok,
    ensures
        lines_well_formed(lexer::lex_spec(src)->Ok_0),
    decreases src.len(),
{
    let k = crate::text::index_of_char(src, '\n');
    crate::text::lemma_index_of_char_bound(src, '\n');
    let line = crate::text::trim(src.take(k as int));
    lemma_line_is_whole(line);
    if k < src.len() {
        lemma_lexed_lines_well_formed(src.skip(k + 1 as int));
        lemma_lines_concat(
            lexer::lex_line_spec(line)->Ok_0,
            lexer::lex_spec(src.skip(k + 1 as int))->Ok_0,
        );
    }
}

/// Lexing and then parsing a source text keeps every token: the
/// instructions stand for exactly the tokens of the lines they came from.
pub proof fn lemma_parse_of_lexed_source(src: Seq<char>)
    requires
        lexer::lex_spec(src) is Ok,
    ensures
        flatten(parser::build_ast_spec(lexer::lex_spec(src)->Ok_0)) == lexer::lex_spec(src)->Ok_0,
{
    lemma_lexed_lines_well_formed(src);
    lemma_parse_keeps_lines(lexer::lex_spec(src)->Ok_0);
}

/// The opcode that a two-byte encoding stands for, as the interpreter fetches it.
pub open spec fn opcode_of(b: Seq<u8>) -> u16 {
    (b[0] * 256 + b[1]) as u16
}

/// The encoding of an instruction whose labels are all defined.
pub open spec fn encoding(i: SpecInstruction) -> Seq<u8> {
    compiler::encode_spec(i, Map::empty())->Some_0
}

/// `LD Vx, kk` assembles to an opcode that loads `kk` (modulo 256) into `Vx`.
pub proof fn lemma_assembled_load_executes(s: Chip8State, x: u8, kk: u16, r: u8)
    requires
        s.well_sized(),
        x < 16,
    ensures
        ({
            let i = SpecInstruction {
                mnemonic: SpecToken::LD,
                operands: seq![SpecToken::REGISTER(x), SpecToken::NUMBER(kk)],
            };
            &&& chip::can_execute(s, opcode_of(encoding(i)))
            &&& chip::step(s, opcode_of(encoding(i)), r) == chip::set_reg(s, x as int, kk as u8)
        }),
{
    let i = SpecInstruction {
        mnemonic: SpecToken::LD,
        operands: seq![SpecToken::REGISTER(x), SpecToken::NUMBER(kk)],
    };
    let b = encoding(i);
    assert(b == seq![0x60u8 | x, kk as u8]);
    let hi = 0x60u8 | x;
    let lo = kk as u8;
    assert(hi == 0x60 + x) by (bit_vector)
        requires
            x < 16,
            hi == 0x60u8 | x,
    ;
    let op = opcode_of(b);
    assert(op == 0x6000 + x * 0x100 + lo);
    assert(chip::op_kind(op) == 6 && chip::op_x(op) == x && chip::op_kk(op) == lo);
    assert(lo == kk % 256) by (bit_vector)
        requires
            lo == kk as u8,
    ;
}

/// `JP addr` assembles to an opcode that jumps to `addr`.
pub proof fn lemma_assembled_jump_executes(s: Chip8State, addr: u16, r: u8)
    requires
        s.well_sized(),
        addr < 0x1000,
    ensures
        ({
            let i = SpecInstruction {
                mnemonic: SpecToken::JP,
                operands: seq![SpecToken::NUMBER(addr)],
            };
            &&& chip::can_execute(s, opcode_of(encoding(i)))
            &&& chip::step(s, opcode_of(encoding(i)), r) == Chip8State { pc: addr, ..s }
        }),
{
    let i = SpecInstruction { mnemonic: SpecToken::JP, operands: seq![SpecToken::NUMBER(addr)] };
    let b = encoding(i);
    assert(b == compiler::address_opcode(0x10, addr));
    let hi = 0x10u8 | ((addr >> 8u16) as u8);
    let lo = (addr & 0xFFu16) as u8;
    assert(hi == 0x10 + addr / 256 && lo == addr % 256) by (bit_vector)
        requires
            addr < 0x1000,
            hi == 0x10u8 | ((addr >> 8u16) as u8),
            lo == (addr & 0xFFu16) as u8,
    ;
    let op = opcode_of(b);
    assert(op == 0x1000 + addr);
    assert(chip::op_kind(op) == 1 && chip::op_nnn(op) == addr);
}

/// `LD I, addr` assembles to an opcode that sets the index register to `addr`.
pub proof fn lemma_assembled_load_index_executes(s: Chip8State, addr: u16, r: u8)
    requires
        s.well_sized(),
        addr < 0x1000,
    ensures
        ({
            let i = SpecInstruction {
                mnemonic: SpecToken::LD,
                operands: seq![SpecToken::RegI, SpecToken::NUMBER(addr)],
            };
            &&& chip::can_execute(s, opcode_of(encoding(i)))
            &&& chip::step(s, opcode_of(encoding(i)), r) == Chip8State { i: addr, ..s }
        }),
{
    let i = SpecInstruction {
        mnemonic: SpecToken::LD,
        operands: seq![SpecToken::RegI, SpecToken::NUMBER(addr)],
    };
    let b = encoding(i);
    assert(b == compiler::address_opcode(0xA0, addr));
    let hi = 0xA0u8 | ((addr >> 8u16) as u8);
    let lo = (addr & 0xFFu16) as u8;
    assert(hi == 0xA0 + addr / 256 && lo == addr % 256) by (bit_vector)
        requires
            addr < 0x1000,
            hi == 0xA0u8 | ((addr >> 8u16) as u8),
            lo == (addr & 0xFFu16) as u8,
    ;
    let op = opcode_of(b);
    assert(op == 0xA000 + addr);
    assert(chip::op_kind(op) == 0xA && chip::op_nnn(op) == addr);
}

/// `ADD Vx, Vy` assembles to the add-with-carry opcode `8XY4` of the same registers.
pub proof fn lemma_assembled_add_executes(x: u8, y: u8)
    requires
        x < 16,
        y < 16,
    ensures
        ({
            let i = SpecInstruction {
                mnemonic: SpecToken::ADD,
                operands: seq![SpecToken::REGISTER(x), SpecToken::REGISTER(y)],
            };
            opcode_of(encoding(i)) == 0x8004 + x * 0x100 + y * 0x10
        }),
{
    let i = SpecInstruction {
        mnemonic: SpecToken::ADD,
        operands: seq![SpecToken::REGISTER(x), SpecToken::REGISTER(y)],
    };
    let b = encoding(i);
    assert(b == seq![0x80u8 | x, (y << 4u8) | 0x04u8]);
    let hi = 0x80u8 | x;
    let lo = (y << 4u8) | 0x04u8;
    assert(hi == 0x80 + x && lo == y * 16 + 4) by (bit_vector)
        requires
            x < 16,
            y < 16,
            hi == 0x80u8 | x,
            lo == (y << 4u8) | 0x04u8,
    ;
}

/// `DRW Vx, Vy, n` assembles to the draw opcode `DXYN` of the same operands.
pub proof fn lemma_assembled_draw_executes(x: u8, y: u8, n: u16)
    requires
        x < 16,
        y < 16,
        n < 16,
    ensures
        ({
            let i = SpecInstruction {
                mnemonic: SpecToken::DRW,
                operands: seq![SpecToken::REGISTER(x), SpecToken::REGISTER(y), SpecToken::NUMBER(n)],
            };
            opcode_of(encoding(i)) == 0xD000 + x * 0x100 + y * 0x10 + n
        }),
{
    let i = SpecInstruction {
        mnemonic: SpecToken::DRW,
        operands: seq![SpecToken::REGISTER(x), SpecToken::REGISTER(y), SpecToken::NUMBER(n)],
    };
    let b = encoding(i);
    assert(b == seq![0xD0u8 | x, (y << 4u8) | (n as u8)]);
    let hi = 0xD0u8 | x;
    let lo = (y << 4u8) | (n as u8);
    assert(hi == 0xD0 + x && lo == y * 16 + n) by (bit_vector)
        requires
            x < 16,
            y < 16,
            n < 16,
            hi == 0xD0u8 | x,
            lo == (y << 4u8) | (n as u8),
    ;
}

/// The instruction that one trimmed source line becomes, if any: none for a
/// blank line or a comment; for a label line, the label (its trailing colons
/// dropped) with no operands; otherwise the instruction word's token with the
/// tokens of the line's operands, in order.
pub open spec fn line_instructions(line: Seq<char>) -> Seq<SpecInstruction> {
    let instruct = lexer::instruct_of(line);
    if line.len() == 0 || (instruct.len() > 0 && instruct[0] == ';') {
        Seq::empty()
    } else if instruct.len() > 0 && instruct.last() == ':' {
        seq![
            SpecInstruction {
                mnemonic: SpecToken::LABEL(crate::text::trim_end_colons(instruct)),
                operands: Seq::empty(),
            },
        ]
    } else {
        seq![
            SpecInstruction {
                mnemonic: lexer::mnemonic_spec(instruct)->Some_0,
                operands: lexer::lex_operands_spec(lexer::operand_text(line))->Ok_0,
            },
        ]
    }
}

/// The instructions of a source text: those of its lines (each trimmed), in
/// line order.
pub open spec fn source_instructions(src: Seq<char>) -> Seq<SpecInstruction>
    decreases src.len(),
{
    let k = crate::text::index_of_char(src, '\n');
    let head = line_instructions(crate::text::trim(src.take(k as int)));
    if k >= src.len() {
        head
    } else {
        proof {
            crate::text::lemma_index_of_char_bound(src, '\n');
        }
        head + source_instructions(src.skip(k + 1 as int))
    }
}

/// Parsing the tokens of one line in front of other tokens gives that line's
/// instruction in front of the instructions of the rest.
proof fn lemma_parse_line_then_rest(line: Seq<char>, rest: Seq<SpecToken>)
    requires
        lexer::lex_line_spec(line) is Ok,
    ensures
        parser::build_ast_spec(lexer::lex_line_spec(line)->Ok_0 + rest) == line_instructions(line)
            + parser::build_ast_spec(rest),
{
    let h = lexer::lex_line_spec(line)->Ok_0;
    let instruct = lexer::instruct_of(line);
    if line.len() == 0 || (instruct.len() > 0 && instruct[0] == ';') {
        assert(h + rest =~= rest);
        assert(line_instructions(line) + parser::build_ast_spec(rest) =~= parser::build_ast_spec(
            rest,
        ));
    } else {
        let m = h[0];
        let ops: Seq<SpecToken> = if instruct.len() > 0 && instruct.last() == ':' {
            Seq::empty()
        } else {
            lemma_operands_have_no_newline(lexer::operand_text(line));
            lexer::lex_operands_spec(lexer::operand_text(line))->Ok_0
        };
        let p = seq![m] + ops;
        assert(h == p + seq![SpecToken::NEWLINE]);
        assert(!(m is NEWLINE));
        assert forall|j: int| 0 <= j < p.len() implies !(#[trigger] p[j] is NEWLINE) by {
            if j > 0 {
                assert(p[j] == ops[j - 1]);
            }
        }
        parser::lemma_close_instruction(p, rest);
        assert(p.drop_first() =~= ops);
        assert(h + rest =~= p + seq![SpecToken::NEWLINE] + rest);
    }
}

/// Lexing and then parsing a source text gives one instruction per line that
/// is neither blank nor a comment, in line order: a label line gives its
/// label, any other line its instruction word's token with the tokens of its
/// operands.
pub proof fn lemma_parse_of_lexed_source_by_line(src: Seq<char>)
    requires
        lexer::lex_spec(src) is Ok,
    ensures
        parser::build_ast_spec(lexer::lex_spec(src)->Ok_0) == source_instructions(src),
    decreases src.len(),
{
    let k = crate::text::index_of_char(src, '\n');
    crate::text::lemma_index_of_char_bound(src, '\n');
    let line = crate::text::trim(src.take(k as int));
    let h = lexer::lex_line_spec(line)->Ok_0;
    if k < src.len() {
        let rest_src = src.skip(k + 1 as int);
        lemma_parse_of_lexed_source_by_line(rest_src);
        lemma_parse_line_then_rest(line, lexer::lex_spec(rest_src)->Ok_0);
    } else {
        lemma_parse_line_then_rest(line, Seq::empty());
        assert(h + Seq::<SpecToken>::empty() =~= h);
        assert(parser::build_ast_spec(Seq::<SpecToken>::empty()) == Seq::<SpecInstruction>::empty());
        assert(line_instructions(line) + Seq::<SpecInstruction>::empty() =~= line_instructions(
            line,
        ));
    }
}

/// Lexing two sources joined by a line break gives the tokens of the first
/// followed by those of the second: each line is lexed on its own.
pub proof fn lemma_lex_concat_lines(a: Seq<char>, b: Seq<char>)
    requires
        lexer::lex_spec(a) is Ok,
        lexer::lex_spec(b) is Ok,
    ensures
        lexer::lex_spec(a + seq!['\n'] + b) == Ok::<Seq<SpecToken>, lexer::SpecLexError>(
            lexer::lex_spec(a)->Ok_0 + lexer::lex_spec(b)->Ok_0,
        ),
{
    lemma_lex_then(a, b);
}

/// Lexing `a`, a line break and `b` is lexing `a`, then `b`.
proof fn lemma_lex_then(a: Seq<char>, b: Seq<char>)
    requires
        lexer::lex_spec(a) is Ok,
    ensures
        lexer::lex_spec(a + seq!['\n'] + b) == lexer::prepend(
            lexer::lex_spec(a)->Ok_0,
            lexer::lex_spec(b),
        ),
    decreases a.len(),
{
    let s = a + seq!['\n'] + b;
    let k = crate::text::index_of_char(a, '\n');
    crate::text::lemma_index_of_char_bound(a, '\n');
    assert(s =~= a + (seq!['\n'] + b));
    crate::text::lemma_index_of_char_concat(a, seq!['\n'] + b, '\n');
    assert(crate::text::index_of_char(seq!['\n'] + b, '\n') == 0);
    let line = crate::text::trim(a.take(k as int));
    assert(s.take(k as int) =~= a.take(k as int));
    let h = lexer::lex_line_spec(line)->Ok_0;
    if k < a.len() {
        let a2 = a.skip(k + 1 as int);
        assert(s.skip(k + 1 as int) =~= a2 + seq!['\n'] + b);
        lemma_lex_then(a2, b);
        lexer::lemma_prepend_assoc(h, lexer::lex_spec(a2)->Ok_0, lexer::lex_spec(b));
    } else {
        assert(s.skip(k + 1 as int) =~= b);
        assert(a.take(k as int) =~= a);
    }
}


/// The operand text of an instruction line ends before its first `;`: it
/// holds no `;`, and when the trimmed text after the instruction word holds
/// none, it is all of that text.
pub proof fn lemma_operand_text_stops_at_comment(line: Seq<char>)
    ensures
        !lexer::operand_text(line).contains(';'),
        ({
            let after = text::trim(line.skip(lexer::instruct_of(line).len() as int));
            !after.contains(';') ==> lexer::operand_text(line) == after
        }),
{
    let after = text::trim(line.skip(lexer::instruct_of(line).len() as int));
    let k = text::index_of_char(after, ';');
    text::lemma_index_of_char_bound(after, ';');
    text::lemma_index_of_char_first(after, ';');
    if k < after.len() {
        let pre = after.take(k as int);
        assert forall|j: int| 0 <= j < pre.len() implies #[trigger] pre[j] != ';' by {
            assert(pre[j] == after[j]);
        }
        text::lemma_trim_keeps_absent(pre, ';');
        assert(after.contains(';')) by {
            assert(after[k as int] == ';');
        }
    } else {
        assert forall|j: int| 0 <= j < after.len() implies #[trigger] after[j] != ';' by {}
    }
}

/// An instruction word followed by nothing but a `;` comment lexes to the
/// instruction's token and `NEWLINE`: the comment gives no operand.
pub proof fn lemma_comment_after_instruction(line: Seq<char>)
    requires
        lexer::mnemonic_spec(lexer::instruct_of(line)) is Some,
        ({
            let after = text::trim(line.skip(lexer::instruct_of(line).len() as int));
            after.len() == 0 || after[0] == ';'
        }),
    ensures
        lexer::lex_line_spec(line) == Ok::<Seq<SpecToken>, lexer::SpecLexError>(
            seq![lexer::mnemonic_spec(lexer::instruct_of(line))->Some_0, SpecToken::NEWLINE],
        ),
{
    let instruct = lexer::instruct_of(line);
    let m = lexer::mnemonic_spec(instruct)->Some_0;
    assert(instruct.len() > 0 && instruct[0] != ';' && instruct.last() != ':');
    assert(line.len() > 0);
    let after = text::trim(line.skip(instruct.len() as int));
    let ops = lexer::operand_text(line);
    if after.len() > 0 {
        assert(text::index_of_char(after, ';') == 0);
        assert(after.take(0) =~= Seq::<char>::empty());
    }
    assert(ops =~= Seq::<char>::empty());
    assert(lexer::lex_operands_spec(ops) == Ok::<Seq<SpecToken>, lexer::SpecLexError>(
        Seq::empty(),
    ));
    assert(seq![m] + Seq::<SpecToken>::empty() + seq![SpecToken::NEWLINE] =~= seq![
        m,
        SpecToken::NEWLINE,
    ]);
}

/// No identifier among `t` holds a `;`.
pub open spec fn identifiers_free_of_comments(t: Seq<SpecToken>) -> bool {
    forall|i: int| 0 <= i < t.len() && (#[trigger] t[i]) is IDENT ==> !t[i]->IDENT_0.contains(';')
}

proof fn lemma_identifiers_concat(a: Seq<SpecToken>, b: Seq<SpecToken>)
    requires
        identifiers_free_of_comments(a),
        identifiers_free_of_comments(b),
    ensures
        identifiers_free_of_comments(a + b),
{
    let c = a + b;
    assert forall|i: int| 0 <= i < c.len() && (#[trigger] c[i]) is IDENT implies !c[i]->IDENT_0.contains(
        ';',
    ) by {
        if i < a.len() {
            assert(c[i] == a[i]);
        } else {
            assert(c[i] == b[i - a.len()]);
        }
    }
}

/// The operands of a text that holds no `;` hold none either.
proof fn lemma_operand_identifiers(rest: Seq<char>)
    requires
        lexer::lex_operands_spec(rest) is Ok,
        !rest.contains(';'),
    ensures
        identifiers_free_of_comments(lexer::lex_operands_spec(rest)->Ok_0),
    decreases rest.len(),
{
    let k = text::index_of_char(rest, ',');
    text::lemma_index_of_char_bound(rest, ',');
    let pre = rest.take(k as int);
    assert forall|j: int| 0 <= j < pre.len() implies #[trigger] pre[j] != ';' by {
        assert(pre[j] == rest[j]);
    }
    text::lemma_trim_keeps_absent(pre, ';');
    let piece = text::trim(pre);
    let head: Seq<SpecToken> = if piece.len() == 0 {
        Seq::empty()
    } else {
        seq![lexer::lex_operand_spec(piece)->Some_0]
    };
    assert(identifiers_free_of_comments(head));
    if k < rest.len() {
        let tail = rest.skip(k + 1 as int);
        assert forall|j: int| 0 <= j < tail.len() implies #[trigger] tail[j] != ';' by {
            assert(tail[j] == rest[j + k + 1]);
        }
        lemma_operand_identifiers(tail);
        lemma_identifiers_concat(head, lexer::lex_operands_spec(tail)->Ok_0);
    }
}

/// The tokens of one line hold no identifier with a `;`.
proof fn lemma_line_identifiers(line: Seq<char>)
    requires
        lexer::lex_line_spec(line) is Ok,
    ensures
        identifiers_free_of_comments(lexer::lex_line_spec(line)->Ok_0),
{
    let h = lexer::lex_line_spec(line)->Ok_0;
    let instruct = lexer::instruct_of(line);
    if line.len() > 0 && !(instruct.len() > 0 && instruct[0] == ';') && !(instruct.len() > 0
        && instruct.last() == ':') {
        let m = lexer::mnemonic_spec(instruct)->Some_0;
        let operands = lexer::operand_text(line);
        lemma_operand_text_stops_at_comment(line);
        lemma_operand_identifiers(operands);
        let ops = lexer::lex_operands_spec(operands)->Ok_0;
        assert(!(m is IDENT));
        assert(identifiers_free_of_comments(seq![m]));
        assert(identifiers_free_of_comments(seq![SpecToken::NEWLINE]));
        lemma_identifiers_concat(seq![m], ops);
        lemma_identifiers_concat(seq![m] + ops, seq![SpecToken::NEWLINE]);
    } else {
        assert(identifiers_free_of_comments(h));
    }
}

/// Comments never reach the tokens: no identifier that the lexer produces
/// holds a `;`.
pub proof fn lemma_lexed_identifiers_hold_no_comment(src: Seq<char>)
    requires
        lexer::lex_spec(src) is Ok,
    ensures
        identifiers_free_of_comments(lexer::lex_spec(src)->Ok_0),
    decreases src.len(),
{
    let k = text::index_of_char(src, '\n');
    text::lemma_index_of_char_bound(src, '\n');
    let line = text::trim(src.take(k as int));
    lemma_line_identifiers(line);
    if k < src.len() {
        lemma_lexed_identifiers_hold_no_comment(src.skip(k + 1 as int));
        lemma_identifiers_concat(
            lexer::lex_line_spec(line)->Ok_0,
            lexer::lex_spec(src.skip(k + 1 as int))->Ok_0,
        );
    }
}

/// `CLS` assembles to `00E0`, the opcode that darkens the display, `RET` to
/// `00EE`, the return from a subroutine, and `db n` to the one byte `n`
/// modulo 256.
pub proof fn lemma_assembled_plain_instructions(s: Chip8State, n: u16, r: u8)
    requires
        s.well_sized(),
    ensures
        opcode_of(encoding(SpecInstruction { mnemonic: SpecToken::CLS, operands: seq![] }))
            == 0x00E0,
        chip::step(
            s,
            opcode_of(encoding(SpecInstruction { mnemonic: SpecToken::CLS, operands: seq![] })),
            r,
        ).display == Seq::new(2048, |k: int| false),
        opcode_of(encoding(SpecInstruction { mnemonic: SpecToken::RET, operands: seq![] }))
            == 0x00EE,
        encoding(SpecInstruction { mnemonic: SpecToken::DB, operands: seq![SpecToken::NUMBER(n)] })
            == seq![(n % 256) as u8],
{
    let b = (n as u8);
    assert(b == n % 256) by (bit_vector)
        requires
            b == n as u8,
    ;
}

/// The value of a hexadecimal digit, in either case: `0`-`9` are the code
/// points 0x30 to 0x39, `A`-`F` 0x41 to 0x46 and `a`-`f` 0x61 to 0x66.
pub open spec fn hex_digit(c: char) -> int {
    let u = c as u32;
    if 0x30 <= u <= 0x39 {
        u - 0x30
    } else if 0x41 <= u <= 0x46 {
        u - 0x41 + 10
    } else {
        u - 0x61 + 10
    }
}

/// A hexadecimal digit, in either case.
pub open spec fn is_hex_digit(c: char) -> bool {
    let u = c as u32;
    0x30 <= u <= 0x39 || 0x41 <= u <= 0x46 || 0x61 <= u <= 0x66
}

/// A decimal digit.
pub open spec fn is_decimal_digit(c: char) -> bool {
    0x30 <= c as u32 <= 0x39
}

/// `V` followed by one hexadecimal digit names the register of that number.
pub proof fn lemma_register_operand(d: char)
    requires
        is_hex_digit(d),
    ensures
        lexer::lex_operand_spec(seq!['V', d]) == Some(SpecToken::REGISTER(hex_digit(d) as u8)),
{
    let s = seq!['V', d];
    assert(s.skip(1) =~= seq![d]);
    assert(seq![d].drop_last() =~= Seq::<char>::empty());
    assert(seq![d].last() == d);
    assert(text::digit_value(d, 16) == Some(hex_digit(d) as nat));
    assert(text::digits_number(Seq::<char>::empty(), 16) == 0);
    assert(text::digits_number(seq![d], 16) == hex_digit(d));
    assert(text::all_digits(seq![d], 16));
    assert(!text::all_ascii_digits(s)) by {
        assert(!('0' <= s[0] <= '9'));
    }
}

/// `0x` followed by two hexadecimal digits names the number they denote,
/// and so do two decimal digits, the most significant digit first.
pub proof fn lemma_two_digit_numbers(a: char, b: char)
    requires
        is_hex_digit(a),
        is_hex_digit(b),
    ensures
        lexer::lex_operand_spec(seq!['0', 'x', a, b]) == Some(
            SpecToken::NUMBER((16 * hex_digit(a) + hex_digit(b)) as u16),
        ),
        is_decimal_digit(a) && is_decimal_digit(b) ==> lexer::lex_operand_spec(seq![a, b]) == Some(
            SpecToken::NUMBER((10 * hex_digit(a) + hex_digit(b)) as u16),
        ),
{
    let h = seq!['0', 'x', a, b];
    assert(h.skip(2) =~= seq![a, b]);
    assert(seq![a, b].drop_last() =~= seq![a]);
    assert(seq![a].drop_last() =~= Seq::<char>::empty());
    assert(seq![a].last() == a && seq![a, b].last() == b);
    assert(text::digit_value(a, 16) == Some(hex_digit(a) as nat));
    assert(text::digit_value(b, 16) == Some(hex_digit(b) as nat));
    assert(text::digits_number(Seq::<char>::empty(), 16) == 0);
    assert(text::digits_number(seq![a], 16) == hex_digit(a));
    assert(text::digits_number(seq![a, b], 16) == 16 * hex_digit(a) + hex_digit(b));
    if is_decimal_digit(a) && is_decimal_digit(b) {
        assert(text::digit_value(a, 10) == Some(hex_digit(a) as nat));
        assert(text::digit_value(b, 10) == Some(hex_digit(b) as nat));
        assert(text::digits_number(Seq::<char>::empty(), 10) == 0);
        assert(text::digits_number(seq![a], 10) == hex_digit(a));
        assert(text::digits_number(seq![a, b], 10) == 10 * hex_digit(a) + hex_digit(b));
        assert(text::all_ascii_digits(seq![a, b]));
        assert(text::all_digits(seq![a, b], 10));
    }
    assert(text::all_digits(seq![a, b], 16));
}

/// A line whose first word ends in `:` lexes to one label and `NEWLINE`,
/// whatever follows the word: the label is the word without the colons that
/// end it.
pub proof fn lemma_label_line(line: Seq<char>)
    requires
        lexer::instruct_of(line).len() > 0,
        lexer::instruct_of(line)[0] != ';',
        lexer::instruct_of(line).last() == ':',
    ensures
        ({
            let w = lexer::instruct_of(line);
            let h = lexer::lex_line_spec(line);
            &&& h is Ok
            &&& h->Ok_0.len() == 2
            &&& h->Ok_0[1] is NEWLINE
            &&& h->Ok_0[0] is LABEL
            &&& h->Ok_0[0]->LABEL_0.len() < w.len()
            &&& h->Ok_0[0]->LABEL_0 == w.take(h->Ok_0[0]->LABEL_0.len() as int)
            &&& forall|j: int| h->Ok_0[0]->LABEL_0.len() <= j < w.len() ==> #[trigger] w[j] == ':'
            &&& h->Ok_0[0]->LABEL_0.len() == 0 || h->Ok_0[0]->LABEL_0.last() != ':'
        }),
{
    let w = lexer::instruct_of(line);
    text::lemma_index_of_ws_bound(line);
    assert(line.len() > 0);
    text::lemma_trim_end_colons_shape(w);
    let name = text::trim_end_colons(w);
    if name.len() == w.len() {
        assert(name == w);
        assert(name.last() == ':');
    }
}

} // verus!
