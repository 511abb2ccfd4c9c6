//! The parser: groups the token stream into instructions, one per line.
use vstd::prelude::*;
use crate::ast::{Instruction, SpecInstruction};
use crate::ast;
use crate::lexer::{SpecToken, Token};
use crate::lexer;

verus! {

/// The index of the first `NEWLINE` in `s`, or its length if there is none.
pub open spec fn index_of_newline(s: Seq<SpecToken>) -> nat
    decreases s.len(),
{
    if s.len() == 0 {
        0
    } else if s[0] is NEWLINE {
        0
    } else {
        1 + index_of_newline(s.drop_first())
    }
}

/// `s` holds no `NEWLINE`.
pub open spec fn no_newline(s: Seq<SpecToken>) -> bool {
    forall|j: int| 0 <= j < s.len() ==> !(#[trigger] s[j] is NEWLINE)
}

/// The instructions of a token stream. The stream is cut after every
/// `NEWLINE`; each piece becomes one instruction whose mnemonic is the
/// piece's first token and whose operands are the tokens after it, without
/// the closing `NEWLINE`.
pub open spec fn build_ast_spec(tokens: Seq<SpecToken>) -> Seq<SpecInstruction>
    decreases tokens.len(),
{
    if tokens.len() == 0 {
        Seq::empty()
    } else {
        let k = index_of_newline(tokens);
        let end: int = if k < tokens.len() {
            k + 1 as int
        } else {
            tokens.len() as int
        };
        let operands = if k >= 1 {
            tokens.subrange(1, k as int)
        } else {
            Seq::empty()
        };
        proof {
            lemma_index_of_newline_bound(tokens);
        }
        seq![SpecInstruction { mnemonic: tokens[0], operands }] + build_ast_spec(
            tokens.skip(end),
        )
    }
}

pub proof fn lemma_index_of_newline_bound(s: Seq<SpecToken>)
    ensures
        index_of_newline(s) <= s.len(),
    decreases s.len(),
{
    if s.len() > 0 && !(s[0] is NEWLINE) {
        lemma_index_of_newline_bound(s.drop_first());
    }
}

/// In `p + rest`, with no `NEWLINE` in `p`, the first `NEWLINE` is the first of `rest`.
proof fn lemma_index_of_newline_after(p: Seq<SpecToken>, rest: Seq<SpecToken>)
    requires
        no_newline(p),
    ensures
        index_of_newline(p + rest) == p.len() + index_of_newline(rest),
    decreases p.len(),
{
    if p.len() > 0 {
        assert((p + rest).drop_first() =~= p.drop_first() + rest);
        assert((p + rest)[0] == p[0]);
        lemma_index_of_newline_after(p.drop_first(), rest);
    } else {
        assert(p + rest =~= rest);
    }
}

/// The tokens of an unfinished instruction: its mnemonic and operands.
pub open spec fn pending_view(mnemonic: Option<Token>, operands: Seq<Token>) -> Seq<SpecToken> {
    match mnemonic {
        None => Seq::empty(),
        Some(m) => seq![m@] + lexer::tokens_view(operands),
    }
}

/// A pending instruction closed by a `NEWLINE` becomes one instruction.
pub proof fn lemma_close_instruction(p: Seq<SpecToken>, rest: Seq<SpecToken>)
    requires
        no_newline(p),
    ensures
        build_ast_spec(p + seq![SpecToken::NEWLINE] + rest) == seq![
            if p.len() == 0 {
                SpecInstruction { mnemonic: SpecToken::NEWLINE, operands: Seq::empty() }
            } else {
                SpecInstruction { mnemonic: p[0], operands: p.drop_first() }
            },
        ] + build_ast_spec(rest),
{
    let s = p + seq![SpecToken::NEWLINE] + rest;
    assert(s =~= p + (seq![SpecToken::NEWLINE] + rest));
    lemma_index_of_newline_after(p, seq![SpecToken::NEWLINE] + rest);
    assert(index_of_newline(seq![SpecToken::NEWLINE] + rest) == 0);
    assert(s.skip(p.len() + 1 as int) =~= rest);
    if p.len() > 0 {
        assert(s.subrange(1, p.len() as int) =~= p.drop_first());
        assert(s[0] == p[0]);
    }
}

/// A pending instruction at the end of the stream becomes the last instruction.
proof fn lemma_final_instruction(p: Seq<SpecToken>)
    requires
        no_newline(p),
    ensures
        build_ast_spec(p) == if p.len() == 0 {
            Seq::<SpecInstruction>::empty()
        } else {
            seq![SpecInstruction { mnemonic: p[0], operands: p.drop_first() }]
        },
{
    lemma_index_of_newline_after(p, Seq::empty());
    assert(p + Seq::<SpecToken>::empty() =~= p);
    if p.len() > 0 {
        assert(p.subrange(1, p.len() as int) =~= p.drop_first());
        assert(p.skip(p.len() as int) =~= Seq::<SpecToken>::empty());
        let i = SpecInstruction { mnemonic: p[0], operands: p.drop_first() };
        assert(index_of_newline(p) == p.len());
        assert(build_ast_spec(Seq::<SpecToken>::empty()) == Seq::<SpecInstruction>::empty());
        assert(build_ast_spec(p) == seq![i] + build_ast_spec(p.skip(p.len() as int)));
        assert(seq![i] + Seq::<SpecInstruction>::empty() =~= seq![i]);
    }
}

/// Groups the tokens into instructions, one per `NEWLINE`-terminated line.
pub fn build_ast(tokens: Vec<Token>) -> (instructions: Vec<Instruction>)
    ensures
        ast::instructions_view(instructions@) == build_ast_spec(lexer::tokens_view(tokens@)),
{
    let ghost all = lexer::tokens_view(tokens@);
    let mut instructions: Vec<Instruction> = Vec::new();
    let mut mnemonic: Option<Token> = None;
    let mut operands: Vec<Token> = Vec::new();
    assert(all.skip(0) =~= all);
    assert(pending_view(mnemonic, operands@) + all =~= all);
    assert(ast::instructions_view(instructions@) =~= Seq::<SpecInstruction>::empty());
    for token in it: tokens
        invariant
            all == lexer::tokens_view(it.seq()),
            build_ast_spec(all) == ast::instructions_view(instructions@) + build_ast_spec(
                pending_view(mnemonic, operands@) + all.skip(it.index() as int),
            ),
            no_newline(pending_view(mnemonic, operands@)),
            mnemonic is None ==> operands@.len() == 0,
    {
        let ghost p = pending_view(mnemonic, operands@);
        let ghost rest = all.skip(it.index() + 1);
        let ghost done = ast::instructions_view(instructions@);
        assert(all.skip(it.index() as int) =~= seq![token@] + rest);
        assert(p + all.skip(it.index() as int) =~= p + seq![token@] + rest);
        let is_newline = match &token {
            Token::NEWLINE => true,
            _ => false,
        };
        match mnemonic.take() {
            None => {
                if is_newline {
                    let empty: Vec<Token> = Vec::new();
                    assert(lexer::tokens_view(empty@) =~= Seq::<SpecToken>::empty());
                    assert(token@ == SpecToken::NEWLINE);
                    instructions.push(Instruction { mnemonic: token, operands: empty });
                    proof {
                        lemma_close_instruction(p, rest);
                        assert(ast::instructions_view(instructions@) =~= done + seq![
                            SpecInstruction { mnemonic: SpecToken::NEWLINE, operands: Seq::empty() },
                        ]);
                        assert(pending_view(mnemonic, operands@) + rest =~= rest);
                    }
                } else {
                    mnemonic = Some(token);
                    proof {
                        assert(pending_view(mnemonic, operands@) =~= p + seq![token@]);
                    }
                }
            },
            Some(m) => {
                if is_newline {
                    let ops = operands;
                    operands = Vec::new();
                    instructions.push(Instruction { mnemonic: m, operands: ops });
                    proof {
                        lemma_close_instruction(p, rest);
                        assert(p[0] == m@);
                        assert(p.drop_first() =~= lexer::tokens_view(ops@));
                        assert(ast::instructions_view(instructions@) =~= done + seq![
                            SpecInstruction { mnemonic: m@, operands: lexer::tokens_view(ops@) },
                        ]);
                        assert(pending_view(mnemonic, operands@) + rest =~= rest);
                    }
                } else {
                    let ghost old_ops = operands@;
                    operands.push(token);
                    mnemonic = Some(m);
                    proof {
                        assert(lexer::tokens_view(operands@) =~= lexer::tokens_view(old_ops)
                            + seq![token@]);
                        assert(pending_view(mnemonic, operands@) =~= p + seq![token@]);
                        assert forall|j: int|
                            0 <= j < pending_view(mnemonic, operands@).len() implies !(
                            #[trigger] pending_view(mnemonic, operands@)[j] is NEWLINE) by {
                            if j < p.len() {
                                assert(pending_view(mnemonic, operands@)[j] == p[j]);
                            }
                        }
                    }
                }
            },
        }
        proof {
            assert(build_ast_spec(all) == ast::instructions_view(instructions@) + build_ast_spec(
                pending_view(mnemonic, operands@) + rest,
            )) by {
                let np = pending_view(mnemonic, operands@);
                if is_newline {
                    assert(done + seq![
                        if p.len() == 0 {
                            SpecInstruction { mnemonic: SpecToken::NEWLINE, operands: Seq::empty() }
                        } else {
                            SpecInstruction { mnemonic: p[0], operands: p.drop_first() }
                        },
                    ] + build_ast_spec(rest) =~= ast::instructions_view(instructions@)
                        + build_ast_spec(rest));
                } else {
                    assert(np + rest =~= p + seq![token@] + rest);
                }
            }
        }
    }
    let ghost p = pending_view(mnemonic, operands@);
    assert(all.skip(all.len() as int) =~= Seq::<SpecToken>::empty());
    assert(p + Seq::<SpecToken>::empty() =~= p);
    proof {
        lemma_final_instruction(p);
    }
    match mnemonic {
        Some(m) => {
            let ghost done = ast::instructions_view(instructions@);
            assert(p[0] == m@);
            assert(p.drop_first() =~= lexer::tokens_view(operands@));
            instructions.push(Instruction { mnemonic: m, operands });
            assert(ast::instructions_view(instructions@) =~= done + build_ast_spec(p));
        },
        None => {
            assert(build_ast_spec(p) =~= Seq::<SpecInstruction>::empty());
            assert(ast::instructions_view(instructions@) + Seq::<SpecInstruction>::empty()
                =~= ast::instructions_view(instructions@));
        },
    }
    instructions
}

} // verus!
