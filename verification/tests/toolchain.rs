use chip8::chip::Chip8;
use chip8::compiler::compile;
use chip8::lexer::lex_source;
use chip8::parser::build_ast;

#[test]
fn assembled_program_runs_on_the_machine() {
    let src = "\
        LD V0, 0x05\n\
        LD V1, 0x07\n\
        ADD V0, V1\n\
        LD I, glyph\n\
        DRW V0, V1, 1\n\
        JP done\n\
        glyph:\n\
        db 0x80\n\
        done:\n\
        JP done\n";
    let image = compile(build_ast(lex_source(src)));
    let mut c = Chip8::new();
    c.load_rom(&image);
    for _ in 0..7 {
        assert_eq!(c.cycle(), Ok(()));
    }
    assert_eq!(c.v[0], 12);
    assert_eq!(c.v[0xF], 0);
    assert!(c.display[7 * 64 + 12]);
    let done = 0x200 + 6 * 2 + 1;
    assert_eq!(c.pc, done);
    assert_eq!(c.cycle(), Ok(()));
    assert_eq!(c.pc, done);
}
