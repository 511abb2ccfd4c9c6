//! Properties of the CHIP-8 interpreter that relate several instructions or
//! several steps.
use vstd::prelude::*;
use crate::chip::{self, Chip8State};

verus! {

/// Only `CXKK` reads the random byte: every other instruction has the same
/// effect whatever byte is drawn.
pub proof fn lemma_step_ignores_random(s: Chip8State, op: u16, r1: u8, r2: u8)
    requires
        !chip::reads_random(op),
    ensures
        chip::step(s, op, r1) == chip::step(s, op, r2),
{
}

/// A call `2NNN` followed by a return `00EE` comes back to the instruction
/// after the call, with the stack pointer as it was.
pub proof fn lemma_call_then_return(s: Chip8State, addr: u16, r1: u8, r2: u8)
    requires
        s.well_sized(),
        addr < 0x1000,
        chip::can_execute(s, (0x2000 + addr) as u16),
    ensures
        chip::can_execute(chip::step(s, (0x2000 + addr) as u16, r1), 0x00EE),
        chip::step(chip::step(s, (0x2000 + addr) as u16, r1), 0x00EE, r2).pc == s.pc,
        chip::step(chip::step(s, (0x2000 + addr) as u16, r1), 0x00EE, r2).sp == s.sp,
{
    let op = (0x2000 + addr) as u16;
    assert(chip::op_kind(op) == 2);
    assert(chip::op_nnn(op) == addr);
}

/// Drawing the same sprite twice leaves the display as it was (pixels are
/// flipped with XOR), provided the sprite's position is not read from `VF`,
/// which the first drawing overwrites.
pub proof fn lemma_draw_twice_restores_display(s: Chip8State, op: u16, r1: u8, r2: u8)
    requires
        s.well_sized(),
        chip::op_kind(op) == 0xD,
        chip::op_x(op) != 15,
        chip::op_y(op) != 15,
        chip::can_execute(s, op),
    ensures
        chip::can_execute(chip::step(s, op, r1), op),
        chip::step(chip::step(s, op, r1), op, r2).display == s.display,
{
    let s1 = chip::step(s, op, r1);
    assert(s1 == chip::draw_step(s, op));
    assert(s1.v[chip::op_x(op)] == s.v[chip::op_x(op)]);
    assert(s1.v[chip::op_y(op)] == s.v[chip::op_y(op)]);
    assert forall|k: int| 0 <= k < 2048 implies #[trigger] chip::covers_cell(s1, op, k) == chip::covers_cell(
        s,
        op,
        k,
    ) by {}
    let s2 = chip::step(s1, op, r2);
    assert(s2.display =~= s.display);
}

/// Storing `V0..VX` with `FX55` and loading them back with `FX65` from the
/// same address changes nothing more than the store did.
pub proof fn lemma_store_then_load_registers(s: Chip8State, x: u16, r1: u8, r2: u8)
    requires
        s.well_sized(),
        x < 16,
        chip::can_execute(s, (0xF055 + x * 0x100) as u16),
    ensures
        chip::can_execute(chip::step(s, (0xF055 + x * 0x100) as u16, r1), (0xF065 + x * 0x100) as u16),
        chip::step(chip::step(s, (0xF055 + x * 0x100) as u16, r1), (0xF065 + x * 0x100) as u16, r2) == chip::step(
            s,
            (0xF055 + x * 0x100) as u16,
            r1,
        ),
{
    let store = (0xF055 + x * 0x100) as u16;
    let load = (0xF065 + x * 0x100) as u16;
    assert(chip::op_kind(store) == 0xF && chip::op_kk(store) == 0x55 && chip::op_x(store) == x);
    assert(chip::op_kind(load) == 0xF && chip::op_kk(load) == 0x65 && chip::op_x(load) == x);
    let s1 = chip::step(s, store, r1);
    let s2 = chip::step(s1, load, r2);
    assert(s2.v =~= s1.v);
    assert(s2 =~= s1);
}

/// `FX33` stores the three decimal digits of `VX`, most significant first.
pub proof fn lemma_bcd_digits(s: Chip8State, x: u16, r: u8)
    requires
        s.well_sized(),
        x < 16,
        chip::can_execute(s, (0xF033 + x * 0x100) as u16),
    ensures
        ({
            let m = chip::step(s, (0xF033 + x * 0x100) as u16, r).memory;
            &&& m[s.i as int] < 10 && m[s.i + 1] < 10 && m[s.i + 2] < 10
            &&& m[s.i as int] * 100 + m[s.i + 1] * 10 + m[s.i + 2] == s.v[x as int]
        }),
{
    let op = (0xF033 + x * 0x100) as u16;
    assert(chip::op_kind(op) == 0xF && chip::op_kk(op) == 0x33 && chip::op_x(op) == x);
}

/// `8XY4` with `X` other than `VF`: the sum is kept modulo 256 and the carry
/// in `VF` makes up the difference.
pub proof fn lemma_add_with_carry(s: Chip8State, x: u16, y: u16, r: u8)
    requires
        s.well_sized(),
        x < 15,
        y < 16,
    ensures
        ({
            let t = chip::step(s, (0x8004 + x * 0x100 + y * 0x10) as u16, r);
            t.v[x as int] + 256 * t.v[15] == s.v[x as int] + s.v[y as int]
        }),
{
    let op = (0x8004 + x * 0x100 + y * 0x10) as u16;
    assert(chip::op_kind(op) == 8 && chip::op_n(op) == 4 && chip::op_x(op) == x && chip::op_y(op) == y);
}

/// `8XY5` with `X` other than `VF`: `VF` is 1 when no borrow occurs, and the
/// difference is kept modulo 256.
pub proof fn lemma_subtract_with_borrow(s: Chip8State, x: u16, y: u16, r: u8)
    requires
        s.well_sized(),
        x < 15,
        y < 16,
    ensures
        ({
            let t = chip::step(s, (0x8005 + x * 0x100 + y * 0x10) as u16, r);
            t.v[x as int] == s.v[x as int] - s.v[y as int] + 256 * (1 - t.v[15])
        }),
{
    let op = (0x8005 + x * 0x100 + y * 0x10) as u16;
    assert(chip::op_kind(op) == 8 && chip::op_n(op) == 5 && chip::op_x(op) == x && chip::op_y(op) == y);
}

/// `FX29` points `I` at the font glyph of the digit in `VX`.
pub proof fn lemma_font_glyph_address(s: Chip8State, x: u16, r: u8)
    requires
        s.well_sized(),
        x < 16,
        s.v[x as int] < 16,
        s.memory.take(80) == chip::font_spec(),
    ensures
        ({
            let t = chip::step(s, (0xF029 + x * 0x100) as u16, r);
            &&& t.i + 5 <= 80
            &&& t.memory.subrange(t.i as int, t.i + 5) == chip::font_spec().subrange(
                5 * s.v[x as int],
                5 * s.v[x as int] + 5,
            )
        }),
{
    let op = (0xF029 + x * 0x100) as u16;
    assert(chip::op_kind(op) == 0xF && chip::op_kk(op) == 0x29 && chip::op_x(op) == x);
    let t = chip::step(s, op, r);
    assert(t.memory == s.memory);
    assert(t.memory.subrange(t.i as int, t.i + 5) =~= chip::font_spec().subrange(
        5 * s.v[x as int],
        5 * s.v[x as int] + 5,
    )) by {
        assert forall|j: int| 0 <= j < 5 implies #[trigger] t.memory[t.i + j] == chip::font_spec()[5
            * s.v[x as int] + j] by {
            assert(s.memory.take(80)[t.i + j] == s.memory[t.i + j]);
        }
    }
}

/// `FX0A` with no key down puts the program counter back on itself, so the
/// next cycle fetches and executes it again: the machine waits.
pub proof fn lemma_wait_for_key_repeats(s: Chip8State, x: u16, r: u8)
    requires
        s.well_sized(),
        x < 16,
        s.pc + 1 < 4096,
        s.word_at(s.pc as int) == 0xF00A + x * 0x100,
        !chip::any_key_down(s.keys),
    ensures
        ({
            let fetched = Chip8State { pc: (s.pc + 2) as u16, ..s };
            &&& chip::can_execute(fetched, s.word_at(s.pc as int))
            &&& chip::step(fetched, s.word_at(s.pc as int), r) == s
        }),
{
    let op = (0xF00A + x * 0x100) as u16;
    assert(chip::op_kind(op) == 0xF && chip::op_kk(op) == 0x0A && chip::op_x(op) == x);
    let fetched = Chip8State { pc: (s.pc + 2) as u16, ..s };
    assert(chip::step(fetched, op, r) =~= s);
}

/// A freshly created machine that has loaded a program of at least two bytes
/// fetches the program's first instruction first.
pub proof fn lemma_first_fetch_reads_program(rom: Seq<u8>)
    requires
        2 <= rom.len() <= 4096 - 0x200,
    ensures
        ({
            let s = Chip8State { memory: chip::with_rom(chip::initial_state().memory, rom), ..chip::initial_state() };
            s.word_at(s.pc as int) == rom[0] * 256 + rom[1]
        }),
{
}


/// `DXYN` sets `VF` to 1 exactly when some pixel that was lit before the
/// drawing is dark after it, whichever row of the sprite turned it off, and
/// to 0 when no lit pixel was turned off.
pub proof fn lemma_draw_flag_reports_erased_pixel(s: Chip8State, op: u16, r: u8)
    requires
        s.well_sized(),
        chip::op_kind(op) == 0xD,
        chip::can_execute(s, op),
    ensures
        ({
            let t = chip::step(s, op, r);
            &&& t.display.len() == 2048
            &&& t.v[15] == (if exists|k: int|
                0 <= k < 2048 && s.display[k] && !#[trigger] t.display[k] {
                1u8
            } else {
                0u8
            })
        }),
{
    let t = chip::step(s, op, r);
    assert(t == chip::draw_step(s, op));
    if chip::draw_collides(s, op) {
        let k = choose|k: int| 0 <= k < 2048 && s.display[k] && #[trigger] chip::covers_cell(s, op, k);
        assert(!t.display[k]);
    } else {
        assert forall|k: int| 0 <= k < 2048 && s.display[k] implies #[trigger] t.display[k] by {
            assert(!chip::covers_cell(s, op, k));
        }
    }
}

/// `8XY6` with `X` other than `VF` halves `VX` and puts the bit that was
/// shifted out, the lowest bit of `VX`, into `VF`.
pub proof fn lemma_shift_right_keeps_low_bit(s: Chip8State, x: u16, y: u16, r: u8)
    requires
        s.well_sized(),
        x < 15,
        y < 16,
    ensures
        ({
            let t = chip::step(s, (0x8006 + x * 0x100 + y * 0x10) as u16, r);
            &&& t.v[15] <= 1
            &&& 2 * t.v[x as int] + t.v[15] == s.v[x as int]
        }),
{
    let op = (0x8006 + x * 0x100 + y * 0x10) as u16;
    assert(chip::op_kind(op) == 8 && chip::op_n(op) == 6 && chip::op_x(op) == x && chip::op_y(op) == y);
}

/// `8XYE` with `X` other than `VF` doubles `VX` modulo 256 and puts the bit
/// that was shifted out, the highest bit of `VX`, into `VF`.
pub proof fn lemma_shift_left_keeps_high_bit(s: Chip8State, x: u16, y: u16, r: u8)
    requires
        s.well_sized(),
        x < 15,
        y < 16,
    ensures
        ({
            let t = chip::step(s, (0x800E + x * 0x100 + y * 0x10) as u16, r);
            &&& t.v[15] <= 1
            &&& t.v[x as int] + 256 * t.v[15] == 2 * s.v[x as int]
        }),
{
    let op = (0x800E + x * 0x100 + y * 0x10) as u16;
    assert(chip::op_kind(op) == 8 && chip::op_n(op) == 0xE && chip::op_x(op) == x && chip::op_y(op) == y);
}

/// `8XY7` with `X` other than `VF`: `VX` becomes `VY - VX` modulo 256, and
/// `VF` is 1 when no borrow occurs.
pub proof fn lemma_reverse_subtract_with_borrow(s: Chip8State, x: u16, y: u16, r: u8)
    requires
        s.well_sized(),
        x < 15,
        y < 16,
    ensures
        ({
            let t = chip::step(s, (0x8007 + x * 0x100 + y * 0x10) as u16, r);
            &&& t.v[15] <= 1
            &&& t.v[x as int] == s.v[y as int] - s.v[x as int] + 256 * (1 - t.v[15])
        }),
{
    let op = (0x8007 + x * 0x100 + y * 0x10) as u16;
    assert(chip::op_kind(op) == 8 && chip::op_n(op) == 7 && chip::op_x(op) == x && chip::op_y(op) == y);
}

/// Every register instruction `8XYN`, with `N` from 0 to 7 or `E`, can be
/// executed in any state.
pub proof fn lemma_register_instructions_execute(s: Chip8State, x: u16, y: u16, n: u16)
    requires
        s.well_sized(),
        x < 16,
        y < 16,
        n <= 7 || n == 0xE,
    ensures
        chip::can_execute(s, (0x8000 + x * 0x100 + y * 0x10 + n) as u16),
{
    let op = (0x8000 + x * 0x100 + y * 0x10 + n) as u16;
    assert(chip::op_kind(op) == 8 && chip::op_n(op) == n && chip::op_x(op) == x && chip::op_y(op) == y);
}

/// The instructions that read nothing that could be out of range (clearing
/// the screen, jumps, loading and adding constants, setting `I`, random
/// numbers, and reading or setting the timers and the font address) can be
/// executed in any state.
pub proof fn lemma_plain_instructions_execute(s: Chip8State, x: u16, kk: u16, nnn: u16)
    requires
        s.well_sized(),
        x < 16,
        kk < 0x100,
        nnn < 0x1000,
    ensures
        chip::can_execute(s, 0x00E0),
        chip::can_execute(s, (0x1000 + nnn) as u16),
        chip::can_execute(s, (0x6000 + x * 0x100 + kk) as u16),
        chip::can_execute(s, (0x7000 + x * 0x100 + kk) as u16),
        chip::can_execute(s, (0xA000 + nnn) as u16),
        chip::can_execute(s, (0xB000 + nnn) as u16),
        chip::can_execute(s, (0xC000 + x * 0x100 + kk) as u16),
        chip::can_execute(s, (0xF007 + x * 0x100) as u16),
        chip::can_execute(s, (0xF015 + x * 0x100) as u16),
        chip::can_execute(s, (0xF018 + x * 0x100) as u16),
        chip::can_execute(s, (0xF029 + x * 0x100) as u16),
{
    let jp = (0x1000 + nnn) as u16;
    let ld = (0x6000 + x * 0x100 + kk) as u16;
    let add = (0x7000 + x * 0x100 + kk) as u16;
    let ldi = (0xA000 + nnn) as u16;
    let jpv = (0xB000 + nnn) as u16;
    let rnd = (0xC000 + x * 0x100 + kk) as u16;
    assert(chip::op_kind(jp) == 1 && chip::op_kind(ld) == 6 && chip::op_kind(add) == 7);
    assert(chip::op_kind(ldi) == 0xA && chip::op_kind(jpv) == 0xB && chip::op_kind(rnd) == 0xC);
    let f07 = (0xF007 + x * 0x100) as u16;
    let f15 = (0xF015 + x * 0x100) as u16;
    let f18 = (0xF018 + x * 0x100) as u16;
    let f29 = (0xF029 + x * 0x100) as u16;
    assert(chip::op_kind(f07) == 0xF && chip::op_kk(f07) == 0x07);
    assert(chip::op_kind(f15) == 0xF && chip::op_kk(f15) == 0x15);
    assert(chip::op_kind(f18) == 0xF && chip::op_kk(f18) == 0x18);
    assert(chip::op_kind(f29) == 0xF && chip::op_kk(f29) == 0x29);
}

/// A cycle whose program counter addresses a register instruction `8XYN`,
/// with `N` from 0 to 7 or `E`, succeeds and moves on to the next instruction.
pub proof fn lemma_cycle_runs_register_instruction(s: Chip8State, r: u8)
    requires
        s.well_sized(),
        s.pc + 1 < 4096,
        s.memory[s.pc as int] / 16 == 8,
        s.memory[s.pc + 1] % 16 <= 7 || s.memory[s.pc + 1] % 16 == 0xE,
    ensures
        chip::cycle_spec(s, r).0 == Ok::<(), chip::Fault>(()),
        chip::cycle_spec(s, r).1.pc == s.pc + 2,
{
    let op = s.word_at(s.pc as int);
    let hi = s.memory[s.pc as int];
    let lo = s.memory[s.pc + 1];
    assert(op == hi * 256 + lo);
    assert(chip::op_kind(op) == hi / 16) by (nonlinear_arith)
        requires op == hi * 256 + lo, hi < 256, lo < 256;
    assert(chip::op_n(op) == lo % 16) by (nonlinear_arith)
        requires op == hi * 256 + lo, hi < 256, lo < 256;
    let fetched = Chip8State { pc: (s.pc + 2) as u16, ..s };
    assert(chip::can_execute(fetched, op));
}

/// `3XKK` skips the next instruction exactly when `VX` equals `KK`, and
/// changes nothing else.
pub proof fn lemma_skip_if_equal(s: Chip8State, x: u16, kk: u8, r: u8)
    requires
        s.well_sized(),
        x < 16,
        s.pc + 2 <= 0xFFFF,
    ensures
        chip::can_execute(s, (0x3000 + x * 0x100 + kk) as u16),
        chip::step(s, (0x3000 + x * 0x100 + kk) as u16, r).pc == (if s.v[x as int] == kk {
            s.pc + 2
        } else {
            s.pc as int
        }),
        chip::step(s, (0x3000 + x * 0x100 + kk) as u16, r) == (Chip8State {
            pc: chip::step(s, (0x3000 + x * 0x100 + kk) as u16, r).pc,
            ..s
        }),
{
    let op = (0x3000 + x * 0x100 + kk) as u16;
    assert(chip::op_kind(op) == 3 && chip::op_x(op) == x && chip::op_kk(op) == kk);
}

/// `4XKK` skips the next instruction exactly when `VX` differs from `KK`,
/// and changes nothing else.
pub proof fn lemma_skip_if_not_equal(s: Chip8State, x: u16, kk: u8, r: u8)
    requires
        s.well_sized(),
        x < 16,
        s.pc + 2 <= 0xFFFF,
    ensures
        chip::can_execute(s, (0x4000 + x * 0x100 + kk) as u16),
        chip::step(s, (0x4000 + x * 0x100 + kk) as u16, r).pc == (if s.v[x as int] != kk {
            s.pc + 2
        } else {
            s.pc as int
        }),
        chip::step(s, (0x4000 + x * 0x100 + kk) as u16, r) == (Chip8State {
            pc: chip::step(s, (0x4000 + x * 0x100 + kk) as u16, r).pc,
            ..s
        }),
{
    let op = (0x4000 + x * 0x100 + kk) as u16;
    assert(chip::op_kind(op) == 4 && chip::op_x(op) == x && chip::op_kk(op) == kk);
}

/// `5XY0` skips the next instruction exactly when `VX` equals `VY`, and
/// changes nothing else.
pub proof fn lemma_skip_if_registers_equal(s: Chip8State, x: u16, y: u16, r: u8)
    requires
        s.well_sized(),
        x < 16,
        y < 16,
        s.pc + 2 <= 0xFFFF,
    ensures
        chip::can_execute(s, (0x5000 + x * 0x100 + y * 0x10) as u16),
        chip::step(s, (0x5000 + x * 0x100 + y * 0x10) as u16, r).pc == (if s.v[x as int]
            == s.v[y as int] {
            s.pc + 2
        } else {
            s.pc as int
        }),
        chip::step(s, (0x5000 + x * 0x100 + y * 0x10) as u16, r) == (Chip8State {
            pc: chip::step(s, (0x5000 + x * 0x100 + y * 0x10) as u16, r).pc,
            ..s
        }),
{
    let op = (0x5000 + x * 0x100 + y * 0x10) as u16;
    assert(chip::op_kind(op) == 5 && chip::op_x(op) == x && chip::op_y(op) == y && chip::op_n(op) == 0);
}

/// `9XY0` skips the next instruction exactly when `VX` differs from `VY`,
/// and changes nothing else.
pub proof fn lemma_skip_if_registers_differ(s: Chip8State, x: u16, y: u16, r: u8)
    requires
        s.well_sized(),
        x < 16,
        y < 16,
        s.pc + 2 <= 0xFFFF,
    ensures
        chip::can_execute(s, (0x9000 + x * 0x100 + y * 0x10) as u16),
        chip::step(s, (0x9000 + x * 0x100 + y * 0x10) as u16, r).pc == (if s.v[x as int]
            != s.v[y as int] {
            s.pc + 2
        } else {
            s.pc as int
        }),
        chip::step(s, (0x9000 + x * 0x100 + y * 0x10) as u16, r) == (Chip8State {
            pc: chip::step(s, (0x9000 + x * 0x100 + y * 0x10) as u16, r).pc,
            ..s
        }),
{
    let op = (0x9000 + x * 0x100 + y * 0x10) as u16;
    assert(chip::op_kind(op) == 9 && chip::op_x(op) == x && chip::op_y(op) == y && chip::op_n(op) == 0);
}

/// `EX9E` skips the next instruction exactly when the key numbered `VX` is
/// down, and `EXA1` exactly when it is up; neither changes anything else.
pub proof fn lemma_skip_on_key(s: Chip8State, x: u16, r: u8)
    requires
        s.well_sized(),
        x < 16,
        s.v[x as int] < 16,
        s.pc + 2 <= 0xFFFF,
    ensures
        chip::can_execute(s, (0xE09E + x * 0x100) as u16),
        chip::can_execute(s, (0xE0A1 + x * 0x100) as u16),
        chip::step(s, (0xE09E + x * 0x100) as u16, r).pc == (if s.keys[s.v[x as int] as int] {
            s.pc + 2
        } else {
            s.pc as int
        }),
        chip::step(s, (0xE0A1 + x * 0x100) as u16, r).pc == (if !s.keys[s.v[x as int] as int] {
            s.pc + 2
        } else {
            s.pc as int
        }),
        chip::step(s, (0xE09E + x * 0x100) as u16, r) == (Chip8State {
            pc: chip::step(s, (0xE09E + x * 0x100) as u16, r).pc,
            ..s
        }),
        chip::step(s, (0xE0A1 + x * 0x100) as u16, r) == (Chip8State {
            pc: chip::step(s, (0xE0A1 + x * 0x100) as u16, r).pc,
            ..s
        }),
{
    let down = (0xE09E + x * 0x100) as u16;
    let up = (0xE0A1 + x * 0x100) as u16;
    assert(chip::op_kind(down) == 0xE && chip::op_x(down) == x && chip::op_kk(down) == 0x9E);
    assert(chip::op_kind(up) == 0xE && chip::op_x(up) == x && chip::op_kk(up) == 0xA1);
}

/// `DXYN` flips the pixel under column `col` of row `row` of the sprite
/// exactly when that bit of the sprite byte `memory[I + row]`, counted from
/// the most significant bit, is set; the sprite starts at `(VX mod 64,
/// VY mod 32)` and pixels past the right or bottom edge are clipped.
pub proof fn lemma_draw_flips_sprite_pixel(s: Chip8State, op: u16, r: u8, row: int, col: int)
    requires
        s.well_sized(),
        chip::op_kind(op) == 0xD,
        chip::can_execute(s, op),
        0 <= row < chip::op_n(op),
        0 <= col < 8,
        s.v[chip::op_y(op)] % 32 + row < 32,
        s.v[chip::op_x(op)] % 64 + col < 64,
    ensures
        ({
            let t = chip::step(s, op, r);
            let k = (s.v[chip::op_y(op)] % 32 + row) * 64 + s.v[chip::op_x(op)] % 64 + col;
            &&& 0 <= k < 2048
            &&& t.display[k] == (s.display[k] != (((s.memory[s.i + row] >> ((7 - col) as u8))
                & 1u8) == 1u8))
        }),
{
    let xp = (s.v[chip::op_x(op)] % 64) as int;
    let yp = (s.v[chip::op_y(op)] % 32) as int;
    let k = (yp + row) * 64 + xp + col;
    assert(0 <= k < 2048 && k / 64 == yp + row && k % 64 == xp + col) by (nonlinear_arith)
        requires
            k == (yp + row) * 64 + xp + col,
            0 <= yp + row < 32,
            0 <= xp + col < 64,
            0 <= xp,
            0 <= col,
    ;
    assert(chip::step(s, op, r) == chip::draw_step(s, op));
}

/// `DXYN` leaves every pixel outside the sprite's rectangle as it was: the
/// sprite does not wrap around the edges of the display.
pub proof fn lemma_draw_keeps_other_pixels(s: Chip8State, op: u16, r: u8, k: int)
    requires
        s.well_sized(),
        chip::op_kind(op) == 0xD,
        chip::can_execute(s, op),
        0 <= k < 2048,
        !(s.v[chip::op_y(op)] % 32 <= k / 64 < s.v[chip::op_y(op)] % 32 + chip::op_n(op)
            && s.v[chip::op_x(op)] % 64 <= k % 64 < s.v[chip::op_x(op)] % 64 + 8),
    ensures
        chip::step(s, op, r).display[k] == s.display[k],
{
    assert(chip::step(s, op, r) == chip::draw_step(s, op));
    assert(!chip::covers_cell(s, op, k));
}

/// `8XY0` copies `VY` into `VX`; `8XY1`, `8XY2` and `8XY3` combine them with
/// OR, AND and XOR and clear `VF`. Only `VX` and `VF` change.
pub proof fn lemma_register_logic(s: Chip8State, x: u16, y: u16, r: u8)
    requires
        s.well_sized(),
        x < 15,
        y < 16,
    ensures
        chip::step(s, (0x8000 + x * 0x100 + y * 0x10) as u16, r) == (Chip8State {
            v: s.v.update(x as int, s.v[y as int]),
            ..s
        }),
        chip::step(s, (0x8001 + x * 0x100 + y * 0x10) as u16, r) == (Chip8State {
            v: s.v.update(x as int, s.v[x as int] | s.v[y as int]).update(15, 0),
            ..s
        }),
        chip::step(s, (0x8002 + x * 0x100 + y * 0x10) as u16, r) == (Chip8State {
            v: s.v.update(x as int, s.v[x as int] & s.v[y as int]).update(15, 0),
            ..s
        }),
        chip::step(s, (0x8003 + x * 0x100 + y * 0x10) as u16, r) == (Chip8State {
            v: s.v.update(x as int, s.v[x as int] ^ s.v[y as int]).update(15, 0),
            ..s
        }),
{
    let o0 = (0x8000 + x * 0x100 + y * 0x10) as u16;
    let o1 = (0x8001 + x * 0x100 + y * 0x10) as u16;
    let o2 = (0x8002 + x * 0x100 + y * 0x10) as u16;
    let o3 = (0x8003 + x * 0x100 + y * 0x10) as u16;
    assert(chip::op_kind(o0) == 8 && chip::op_n(o0) == 0 && chip::op_x(o0) == x && chip::op_y(o0) == y);
    assert(chip::op_kind(o1) == 8 && chip::op_n(o1) == 1 && chip::op_x(o1) == x && chip::op_y(o1) == y);
    assert(chip::op_kind(o2) == 8 && chip::op_n(o2) == 2 && chip::op_x(o2) == x && chip::op_y(o2) == y);
    assert(chip::op_kind(o3) == 8 && chip::op_n(o3) == 3 && chip::op_x(o3) == x && chip::op_y(o3) == y);
}

/// The effects of the plain instructions: `00E0` darkens every pixel,
/// `1NNN` jumps to `NNN`, `6XKK` loads `KK`, `7XKK` adds `KK` modulo 256
/// without touching `VF`, `ANNN` loads `I`, `BNNN` jumps to `NNN + V0`, and
/// `CXKK` loads the random byte masked with `KK`.
pub proof fn lemma_plain_instruction_effects(s: Chip8State, x: u16, kk: u8, nnn: u16, r: u8)
    requires
        s.well_sized(),
        x < 16,
        nnn < 0x1000,
    ensures
        chip::step(s, 0x00E0, r) == (Chip8State { display: Seq::new(2048, |k: int| false), ..s }),
        chip::step(s, (0x1000 + nnn) as u16, r) == (Chip8State { pc: nnn, ..s }),
        chip::step(s, (0x6000 + x * 0x100 + kk) as u16, r) == (Chip8State {
            v: s.v.update(x as int, kk),
            ..s
        }),
        chip::step(s, (0x7000 + x * 0x100 + kk) as u16, r) == (Chip8State {
            v: s.v.update(x as int, ((s.v[x as int] + kk) % 256) as u8),
            ..s
        }),
        chip::step(s, (0xA000 + nnn) as u16, r) == (Chip8State { i: nnn, ..s }),
        chip::step(s, (0xB000 + nnn) as u16, r) == (Chip8State { pc: (nnn + s.v[0]) as u16, ..s }),
        nnn + s.v[0] <= 0xFFFF,
        chip::step(s, (0xC000 + x * 0x100 + kk) as u16, r) == (Chip8State {
            v: s.v.update(x as int, r & kk),
            ..s
        }),
{
    let jp = (0x1000 + nnn) as u16;
    let ld = (0x6000 + x * 0x100 + kk) as u16;
    let add = (0x7000 + x * 0x100 + kk) as u16;
    let ldi = (0xA000 + nnn) as u16;
    let jpv = (0xB000 + nnn) as u16;
    let rnd = (0xC000 + x * 0x100 + kk) as u16;
    assert(chip::op_kind(jp) == 1 && chip::op_nnn(jp) == nnn);
    assert(chip::op_kind(ld) == 6 && chip::op_x(ld) == x && chip::op_kk(ld) == kk);
    assert(chip::op_kind(add) == 7 && chip::op_x(add) == x && chip::op_kk(add) == kk);
    assert(chip::op_kind(ldi) == 0xA && chip::op_nnn(ldi) == nnn);
    assert(chip::op_kind(jpv) == 0xB && chip::op_nnn(jpv) == nnn);
    assert(chip::op_kind(rnd) == 0xC && chip::op_x(rnd) == x && chip::op_kk(rnd) == kk);
}

/// `2NNN` saves the return address on top of the stack and jumps to `NNN`.
pub proof fn lemma_call_pushes_return_address(s: Chip8State, nnn: u16, r: u8)
    requires
        s.well_sized(),
        nnn < 0x1000,
        s.sp < 16,
    ensures
        chip::can_execute(s, (0x2000 + nnn) as u16),
        chip::step(s, (0x2000 + nnn) as u16, r) == (Chip8State {
            stack: s.stack.update(s.sp as int, s.pc),
            sp: (s.sp + 1) as u8,
            pc: nnn,
            ..s
        }),
{
    let op = (0x2000 + nnn) as u16;
    assert(chip::op_kind(op) == 2 && chip::op_nnn(op) == nnn);
}

/// `FX07` reads the delay timer into `VX`, `FX15` and `FX18` set the delay
/// and sound timers from `VX`, `FX1E` adds `VX` to `I`, and `FX29` points
/// `I` at the five-byte glyph of `VX`.
pub proof fn lemma_timer_and_index_effects(s: Chip8State, x: u16, r: u8)
    requires
        s.well_sized(),
        x < 16,
        s.i + s.v[x as int] <= 0xFFFF,
    ensures
        chip::can_execute(s, (0xF01E + x * 0x100) as u16),
        chip::step(s, (0xF007 + x * 0x100) as u16, r) == (Chip8State {
            v: s.v.update(x as int, s.dt),
            ..s
        }),
        chip::step(s, (0xF015 + x * 0x100) as u16, r) == (Chip8State { dt: s.v[x as int], ..s }),
        chip::step(s, (0xF018 + x * 0x100) as u16, r) == (Chip8State { st: s.v[x as int], ..s }),
        chip::step(s, (0xF01E + x * 0x100) as u16, r) == (Chip8State {
            i: (s.i + s.v[x as int]) as u16,
            ..s
        }),
        chip::step(s, (0xF029 + x * 0x100) as u16, r) == (Chip8State {
            i: (s.v[x as int] * 5) as u16,
            ..s
        }),
{
    let f07 = (0xF007 + x * 0x100) as u16;
    let f15 = (0xF015 + x * 0x100) as u16;
    let f18 = (0xF018 + x * 0x100) as u16;
    let f1e = (0xF01E + x * 0x100) as u16;
    let f29 = (0xF029 + x * 0x100) as u16;
    assert(chip::op_kind(f07) == 0xF && chip::op_kk(f07) == 0x07 && chip::op_x(f07) == x);
    assert(chip::op_kind(f15) == 0xF && chip::op_kk(f15) == 0x15 && chip::op_x(f15) == x);
    assert(chip::op_kind(f18) == 0xF && chip::op_kk(f18) == 0x18 && chip::op_x(f18) == x);
    assert(chip::op_kind(f1e) == 0xF && chip::op_kk(f1e) == 0x1E && chip::op_x(f1e) == x);
    assert(chip::op_kind(f29) == 0xF && chip::op_kk(f29) == 0x29 && chip::op_x(f29) == x);
}

/// `FX0A` with a key down stores the lowest-numbered key that is down in
/// `VX` and moves on.
pub proof fn lemma_wait_for_key_takes_lowest(s: Chip8State, x: u16, key: int, r: u8)
    requires
        s.well_sized(),
        x < 16,
        0 <= key < 16,
        s.keys[key],
        forall|j: int| 0 <= j < key ==> !#[trigger] s.keys[j],
    ensures
        chip::can_execute(s, (0xF00A + x * 0x100) as u16),
        chip::step(s, (0xF00A + x * 0x100) as u16, r) == (Chip8State {
            v: s.v.update(x as int, key as u8),
            ..s
        }),
{
    let op = (0xF00A + x * 0x100) as u16;
    assert(chip::op_kind(op) == 0xF && chip::op_kk(op) == 0x0A && chip::op_x(op) == x);
    assert(chip::any_key_down(s.keys));
    let k = choose|k: int| chip::is_first_key_down(s.keys, k);
    assert(chip::is_first_key_down(s.keys, key));
    if k < key {
        assert(!s.keys[k]);
    } else if key < k {
        assert(!s.keys[key]);
    }
}

/// `FX55` writes `V0..VX` to `memory[I..=I + X]` and no other byte; `FX65`
/// reads `V0..VX` back from there and changes no other register.
pub proof fn lemma_register_transfers(s: Chip8State, x: u16, r: u8, a: int, reg: int)
    requires
        s.well_sized(),
        x < 16,
        s.i + x < 4096,
        0 <= a < 4096,
        0 <= reg < 16,
    ensures
        chip::can_execute(s, (0xF055 + x * 0x100) as u16),
        chip::can_execute(s, (0xF065 + x * 0x100) as u16),
        chip::step(s, (0xF055 + x * 0x100) as u16, r).memory[a] == (if s.i <= a <= s.i + x {
            s.v[a - s.i]
        } else {
            s.memory[a]
        }),
        chip::step(s, (0xF065 + x * 0x100) as u16, r).v[reg] == (if reg <= x {
            s.memory[s.i + reg]
        } else {
            s.v[reg]
        }),
{
    let store = (0xF055 + x * 0x100) as u16;
    let load = (0xF065 + x * 0x100) as u16;
    assert(chip::op_kind(store) == 0xF && chip::op_kk(store) == 0x55 && chip::op_x(store) == x);
    assert(chip::op_kind(load) == 0xF && chip::op_kk(load) == 0x65 && chip::op_x(load) == x);
}

} // verus!
