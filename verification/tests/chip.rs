use chip8::chip::{Chip8, Fault};

const FONT_ZERO: [u8; 5] = [0xF0, 0x90, 0x90, 0x90, 0xF0];

fn machine_with(program: &[u8]) -> Chip8 {
    let mut c = Chip8::new();
    c.load_rom(program);
    c
}

#[test]
fn new_machine_state() {
    let c = Chip8::new();
    assert_eq!(c.pc, 0x200);
    assert_eq!(c.sp, 0);
    assert_eq!(c.i, 0);
    assert_eq!(&c.memory[0..5], &FONT_ZERO);
    assert_eq!(&c.memory[75..80], &[0xF0, 0x80, 0xF0, 0x80, 0x80]);
    assert!(c.memory[80..].iter().all(|&b| b == 0));
    assert!(c.display.iter().all(|&p| !p));
    assert!(c.v.iter().all(|&r| r == 0));
    assert!(c.keys.iter().all(|&k| !k));
}

#[test]
fn load_fonts_overwrites_only_the_font_area() {
    let mut c = Chip8::new();
    c.memory[0] = 0;
    c.memory[80] = 9;
    c.load_fonts();
    assert_eq!(c.memory[0], 0xF0);
    assert_eq!(c.memory[80], 9);
}

#[test]
fn load_rom_and_fetch() {
    let mut c = machine_with(&[0x12, 0x34, 0xAB, 0xCD]);
    assert_eq!(c.memory[0x200], 0x12);
    assert_eq!(c.fetch(), 0x1234);
    assert_eq!(c.pc, 0x202);
    assert_eq!(c.fetch(), 0xABCD);
    assert_eq!(c.pc, 0x204);
}

#[test]
fn full_size_rom_fits() {
    let rom = vec![7u8; 4096 - 0x200];
    let c = machine_with(&rom);
    assert_eq!(c.memory[4095], 7);
}

#[test]
fn clear_jump_call_return() {
    let mut c = Chip8::new();
    c.display[5] = true;
    c.execute(0x00E0);
    assert!(c.display.iter().all(|&p| !p));
    c.execute(0x1ABC);
    assert_eq!(c.pc, 0xABC);
    c.execute(0x2300);
    assert_eq!(c.pc, 0x300);
    assert_eq!(c.sp, 1);
    assert_eq!(c.stack[0], 0xABC);
    c.execute(0x00EE);
    assert_eq!(c.pc, 0xABC);
    assert_eq!(c.sp, 0);
}

#[test]
fn conditional_skips() {
    let mut c = Chip8::new();
    c.v[1] = 5;
    c.v[2] = 5;
    c.execute(0x3105);
    assert_eq!(c.pc, 0x202);
    c.execute(0x3106);
    assert_eq!(c.pc, 0x202);
    c.execute(0x4106);
    assert_eq!(c.pc, 0x204);
    c.execute(0x5120);
    assert_eq!(c.pc, 0x206);
    c.execute(0x9120);
    assert_eq!(c.pc, 0x206);
    c.v[2] = 6;
    c.execute(0x9120);
    assert_eq!(c.pc, 0x208);
}

#[test]
fn load_and_add_immediate() {
    let mut c = Chip8::new();
    c.execute(0x63FE);
    assert_eq!(c.v[3], 0xFE);
    c.execute(0x7303);
    assert_eq!(c.v[3], 0x01);
    assert_eq!(c.v[0xF], 0, "7XKK leaves VF alone");
}

#[test]
fn alu_operations() {
    let mut c = Chip8::new();
    c.v[1] = 0b1100;
    c.v[2] = 0b1010;
    c.v[0xF] = 7;
    c.execute(0x8121);
    assert_eq!(c.v[1], 0b1110);
    assert_eq!(c.v[0xF], 0);
    c.v[1] = 0b1100;
    c.execute(0x8122);
    assert_eq!(c.v[1], 0b1000);
    c.v[1] = 0b1100;
    c.execute(0x8123);
    assert_eq!(c.v[1], 0b0110);
    c.execute(0x8120);
    assert_eq!(c.v[1], 0b1010);

    c.v[1] = 200;
    c.v[2] = 100;
    c.execute(0x8124);
    assert_eq!((c.v[1], c.v[0xF]), (44, 1));
    c.v[1] = 10;
    c.execute(0x8124);
    assert_eq!((c.v[1], c.v[0xF]), (110, 0));

    c.v[1] = 10;
    c.execute(0x8125);
    assert_eq!((c.v[1], c.v[0xF]), (166, 0));
    c.v[1] = 150;
    c.execute(0x8125);
    assert_eq!((c.v[1], c.v[0xF]), (50, 1));

    c.v[1] = 10;
    c.execute(0x8127);
    assert_eq!((c.v[1], c.v[0xF]), (90, 1));
    c.v[1] = 150;
    c.execute(0x8127);
    assert_eq!((c.v[1], c.v[0xF]), (206, 0));

    c.v[1] = 0b1000_0011;
    c.execute(0x8126);
    assert_eq!((c.v[1], c.v[0xF]), (0b0100_0001, 1));
    c.v[1] = 0b1000_0011;
    c.execute(0x812E);
    assert_eq!((c.v[1], c.v[0xF]), (0b0000_0110, 1));
}

#[test]
fn flag_register_as_destination_ends_with_the_flag() {
    let mut c = Chip8::new();
    c.v[0xF] = 200;
    c.v[1] = 100;
    c.execute(0x8F14);
    assert_eq!(c.v[0xF], 1);
}

#[test]
fn index_and_jump_with_offset() {
    let mut c = Chip8::new();
    c.execute(0xA123);
    assert_eq!(c.i, 0x123);
    c.v[0] = 0x10;
    c.execute(0xB300);
    assert_eq!(c.pc, 0x310);
    c.v[4] = 0x20;
    c.execute(0xF41E);
    assert_eq!(c.i, 0x143);
    c.v[4] = 0xA;
    c.execute(0xF429);
    assert_eq!(c.i, 50);
}

#[test]
fn random_byte_is_masked() {
    let mut c = Chip8::new();
    for _ in 0..20 {
        c.execute(0xC50F);
        assert!(c.v[5] <= 0x0F);
    }
    c.execute(0xC500);
    assert_eq!(c.v[5], 0);
    c.execute_with_random_byte(0xC5F0, 0xAB);
    assert_eq!(c.v[5], 0xA0);
}

#[test]
fn draw_sprite_and_collision() {
    let mut c = Chip8::new();
    // glyph "0" at (0, 0)
    c.i = 0;
    c.execute(0xD005);
    assert_eq!(c.v[0xF], 0);
    assert!(c.display[0] && c.display[1] && c.display[2] && c.display[3]);
    assert!(!c.display[4]);
    assert!(c.display[64] && !c.display[65] && c.display[67]);
    // drawing again erases it and reports the collision
    c.execute(0xD005);
    assert_eq!(c.v[0xF], 1);
    assert!(c.display.iter().all(|&p| !p));
}

#[test]
fn draw_clips_at_the_edges_and_wraps_the_origin() {
    let mut c = Chip8::new();
    c.memory[0x300] = 0xFF;
    c.memory[0x301] = 0xFF;
    c.i = 0x300;
    c.v[1] = 60 + 64; // wraps to x = 60
    c.v[2] = 31 + 32; // wraps to y = 31
    c.execute(0xD122);
    let on: Vec<usize> = (0..2048).filter(|&k| c.display[k]).collect();
    assert_eq!(on, vec![31 * 64 + 60, 31 * 64 + 61, 31 * 64 + 62, 31 * 64 + 63]);
    assert_eq!(c.v[0xF], 0);
}

#[test]
fn keypad_skips_and_wait() {
    let mut c = Chip8::new();
    c.v[2] = 0xA;
    c.execute(0xE29E);
    assert_eq!(c.pc, 0x200);
    c.execute(0xE2A1);
    assert_eq!(c.pc, 0x202);
    c.set_key(0xA);
    c.execute(0xE29E);
    assert_eq!(c.pc, 0x204);
    c.execute(0xE2A1);
    assert_eq!(c.pc, 0x204);
    c.unset_key(0xA);
    assert!(!c.keys[0xA]);

    // FX0A with no key down rewinds the program counter
    c.execute(0xF30A);
    assert_eq!(c.pc, 0x202);
    c.set_key(9);
    c.set_key(4);
    c.execute(0xF30A);
    assert_eq!(c.v[3], 4);
    assert_eq!(c.pc, 0x202);
}

#[test]
fn timers() {
    let mut c = Chip8::new();
    c.v[1] = 3;
    c.execute(0xF115);
    c.execute(0xF118);
    assert_eq!((c.dt, c.st), (3, 3));
    c.st = 1;
    c.tick_timers();
    assert_eq!((c.dt, c.st), (2, 0));
    c.tick_timers();
    c.tick_timers();
    c.tick_timers();
    assert_eq!((c.dt, c.st), (0, 0));
    c.dt = 9;
    c.execute(0xF207);
    assert_eq!(c.v[2], 9);
}

#[test]
fn bcd_store_and_load_registers() {
    let mut c = Chip8::new();
    c.v[6] = 254;
    c.i = 0x400;
    c.execute(0xF633);
    assert_eq!(&c.memory[0x400..0x403], &[2, 5, 4]);
    for r in 0..16 {
        c.v[r] = (r as u8) * 3;
    }
    c.execute(0xF355);
    assert_eq!(&c.memory[0x400..0x405], &[0, 3, 6, 9, 0]);
    for r in 0..16 {
        c.v[r] = 0xEE;
    }
    c.execute(0xF265);
    assert_eq!(&c.v[0..4], &[0, 3, 6, 0xEE]);
    assert_eq!(c.i, 0x400);
}

#[test]
fn executability_checks() {
    let mut c = Chip8::new();
    assert!(c.is_executable(0x00E0));
    assert!(!c.is_executable(0x0123));
    assert!(!c.is_executable(0x00EE), "return with an empty stack");
    assert!(!c.is_executable(0x5121));
    assert!(!c.is_executable(0x8128));
    assert!(!c.is_executable(0xE1A2));
    assert!(!c.is_executable(0xF1FF));
    c.sp = 16;
    assert!(!c.is_executable(0x2200), "call with a full stack");
    c.v[1] = 16;
    assert!(!c.is_executable(0xE19E), "key out of range");
    c.i = 4095;
    assert!(!c.is_executable(0xD002));
    assert!(c.is_executable(0xD001));
    assert!(!c.is_executable(0xF033));
    assert!(!c.is_executable(0xF155));
    assert!(c.is_executable(0xF055));
    c.i = 0xFFFF;
    c.v[2] = 1;
    assert!(!c.is_executable(0xF21E));
    c.pc = 0;
    assert!(!c.is_executable(0xF00A), "waiting would rewind below zero");
    c.set_key(0);
    assert!(c.is_executable(0xF00A));
    c.pc = 0xFFFE;
    c.v[3] = 0;
    assert!(!c.is_executable(0x3300), "skip past the address space");
    assert!(c.is_executable(0x3301));
}

#[test]
fn cycle_runs_and_reports_faults() {
    let mut c = machine_with(&[0x60, 0x2A, 0x00, 0x00]);
    assert_eq!(c.cycle(), Ok(()));
    assert_eq!(c.v[0], 0x2A);
    assert_eq!(c.pc, 0x202);
    assert_eq!(c.cycle(), Err(Fault::CannotExecute(0x0000)));
    assert_eq!(c.pc, 0x204);
    c.pc = 4095;
    assert_eq!(c.cycle(), Err(Fault::PcOutOfRange(4095)));
    assert_eq!(c.pc, 4095);
}

#[test]
fn store_then_load_restores_registers() {
    let mut c = Chip8::new();
    c.i = 0x500;
    for r in 0..16 {
        c.v[r] = 100 + r as u8;
    }
    c.execute(0xFF55);
    let saved = c.v;
    let memory = c.memory;
    c.execute(0xFF65);
    assert_eq!(c.v, saved);
    assert_eq!(c.memory, memory);
}

#[test]
fn font_glyph_address_points_at_the_glyph() {
    let mut c = Chip8::new();
    c.v[7] = 0;
    c.execute(0xF729);
    assert_eq!(c.i, 0);
    assert_eq!(&c.memory[c.i as usize..c.i as usize + 5], &FONT_ZERO);
    c.v[7] = 0xF;
    c.execute(0xF729);
    assert_eq!(&c.memory[c.i as usize..c.i as usize + 5], &[0xF0, 0x80, 0xF0, 0x80, 0x80]);
}

#[test]
fn subtraction_borrow_identity() {
    for (a, b) in [(0u8, 0u8), (5, 7), (200, 13), (0, 255), (255, 0)] {
        let mut c = Chip8::new();
        c.v[1] = a;
        c.v[2] = b;
        c.execute(0x8125);
        let expected = a as i32 - b as i32 + 256 * (1 - c.v[0xF] as i32);
        assert_eq!(c.v[1] as i32, expected);
    }
}

#[test]
fn waiting_for_a_key_repeats_the_instruction() {
    let mut c = machine_with(&[0xF5, 0x0A]);
    for _ in 0..3 {
        assert_eq!(c.cycle(), Ok(()));
        assert_eq!(c.pc, 0x200);
    }
    c.set_key(6);
    assert_eq!(c.cycle(), Ok(()));
    assert_eq!((c.pc, c.v[5]), (0x202, 6));
}

#[test]
fn run_frame_executes_ten_instructions_then_ticks() {
    // ten `ADD V0, 1` (7001), then a fault
    let mut rom = Vec::new();
    for _ in 0..10 {
        rom.extend_from_slice(&[0x70, 0x01]);
    }
    let mut c = machine_with(&rom);
    c.dt = 5;
    c.st = 0;
    assert_eq!(c.run_frame(), Ok(()));
    assert_eq!(c.v[0], 10);
    assert_eq!(c.pc, 0x200 + 20);
    assert_eq!((c.dt, c.st), (4, 0));
    // the next frame faults on its first instruction and does not tick
    assert_eq!(c.run_frame(), Err(Fault::CannotExecute(0x0000)));
    assert_eq!(c.dt, 4);
}

#[test]
fn set_keys_replaces_the_keypad() {
    let mut c = Chip8::new();
    c.set_key(3);
    let mut down = [false; 16];
    down[0] = true;
    down[15] = true;
    c.set_keys(down);
    assert_eq!(c.keys, down);
    assert_eq!(c.pc, 0x200);
}
