//! The CHIP-8 virtual machine: memory, registers, display, keypad and the
//! interpreter for its instruction set.
use vstd::prelude::*;

verus! {

/// Bytes of addressable memory.
pub const MEMORY_SIZE: usize = 4096;

/// Width of the monochrome display, in pixels.
pub const DISPLAY_WIDTH: usize = 64;

/// Height of the monochrome display, in pixels.
pub const DISPLAY_HEIGHT: usize = 32;

/// Address at which programs are loaded and execution starts.
pub const PROGRAM_START: u16 = 0x200;

/// Number of bytes of the built-in font (16 glyphs of 5 bytes, one per hex digit).
pub const FONT_SIZE: usize = 80;

/// The built-in hexadecimal font: glyph `d` occupies bytes `5 * d .. 5 * d + 5`.
pub open spec fn font_spec() -> Seq<u8> {
    seq![
        0xF0u8, 0x90, 0x90, 0x90, 0xF0,  // 0
        0x20, 0x60, 0x20, 0x20, 0x70,  // 1
        0xF0, 0x10, 0xF0, 0x80, 0xF0,  // 2
        0xF0, 0x10, 0xF0, 0x10, 0xF0,  // 3
        0x90, 0x90, 0xF0, 0x10, 0x10,  // 4
        0xF0, 0x80, 0xF0, 0x10, 0xF0,  // 5
        0xF0, 0x80, 0xF0, 0x90, 0xF0,  // 6
        0xF0, 0x10, 0x20, 0x40, 0x40,  // 7
        0xF0, 0x90, 0xF0, 0x90, 0xF0,  // 8
        0xF0, 0x90, 0xF0, 0x10, 0xF0,  // 9
        0xF0, 0x90, 0xF0, 0x90, 0x90,  // A
        0xE0, 0x90, 0xE0, 0x90, 0xE0,  // B
        0xF0, 0x80, 0x80, 0x80, 0xF0,  // C
        0xE0, 0x90, 0x90, 0x90, 0xE0,  // D
        0xF0, 0x80, 0xF0, 0x80, 0xF0,  // E
        0xF0, 0x80, 0xF0, 0x80, 0x80,  // F
    ]
}

/// The machine: 4 KiB of memory, a 64x32 display, a 16-level call stack,
/// sixteen 8-bit registers `V0`..`VF`, the index register, the program
/// counter, the stack pointer, two timers and the state of the hex keypad.
pub struct Chip8 {
    pub memory: [u8; 4096],
    /// Pixel `(x, y)` is at index `y * 64 + x`.
    pub display: [bool; 2048],
    pub stack: [u16; 16],
    /// Registers V0–VF.
    pub v: [u8; 16],
    /// Index register.
    pub i: u16,
    /// Program counter.
    pub pc: u16,
    /// Stack pointer.
    pub sp: u8,
    /// Delay timer.
    pub dt: u8,
    /// Sound timer.
    pub st: u8,
    /// Hex keypad state.
    pub keys: [bool; 16],
}

/// The mathematical state of a [`Chip8`].
#[verifier::ext_equal]
pub struct Chip8State {
    pub memory: Seq<u8>,
    pub display: Seq<bool>,
    pub stack: Seq<u16>,
    pub v: Seq<u8>,
    pub i: u16,
    pub pc: u16,
    pub sp: u8,
    pub dt: u8,
    pub st: u8,
    pub keys: Seq<bool>,
}

impl View for Chip8 {
    type V = Chip8State;

    open spec fn view(&self) -> Chip8State {
        Chip8State {
            memory: self.memory@,
            display: self.display@,
            stack: self.stack@,
            v: self.v@,
            i: self.i,
            pc: self.pc,
            sp: self.sp,
            dt: self.dt,
            st: self.st,
            keys: self.keys@,
        }
    }
}

impl Chip8State {
    /// The sizes of the memory, display, stack, register file and keypad.
    pub open spec fn well_sized(self) -> bool {
        &&& self.memory.len() == 4096
        &&& self.display.len() == 2048
        &&& self.stack.len() == 16
        &&& self.v.len() == 16
        &&& self.keys.len() == 16
    }

    /// The big-endian 16-bit word stored at `addr`.
    pub open spec fn word_at(self, addr: int) -> u16 {
        (self.memory[addr] * 256 + self.memory[addr + 1]) as u16
    }
}

/// The state of a freshly created machine.
pub open spec fn initial_state() -> Chip8State {
    Chip8State {
        memory: Seq::new(4096, |a: int| if a < 80 { font_spec()[a] } else { 0u8 }),
        display: Seq::new(2048, |k: int| false),
        stack: Seq::new(16, |k: int| 0u16),
        v: Seq::new(16, |k: int| 0u8),
        i: 0,
        pc: 0x200,
        sp: 0,
        dt: 0,
        st: 0,
        keys: Seq::new(16, |k: int| false),
    }
}

// ---------------------------------------------------------------------------
// Decoding: the nibbles of an opcode `0xABCD` are A (kind), B (x), C (y), D (n).
// ---------------------------------------------------------------------------

/// The highest nibble: the instruction class.
pub open spec fn op_kind(op: u16) -> int {
    (op / 0x1000) as int
}

/// The second nibble: register `X`.
pub open spec fn op_x(op: u16) -> int {
    ((op / 0x100) % 0x10) as int
}

/// The third nibble: register `Y`.
pub open spec fn op_y(op: u16) -> int {
    ((op / 0x10) % 0x10) as int
}

/// The lowest nibble `N`.
pub open spec fn op_n(op: u16) -> int {
    (op % 0x10) as int
}

/// The lowest twelve bits: address `NNN`.
pub open spec fn op_nnn(op: u16) -> u16 {
    (op % 0x1000) as u16
}

/// The lowest byte: constant `KK`.
pub open spec fn op_kk(op: u16) -> u8 {
    (op % 0x100) as u8
}

/// The opcode belongs to the instruction set that the interpreter implements.
pub open spec fn is_known_opcode(op: u16) -> bool {
    let kind = op_kind(op);
    let n = op_n(op);
    let kk = op_kk(op);
    ||| op == 0x00E0
    ||| op == 0x00EE
    ||| 1 <= kind <= 4
    ||| kind == 5 && n == 0
    ||| kind == 6 || kind == 7
    ||| kind == 8 && (n <= 7 || n == 0xE)
    ||| kind == 9 && n == 0
    ||| 0xA <= kind <= 0xD
    ||| kind == 0xE && (kk == 0x9E || kk == 0xA1)
    ||| kind == 0xF && (kk == 0x07 || kk == 0x0A || kk == 0x15 || kk == 0x18 || kk == 0x1E
        || kk == 0x29 || kk == 0x33 || kk == 0x55 || kk == 0x65)
}

/// Some key of the keypad is down.
pub open spec fn any_key_down(keys: Seq<bool>) -> bool {
    exists|k: int| 0 <= k < keys.len() && #[trigger] keys[k]
}

/// `k` is the lowest-numbered key that is down.
pub open spec fn is_first_key_down(keys: Seq<bool>, k: int) -> bool {
    &&& 0 <= k < keys.len()
    &&& keys[k]
    &&& forall|j: int| 0 <= j < k ==> !#[trigger] keys[j]
}

/// Whether `op` would take the skip of a conditional-skip instruction in `s`.
pub open spec fn skip_taken(s: Chip8State, op: u16) -> bool {
    let kind = op_kind(op);
    let vx = s.v[op_x(op)];
    let vy = s.v[op_y(op)];
    ||| kind == 3 && vx == op_kk(op)
    ||| kind == 4 && vx != op_kk(op)
    ||| kind == 5 && vx == vy
    ||| kind == 9 && vx != vy
    ||| op_kind(op) == 0xE && op_kk(op) == 0x9E && s.keys[vx as int]
    ||| op_kind(op) == 0xE && op_kk(op) == 0xA1 && !s.keys[vx as int]
}

/// The conditions under which the interpreter executes `op` in state `s`:
/// the opcode is known, and no index, stack or address computation that it
/// makes leaves its range.
pub open spec fn can_execute(s: Chip8State, op: u16) -> bool {
    let kind = op_kind(op);
    let kk = op_kk(op);
    let vx = s.v[op_x(op)];
    &&& is_known_opcode(op)
    &&& op == 0x00EE ==> 1 <= s.sp <= 16
    &&& kind == 2 ==> s.sp < 16
    &&& skip_taken(s, op) ==> s.pc + 2 <= 0xFFFF
    &&& kind == 0xD && op_n(op) > 0 ==> s.i + op_n(op) <= 4096
    &&& kind == 0xE ==> vx < 16
    &&& kind == 0xF && kk == 0x0A && !any_key_down(s.keys) ==> s.pc >= 2
    &&& kind == 0xF && kk == 0x1E ==> s.i + vx <= 0xFFFF
    &&& kind == 0xF && kk == 0x33 ==> s.i + 2 < 4096
    &&& kind == 0xF && (kk == 0x55 || kk == 0x65) ==> s.i + op_x(op) < 4096
}

/// `s` with register `x` set to `val`.
pub open spec fn set_reg(s: Chip8State, x: int, val: u8) -> Chip8State {
    Chip8State { v: s.v.update(x, val), ..s }
}

/// `s` with register `x` set to `val`, then the flag register `VF` set to `flag`.
pub open spec fn set_reg_flag(s: Chip8State, x: int, val: u8, flag: u8) -> Chip8State {
    Chip8State { v: s.v.update(x, val).update(15, flag), ..s }
}

/// The arithmetic and logic instructions `8XYN`.
pub open spec fn alu_step(s: Chip8State, op: u16) -> Chip8State {
    let x = op_x(op);
    let vx = s.v[x];
    let vy = s.v[op_y(op)];
    let n = op_n(op);
    if n == 0 {
        set_reg(s, x, vy)
    } else if n == 1 {
        set_reg_flag(s, x, vx | vy, 0)
    } else if n == 2 {
        set_reg_flag(s, x, vx & vy, 0)
    } else if n == 3 {
        set_reg_flag(s, x, vx ^ vy, 0)
    } else if n == 4 {
        set_reg_flag(s, x, ((vx + vy) % 256) as u8, if vx + vy > 255 { 1 } else { 0 })
    } else if n == 5 {
        set_reg_flag(s, x, ((vx - vy + 256) % 256) as u8, if vx >= vy { 1 } else { 0 })
    } else if n == 6 {
        set_reg_flag(s, x, vx / 2, vx % 2)
    } else if n == 7 {
        set_reg_flag(s, x, ((vy - vx + 256) % 256) as u8, if vy >= vx { 1 } else { 0 })
    } else {
        set_reg_flag(s, x, ((vx * 2) % 256) as u8, vx / 128)
    }
}

/// Bit `col` of a sprite row, counted from the most significant bit.
pub open spec fn sprite_bit(row: u8, col: u8) -> bool {
    (row >> ((7 - col) as u8)) & 1u8 == 1u8
}

/// The sprite that `DXYN` draws in `s` covers pixel `(px, py)` with a set bit:
/// the sprite is `N` bytes read from `I`, placed at `(VX mod 64, VY mod 32)`,
/// and clipped at the edges of the display.
pub open spec fn sprite_covers(s: Chip8State, op: u16, px: int, py: int) -> bool {
    let xp = (s.v[op_x(op)] % 64) as int;
    let yp = (s.v[op_y(op)] % 32) as int;
    &&& yp <= py < yp + op_n(op)
    &&& xp <= px < xp + 8
    &&& sprite_bit(s.memory[s.i + (py - yp)], (px - xp) as u8)
}

/// Display cell `k` is covered by the sprite of `op`.
pub open spec fn covers_cell(s: Chip8State, op: u16, k: int) -> bool {
    sprite_covers(s, op, k % 64, k / 64)
}

/// Drawing the sprite turns off a pixel that was on.
pub open spec fn draw_collides(s: Chip8State, op: u16) -> bool {
    exists|k: int| 0 <= k < 2048 && s.display[k] && #[trigger] covers_cell(s, op, k)
}

/// `DXYN`: every covered pixel is flipped; `VF` is 1 exactly when some pixel
/// was turned off.
pub open spec fn draw_step(s: Chip8State, op: u16) -> Chip8State {
    Chip8State {
        display: Seq::new(2048, |k: int| s.display[k] != covers_cell(s, op, k)),
        v: s.v.update(15, if draw_collides(s, op) { 1u8 } else { 0u8 }),
        ..s
    }
}

/// The instructions `FXKK`.
pub open spec fn misc_step(s: Chip8State, op: u16) -> Chip8State {
    let x = op_x(op);
    let vx = s.v[x];
    let kk = op_kk(op);
    if kk == 0x07 {
        set_reg(s, x, s.dt)
    } else if kk == 0x0A {
        if any_key_down(s.keys) {
            set_reg(s, x, (choose|k: int| is_first_key_down(s.keys, k)) as u8)
        } else {
            Chip8State { pc: (s.pc - 2) as u16, ..s }
        }
    } else if kk == 0x15 {
        Chip8State { dt: vx, ..s }
    } else if kk == 0x18 {
        Chip8State { st: vx, ..s }
    } else if kk == 0x1E {
        Chip8State { i: (s.i + vx) as u16, ..s }
    } else if kk == 0x29 {
        Chip8State { i: (vx * 5) as u16, ..s }
    } else if kk == 0x33 {
        Chip8State {
            memory: s.memory.update(s.i as int, vx / 100).update(s.i + 1, (vx / 10) % 10).update(
                s.i + 2,
                vx % 10,
            ),
            ..s
        }
    } else if kk == 0x55 {
        Chip8State {
            memory: Seq::new(
                4096,
                |a: int| if s.i <= a <= s.i + x { s.v[a - s.i] } else { s.memory[a] },
            ),
            ..s
        }
    } else {
        Chip8State {
            v: Seq::new(16, |r: int| if r <= x { s.memory[s.i + r] } else { s.v[r] }),
            ..s
        }
    }
}

/// The effect of executing `op` in state `s`; `rnd` is the random byte that
/// `CXKK` draws (no other instruction reads it).
pub open spec fn step(s: Chip8State, op: u16, rnd: u8) -> Chip8State {
    let kind = op_kind(op);
    let x = op_x(op);
    if op == 0x00E0 {
        Chip8State { display: Seq::new(2048, |k: int| false), ..s }
    } else if op == 0x00EE {
        Chip8State { sp: (s.sp - 1) as u8, pc: s.stack[s.sp - 1], ..s }
    } else if kind == 1 {
        Chip8State { pc: op_nnn(op), ..s }
    } else if kind == 2 {
        Chip8State {
            stack: s.stack.update(s.sp as int, s.pc),
            sp: (s.sp + 1) as u8,
            pc: op_nnn(op),
            ..s
        }
    } else if kind == 3 || kind == 4 || kind == 5 || kind == 9 || kind == 0xE {
        if skip_taken(s, op) {
            Chip8State { pc: (s.pc + 2) as u16, ..s }
        } else {
            s
        }
    } else if kind == 6 {
        set_reg(s, x, op_kk(op))
    } else if kind == 7 {
        set_reg(s, x, ((s.v[x] + op_kk(op)) % 256) as u8)
    } else if kind == 8 {
        alu_step(s, op)
    } else if kind == 0xA {
        Chip8State { i: op_nnn(op), ..s }
    } else if kind == 0xB {
        Chip8State { pc: (op_nnn(op) + s.v[0]) as u16, ..s }
    } else if kind == 0xC {
        set_reg(s, x, rnd & op_kk(op))
    } else if kind == 0xD {
        draw_step(s, op)
    } else {
        misc_step(s, op)
    }
}

/// Whether `op` is `CXKK`, the one instruction whose effect depends on a random byte.
pub open spec fn reads_random(op: u16) -> bool {
    op_kind(op) == 0xC
}


/// `mem` with the font written at its start.
pub open spec fn with_font(mem: Seq<u8>) -> Seq<u8> {
    Seq::new(4096, |a: int| if a < 80 { font_spec()[a] } else { mem[a] })
}

/// `mem` with `rom` written from [`PROGRAM_START`] on.
pub open spec fn with_rom(mem: Seq<u8>, rom: Seq<u8>) -> Seq<u8> {
    Seq::new(4096, |a: int| if 0x200 <= a < 0x200 + rom.len() { rom[a - 0x200] } else { mem[a] })
}

/// Why [`Chip8::cycle`] stopped.
#[derive(Debug, PartialEq, Eq, Structural)]
pub enum Fault {
    /// The program counter (the payload) does not address a full instruction.
    PcOutOfRange(u16),
    /// The fetched opcode (the payload) is unknown, or executing it would step
    /// outside the stack, memory, keypad or address range.
    CannotExecute(u16),
}

/// Draws one byte from `rand::random::<u8>()` (the thread-local generator).
/// Nothing is claimed of the byte that comes back.
#[verifier::external_body]
fn random_byte() -> u8 {
    rand::random::<u8>()
}

/// The glyphs of the built-in font.
fn font_bytes() -> (f: [u8; 80])
    ensures
        f@ == font_spec(),
{
    let f: [u8; 80] = [
        0xF0, 0x90, 0x90, 0x90, 0xF0,  // 0
        0x20, 0x60, 0x20, 0x20, 0x70,  // 1
        0xF0, 0x10, 0xF0, 0x80, 0xF0,  // 2
        0xF0, 0x10, 0xF0, 0x10, 0xF0,  // 3
        0x90, 0x90, 0xF0, 0x10, 0x10,  // 4
        0xF0, 0x80, 0xF0, 0x10, 0xF0,  // 5
        0xF0, 0x80, 0xF0, 0x90, 0xF0,  // 6
        0xF0, 0x10, 0x20, 0x40, 0x40,  // 7
        0xF0, 0x90, 0xF0, 0x90, 0xF0,  // 8
        0xF0, 0x90, 0xF0, 0x10, 0xF0,  // 9
        0xF0, 0x90, 0xF0, 0x90, 0x90,  // A
        0xE0, 0x90, 0xE0, 0x90, 0xE0,  // B
        0xF0, 0x80, 0x80, 0x80, 0xF0,  // C
        0xE0, 0x90, 0x90, 0x90, 0xE0,  // D
        0xF0, 0x80, 0xF0, 0x80, 0xF0,  // E
        0xF0, 0x80, 0xF0, 0x80, 0x80,  // F
    ];
    assert(f@ =~= font_spec());
    f
}

/// The lowest-numbered key that is down, if any.
fn first_key_down(keys: &[bool; 16]) -> (r: Option<usize>)
    ensures
        r is None <==> !any_key_down(keys@),
        r matches Some(k) ==> is_first_key_down(keys@, k as int),
{
    let mut k: usize = 0;
    while k < 16
        invariant
            k <= 16,
            forall|j: int| 0 <= j < k ==> !#[trigger] keys@[j],
        decreases 16 - k,
    {
        if keys[k] {
            return Some(k);
        }
        k = k + 1;
    }
    None
}

impl Chip8 {
    /// A machine with cleared memory, display, stack and registers, the font
    /// at address 0, and the program counter at [`PROGRAM_START`].
    pub fn new() -> (chip8: Chip8)
        ensures
            chip8@ == initial_state(),
    {
        let mut chip8 = Chip8 {
            memory: [0; 4096],
            display: [false; 2048],
            stack: [0; 16],
            v: [0; 16],
            i: 0,
            pc: 0x200,  // ROMs always load at 0x200
            sp: 0,
            dt: 0,
            st: 0,
            keys: [false; 16],
        };
        chip8.load_fonts();
        assert(chip8@ =~= initial_state());
        chip8
    }

    /// Writes the font to the first 80 bytes of memory.
    pub fn load_fonts(&mut self)
        ensures
            final(self)@ == (Chip8State { memory: with_font(old(self)@.memory), ..old(self)@ }),
    {
        let font = font_bytes();
        let mut mem = self.memory;
        let mut a: usize = 0;
        while a < 80
            invariant
                a <= 80,
                font@ == font_spec(),
                mem@ == Seq::new(
                    4096,
                    |b: int| if b < a { font_spec()[b] } else { old(self)@.memory[b] },
                ),
            decreases 80 - a,
        {
            mem[a] = font[a];
            a = a + 1;
            assert(mem@ =~= Seq::new(
                4096,
                |b: int| if b < a { font_spec()[b] } else { old(self)@.memory[b] },
            ));
        }
        self.memory = mem;
        assert(self.memory@ =~= with_font(old(self)@.memory));
    }

    /// Copies a program image into memory from [`PROGRAM_START`] on.
    pub fn load_rom(&mut self, rom: &[u8])
        requires
            rom@.len() <= 4096 - 0x200,
        ensures
            final(self)@ == (Chip8State { memory: with_rom(old(self)@.memory, rom@), ..old(self)@ }),
    {
        let mut mem = self.memory;
        let len = rom.len();
        let mut a: usize = 0;
        while a < len
            invariant
                a <= len,
                len == rom@.len(),
                len <= 4096 - 0x200,
                mem@ == with_rom(old(self)@.memory, rom@.take(a as int)),
            decreases len - a,
        {
            mem[0x200 + a] = rom[a];
            a = a + 1;
            assert(mem@ =~= with_rom(old(self)@.memory, rom@.take(a as int)));
        }
        assert(rom@.take(len as int) =~= rom@);
        self.memory = mem;
    }

    /// Reads the big-endian opcode at the program counter and advances the
    /// program counter past it.
    pub fn fetch(&mut self) -> (opcode: u16)
        requires
            old(self).pc + 1 < 4096,
        ensures
            opcode == old(self)@.word_at(old(self).pc as int),
            final(self)@ == (Chip8State { pc: (old(self).pc + 2) as u16, ..old(self)@ }),
    {
        let pc = self.pc as usize;
        let high = self.memory[pc] as u16;  // 0x0X
        let low = self.memory[pc + 1] as u16;  // 0x0Y
        self.pc = self.pc + 2;
        assert((high << 8) | low == high * 256 + low) by (bit_vector)
            requires
                high < 256,
                low < 256,
        ;
        (high << 8) | low  // 0xXY
    }

    /// Marks key `key_index` as down.
    pub fn set_key(&mut self, key_index: usize)
        requires
            key_index < 16,
        ensures
            final(self)@ == (Chip8State {
                keys: old(self)@.keys.update(key_index as int, true),
                ..old(self)@
            }),
    {
        self.keys[key_index] = true;
    }

    /// Marks key `key_index` as up.
    pub fn unset_key(&mut self, key_index: usize)
        requires
            key_index < 16,
        ensures
            final(self)@ == (Chip8State {
                keys: old(self)@.keys.update(key_index as int, false),
                ..old(self)@
            }),
    {
        self.keys[key_index] = false;
    }

    /// Sets the whole keypad: key `k` is down exactly when `down[k]` holds.
    pub fn set_keys(&mut self, down: [bool; 16])
        ensures
            final(self)@ == (Chip8State { keys: down@, ..old(self)@ }),
    {
        let mut k: usize = 0;
        while k < 16
            invariant
                k <= 16,
                self@ == (Chip8State {
                    keys: Seq::new(16, |j: int| if j < k { down@[j] } else { old(self)@.keys[j] }),
                    ..old(self)@
                }),
            decreases 16 - k,
        {
            if down[k] {
                self.set_key(k);
            } else {
                self.unset_key(k);
            }
            k = k + 1;
            assert(self@.keys =~= Seq::new(
                16,
                |j: int| if j < k { down@[j] } else { old(self)@.keys[j] },
            ));
        }
        assert(self@.keys =~= down@);
    }

    /// Counts both timers down by one, stopping at zero.
    pub fn tick_timers(&mut self)
        ensures
            final(self)@ == (Chip8State {
                dt: if old(self).dt > 0 { (old(self).dt - 1) as u8 } else { 0 },
                st: if old(self).st > 0 { (old(self).st - 1) as u8 } else { 0 },
                ..old(self)@
            }),
    {
        if self.dt > 0 {
            self.dt = self.dt - 1;
        }
        if self.st > 0 {
            self.st = self.st - 1;
        }
    }
}

/// The part of the sprite of `op` that the drawing loop has handled after
/// rows `0..r` and, in row `r`, columns `0..c`.
spec fn drawn_before(s: Chip8State, op: u16, k: int, r: int, c: int) -> bool {
    let xp = (s.v[op_x(op)] % 64) as int;
    let yp = (s.v[op_y(op)] % 32) as int;
    &&& covers_cell(s, op, k)
    &&& (k / 64 - yp < r || (k / 64 - yp == r && k % 64 - xp < c))
}

impl Chip8 {
    /// `8XYN`: register arithmetic and logic.
    fn execute_alu(&mut self, opcode: u16)
        requires
            op_kind(opcode) == 8,
            is_known_opcode(opcode),
        ensures
            final(self)@ == alu_step(old(self)@, opcode),
    {
        assert((opcode & 0x0F00) >> 8 == (opcode / 0x100) % 0x10) by (bit_vector);
        assert((opcode & 0x00F0) >> 4 == (opcode / 0x10) % 0x10) by (bit_vector);
        assert(opcode & 0x000F == opcode % 0x10) by (bit_vector);
        let x = ((opcode & 0x0F00) >> 8) as usize;
        let y = ((opcode & 0x00F0) >> 4) as usize;
        let n4 = opcode & 0x000F;
        let vx = self.v[x];
        let vy = self.v[y];
        if n4 == 0x0 {
            // 8XY0 - set VX = VY
            self.v[x] = vy;
        } else if n4 == 0x1 {
            // 8XY1 - set VX = VX OR VY
            self.v[x] = vx | vy;
            self.v[0xF] = 0;  // CHIP-8 quirk
        } else if n4 == 0x2 {
            // 8XY2 - set VX = VX AND VY
            self.v[x] = vx & vy;
            self.v[0xF] = 0;  // CHIP-8 quirk
        } else if n4 == 0x3 {
            // 8XY3 - set VX = VX XOR VY
            self.v[x] = vx ^ vy;
            self.v[0xF] = 0;  // CHIP-8 quirk
        } else if n4 == 0x4 {
            // 8XY4 - set VX = VX + VY, VF = carry
            let result = vx.wrapping_add(vy);
            let carry = vx > 255 - vy;
            self.v[x] = result;
            self.v[0xF] = if carry { 1 } else { 0 };
        } else if n4 == 0x5 {
            // 8XY5 - set VX = VX - VY, VF = NOT borrow
            let result = vx.wrapping_sub(vy);
            let borrow = vx < vy;
            self.v[x] = result;
            self.v[0xF] = if borrow { 0 } else { 1 };
        } else if n4 == 0x6 {
            // 8XY6 - set VX = VX >> 1, VF = shifted out bit
            let bit = vx & 0x1;
            assert(vx & 0x1 == vx % 2 && vx >> 1 == vx / 2) by (bit_vector);
            self.v[x] = vx >> 1;
            self.v[0xF] = bit;
        } else if n4 == 0x7 {
            // 8XY7 - set VX = VY - VX, VF = NOT borrow
            let result = vy.wrapping_sub(vx);
            let borrow = vy < vx;
            self.v[x] = result;
            self.v[0xF] = if borrow { 0 } else { 1 };
        } else {
            // 8XYE - set VX = VX << 1, VF = shifted out bit
            let bit = (vx & 0x80) >> 7;
            assert((vx & 0x80) >> 7 == vx / 128 && vx << 1 == ((vx * 2) % 256) as u8)
                by (bit_vector);
            self.v[x] = vx << 1;
            self.v[0xF] = bit;
        }
        assert(self@ =~= alu_step(old(self)@, opcode));
    }
}

impl Chip8 {
    /// `DXYN`: draws the `N`-byte sprite at `I` at `(VX, VY)`; `VF` reports a collision.
    fn draw_sprite(&mut self, opcode: u16)
        requires
            op_kind(opcode) == 0xD,
            can_execute(old(self)@, opcode),
        ensures
            final(self)@ == draw_step(old(self)@, opcode),
    {
        let ghost s = old(self)@;
        assert((opcode & 0x0F00) >> 8 == (opcode / 0x100) % 0x10) by (bit_vector);
        assert((opcode & 0x00F0) >> 4 == (opcode / 0x10) % 0x10) by (bit_vector);
        assert(opcode & 0x000F == opcode % 0x10) by (bit_vector);
        let x = ((opcode & 0x0F00) >> 8) as usize;
        let y = ((opcode & 0x00F0) >> 4) as usize;
        let n = (opcode & 0x000F) as usize;
        let x_pos = self.v[x] as usize % 64;
        let y_pos = self.v[y] as usize % 32;
        let i = self.i as usize;
        let mut display = self.display;
        let mut collision = false;

        let mut row: usize = 0;
        while row < n
            invariant
                s == old(self)@,
                s == self@,
                x == op_x(opcode),
                y == op_y(opcode),
                n == op_n(opcode),
                n < 16,
                n > 0 ==> i + n <= 4096,
                i == s.i,
                x_pos == s.v[x as int] % 64,
                y_pos == s.v[y as int] % 32,
                row <= n,
                display@ == Seq::new(
                    2048,
                    |k: int| s.display[k] != drawn_before(s, opcode, k, row as int, 0),
                ),
                collision == exists|k: int|
                    0 <= k < 2048 && s.display[k] && #[trigger] drawn_before(
                        s,
                        opcode,
                        k,
                        row as int,
                        0,
                    ),
            decreases n - row,
        {
            let sprite_byte = self.memory[i + row];
            let mut col: usize = 0;
            while col < 8
                invariant
                    s == old(self)@,
                    s == self@,
                    x == op_x(opcode),
                    y == op_y(opcode),
                    n == op_n(opcode),
                    i == s.i,
                    x_pos == s.v[x as int] % 64,
                    y_pos == s.v[y as int] % 32,
                    row < n,
                    i + row < 4096,
                    sprite_byte == s.memory[i + row],
                    col <= 8,
                    display@ == Seq::new(
                        2048,
                        |k: int| s.display[k] != drawn_before(s, opcode, k, row as int, col as int),
                    ),
                    collision == exists|k: int|
                        0 <= k < 2048 && s.display[k] && #[trigger] drawn_before(
                            s,
                            opcode,
                            k,
                            row as int,
                            col as int,
                        ),
                decreases 8 - col,
            {
                let c = col as u8;
                let sprite_pixel = (sprite_byte >> (7 - c)) & 0x1;
                let screen_x = x_pos + col;
                let screen_y = y_pos + row;
                let ghost c0 = col as int;
                let ghost old_collision = collision;
                if screen_x < 64 && screen_y < 32 {
                    // clip at the edges otherwise
                    let idx = screen_y * 64 + screen_x;
                    assert(idx / 64 == screen_y && idx % 64 == screen_x) by (nonlinear_arith)
                        requires
                            idx == screen_y * 64 + screen_x,
                            screen_x < 64,
                    ;
                    if sprite_pixel == 1 {
                        assert(covers_cell(s, opcode, idx as int));
                        if display[idx] {
                            collision = true;  // collision
                        }
                        display[idx] = !display[idx];
                    }
                    proof {
                        assert forall|k: int| 0 <= k < 2048 && k != idx implies
                            drawn_before(s, opcode, k, row as int, c0 + 1)
                            == drawn_before(s, opcode, k, row as int, c0) by {
                            assert(k == 64 * (k / 64) + k % 64);
                        }
                        assert(drawn_before(s, opcode, idx as int, row as int, c0 + 1)
                            == (sprite_pixel == 1));
                        assert(!drawn_before(s, opcode, idx as int, row as int, c0));
                        if sprite_pixel == 1 && s.display[idx as int] {
                            assert(drawn_before(s, opcode, idx as int, row as int, c0 + 1));
                        } else if old_collision {
                            let w = choose|k: int|
                                0 <= k < 2048 && s.display[k] && #[trigger] drawn_before(
                                    s,
                                    opcode,
                                    k,
                                    row as int,
                                    c0,
                                );
                            assert(drawn_before(s, opcode, w, row as int, c0 + 1));
                        } else {
                            assert forall|k: int|
                                0 <= k < 2048 && s.display[k] implies !#[trigger] drawn_before(
                                    s,
                                    opcode,
                                    k,
                                    row as int,
                                    c0 + 1,
                                ) by {
                                if k != idx {
                                    assert(!drawn_before(s, opcode, k, row as int, c0));
                                }
                            }
                        }
                    }
                } else {
                    proof {
                        assert forall|k: int| 0 <= k < 2048 implies
                            drawn_before(s, opcode, k, row as int, c0 + 1)
                            == drawn_before(s, opcode, k, row as int, c0) by {
                            assert(k == 64 * (k / 64) + k % 64);
                        }
                        if old_collision {
                            let w = choose|k: int|
                                0 <= k < 2048 && s.display[k] && #[trigger] drawn_before(
                                    s,
                                    opcode,
                                    k,
                                    row as int,
                                    c0,
                                );
                            assert(drawn_before(s, opcode, w, row as int, c0 + 1));
                        } else {
                            assert forall|k: int|
                                0 <= k < 2048 && s.display[k] implies !#[trigger] drawn_before(
                                    s,
                                    opcode,
                                    k,
                                    row as int,
                                    c0 + 1,
                                ) by {
                                assert(!drawn_before(s, opcode, k, row as int, c0));
                            }
                        }
                    }
                }
                col = col + 1;
                assert(display@ =~= Seq::new(
                    2048,
                    |k: int| s.display[k] != drawn_before(s, opcode, k, row as int, col as int),
                ));
            }
            let ghost r0 = row as int;
            proof {
                if collision {
                    let w = choose|k: int|
                        0 <= k < 2048 && s.display[k] && #[trigger] drawn_before(
                            s,
                            opcode,
                            k,
                            r0,
                            8,
                        );
                    assert(drawn_before(s, opcode, w, r0 + 1, 0));
                } else {
                    assert forall|k: int|
                        0 <= k < 2048 && s.display[k] implies !#[trigger] drawn_before(
                            s,
                            opcode,
                            k,
                            r0 + 1,
                            0,
                        ) by {
                        assert(!drawn_before(s, opcode, k, r0, 8));
                    }
                }
            }
            assert forall|k: int| 0 <= k < 2048 implies
                drawn_before(s, opcode, k, row as int, 8)
                == drawn_before(s, opcode, k, row + 1, 0) by {}
            row = row + 1;
            assert(display@ =~= Seq::new(
                2048,
                |k: int| s.display[k] != drawn_before(s, opcode, k, row as int, 0),
            ));
        }
        assert forall|k: int| 0 <= k < 2048 implies
            drawn_before(s, opcode, k, n as int, 0) == covers_cell(s, opcode, k) by {}
        self.display = display;
        self.v[0xF] = if collision { 1 } else { 0 };
        assert(self@ =~= draw_step(s, opcode));
    }
}

impl Chip8 {
    /// `FXKK`: timers, keypad wait, index arithmetic, font, BCD and register
    /// transfers.
    fn execute_misc(&mut self, opcode: u16)
        requires
            op_kind(opcode) == 0xF,
            can_execute(old(self)@, opcode),
        ensures
            final(self)@ == misc_step(old(self)@, opcode),
    {
        let ghost s = old(self)@;
        assert((opcode & 0x0F00) >> 8 == (opcode / 0x100) % 0x10) by (bit_vector);
        assert((opcode & 0x00FF) as u8 == opcode % 0x100) by (bit_vector);
        let x = ((opcode & 0x0F00) >> 8) as usize;
        let kk = (opcode & 0x00FF) as u8;
        let vx = self.v[x];
        if kk == 0x07 {
            // FX07 - set VX = delay timer
            self.v[x] = self.dt;
        } else if kk == 0x0A {
            // FX0A - wait for key press, store in VX (blocking)
            match first_key_down(&self.keys) {
                Some(key) => {
                    self.v[x] = key as u8;
                    assert(is_first_key_down(s.keys, key as int));
                    let ghost k2 = choose|k: int| is_first_key_down(s.keys, k);
                    assert(is_first_key_down(s.keys, k2));
                    assert(k2 == key as int) by {
                        if k2 < key as int {
                            assert(!s.keys[k2]);
                        } else if k2 > key as int {
                            assert(!s.keys[key as int]);
                        }
                    }
                },
                None => {
                    self.pc = self.pc - 2;  // rewind PC, retry next cycle
                },
            }
        } else if kk == 0x15 {
            // FX15 - set delay timer = VX
            self.dt = vx;
        } else if kk == 0x18 {
            // FX18 - set sound timer = VX
            self.st = vx;
        } else if kk == 0x1E {
            // FX1E - set I = I + VX
            self.i = self.i + vx as u16;
        } else if kk == 0x29 {
            // FX29 - set I = address of font sprite for digit VX
            self.i = vx as u16 * 5;
        } else if kk == 0x33 {
            // FX33 - store BCD of VX in memory at I, I+1, I+2
            let i = self.i as usize;
            self.memory[i] = vx / 100;
            self.memory[i + 1] = (vx / 10) % 10;
            self.memory[i + 2] = vx % 10;
        } else if kk == 0x55 {
            // FX55 - store V0..VX in memory starting at I
            let i = self.i as usize;
            let mut mem = self.memory;
            let mut reg: usize = 0;
            while reg <= x
                invariant
                    x < 16,
                    i + x < 4096,
                    i == s.i,
                    self.v@ == s.v,
                    reg <= x + 1,
                    mem@ == Seq::new(
                        4096,
                        |a: int| if s.i <= a < s.i + reg { s.v[a - s.i] } else { s.memory[a] },
                    ),
                decreases x + 1 - reg,
            {
                mem[i + reg] = self.v[reg];
                reg = reg + 1;
                assert(mem@ =~= Seq::new(
                    4096,
                    |a: int| if s.i <= a < s.i + reg { s.v[a - s.i] } else { s.memory[a] },
                ));
            }
            self.memory = mem;
        } else {
            // FX65 - load V0..VX from memory starting at I
            let i = self.i as usize;
            let mut regs = self.v;
            let mut reg: usize = 0;
            while reg <= x
                invariant
                    x < 16,
                    i + x < 4096,
                    i == s.i,
                    self.memory@ == s.memory,
                    reg <= x + 1,
                    regs@ == Seq::new(
                        16,
                        |r: int| if r < reg { s.memory[s.i + r] } else { s.v[r] },
                    ),
                decreases x + 1 - reg,
            {
                regs[reg] = self.memory[i + reg];
                reg = reg + 1;
                assert(regs@ =~= Seq::new(
                    16,
                    |r: int| if r < reg { s.memory[s.i + r] } else { s.v[r] },
                ));
            }
            self.v = regs;
        }
        assert(self@ =~= misc_step(s, opcode));
    }
}

impl Chip8 {
    /// Executes one opcode, with `random` as the byte that `CXKK` masks.
    pub fn execute_with_random_byte(&mut self, opcode: u16, random: u8)
        requires
            can_execute(old(self)@, opcode),
        ensures
            final(self)@ == step(old(self)@, opcode, random),
    {
        let ghost s = old(self)@;
        assert((opcode & 0xF000) >> 12 == opcode / 0x1000) by (bit_vector);
        assert((opcode & 0x0F00) >> 8 == (opcode / 0x100) % 0x10) by (bit_vector);
        assert((opcode & 0x00F0) >> 4 == (opcode / 0x10) % 0x10) by (bit_vector);
        assert(opcode & 0x000F == opcode % 0x10) by (bit_vector);
        assert(opcode & 0x0FFF == opcode % 0x1000) by (bit_vector);
        assert((opcode & 0x00FF) as u8 == opcode % 0x100) by (bit_vector);
        let n1 = (opcode & 0xF000) >> 12;
        let n2 = (opcode & 0x0F00) >> 8;
        let n3 = (opcode & 0x00F0) >> 4;
        let n4 = opcode & 0x000F;

        let x = n2 as usize;
        let y = n3 as usize;
        let nnn = opcode & 0x0FFF;
        let kk = (opcode & 0x00FF) as u8;

        match (n1, n2, n3, n4) {
            // 00E0 - clear screen
            (0x0, 0x0, 0xE, 0x0) => {
                self.display = [false; 2048];
                assert(self.display@ =~= Seq::new(2048, |k: int| false));
            },
            // 00EE - return from subroutine
            (0x0, 0x0, 0xE, 0xE) => {
                self.sp = self.sp - 1;
                self.pc = self.stack[self.sp as usize];
            },
            // 1NNN - jump to NNN
            (0x1, _, _, _) => {
                self.pc = nnn;
            },
            // 2NNN - call subroutine at NNN
            (0x2, _, _, _) => {
                self.stack[self.sp as usize] = self.pc;
                self.sp = self.sp + 1;
                self.pc = nnn;
            },
            // 3XKK - skip if VX == KK
            (0x3, _, _, _) => {
                if self.v[x] == kk {
                    self.pc = self.pc + 2;
                }
            },
            // 4XKK - skip if VX != KK
            (0x4, _, _, _) => {
                if self.v[x] != kk {
                    self.pc = self.pc + 2;
                }
            },
            // 5XY0 - skip if VX == VY
            (0x5, _, _, 0x0) => {
                if self.v[x] == self.v[y] {
                    self.pc = self.pc + 2;
                }
            },
            // 6XKK - set VX = KK
            (0x6, _, _, _) => {
                self.v[x] = kk;
            },
            // 7XKK - set VX = VX + KK
            (0x7, _, _, _) => {
                self.v[x] = self.v[x].wrapping_add(kk);
            },
            // 8XYN - register arithmetic and logic
            (0x8, _, _, _) => {
                self.execute_alu(opcode);
            },
            // 9XY0 - skip if VX != VY
            (0x9, _, _, 0x0) => {
                if self.v[x] != self.v[y] {
                    self.pc = self.pc + 2;
                }
            },
            // ANNN - set I = NNN
            (0xA, _, _, _) => {
                self.i = nnn;
            },
            // BNNN - jump to NNN + V0
            (0xB, _, _, _) => {
                self.pc = nnn + self.v[0] as u16;
            },
            // CXKK - set VX = random byte AND KK
            (0xC, _, _, _) => {
                self.v[x] = random & kk;
            },
            // DXYN - draw sprite at (VX, VY), N rows tall, VF = collision
            (0xD, _, _, _) => {
                self.draw_sprite(opcode);
            },
            // EX9E - skip if key VX is pressed
            (0xE, _, 0x9, 0xE) => {
                if self.keys[self.v[x] as usize] {
                    self.pc = self.pc + 2;
                }
            },
            // EXA1 - skip if key VX is NOT pressed
            (0xE, _, 0xA, 0x1) => {
                if !self.keys[self.v[x] as usize] {
                    self.pc = self.pc + 2;
                }
            },
            // FXKK - timers, keypad, index, font, BCD, register transfers
            (0xF, _, _, _) => {
                self.execute_misc(opcode);
            },
            _ => {
                assert(false);  // excluded by can_execute: unknown opcode
            },
        }
        assert(self@ =~= step(s, opcode, random));
    }

    /// Executes one opcode; `CXKK` draws its random byte from `rand`.
    pub fn execute(&mut self, opcode: u16)
        requires
            can_execute(old(self)@, opcode),
        ensures
            exists|r: u8| final(self)@ == #[trigger] step(old(self)@, opcode, r),
            !reads_random(opcode) ==> final(self)@ == step(old(self)@, opcode, 0),
    {
        assert((opcode & 0xF000) >> 12 == opcode / 0x1000) by (bit_vector);
        let random = if (opcode & 0xF000) >> 12 == 0xC {
            random_byte()
        } else {
            0
        };
        self.execute_with_random_byte(opcode, random);
    }

    /// Whether [`Chip8::execute`] accepts `opcode` in the current state.
    pub fn is_executable(&self, opcode: u16) -> (ok: bool)
        ensures
            ok == can_execute(self@, opcode),
    {
        assert((opcode & 0xF000) >> 12 == opcode / 0x1000) by (bit_vector);
        assert((opcode & 0x0F00) >> 8 == (opcode / 0x100) % 0x10) by (bit_vector);
        assert((opcode & 0x00F0) >> 4 == (opcode / 0x10) % 0x10) by (bit_vector);
        assert(opcode & 0x000F == opcode % 0x10) by (bit_vector);
        assert((opcode & 0x00FF) as u8 == opcode % 0x100) by (bit_vector);
        let kind = (opcode & 0xF000) >> 12;
        let x = ((opcode & 0x0F00) >> 8) as usize;
        let y = ((opcode & 0x00F0) >> 4) as usize;
        let n = opcode & 0x000F;
        let kk = (opcode & 0x00FF) as u8;
        let vx = self.v[x];
        let vy = self.v[y];
        let known = opcode == 0x00E0 || opcode == 0x00EE || (1 <= kind && kind <= 4) || (kind
            == 5 && n == 0) || kind == 6 || kind == 7 || (kind == 8 && (n <= 7 || n == 0xE)) || (
        kind == 9 && n == 0) || (0xA <= kind && kind <= 0xD) || (kind == 0xE && (kk == 0x9E || kk
            == 0xA1)) || (kind == 0xF && (kk == 0x07 || kk == 0x0A || kk == 0x15 || kk == 0x18
            || kk == 0x1E || kk == 0x29 || kk == 0x33 || kk == 0x55 || kk == 0x65));
        if !known {
            return false;
        }
        if opcode == 0x00EE && !(1 <= self.sp && self.sp <= 16) {
            return false;
        }
        if kind == 2 && self.sp >= 16 {
            return false;
        }
        if kind == 0xE && vx >= 16 {
            return false;
        }
        let skip = (kind == 3 && vx == kk) || (kind == 4 && vx != kk) || (kind == 5 && vx == vy)
            || (kind == 9 && vx != vy) || (kind == 0xE && kk == 0x9E && self.keys[vx as usize]) || (
        kind == 0xE && kk == 0xA1 && !self.keys[vx as usize]);
        if skip && self.pc > 0xFFFF - 2 {
            return false;
        }
        if kind == 0xD && n > 0 && self.i as usize + n as usize > 4096 {
            return false;
        }
        if kind == 0xF && kk == 0x0A && first_key_down(&self.keys).is_none() && self.pc < 2 {
            return false;
        }
        if kind == 0xF && kk == 0x1E && self.i as u32 + vx as u32 > 0xFFFF {
            return false;
        }
        if kind == 0xF && kk == 0x33 && self.i as usize + 2 >= 4096 {
            return false;
        }
        if kind == 0xF && (kk == 0x55 || kk == 0x65) && self.i as usize + x >= 4096 {
            return false;
        }
        true
    }

    /// Fetches the opcode at the program counter and executes it.
    ///
    /// Fails, changing nothing, when the program counter does not address a
    /// whole instruction; fails after the fetch when the opcode cannot be
    /// executed in the state that the fetch left.
    pub fn cycle(&mut self) -> (res: Result<(), Fault>)
        ensures
            old(self).pc + 1 >= 4096 ==> res == Err::<(), Fault>(Fault::PcOutOfRange(old(self).pc))
                && final(self)@ == old(self)@,
            old(self).pc + 1 < 4096 ==> ({
                let opcode = old(self)@.word_at(old(self).pc as int);
                let fetched = Chip8State { pc: (old(self).pc + 2) as u16, ..old(self)@ };
                &&& !can_execute(fetched, opcode) ==> res == Err::<(), Fault>(
                    Fault::CannotExecute(opcode),
                ) && final(self)@ == fetched
                &&& can_execute(fetched, opcode) ==> res is Ok && (exists|r: u8|
                    final(self)@ == #[trigger] step(fetched, opcode, r)) && (!reads_random(opcode)
                    ==> final(self)@ == step(fetched, opcode, 0))
            }),
            exists|r: u8| (res, final(self)@) == #[trigger] cycle_spec(old(self)@, r),
    {
        if self.pc as usize + 1 >= 4096 {
            assert((Err::<(), Fault>(Fault::PcOutOfRange(self.pc)), self@) == cycle_spec(
                old(self)@,
                0,
            ));
            return Err(Fault::PcOutOfRange(self.pc));
        }
        let opcode = self.fetch();
        if !self.is_executable(opcode) {
            assert((Err::<(), Fault>(Fault::CannotExecute(opcode)), self@) == cycle_spec(
                old(self)@,
                0,
            ));
            return Err(Fault::CannotExecute(opcode));
        }
        let ghost fetched = self@;
        self.execute(opcode);
        proof {
            let r = choose|r: u8| self@ == #[trigger] step(fetched, opcode, r);
            assert((Ok::<(), Fault>(()), self@) == cycle_spec(old(self)@, r));
        }
        Ok(())
    }

    /// Runs one frame: [`OPCODES_PER_FRAME`] cycles, then one tick of the
    /// timers. Stops at the first fault, without the tick.
    pub fn run_frame(&mut self) -> (res: Result<(), Fault>)
        ensures
            exists|rnds: Seq<u8>|
                rnds.len() == OPCODES_PER_FRAME && (res, final(self)@) == #[trigger] frame_spec(
                    old(self)@,
                    rnds,
                ),
    {
        let ghost rnds: Seq<u8> = Seq::empty();
        let mut k: usize = 0;
        while k < OPCODES_PER_FRAME
            invariant
                k <= OPCODES_PER_FRAME,
                rnds.len() == k,
                cycles_spec(old(self)@, rnds) == (Ok::<(), Fault>(()), self@),
            decreases OPCODES_PER_FRAME - k,
        {
            let ghost before = self@;
            let r = self.cycle();
            let ghost rnd = choose|x: u8| (r, self@) == #[trigger] cycle_spec(before, x);
            proof {
                lemma_cycles_push(old(self)@, rnds, rnd);
                rnds = rnds.push(rnd);
            }
            if r.is_err() {
                proof {
                    let tail = Seq::new((OPCODES_PER_FRAME - k - 1) as nat, |j: int| 0u8);
                    lemma_cycles_then_frame(old(self)@, rnds, tail);
                    assert((rnds + tail).len() == OPCODES_PER_FRAME);
                }
                return r;
            }
            k = k + 1;
        }
        self.tick_timers();
        proof {
            lemma_cycles_then_frame(old(self)@, rnds, Seq::empty());
            assert(rnds + Seq::<u8>::empty() =~= rnds);
        }
        Ok(())
    }
}

/// Instructions executed per frame of the display.
pub const OPCODES_PER_FRAME: usize = 10;

/// One cycle: fetch the opcode at the program counter and execute it, with
/// `rnd` as the random byte; the result, and the state it leaves.
pub open spec fn cycle_spec(s: Chip8State, rnd: u8) -> (Result<(), Fault>, Chip8State) {
    if s.pc + 1 >= 4096 {
        (Err(Fault::PcOutOfRange(s.pc)), s)
    } else {
        let opcode = s.word_at(s.pc as int);
        let fetched = Chip8State { pc: (s.pc + 2) as u16, ..s };
        if !can_execute(fetched, opcode) {
            (Err(Fault::CannotExecute(opcode)), fetched)
        } else {
            (Ok(()), step(fetched, opcode, rnd))
        }
    }
}

/// One cycle per random byte of `rnds`, stopping at the first fault.
pub open spec fn cycles_spec(s: Chip8State, rnds: Seq<u8>) -> (Result<(), Fault>, Chip8State)
    decreases rnds.len(),
{
    if rnds.len() == 0 {
        (Ok(()), s)
    } else {
        let (r, t) = cycles_spec(s, rnds.drop_last());
        if r is Err {
            (r, t)
        } else {
            cycle_spec(t, rnds.last())
        }
    }
}

/// The timers after one tick: each counts down by one, stopping at zero.
pub open spec fn tick_spec(s: Chip8State) -> Chip8State {
    Chip8State {
        dt: if s.dt > 0 { (s.dt - 1) as u8 } else { 0 },
        st: if s.st > 0 { (s.st - 1) as u8 } else { 0 },
        ..s
    }
}

/// A frame: the cycles of `rnds`, then, if none faulted, a tick of the timers.
pub open spec fn frame_spec(s: Chip8State, rnds: Seq<u8>) -> (Result<(), Fault>, Chip8State) {
    let (r, t) = cycles_spec(s, rnds);
    if r is Err {
        (r, t)
    } else {
        (r, tick_spec(t))
    }
}

proof fn lemma_cycles_push(s: Chip8State, rnds: Seq<u8>, rnd: u8)
    ensures
        cycles_spec(s, rnds.push(rnd)) == (if cycles_spec(s, rnds).0 is Err {
            cycles_spec(s, rnds)
        } else {
            cycle_spec(cycles_spec(s, rnds).1, rnd)
        }),
{
    assert(rnds.push(rnd).drop_last() =~= rnds);
}

/// After a fault, further random bytes change nothing.
proof fn lemma_cycles_then_frame(s: Chip8State, rnds: Seq<u8>, tail: Seq<u8>)
    requires
        cycles_spec(s, rnds).0 is Err || tail.len() == 0,
    ensures
        frame_spec(s, rnds + tail) == (if cycles_spec(s, rnds).0 is Err {
            cycles_spec(s, rnds)
        } else {
            (cycles_spec(s, rnds).0, tick_spec(cycles_spec(s, rnds).1))
        }),
    decreases tail.len(),
{
    if tail.len() == 0 {
        assert(rnds + tail =~= rnds);
    } else {
        lemma_cycles_then_frame(s, rnds, tail.drop_last());
        assert((rnds + tail).drop_last() =~= rnds + tail.drop_last());
        lemma_cycles_err_stays(s, rnds, tail.drop_last());
    }
}

/// After a fault, further random bytes change nothing.
proof fn lemma_cycles_err_stays(s: Chip8State, rnds: Seq<u8>, tail: Seq<u8>)
    requires
        cycles_spec(s, rnds).0 is Err,
    ensures
        cycles_spec(s, rnds + tail) == cycles_spec(s, rnds),
    decreases tail.len(),
{
    if tail.len() == 0 {
        assert(rnds + tail =~= rnds);
    } else {
        lemma_cycles_err_stays(s, rnds, tail.drop_last());
        assert((rnds + tail).drop_last() =~= rnds + tail.drop_last());
    }
}

} // verus!
