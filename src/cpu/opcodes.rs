use vstd::prelude::*;

use super::{
    fetch_spec, pop_spec, push_spec, Cpu, CpuState, FLAG_REGISTER, NUM_KEYS, NUM_REGISTERS,
};
use crate::errors::ChipError;
use crate::screen::{blank_pixels, pixel_index, Screen, SCREEN_HEIGHT, SCREEN_WIDTH};

verus! {

/// How many bytes each font glyph takes.
pub const GLYPH_SIZE: usize = 5;

/// The fields of one instruction word.
#[derive(Clone, Copy, Debug, PartialEq, Eq, Structural)]
pub struct Opcode {
    /// The whole instruction word.
    pub hex: u16,
    /// First nibble: the instruction family.
    pub prefix: u8,
    /// Second nibble.
    pub x: u8,
    /// Third nibble.
    pub y: u8,
    /// Fourth nibble.
    pub n: u8,
    /// Third and fourth nibbles.
    pub nn: u8,
    /// Second, third and fourth nibbles.
    pub nnn: u16,
}

/// The fields of the instruction word `w`, from its most significant nibble down.
pub open spec fn decode(w: u16) -> Opcode {
    Opcode {
        hex: w,
        prefix: (w / 0x1000) as u8,
        x: ((w / 0x100) % 0x10) as u8,
        y: ((w / 0x10) % 0x10) as u8,
        n: (w % 0x10) as u8,
        nn: (w % 0x100) as u8,
        nnn: (w % 0x1000) as u16,
    }
}

impl From<u16> for Opcode {
    fn from(value: u16) -> (r: Self)
        ensures
            r == decode(value),
    {
        let r = Opcode {
            hex: value,
            prefix: (value >> 12u16) as u8,
            x: ((value & 0x0F00) >> 8u16) as u8,
            y: ((value & 0x00F0) >> 4u16) as u8,
            n: (value & 0xF) as u8,
            nn: (value & 0xFF) as u8,
            nnn: value & 0xFFF,
        };
        assert(value >> 12u16 == value / 0x1000) by (bit_vector);
        assert((value & 0x0F00) >> 8u16 == (value / 0x100) % 0x10) by (bit_vector);
        assert((value & 0x00F0) >> 4u16 == (value / 0x10) % 0x10) by (bit_vector);
        assert(value & 0xF == value % 0x10) by (bit_vector);
        assert(value & 0xFF == value % 0x100) by (bit_vector);
        assert(value & 0xFFF == value % 0x1000) by (bit_vector);
        r
    }
}

impl vstd::std_specs::convert::FromSpecImpl<u16> for Opcode {
    open spec fn obeys_from_spec() -> bool {
        true
    }

    open spec fn from_spec(v: u16) -> Self {
        decode(v)
    }
}

/// Everything an instruction can read or change, as plain mathematical values.
pub struct MachineState {
    pub cpu: CpuState,
    pub memory: Seq<u8>,
    pub screen: Seq<bool>,
}

/// The machine with its CPU replaced.
pub open spec fn with_cpu(m: MachineState, c: CpuState) -> MachineState {
    MachineState { cpu: c, ..m }
}

/// A successful outcome with the given CPU.
pub open spec fn cpu_done(m: MachineState, c: CpuState) -> (MachineState, Result<(), ChipError>) {
    (with_cpu(m, c), Ok(()))
}

/// A failed outcome: nothing changes.
pub open spec fn failed(m: MachineState, e: ChipError) -> (MachineState, Result<(), ChipError>) {
    (m, Err(e))
}

/// The outcome of an instruction word without defined semantics.
pub open spec fn not_implemented(m: MachineState, w: u16) -> (
    MachineState,
    Result<(), ChipError>,
) {
    failed(m, ChipError::OpcodeNotImplemented { opcode: w })
}

/// A CPU-only outcome lifted to the whole machine.
pub open spec fn lift(m: MachineState, o: (CpuState, Result<(), ChipError>)) -> (
    MachineState,
    Result<(), ChipError>,
) {
    (with_cpu(m, o.0), o.1)
}

/// The CPU with register `r` set to `value`.
pub open spec fn set_reg(c: CpuState, r: int, value: u8) -> CpuState {
    CpuState { v: c.v.update(r, value), ..c }
}

/// The CPU with register `r` set to `value`, and then the flag register to `flag`.
pub open spec fn set_flagged(c: CpuState, r: int, value: u8, flag: u8) -> CpuState {
    CpuState { v: c.v.update(r, value).update(FLAG_REGISTER as int, flag), ..c }
}

/// The CPU with the program counter moved past the next instruction when `skip` holds.
pub open spec fn skip_spec(c: CpuState, skip: bool) -> CpuState {
    if skip {
        CpuState { pc: c.pc + 2, ..c }
    } else {
        c
    }
}

/// `Vx += Vy`; the flag tells whether the sum overflowed.
pub open spec fn add_spec(c: CpuState, x: int, y: int) -> CpuState {
    let sum = c.v[x] + c.v[y];
    set_flagged(c, x, (sum % 256) as u8, if sum > 255 { 1 } else { 0 })
}

/// `V[store] = V[lhs] - V[rhs]`; the flag is cleared when the subtraction borrowed.
pub open spec fn sub_spec(c: CpuState, store: int, lhs: int, rhs: int) -> CpuState {
    let a = c.v[lhs];
    let b = c.v[rhs];
    set_flagged(c, store, ((a - b) % 256) as u8, if a < b { 0 } else { 1 })
}

/// The CPU with the flag register set to `flag`, and then register `r` to `value`.
pub open spec fn set_flag_first(c: CpuState, r: int, value: u8, flag: u8) -> CpuState {
    CpuState { v: c.v.update(FLAG_REGISTER as int, flag).update(r, value), ..c }
}

/// `Vx >>= 1`; the flag takes the bit shifted out, and is written before `Vx`.
pub open spec fn shift_right_spec(c: CpuState, x: int) -> CpuState {
    set_flag_first(c, x, c.v[x] / 2, c.v[x] % 2)
}

/// `Vx <<= 1`; the flag takes the bit shifted out, and is written before `Vx`.
pub open spec fn shift_left_spec(c: CpuState, x: int) -> CpuState {
    set_flag_first(c, x, ((c.v[x] * 2) % 256) as u8, c.v[x] / 128)
}

/// The lowest pressed key at or above `from`, or the number of keys if none is.
pub open spec fn first_pressed(keys: Seq<bool>, from: int) -> int
    decreases keys.len() - from,
{
    if from < 0 || from >= keys.len() {
        keys.len() as int
    } else if keys[from] {
        from
    } else {
        first_pressed(keys, from + 1)
    }
}

/// Wait for a key: the lowest pressed key goes to `Vx`; with none pressed the
/// same instruction runs again.
pub open spec fn input_spec(c: CpuState, x: int) -> CpuState {
    let key = first_pressed(c.keypad, 0);
    if key < c.keypad.len() {
        set_reg(c, x, key as u8)
    } else {
        CpuState { pc: c.pc - 2, ..c }
    }
}

/// Whether the key with the number `key` exists and is pressed.
pub open spec fn key_pressed(c: CpuState, key: u8) -> bool {
    key < NUM_KEYS && c.keypad[key as int]
}

/// Whether bit `b` of a sprite row is set, counting from the most significant bit.
pub open spec fn sprite_bit(row: u8, b: int) -> bool {
    row & (0x80u8 >> (b as u8)) != 0u8
}

/// Whether drawing a sprite of `height` rows read from `base`, placed with its
/// top left corner at column `vx` and row `vy`, flips the pixel at column `px`
/// and row `py`. Positions past an edge wrap around to the other one.
pub open spec fn sprite_hit(
    mem: Seq<u8>,
    base: int,
    height: int,
    vx: int,
    vy: int,
    px: int,
    py: int,
) -> bool {
    let r = (py - vy) % (SCREEN_HEIGHT as int);
    let b = (px - vx) % (SCREEN_WIDTH as int);
    r < height && b < 8 && sprite_bit(mem[base + r], b)
}

/// The pixels after the sprite was drawn over them.
pub open spec fn drawn(
    scr: Seq<bool>,
    mem: Seq<u8>,
    base: int,
    height: int,
    vx: int,
    vy: int,
) -> Seq<bool> {
    Seq::new(
        scr.len(),
        |p: int|
            scr[p] != sprite_hit(
                mem,
                base,
                height,
                vx,
                vy,
                p % (SCREEN_WIDTH as int),
                p / (SCREEN_WIDTH as int),
            ),
    )
}

/// Whether the sprite flips a pixel that was on.
pub open spec fn collides(
    scr: Seq<bool>,
    mem: Seq<u8>,
    base: int,
    height: int,
    vx: int,
    vy: int,
) -> bool {
    exists|p: int|
        0 <= p < scr.len() && #[trigger] scr[p] && sprite_hit(
            mem,
            base,
            height,
            vx,
            vy,
            p % (SCREEN_WIDTH as int),
            p / (SCREEN_WIDTH as int),
        )
}

/// The error for an access to memory at `address`.
pub open spec fn out_of_bounds(address: int, mem: Seq<u8>) -> ChipError {
    ChipError::AddressOutOfBounds { address: address as usize, limit: mem.len() as usize }
}

/// `Dxyn`: draw `n` sprite rows from memory at I at (Vx, Vy); the flag tells
/// whether a pixel that was on was turned off.
pub open spec fn draw_spec(op: Opcode, m: MachineState) -> (MachineState, Result<(), ChipError>) {
    let c = m.cpu;
    let base = c.i as int;
    let height = op.n as int;
    let vx = c.v[op.x as int] as int;
    let vy = c.v[op.y as int] as int;
    if height > 0 && base + height > m.memory.len() {
        failed(m, out_of_bounds(base + height - 1, m.memory))
    } else {
        (
            MachineState {
                cpu: set_reg(
                    c,
                    FLAG_REGISTER as int,
                    if collides(m.screen, m.memory, base, height, vx, vy) { 1 } else { 0 },
                ),
                screen: drawn(m.screen, m.memory, base, height, vx, vy),
                ..m
            },
            Ok(()),
        )
    }
}

/// `Fx33`: the decimal digits of `Vx` go to memory at I, I + 1 and I + 2.
pub open spec fn store_bcd_spec(op: Opcode, m: MachineState) -> (
    MachineState,
    Result<(), ChipError>,
) {
    let i = m.cpu.i as int;
    let d = decimal_digits(m.cpu.v[op.x as int]);
    if i + 3 > m.memory.len() {
        failed(m, out_of_bounds(i + 2, m.memory))
    } else {
        (
            MachineState {
                memory: m.memory.update(i, d.0).update(i + 1, d.1).update(i + 2, d.2),
                ..m
            },
            Ok(()),
        )
    }
}

/// `Fx55`: V0 to Vx go to memory from I on.
pub open spec fn store_registers_spec(op: Opcode, m: MachineState) -> (
    MachineState,
    Result<(), ChipError>,
) {
    let i = m.cpu.i as int;
    let x = op.x as int;
    if i + x + 1 > m.memory.len() {
        failed(m, out_of_bounds(i + x, m.memory))
    } else {
        (
            MachineState {
                memory: Seq::new(
                    m.memory.len(),
                    |a: int|
                        if i <= a <= i + x {
                            m.cpu.v[a - i]
                        } else {
                            m.memory[a]
                        },
                ),
                ..m
            },
            Ok(()),
        )
    }
}

/// `Fx65`: V0 to Vx are read from memory from I on.
pub open spec fn retrieve_registers_spec(op: Opcode, m: MachineState) -> (
    MachineState,
    Result<(), ChipError>,
) {
    let i = m.cpu.i as int;
    let x = op.x as int;
    if i + x + 1 > m.memory.len() {
        failed(m, out_of_bounds(i + x, m.memory))
    } else {
        cpu_done(
            m,
            CpuState {
                v: Seq::new(
                    m.cpu.v.len(),
                    |r: int|
                        if r <= x {
                            m.memory[i + r]
                        } else {
                            m.cpu.v[r]
                        },
                ),
                ..m.cpu
            },
        )
    }
}

/// The instructions of family `0x0`.
pub open spec fn prefix_0_spec(op: Opcode, m: MachineState) -> (
    MachineState,
    Result<(), ChipError>,
) {
    if op.hex == 0x00E0 {
        (MachineState { screen: blank_pixels(), ..m }, Ok(()))
    } else if op.hex == 0x00EE {
        let popped = pop_spec(m.cpu);
        match popped.1 {
            Ok(address) => cpu_done(m, CpuState { pc: address as int, ..popped.0 }),
            Err(e) => failed(m, e),
        }
    } else {
        not_implemented(m, op.hex)
    }
}

/// The instructions of family `0x8`, on registers alone.
pub open spec fn prefix_8_spec(op: Opcode, c: CpuState) -> (CpuState, Result<(), ChipError>) {
    let x = op.x as int;
    let y = op.y as int;
    let vx = c.v[x];
    let vy = c.v[y];
    if op.n == 0x0 {
        (set_reg(c, x, vy), Ok(()))
    } else if op.n == 0x1 {
        (set_reg(c, x, vx | vy), Ok(()))
    } else if op.n == 0x2 {
        (set_reg(c, x, vx & vy), Ok(()))
    } else if op.n == 0x3 {
        (set_reg(c, x, vx ^ vy), Ok(()))
    } else if op.n == 0x4 {
        (add_spec(c, x, y), Ok(()))
    } else if op.n == 0x5 {
        (sub_spec(c, x, x, y), Ok(()))
    } else if op.n == 0x6 {
        (shift_right_spec(c, x), Ok(()))
    } else if op.n == 0x7 {
        (sub_spec(c, x, y, x), Ok(()))
    } else if op.n == 0xE {
        (shift_left_spec(c, x), Ok(()))
    } else {
        (c, Err(ChipError::OpcodeNotImplemented { opcode: op.hex }))
    }
}

/// The instructions of family `0xE`: skips on the keypad.
pub open spec fn prefix_e_spec(op: Opcode, c: CpuState) -> (CpuState, Result<(), ChipError>) {
    let vx = c.v[op.x as int];
    if op.nn == 0x9E {
        (skip_spec(c, key_pressed(c, vx)), Ok(()))
    } else if op.nn == 0xA1 {
        (skip_spec(c, !key_pressed(c, vx)), Ok(()))
    } else {
        (c, Err(ChipError::OpcodeNotImplemented { opcode: op.hex }))
    }
}

/// The instructions of family `0xF`.
pub open spec fn prefix_f_spec(op: Opcode, m: MachineState) -> (
    MachineState,
    Result<(), ChipError>,
) {
    let c = m.cpu;
    let x = op.x as int;
    let vx = c.v[x];
    if op.nn == 0x07 {
        cpu_done(m, set_reg(c, x, c.timer_delay))
    } else if op.nn == 0x0A {
        cpu_done(m, input_spec(c, x))
    } else if op.nn == 0x15 {
        cpu_done(m, CpuState { timer_delay: vx, ..c })
    } else if op.nn == 0x18 {
        cpu_done(m, CpuState { timer_sound: vx, ..c })
    } else if op.nn == 0x1E {
        cpu_done(m, CpuState { i: ((c.i + vx) % 0x10000) as u16, ..c })
    } else if op.nn == 0x29 {
        cpu_done(
            m,
            CpuState { i: ((c.font_base_addr + vx * GLYPH_SIZE) % 0x10000) as u16, ..c },
        )
    } else if op.nn == 0x33 {
        store_bcd_spec(op, m)
    } else if op.nn == 0x55 {
        store_registers_spec(op, m)
    } else if op.nn == 0x65 {
        retrieve_registers_spec(op, m)
    } else {
        not_implemented(m, op.hex)
    }
}

/// The outcome of executing the instruction word `w`, where `random` is the
/// random byte that `Cxnn` masks. A failed instruction changes nothing.
pub open spec fn execute_spec(w: u16, m: MachineState, random: u8) -> (
    MachineState,
    Result<(), ChipError>,
) {
    let op = decode(w);
    let c = m.cpu;
    let x = op.x as int;
    let vx = c.v[x];
    let vy = c.v[op.y as int];
    let nnn = op.nnn as int;
    if op.prefix == 0x0 {
        prefix_0_spec(op, m)
    } else if op.prefix == 0x1 {
        cpu_done(m, CpuState { pc: nnn, ..c })
    } else if op.prefix == 0x2 {
        let pushed = push_spec(c, c.pc as u16);
        match pushed.1 {
            Ok(_) => cpu_done(m, CpuState { pc: nnn, ..pushed.0 }),
            Err(e) => failed(m, e),
        }
    } else if op.prefix == 0x3 {
        cpu_done(m, skip_spec(c, vx == op.nn))
    } else if op.prefix == 0x4 {
        cpu_done(m, skip_spec(c, vx != op.nn))
    } else if op.prefix == 0x5 {
        cpu_done(m, skip_spec(c, vx == vy))
    } else if op.prefix == 0x6 {
        cpu_done(m, set_reg(c, x, op.nn))
    } else if op.prefix == 0x7 {
        cpu_done(m, set_reg(c, x, ((vx + op.nn) % 256) as u8))
    } else if op.prefix == 0x8 {
        lift(m, prefix_8_spec(op, c))
    } else if op.prefix == 0x9 {
        cpu_done(m, skip_spec(c, vx != vy))
    } else if op.prefix == 0xA {
        cpu_done(m, CpuState { i: op.nnn, ..c })
    } else if op.prefix == 0xB {
        cpu_done(m, CpuState { pc: nnn + c.v[0], ..c })
    } else if op.prefix == 0xC {
        cpu_done(m, set_reg(c, x, random & op.nn))
    } else if op.prefix == 0xD {
        draw_spec(op, m)
    } else if op.prefix == 0xE {
        lift(m, prefix_e_spec(op, c))
    } else {
        prefix_f_spec(op, m)
    }
}

/// The outcome of one fetch and execute cycle. When the fetch succeeds and the
/// instruction fails, the program counter stays past the instruction.
#[verifier::opaque]
pub open spec fn step_spec(m: MachineState, random: u8) -> (MachineState, Result<(), ChipError>) {
    let fetched = fetch_spec(m.cpu, m.memory);
    match fetched.1 {
        Ok(w) => execute_spec(w, with_cpu(m, fetched.0), random),
        Err(e) => failed(m, e),
    }
}

/// The three decimal digits of a byte, hundreds first.
pub open spec fn decimal_digits(value: u8) -> (u8, u8, u8) {
    ((value / 100) as u8, ((value / 10) % 10) as u8, (value % 10) as u8)
}

/// A decimal digit as double dabble holds it between two shifts: digits of
/// five and above carry three more, so that the next shift carries out of them.
spec fn dabbled(d: int) -> int {
    if d >= 5 {
        d + 3
    } else {
        d
    }
}

/// Shifting a dabbled digit left and bringing in a carry gives the doubled
/// digit plus the carry, less ten when the digit was five or more; the bit
/// that leaves is the carry into the next digit.
proof fn lemma_digit_shift(t: u8, b: u8, c: u8)
    requires
        t < 10,
        c < 2,
        b as int == dabbled(t as int),
    ensures
        (b >> 3u8) & 1u8 == (if t >= 5 { 1u8 } else { 0u8 }),
        (((b << 1u8) & 0x0Fu8) | c) as int == (if t >= 5 {
            2 * t + c - 10
        } else {
            2 * t + c
        }),
{
    if t >= 5 {
        assert(b == t + 3);
        assert((b >> 3u8) & 1u8 == 1u8 && ((b << 1u8) & 0x0Fu8) | c == 2 * t + c - 10)
            by (bit_vector)
            requires
                5 <= t < 10,
                c < 2,
                b == t + 3,
        ;
    } else {
        assert(b == t);
        assert((b >> 3u8) & 1u8 == 0u8 && ((b << 1u8) & 0x0Fu8) | c == 2 * t + c)
            by (bit_vector)
            requires
                t < 5,
                c < 2,
                b == t,
        ;
    }
}

/// How the decimal digits of a number change when it is doubled and a bit added.
proof fn lemma_decimal_shift(p: int, c: int)
    requires
        0 <= p <= 127,
        0 <= c <= 1,
    ensures
        ({
            let t0 = p % 10;
            let t1 = (p / 10) % 10;
            let c0 = if t0 >= 5 { 1int } else { 0int };
            let c1 = if t1 >= 5 { 1int } else { 0int };
            &&& (2 * p + c) % 10 == 2 * t0 + c - 10 * c0
            &&& ((2 * p + c) / 10) % 10 == 2 * t1 + c0 - 10 * c1
            &&& (2 * p + c) / 100 == 2 * (p / 100) + c1
        }),
{
    let q = p / 10;
    let t0 = p % 10;
    let q2 = q / 10;
    let t1 = q % 10;
    assert(p == 10 * q + t0);
    assert(q == 10 * q2 + t1);
    assert(p / 100 == q2);
    let c0 = if t0 >= 5 { 1int } else { 0int };
    let c1 = if t1 >= 5 { 1int } else { 0int };
    let s = 2 * p + c;
    assert(s == 10 * (2 * q + c0) + (2 * t0 + c - 10 * c0));
    assert(s / 10 == 2 * q + c0);
    assert(s % 10 == 2 * t0 + c - 10 * c0);
    let sq = 2 * q + c0;
    assert(sq == 10 * (2 * q2 + c1) + (2 * t1 + c0 - 10 * c1));
    assert(sq % 10 == 2 * t1 + c0 - 10 * c1);
    assert(sq / 10 == 2 * q2 + c1);
    assert(s / 100 == sq / 10);
}

/// Convert a byte to its three decimal digits, hundreds first, with the
/// double dabble algorithm.
pub fn bcd(input: u8) -> (r: (u8, u8, u8))
    ensures
        r == decimal_digits(input),
{
    let mut bcd2: u8 = 0;
    let mut bcd1: u8 = 0;
    let mut bcd0: u8 = 0;
    let mut hex: u8 = input;
    // The bits of the input that were shifted in so far.
    let ghost mut p: u32 = 0;
    let mut i: u8 = 0;
    assert(((input as u32) >> 8u32) == 0u32) by (bit_vector);
    assert(input as u32 == ((input as u32) << 0u32) & 0xFFu32) by (bit_vector);
    while i < 8
        invariant
            i <= 8,
            p == (input as u32) >> (8 - i) as u32,
            hex as u32 == ((input as u32) << i as u32) & 0xFFu32,
            p <= 255,
            i < 8 ==> p <= 127,
            bcd0 as int == (if i < 8 { dabbled(p as int % 10) } else { p as int % 10 }),
            bcd1 as int == (if i < 8 {
                dabbled((p as int / 10) % 10)
            } else {
                (p as int / 10) % 10
            }),
            bcd2 as int == (if i < 8 { dabbled(p as int / 100) } else { p as int / 100 }),
        decreases 8 - i,
    {
        let input_bit = (hex >> 7u8) & 1;
        let bcd0_msb = (bcd0 >> 3u8) & 1;
        let bcd1_msb = (bcd1 >> 3u8) & 1;
        proof {
            assert((hex >> 7u8) & 1u8 < 2u8) by (bit_vector);
            let t0 = (p % 10) as u8;
            let t1 = ((p / 10) % 10) as u8;
            let t2 = (p / 100) as u8;
            lemma_digit_shift(t0, bcd0, input_bit);
            lemma_digit_shift(t1, bcd1, bcd0_msb);
            lemma_digit_shift(t2, bcd2, bcd1_msb);
            lemma_decimal_shift(p as int, input_bit as int);
            let ii = i as u32;
            let inp = input as u32;
            let h = hex as u32;
            assert(((inp >> (8 - ii) as u32) << 1u32) | ((h >> 7u32) & 1u32) == inp >> (7 - ii) as u32
                && ((h << 1u32) & 0xFFu32) == (inp << (ii + 1) as u32) & 0xFFu32
                && inp >> (7 - ii) as u32 <= 255
                && (ii < 7 ==> inp >> (7 - ii) as u32 <= 127)) by (bit_vector)
                requires
                    ii < 8,
                    inp < 256,
                    h == (inp << ii) & 0xFFu32,
            ;
            assert(((p << 1u32) | ((h >> 7u32) & 1u32)) == 2 * p + ((h >> 7u32) & 1u32))
                by (bit_vector)
                requires
                    p <= 127,
            ;
            assert((hex >> 7u8) & 1u8 == ((h >> 7u32) & 1u32) as u8) by (bit_vector)
                requires
                    h == hex as u32,
            ;
            assert(((hex << 1u8) as u32) == (h << 1u32) & 0xFFu32) by (bit_vector)
                requires
                    h == hex as u32,
            ;
            p = (2 * p + input_bit as u32) as u32;
        }
        hex = hex << 1u8;

        bcd0 = (bcd0 << 1u8) & 0x0F;
        bcd0 = bcd0 | input_bit;
        if bcd0 >= 5 && i < 7 {
            bcd0 = bcd0 + 3;
        }

        bcd1 = (bcd1 << 1u8) & 0x0F;
        bcd1 = bcd1 | bcd0_msb;
        if bcd1 >= 5 && i < 7 {
            bcd1 = bcd1 + 3;
        }

        bcd2 = (bcd2 << 1u8) & 0x0F;
        bcd2 = bcd2 | bcd1_msb;
        if bcd2 >= 5 && i < 7 {
            bcd2 = bcd2 + 3;
        }

        i = i + 1;
    }
    assert(((input as u32) >> 0u32) == input as u32) by (bit_vector);
    (bcd2, bcd1, bcd0)
}

fn skip_if(skip: bool, cpu: &mut Cpu)
    requires
        old(cpu).wf(),
        old(cpu).pc + 2 <= usize::MAX,
    ensures
        final(cpu).wf(),
        final(cpu)@ == skip_spec(old(cpu)@, skip),
{
    if skip {
        cpu.pc = cpu.pc + 2;
    }
}

fn add_registers(reg_lhs: u8, reg_rhs: u8, cpu: &mut Cpu)
    requires
        old(cpu).wf(),
        reg_lhs < NUM_REGISTERS,
        reg_rhs < NUM_REGISTERS,
    ensures
        final(cpu).wf(),
        final(cpu)@ == add_spec(old(cpu)@, reg_lhs as int, reg_rhs as int),
{
    let sum: u16 = cpu.v[reg_lhs as usize] as u16 + cpu.v[reg_rhs as usize] as u16;
    cpu.v[reg_lhs as usize] = (sum % 256) as u8;
    cpu.v[FLAG_REGISTER] = if sum > 255 {
        1
    } else {
        0
    };
}

fn sub_registers(reg_store: u8, reg_lhs: u8, reg_rhs: u8, cpu: &mut Cpu)
    requires
        old(cpu).wf(),
        reg_store < NUM_REGISTERS,
        reg_lhs < NUM_REGISTERS,
        reg_rhs < NUM_REGISTERS,
    ensures
        final(cpu).wf(),
        final(cpu)@ == sub_spec(old(cpu)@, reg_store as int, reg_lhs as int, reg_rhs as int),
{
    let lhs = cpu.v[reg_lhs as usize];
    let rhs = cpu.v[reg_rhs as usize];
    cpu.v[reg_store as usize] = lhs.wrapping_sub(rhs);
    cpu.v[FLAG_REGISTER] = if lhs < rhs {
        0
    } else {
        1
    };
}

fn shift_right(reg: u8, cpu: &mut Cpu)
    requires
        old(cpu).wf(),
        reg < NUM_REGISTERS,
    ensures
        final(cpu).wf(),
        final(cpu)@ == shift_right_spec(old(cpu)@, reg as int),
{
    let value = cpu.v[reg as usize];
    assert(value >> 1u8 == value / 2 && value & 1u8 == value % 2) by (bit_vector);
    cpu.v[FLAG_REGISTER] = value & 0x01;
    cpu.v[reg as usize] = value >> 1u8;
}

fn shift_left(reg: u8, cpu: &mut Cpu)
    requires
        old(cpu).wf(),
        reg < NUM_REGISTERS,
    ensures
        final(cpu).wf(),
        final(cpu)@ == shift_left_spec(old(cpu)@, reg as int),
{
    let value = cpu.v[reg as usize];
    assert((value << 1u8) as int == (value as int * 2) % 256 && (value >> 7u8) & 1u8 == value
        / 128) by (bit_vector);
    cpu.v[FLAG_REGISTER] = (value >> 7u8) & 0x01;
    cpu.v[reg as usize] = value << 1u8;
}

fn get_input(opcode: Opcode, cpu: &mut Cpu)
    requires
        old(cpu).wf(),
        old(cpu).pc >= 2,
        opcode == decode(opcode.hex),
    ensures
        final(cpu).wf(),
        final(cpu)@ == input_spec(old(cpu)@, opcode.x as int),
{
    let mut key: usize = 0;
    while key < NUM_KEYS && !cpu.keypad[key]
        invariant
            cpu.wf(),
            0 <= key <= NUM_KEYS,
            first_pressed(cpu@.keypad, 0) == first_pressed(cpu@.keypad, key as int),
        decreases NUM_KEYS - key,
    {
        key = key + 1;
    }
    if key < NUM_KEYS {
        cpu.v[opcode.x as usize] = key as u8;
    } else {
        cpu.pc = cpu.pc - 2;
    }
}

fn execute_prefix_8(opcode: Opcode, cpu: &mut Cpu) -> (r: Result<(), ChipError>)
    requires
        old(cpu).wf(),
        opcode == decode(opcode.hex),
    ensures
        final(cpu).wf(),
        (final(cpu)@, r) == prefix_8_spec(opcode, old(cpu)@),
{
    let x = opcode.x as usize;
    let y = opcode.y as usize;
    match opcode.n {
        0x0 => cpu.v[x] = cpu.v[y],
        0x1 => cpu.v[x] = cpu.v[x] | cpu.v[y],
        0x2 => cpu.v[x] = cpu.v[x] & cpu.v[y],
        0x3 => cpu.v[x] = cpu.v[x] ^ cpu.v[y],
        0x4 => add_registers(opcode.x, opcode.y, cpu),
        0x5 => sub_registers(opcode.x, opcode.x, opcode.y, cpu),
        0x6 => shift_right(opcode.x, cpu),
        0x7 => sub_registers(opcode.x, opcode.y, opcode.x, cpu),
        0xE => shift_left(opcode.x, cpu),
        _ => {
            return Err(ChipError::OpcodeNotImplemented { opcode: opcode.hex });
        },
    }
    Ok(())
}

fn execute_prefix_e(opcode: Opcode, cpu: &mut Cpu) -> (r: Result<(), ChipError>)
    requires
        old(cpu).wf(),
        old(cpu).pc + 2 <= usize::MAX,
        opcode == decode(opcode.hex),
    ensures
        final(cpu).wf(),
        (final(cpu)@, r) == prefix_e_spec(opcode, old(cpu)@),
{
    let key = cpu.v[opcode.x as usize];
    let pressed = (key as usize) < NUM_KEYS && cpu.keypad[key as usize];
    match opcode.nn {
        0x9E => skip_if(pressed, cpu),
        0xA1 => skip_if(!pressed, cpu),
        _ => {
            return Err(ChipError::OpcodeNotImplemented { opcode: opcode.hex });
        },
    }
    Ok(())
}

/// Whether the sprite flips pixel `p` within the bits that come before bit
/// `bit` of row `row`.
spec fn hit_before(
    mem: Seq<u8>,
    base: int,
    height: int,
    vx: int,
    vy: int,
    row: int,
    bit: int,
    p: int,
) -> bool {
    let px = p % (SCREEN_WIDTH as int);
    let py = p / (SCREEN_WIDTH as int);
    let r = (py - vy) % (SCREEN_HEIGHT as int);
    let b = (px - vx) % (SCREEN_WIDTH as int);
    sprite_hit(mem, base, height, vx, vy, px, py) && (r < row || (r == row && b < bit))
}

/// What drawing has done once every bit before bit `bit` of row `row` was
/// handled: exactly the pixels hit so far are flipped, and `collided` tells
/// whether one of them was on.
spec fn draw_progress(
    mem: Seq<u8>,
    base: int,
    height: int,
    vx: int,
    vy: int,
    row: int,
    bit: int,
    old_scr: Seq<bool>,
    scr: Seq<bool>,
    collided: bool,
) -> bool {
    &&& scr.len() == old_scr.len()
    &&& forall|p: int|
        0 <= p < old_scr.len() ==> #[trigger] scr[p] == (old_scr[p] != hit_before(
            mem,
            base,
            height,
            vx,
            vy,
            row,
            bit,
            p,
        ))
    &&& collided == exists|p: int|
        0 <= p < old_scr.len() && #[trigger] old_scr[p] && hit_before(
            mem,
            base,
            height,
            vx,
            vy,
            row,
            bit,
            p,
        )
}

/// Bit `bit` of row `row` lands on exactly one pixel: the one at the wrapped
/// position.
proof fn lemma_target(vx: int, vy: int, row: int, bit: int, p: int)
    requires
        0 <= vx,
        0 <= vy,
        0 <= row < SCREEN_HEIGHT,
        0 <= bit < 8,
        0 <= p < SCREEN_WIDTH * SCREEN_HEIGHT,
    ensures
        ({
            let tx = (vx + bit) % (SCREEN_WIDTH as int);
            let ty = (vy + row) % (SCREEN_HEIGHT as int);
            let px = p % (SCREEN_WIDTH as int);
            let py = p / (SCREEN_WIDTH as int);
            &&& (((py - vy) % (SCREEN_HEIGHT as int) == row && (px - vx) % (SCREEN_WIDTH as int)
                == bit) <==> p == pixel_index(tx, ty))
            &&& 0 <= pixel_index(tx, ty) < SCREEN_WIDTH * SCREEN_HEIGHT
        }),
{
    let tx = (vx + bit) % 64;
    let ty = (vy + row) % 32;
    let px = p % 64;
    let py = p / 64;
    assert(p == px + 64 * py);
    assert(0 <= py < 32);
    if (py - vy) % 32 == row && (px - vx) % 64 == bit {
        assert(py == ty);
        assert(px == tx);
    }
    if p == pixel_index(tx, ty) {
        assert(px == tx && py == ty);
    }
}

/// Handling bit `bit` of row `row` adds exactly its target pixel to the
/// pixels hit so far, when the bit is set.
proof fn lemma_hit_before_next(
    mem: Seq<u8>,
    base: int,
    height: int,
    vx: int,
    vy: int,
    row: int,
    bit: int,
)
    requires
        0 <= vx,
        0 <= vy,
        0 <= row < height,
        height < SCREEN_HEIGHT,
        0 <= bit < 8,
    ensures
        ({
            let t = pixel_index(
                (vx + bit) % (SCREEN_WIDTH as int),
                (vy + row) % (SCREEN_HEIGHT as int),
            );
            let set = sprite_bit(mem[base + row], bit);
            &&& 0 <= t < SCREEN_WIDTH * SCREEN_HEIGHT
            &&& !hit_before(mem, base, height, vx, vy, row, bit, t)
            &&& forall|p: int|
                0 <= p < SCREEN_WIDTH * SCREEN_HEIGHT ==> #[trigger] hit_before(
                    mem,
                    base,
                    height,
                    vx,
                    vy,
                    row,
                    bit + 1,
                    p,
                ) == (hit_before(mem, base, height, vx, vy, row, bit, p) || (set && p == t))
        }),
{
    let t = pixel_index((vx + bit) % (SCREEN_WIDTH as int), (vy + row) % (SCREEN_HEIGHT as int));
    let set = sprite_bit(mem[base + row], bit);
    assert forall|p: int| 0 <= p < SCREEN_WIDTH * SCREEN_HEIGHT implies #[trigger] hit_before(
        mem,
        base,
        height,
        vx,
        vy,
        row,
        bit + 1,
        p,
    ) == (hit_before(mem, base, height, vx, vy, row, bit, p) || (set && p == t)) by {
        lemma_target(vx, vy, row, bit, p);
    }
    lemma_target(vx, vy, row, bit, t);
}

/// Handling one bit keeps `draw_progress`: a set bit flips its target pixel,
/// which has not been flipped before, and notes whether it was on.
#[verifier::rlimit(50)]
proof fn lemma_draw_bit(
    mem: Seq<u8>,
    base: int,
    height: int,
    vx: int,
    vy: int,
    row: int,
    bit: int,
    old_scr: Seq<bool>,
    scr: Seq<bool>,
    collided: bool,
)
    requires
        0 <= vx,
        0 <= vy,
        0 <= row < height,
        height < SCREEN_HEIGHT,
        0 <= bit < 8,
        old_scr.len() == SCREEN_WIDTH * SCREEN_HEIGHT,
        draw_progress(mem, base, height, vx, vy, row, bit, old_scr, scr, collided),
    ensures
        ({
            let t = pixel_index(
                (vx + bit) % (SCREEN_WIDTH as int),
                (vy + row) % (SCREEN_HEIGHT as int),
            );
            let set = sprite_bit(mem[base + row], bit);
            &&& 0 <= t < old_scr.len()
            &&& scr[t] == old_scr[t]
            &&& set ==> draw_progress(
                mem,
                base,
                height,
                vx,
                vy,
                row,
                bit + 1,
                old_scr,
                scr.update(t, !scr[t]),
                collided || scr[t],
            )
            &&& !set ==> draw_progress(
                mem,
                base,
                height,
                vx,
                vy,
                row,
                bit + 1,
                old_scr,
                scr,
                collided,
            )
        }),
{
    let t = pixel_index((vx + bit) % (SCREEN_WIDTH as int), (vy + row) % (SCREEN_HEIGHT as int));
    let set = sprite_bit(mem[base + row], bit);
    lemma_hit_before_next(mem, base, height, vx, vy, row, bit);
    if set {
        let scr2 = scr.update(t, !scr[t]);
        let c2 = collided || scr[t];
        if c2 {
            if collided {
                let w = choose|p: int|
                    0 <= p < old_scr.len() && #[trigger] old_scr[p] && hit_before(
                        mem,
                        base,
                        height,
                        vx,
                        vy,
                        row,
                        bit,
                        p,
                    );
                assert(old_scr[w] && hit_before(mem, base, height, vx, vy, row, bit + 1, w));
            } else {
                assert(old_scr[t] && hit_before(mem, base, height, vx, vy, row, bit + 1, t));
            }
        }
        assert forall|p: int| 0 <= p < old_scr.len() implies #[trigger] scr2[p] == (old_scr[p]
            != hit_before(mem, base, height, vx, vy, row, bit + 1, p)) by {
            if p != t {
                assert(scr2[p] == scr[p]);
            }
        }
    } else {
        assert forall|p: int| 0 <= p < old_scr.len() implies #[trigger] scr[p] == (old_scr[p]
            != hit_before(mem, base, height, vx, vy, row, bit + 1, p)) by {
            assert(hit_before(mem, base, height, vx, vy, row, bit + 1, p) == hit_before(
                mem,
                base,
                height,
                vx,
                vy,
                row,
                bit,
                p,
            ));
        }
    }
}

/// Moving from the end of one row to the start of the next keeps `draw_progress`.
proof fn lemma_draw_row(
    mem: Seq<u8>,
    base: int,
    height: int,
    vx: int,
    vy: int,
    row: int,
    old_scr: Seq<bool>,
    scr: Seq<bool>,
    collided: bool,
)
    requires
        draw_progress(mem, base, height, vx, vy, row, 8, old_scr, scr, collided),
    ensures
        draw_progress(mem, base, height, vx, vy, row + 1, 0, old_scr, scr, collided),
{
    assert forall|p: int| 0 <= p < old_scr.len() implies hit_before(
        mem,
        base,
        height,
        vx,
        vy,
        row,
        8,
        p,
    ) == hit_before(mem, base, height, vx, vy, row + 1, 0, p) by {}
}

/// Once every row was handled, `draw_progress` is the finished drawing.
proof fn lemma_draw_done(
    mem: Seq<u8>,
    base: int,
    height: int,
    vx: int,
    vy: int,
    old_scr: Seq<bool>,
    scr: Seq<bool>,
    collided: bool,
)
    requires
        draw_progress(mem, base, height, vx, vy, height, 0, old_scr, scr, collided),
    ensures
        scr == drawn(old_scr, mem, base, height, vx, vy),
        collided == collides(old_scr, mem, base, height, vx, vy),
{
    assert forall|p: int| 0 <= p < old_scr.len() implies hit_before(
        mem,
        base,
        height,
        vx,
        vy,
        height,
        0,
        p,
    ) == sprite_hit(
        mem,
        base,
        height,
        vx,
        vy,
        p % (SCREEN_WIDTH as int),
        p / (SCREEN_WIDTH as int),
    ) by {}
    assert(scr =~= drawn(old_scr, mem, base, height, vx, vy));
}

fn draw_sprite(opcode: Opcode, cpu: &mut Cpu, memory: &[u8], screen: &mut Screen) -> (r: Result<
    (),
    ChipError,
>)
    requires
        old(cpu).wf(),
        old(screen).wf(),
        opcode == decode(opcode.hex),
    ensures
        final(cpu).wf(),
        final(screen).wf(),
        ({
            let m = MachineState { cpu: old(cpu)@, memory: memory@, screen: old(screen)@ };
            draw_spec(opcode, m) == (MachineState {
                cpu: final(cpu)@,
                memory: memory@,
                screen: final(screen)@,
            }, r)
        }),
{
    let sprite_height = opcode.n as usize;
    let sprite_x = cpu.v[opcode.x as usize] as usize;
    let sprite_y = cpu.v[opcode.y as usize] as usize;
    let sprite_base_addr = cpu.i as usize;
    let mem_len = memory.len();
    if sprite_height > 0 && sprite_base_addr + sprite_height > mem_len {
        return Err(
            ChipError::AddressOutOfBounds {
                address: sprite_base_addr + sprite_height - 1,
                limit: mem_len,
            },
        );
    }
    let ghost mem = memory@;
    let ghost old_scr = screen@;
    let ghost base = sprite_base_addr as int;
    let ghost h = sprite_height as int;
    let ghost vx = sprite_x as int;
    let ghost vy = sprite_y as int;
    proof {
        screen.lemma_wf_len();
    }
    let mut collided = false;
    let mut y: usize = 0;
    while y < sprite_height
        invariant
            screen.wf(),
            old_scr.len() == SCREEN_WIDTH * SCREEN_HEIGHT,
            mem == memory@,
            mem_len == mem.len(),
            base == sprite_base_addr,
            h == sprite_height,
            vx == sprite_x,
            vy == sprite_y,
            sprite_x < 256,
            sprite_y < 256,
            sprite_height < 16,
            sprite_height == 0 || sprite_base_addr + sprite_height <= mem_len,
            0 <= y <= sprite_height,
            draw_progress(mem, base, h, vx, vy, y as int, 0, old_scr, screen@, collided),
        decreases sprite_height - y,
    {
        let sprite_hslice: u8 = memory[sprite_base_addr + y];
        let mut x: u8 = 0;
        while x < 8
            invariant
                screen.wf(),
                old_scr.len() == SCREEN_WIDTH * SCREEN_HEIGHT,
                mem == memory@,
                mem_len == mem.len(),
                base == sprite_base_addr,
                h == sprite_height,
                vx == sprite_x,
                vy == sprite_y,
                sprite_x < 256,
                sprite_y < 256,
                sprite_height < 16,
                0 <= y < sprite_height,
                sprite_base_addr + sprite_height <= mem_len,
                sprite_hslice == mem[base + y],
                0 <= x <= 8,
                draw_progress(mem, base, h, vx, vy, y as int, x as int, old_scr, screen@, collided),
            decreases 8 - x,
        {
            proof {
                lemma_draw_bit(mem, base, h, vx, vy, y as int, x as int, old_scr, screen@, collided);
            }
            if (sprite_hslice & (0x80u8 >> x)) != 0 {
                let pos_x = (sprite_x + x as usize) % SCREEN_WIDTH;
                let pos_y = (sprite_y + y) % SCREEN_HEIGHT;
                let on = screen.get_pixel(pos_x, pos_y);
                collided = collided || on;
                screen.toggle_pixel(pos_x, pos_y);
            }
            x = x + 1;
        }
        proof {
            lemma_draw_row(mem, base, h, vx, vy, y as int, old_scr, screen@, collided);
        }
        y = y + 1;
    }
    proof {
        lemma_draw_done(mem, base, h, vx, vy, old_scr, screen@, collided);
    }
    cpu.v[FLAG_REGISTER] = if collided {
        1
    } else {
        0
    };
    Ok(())
}

fn store_bcd(opcode: Opcode, cpu: &Cpu, memory: &mut [u8]) -> (r: Result<(), ChipError>)
    requires
        cpu.wf(),
        opcode == decode(opcode.hex),
    ensures
        ({
            let m = MachineState { cpu: cpu@, memory: old(memory)@, screen: Seq::empty() };
            store_bcd_spec(opcode, m) == (MachineState {
                cpu: cpu@,
                memory: final(memory)@,
                screen: Seq::empty(),
            }, r)
        }),
{
    let base = cpu.i as usize;
    if base + 3 > memory.len() {
        return Err(ChipError::AddressOutOfBounds { address: base + 2, limit: memory.len() });
    }
    let (bcd2, bcd1, bcd0) = bcd(cpu.v[opcode.x as usize]);
    memory[base] = bcd2;
    memory[base + 1] = bcd1;
    memory[base + 2] = bcd0;
    Ok(())
}

fn store_registers(opcode: Opcode, cpu: &Cpu, memory: &mut [u8]) -> (r: Result<(), ChipError>)
    requires
        cpu.wf(),
        opcode == decode(opcode.hex),
    ensures
        ({
            let m = MachineState { cpu: cpu@, memory: old(memory)@, screen: Seq::empty() };
            store_registers_spec(opcode, m) == (MachineState {
                cpu: cpu@,
                memory: final(memory)@,
                screen: Seq::empty(),
            }, r)
        }),
{
    let base = cpu.i as usize;
    let last = opcode.x as usize;
    if base + last + 1 > memory.len() {
        return Err(ChipError::AddressOutOfBounds { address: base + last, limit: memory.len() });
    }
    let ghost start = memory@;
    let mut k: usize = 0;
    while k <= last
        invariant
            cpu.wf(),
            last < NUM_REGISTERS,
            base == cpu.i,
            base + last + 1 <= memory@.len(),
            memory@.len() == start.len(),
            0 <= k <= last + 1,
            forall|a: int|
                0 <= a < start.len() ==> #[trigger] memory@[a] == if base <= a < base + k {
                    cpu@.v[a - base]
                } else {
                    start[a]
                },
        decreases last + 1 - k,
    {
        memory[base + k] = cpu.v[k];
        k = k + 1;
    }
    proof {
        let m = MachineState { cpu: cpu@, memory: start, screen: Seq::empty() };
        assert(memory@ =~= store_registers_spec(opcode, m).0.memory);
    }
    Ok(())
}

fn retrieve_registers(opcode: Opcode, cpu: &mut Cpu, memory: &[u8]) -> (r: Result<(), ChipError>)
    requires
        old(cpu).wf(),
        opcode == decode(opcode.hex),
    ensures
        final(cpu).wf(),
        ({
            let m = MachineState { cpu: old(cpu)@, memory: memory@, screen: Seq::empty() };
            retrieve_registers_spec(opcode, m) == (MachineState {
                cpu: final(cpu)@,
                memory: memory@,
                screen: Seq::empty(),
            }, r)
        }),
{
    let base = cpu.i as usize;
    let last = opcode.x as usize;
    if base + last + 1 > memory.len() {
        return Err(ChipError::AddressOutOfBounds { address: base + last, limit: memory.len() });
    }
    let ghost start = cpu@;
    let mut k: usize = 0;
    while k <= last
        invariant
            cpu.wf(),
            last < NUM_REGISTERS,
            base == cpu.i,
            base + last + 1 <= memory@.len(),
            cpu@ == (CpuState { v: cpu@.v, ..start }),
            0 <= k <= last + 1,
            forall|r: int|
                0 <= r < NUM_REGISTERS ==> #[trigger] cpu@.v[r] == if r < k {
                    memory@[base + r]
                } else {
                    start.v[r]
                },
        decreases last + 1 - k,
    {
        cpu.v[k] = memory[base + k];
        k = k + 1;
    }
    proof {
        let m = MachineState { cpu: start, memory: memory@, screen: Seq::empty() };
        assert(cpu@.v =~= retrieve_registers_spec(opcode, m).0.cpu.v);
    }
    Ok(())
}

fn call_subroutine(opcode: Opcode, cpu: &mut Cpu) -> (r: Result<(), ChipError>)
    requires
        old(cpu).wf(),
        opcode == decode(opcode.hex),
    ensures
        final(cpu).wf(),
        ({
            let pushed = push_spec(old(cpu)@, old(cpu)@.pc as u16);
            match pushed.1 {
                Ok(_) => r == Ok::<(), ChipError>(()) && final(cpu)@ == (CpuState {
                    pc: opcode.nnn as int,
                    ..pushed.0
                }),
                Err(e) => r == Err::<(), ChipError>(e) && final(cpu)@ == old(cpu)@,
            }
        }),
{
    match cpu.push(cpu.pc as u16) {
        Ok(()) => {},
        Err(e) => {
            return Err(e);
        },
    }
    cpu.pc = opcode.nnn as usize;
    Ok(())
}

fn execute_prefix_0(opcode: Opcode, cpu: &mut Cpu, screen: &mut Screen) -> (r: Result<
    (),
    ChipError,
>)
    requires
        old(cpu).wf(),
        old(screen).wf(),
        opcode == decode(opcode.hex),
    ensures
        final(cpu).wf(),
        final(screen).wf(),
        ({
            let m = MachineState { cpu: old(cpu)@, memory: Seq::empty(), screen: old(screen)@ };
            prefix_0_spec(opcode, m) == (MachineState {
                cpu: final(cpu)@,
                memory: Seq::empty(),
                screen: final(screen)@,
            }, r)
        }),
{
    match opcode.hex {
        0x00E0 => screen.clear_screen(),
        0x00EE => {
            match cpu.pop() {
                Ok(address) => cpu.pc = address as usize,
                Err(e) => {
                    return Err(e);
                },
            }
        },
        _ => {
            return Err(ChipError::OpcodeNotImplemented { opcode: opcode.hex });
        },
    }
    Ok(())
}

fn execute_prefix_f(opcode: Opcode, cpu: &mut Cpu, memory: &mut [u8]) -> (r: Result<
    (),
    ChipError,
>)
    requires
        old(cpu).wf(),
        opcode.nn == 0x0A ==> old(cpu).pc >= 2,
        opcode == decode(opcode.hex),
    ensures
        final(cpu).wf(),
        ({
            let m = MachineState { cpu: old(cpu)@, memory: old(memory)@, screen: Seq::empty() };
            prefix_f_spec(opcode, m) == (MachineState {
                cpu: final(cpu)@,
                memory: final(memory)@,
                screen: Seq::empty(),
            }, r)
        }),
{
    let x = opcode.x as usize;
    match opcode.nn {
        0x07 => cpu.v[x] = cpu.timer_delay,
        0x0A => get_input(opcode, cpu),
        0x15 => cpu.timer_delay = cpu.v[x],
        0x18 => cpu.timer_sound = cpu.v[x],
        0x1E => cpu.i = cpu.i.wrapping_add(cpu.v[x] as u16),
        0x29 => {
            let glyph = (cpu.font_base_addr % 0x10000 + cpu.v[x] as usize * GLYPH_SIZE) % 0x10000;
            proof {
                let f = cpu.font_base_addr as int;
                let g = cpu.v[x as int] as int * 5;
                assert((f % 0x10000 + g) % 0x10000 == (f + g) % 0x10000) by {
                    vstd::arithmetic::div_mod::lemma_add_mod_noop(f, g, 0x10000);
                    vstd::arithmetic::div_mod::lemma_mod_twice(f, 0x10000);
                    vstd::arithmetic::div_mod::lemma_mod_twice(g, 0x10000);
                    vstd::arithmetic::div_mod::lemma_add_mod_noop(f % 0x10000, g, 0x10000);
                }
            }
            cpu.i = glyph as u16;
        },
        0x33 => {
            return store_bcd(opcode, cpu, memory);
        },
        0x55 => {
            return store_registers(opcode, cpu, memory);
        },
        0x65 => {
            return retrieve_registers(opcode, cpu, memory);
        },
        _ => {
            return Err(ChipError::OpcodeNotImplemented { opcode: opcode.hex });
        },
    }
    Ok(())
}

/// Execute one decoded instruction. `random` is the random byte that `Cxnn`
/// masks with `nn`; the other instructions ignore it.
#[verifier::rlimit(50)]
pub fn execute(
    opcode: Opcode,
    cpu: &mut Cpu,
    memory: &mut [u8],
    screen: &mut Screen,
    random: u8,
) -> (r: Result<(), ChipError>)
    requires
        old(cpu).wf(),
        old(screen).wf(),
        opcode == decode(opcode.hex),
        // `Fx0A` steps back over itself, which was fetched, so the program
        // counter is past it.
        opcode.prefix == 0xF && opcode.nn == 0x0A ==> old(cpu).pc >= 2,
        old(cpu).pc + 2 <= usize::MAX,
    ensures
        final(cpu).wf(),
        final(screen).wf(),
        ({
            let m = MachineState { cpu: old(cpu)@, memory: old(memory)@, screen: old(screen)@ };
            execute_spec(opcode.hex, m, random) == (MachineState {
                cpu: final(cpu)@,
                memory: final(memory)@,
                screen: final(screen)@,
            }, r)
        }),
{
    let x = opcode.x as usize;
    let y = opcode.y as usize;
    match opcode.prefix {
        0x0 => {
            return execute_prefix_0(opcode, cpu, screen);
        },
        0x1 => cpu.pc = opcode.nnn as usize,
        0x2 => {
            return call_subroutine(opcode, cpu);
        },
        0x3 => skip_if(cpu.v[x] == opcode.nn, cpu),
        0x4 => skip_if(cpu.v[x] != opcode.nn, cpu),
        0x5 => skip_if(cpu.v[x] == cpu.v[y], cpu),
        0x6 => cpu.v[x] = opcode.nn,
        0x7 => cpu.v[x] = cpu.v[x].wrapping_add(opcode.nn),
        0x8 => {
            return execute_prefix_8(opcode, cpu);
        },
        0x9 => skip_if(cpu.v[x] != cpu.v[y], cpu),
        0xA => cpu.i = opcode.nnn,
        0xB => cpu.pc = opcode.nnn as usize + cpu.v[0] as usize,
        0xC => cpu.v[x] = random & opcode.nn,
        0xD => {
            return draw_sprite(opcode, cpu, memory, screen);
        },
        0xE => {
            return execute_prefix_e(opcode, cpu);
        },
        _ => {
            return execute_prefix_f(opcode, cpu, memory);
        },
    }
    Ok(())
}

/// A sprite row that is not blank has a set bit.
proof fn lemma_row_has_bit(row: u8) -> (b: int)
    requires
        row != 0,
    ensures
        0 <= b < 8,
        sprite_bit(row, b),
{
    assert(row & (0x80u8 >> 0u8) != 0 || row & (0x80u8 >> 1u8) != 0 || row & (0x80u8 >> 2u8) != 0
        || row & (0x80u8 >> 3u8) != 0 || row & (0x80u8 >> 4u8) != 0 || row & (0x80u8 >> 5u8) != 0
        || row & (0x80u8 >> 6u8) != 0 || row & (0x80u8 >> 7u8) != 0) by (bit_vector)
        requires
            row != 0,
    ;
    if row & (0x80u8 >> 0u8) != 0 {
        0
    } else if row & (0x80u8 >> 1u8) != 0 {
        1
    } else if row & (0x80u8 >> 2u8) != 0 {
        2
    } else if row & (0x80u8 >> 3u8) != 0 {
        3
    } else if row & (0x80u8 >> 4u8) != 0 {
        4
    } else if row & (0x80u8 >> 5u8) != 0 {
        5
    } else if row & (0x80u8 >> 6u8) != 0 {
        6
    } else {
        7
    }
}

/// `lemma_draw_twice`, over the outcome of drawing alone.
proof fn lemma_draw_spec_twice(op: Opcode, m: MachineState)
    requires
        op == decode(op.hex),
        op.prefix == 0xD,
        op.x != FLAG_REGISTER,
        op.y != FLAG_REGISTER,
        m.cpu.wf(),
        m.screen.len() == SCREEN_WIDTH * SCREEN_HEIGHT,
        draw_spec(op, m).1 is Ok,
    ensures
        ({
            let first = draw_spec(op, m).0;
            let second = draw_spec(op, first);
            let base = m.cpu.i as int;
            let height = op.n as int;
            let vx = m.cpu.v[op.x as int] as int;
            let vy = m.cpu.v[op.y as int] as int;
            &&& second.1 is Ok
            &&& second.0.screen == m.screen
            &&& second.0.memory == m.memory
            &&& (second.0.cpu.v[FLAG_REGISTER as int] == 1) == (exists|p: int|
                0 <= p < m.screen.len() && !#[trigger] m.screen[p] && sprite_hit(
                    m.memory,
                    base,
                    height,
                    vx,
                    vy,
                    p % (SCREEN_WIDTH as int),
                    p / (SCREEN_WIDTH as int),
                ))
            &&& (m.screen == blank_pixels() && height >= 1 && m.memory[base] != 0) ==> second.0.cpu.v[
                FLAG_REGISTER as int] == 1
        }),
{
    let first = draw_spec(op, m).0;
    let base = m.cpu.i as int;
    let height = op.n as int;
    let vx = m.cpu.v[op.x as int] as int;
    let vy = m.cpu.v[op.y as int] as int;
    let second = draw_spec(op, first);
    assert(first.cpu.v[op.x as int] == m.cpu.v[op.x as int]);
    assert(first.cpu.v[op.y as int] == m.cpu.v[op.y as int]);
    let once = drawn(m.screen, m.memory, base, height, vx, vy);
    assert(drawn(once, m.memory, base, height, vx, vy) =~= m.screen);
    let hit_off = exists|p: int|
        0 <= p < m.screen.len() && !#[trigger] m.screen[p] && sprite_hit(
            m.memory,
            base,
            height,
            vx,
            vy,
            p % (SCREEN_WIDTH as int),
            p / (SCREEN_WIDTH as int),
        );
    if collides(once, m.memory, base, height, vx, vy) {
        let p = choose|p: int|
            0 <= p < once.len() && #[trigger] once[p] && sprite_hit(
                m.memory,
                base,
                height,
                vx,
                vy,
                p % (SCREEN_WIDTH as int),
                p / (SCREEN_WIDTH as int),
            );
        assert(!m.screen[p]);
    }
    if hit_off {
        let p = choose|p: int|
            0 <= p < m.screen.len() && !#[trigger] m.screen[p] && sprite_hit(
                m.memory,
                base,
                height,
                vx,
                vy,
                p % (SCREEN_WIDTH as int),
                p / (SCREEN_WIDTH as int),
            );
        assert(once[p]);
    }
    if m.screen == blank_pixels() && height >= 1 && m.memory[base] != 0 {
        let b = lemma_row_has_bit(m.memory[base]);
        let t = pixel_index((vx + b) % (SCREEN_WIDTH as int), vy % (SCREEN_HEIGHT as int));
        lemma_target(vx, vy, 0, b, 0);
        lemma_target(vx, vy, 0, b, t);
        assert(vy + 0 == vy);
        assert(m.memory[base + 0] == m.memory[base]);
        assert(sprite_hit(
            m.memory,
            base,
            height,
            vx,
            vy,
            t % (SCREEN_WIDTH as int),
            t / (SCREEN_WIDTH as int),
        ));
        assert(!m.screen[t]);
    }
}

/// `lemma_draw_wraps`, over the outcome of drawing alone.
proof fn lemma_draw_spec_wraps(op: Opcode, m: MachineState, r: int, b: int)
    requires
        op == decode(op.hex),
        op.prefix == 0xD,
        m.cpu.wf(),
        m.screen.len() == SCREEN_WIDTH * SCREEN_HEIGHT,
        draw_spec(op, m).1 is Ok,
        0 <= r < op.n,
        0 <= b < 8,
    ensures
        ({
            let vx = m.cpu.v[op.x as int] as int;
            let vy = m.cpu.v[op.y as int] as int;
            let t = pixel_index((vx + b) % (SCREEN_WIDTH as int), (vy + r) % (SCREEN_HEIGHT as int));
            draw_spec(op, m).0.screen[t] == (m.screen[t] != sprite_bit(
                m.memory[m.cpu.i as int + r],
                b,
            ))
        }),
{
    let vx = m.cpu.v[op.x as int] as int;
    let vy = m.cpu.v[op.y as int] as int;
    let t = pixel_index((vx + b) % (SCREEN_WIDTH as int), (vy + r) % (SCREEN_HEIGHT as int));
    lemma_target(vx, vy, r, b, 0);
    lemma_target(vx, vy, r, b, t);
}

/// Executing the same `Dxyn` word twice at the same place restores every
/// pixel, and the second drawing reports a collision exactly when the first
/// one turned a pixel on; so on a blank screen, a sprite whose first row is not
/// blank collides the second time. The place stays the same as long as
/// neither coordinate register is the flag register, which the first drawing
/// writes.
pub proof fn lemma_draw_twice(w: u16, m: MachineState, random: u8)
    requires
        decode(w).prefix == 0xD,
        decode(w).x != FLAG_REGISTER,
        decode(w).y != FLAG_REGISTER,
        m.cpu.wf(),
        m.screen.len() == SCREEN_WIDTH * SCREEN_HEIGHT,
        execute_spec(w, m, random).1 is Ok,
    ensures
        ({
            let first = execute_spec(w, m, random).0;
            let second = execute_spec(w, first, random);
            let base = m.cpu.i as int;
            let height = decode(w).n as int;
            let vx = m.cpu.v[decode(w).x as int] as int;
            let vy = m.cpu.v[decode(w).y as int] as int;
            &&& second.1 is Ok
            &&& second.0.screen == m.screen
            &&& second.0.memory == m.memory
            &&& (second.0.cpu.v[FLAG_REGISTER as int] == 1) == (exists|p: int|
                0 <= p < m.screen.len() && !#[trigger] m.screen[p] && sprite_hit(
                    m.memory,
                    base,
                    height,
                    vx,
                    vy,
                    p % (SCREEN_WIDTH as int),
                    p / (SCREEN_WIDTH as int),
                ))
            &&& (m.screen == blank_pixels() && height >= 1 && m.memory[base] != 0) ==> second.0.cpu.v[
                FLAG_REGISTER as int] == 1
        }),
{
    let op = decode(w);
    lemma_draw_spec_twice(op, m);
    let first = draw_spec(op, m).0;
    assert(execute_spec(w, m, random) == draw_spec(op, m));
    assert(execute_spec(w, first, random) == draw_spec(op, first));
}

/// Drawing wraps around the edges: when a `Dxyn` word executes, bit `b` of
/// row `r` of the sprite lands on column `(Vx + b) mod width` and row
/// `(Vy + r) mod height`, so past the last column drawing goes on at column 0
/// and past the last row at row 0.
pub proof fn lemma_draw_wraps(w: u16, m: MachineState, random: u8, r: int, b: int)
    requires
        decode(w).prefix == 0xD,
        m.cpu.wf(),
        m.screen.len() == SCREEN_WIDTH * SCREEN_HEIGHT,
        execute_spec(w, m, random).1 is Ok,
        0 <= r < decode(w).n,
        0 <= b < 8,
    ensures
        ({
            let vx = m.cpu.v[decode(w).x as int] as int;
            let vy = m.cpu.v[decode(w).y as int] as int;
            let t = pixel_index((vx + b) % (SCREEN_WIDTH as int), (vy + r) % (SCREEN_HEIGHT as int));
            execute_spec(w, m, random).0.screen[t] == (m.screen[t] != sprite_bit(
                m.memory[m.cpu.i as int + r],
                b,
            ))
        }),
{
    let op = decode(w);
    assert(execute_spec(w, m, random) == draw_spec(op, m));
    lemma_draw_spec_wraps(op, m, r, b);
}

} // verus!
