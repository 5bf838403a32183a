pub mod opcodes;

use vstd::prelude::*;

use crate::config::FONT_BASE_ADDRESS;
use crate::errors::ChipError;
use crate::screen::Screen;
use opcodes::{execute, step_spec, MachineState, Opcode};

verus! {

/// How many general registers the CPU holds.
pub const NUM_REGISTERS: usize = 0x10;

/// The capacity of the return-address stack.
pub const STACK_SIZE: usize = 16;

/// How many keys the keypad has.
pub const NUM_KEYS: usize = 16;

/// The register that arithmetic, shift and draw instructions use as a flag.
pub const FLAG_REGISTER: usize = 0xF;

/// Relies on `rand::random`: a byte drawn from the thread's generator. Any
/// byte may come back, so nothing is promised of it.
#[verifier::external_body]
fn random_byte() -> (r: u8) {
    rand::random::<u8>()
}

/// The state of the CPU as plain mathematical values.
pub struct CpuState {
    pub v: Seq<u8>,
    pub i: u16,
    pub pc: int,
    pub sp: int,
    pub timer_delay: u8,
    pub timer_sound: u8,
    pub stack: Seq<u16>,
    pub keypad: Seq<bool>,
    pub font_base_addr: int,
}

impl CpuState {
    /// The stack pointer stays inside the stack and every array has its size.
    pub open spec fn wf(self) -> bool {
        &&& 0 <= self.sp < STACK_SIZE
        &&& self.v.len() == NUM_REGISTERS
        &&& self.stack.len() == STACK_SIZE
        &&& self.keypad.len() == NUM_KEYS
    }
}

/// The outcome of pushing `value`: the stack refuses it once it holds one
/// entry less than its capacity.
pub open spec fn push_spec(c: CpuState, value: u16) -> (CpuState, Result<(), ChipError>) {
    if c.sp == STACK_SIZE - 1 {
        (c, Err(ChipError::StackOverflow(STACK_SIZE)))
    } else {
        (CpuState { stack: c.stack.update(c.sp, value), sp: c.sp + 1, ..c }, Ok(()))
    }
}

/// The outcome of popping the most recently pushed value.
pub open spec fn pop_spec(c: CpuState) -> (CpuState, Result<u16, ChipError>) {
    if c.sp == 0 {
        (c, Err(ChipError::StackUnderflow()))
    } else {
        (CpuState { sp: c.sp - 1, ..c }, Ok(c.stack[c.sp - 1]))
    }
}

/// The big-endian word made of a high and a low byte.
pub open spec fn word_of(hi: u8, lo: u8) -> u16 {
    (hi as int * 256 + lo as int) as u16
}

/// The outcome of reading the instruction word at the program counter.
pub open spec fn fetch_spec(c: CpuState, mem: Seq<u8>) -> (CpuState, Result<u16, ChipError>) {
    if c.pc + 1 >= mem.len() {
        (
            c,
            Err(
                ChipError::AddressOutOfBounds {
                    address: if c.pc < usize::MAX {
                        (c.pc + 1) as usize
                    } else {
                        usize::MAX
                    },
                    limit: mem.len() as usize,
                },
            ),
        )
    } else {
        (CpuState { pc: c.pc + 2, ..c }, Ok(word_of(mem[c.pc], mem[c.pc + 1])))
    }
}

/// The outcome of pushing `values` in order, stopping at the first push that fails.
pub open spec fn push_all(c: CpuState, values: Seq<u16>) -> (CpuState, Result<(), ChipError>)
    decreases values.len(),
{
    if values.len() == 0 {
        (c, Ok(()))
    } else {
        let before = push_all(c, values.drop_last());
        match before.1 {
            Ok(_) => push_spec(before.0, values.last()),
            Err(_) => before,
        }
    }
}

/// The outcome of popping `n` times: the CPU after the last pop and what each
/// pop returned, in order.
pub open spec fn pop_all(c: CpuState, n: nat) -> (CpuState, Seq<Result<u16, ChipError>>)
    decreases n,
{
    if n == 0 {
        (c, Seq::empty())
    } else {
        let first = pop_spec(c);
        let rest = pop_all(first.0, (n - 1) as nat);
        (rest.0, seq![first.1] + rest.1)
    }
}

/// Pushes that fit lay the values on the stack from the stack pointer up.
proof fn lemma_push_all(c: CpuState, values: Seq<u16>)
    requires
        c.wf(),
        c.sp + values.len() < STACK_SIZE,
    ensures
        push_all(c, values).1 is Ok,
        push_all(c, values).0 == (CpuState {
            sp: c.sp + values.len(),
            stack: Seq::new(
                STACK_SIZE as nat,
                |a: int|
                    if c.sp <= a < c.sp + values.len() {
                        values[a - c.sp]
                    } else {
                        c.stack[a]
                    },
            ),
            ..c
        }),
    decreases values.len(),
{
    let stack = Seq::new(
        STACK_SIZE as nat,
        |a: int|
            if c.sp <= a < c.sp + values.len() {
                values[a - c.sp]
            } else {
                c.stack[a]
            },
    );
    if values.len() == 0 {
        assert(stack =~= c.stack);
    } else {
        let init = values.drop_last();
        lemma_push_all(c, init);
        let before = push_all(c, init).0;
        assert(before.stack.update(before.sp, values.last()) =~= stack);
    }
}

/// Pops that the stack holds read it from the stack pointer down.
proof fn lemma_pop_all(c: CpuState, n: nat)
    requires
        c.wf(),
        n <= c.sp,
    ensures
        pop_all(c, n).0 == (CpuState { sp: c.sp - n, ..c }),
        pop_all(c, n).1 == Seq::new(n, |k: int| Ok::<u16, ChipError>(c.stack[c.sp - 1 - k])),
    decreases n,
{
    if n > 0 {
        let first = pop_spec(c);
        lemma_pop_all(first.0, (n - 1) as nat);
        assert(pop_all(c, n).1 =~= Seq::new(
            n,
            |k: int| Ok::<u16, ChipError>(c.stack[c.sp - 1 - k]),
        ));
    } else {
        assert(pop_all(c, n).1 =~= Seq::new(
            n,
            |k: int| Ok::<u16, ChipError>(c.stack[c.sp - 1 - k]),
        ));
    }
}

/// The stack is last in, first out: values pushed while the stack has room
/// all go in, and as many pops return them in reverse order and leave the
/// stack pointer where it was.
pub proof fn lemma_stack_lifo(c: CpuState, values: Seq<u16>)
    requires
        c.wf(),
        c.sp + values.len() < STACK_SIZE,
    ensures
        push_all(c, values).1 is Ok,
        pop_all(push_all(c, values).0, values.len()).1 == Seq::new(
            values.len(),
            |k: int| Ok::<u16, ChipError>(values[values.len() - 1 - k]),
        ),
        pop_all(push_all(c, values).0, values.len()).0.sp == c.sp,
{
    lemma_push_all(c, values);
    let pushed = push_all(c, values).0;
    lemma_pop_all(pushed, values.len());
    assert(pop_all(pushed, values.len()).1 =~= Seq::new(
        values.len(),
        |k: int| Ok::<u16, ChipError>(values[values.len() - 1 - k]),
    ));
}

/// A push onto a stack that holds one entry less than its capacity fails
/// with `StackOverflow` and leaves the CPU as it was; a pop from an empty
/// stack fails with `StackUnderflow` and leaves the CPU as it was.
pub proof fn lemma_stack_limits(c: CpuState, value: u16)
    ensures
        c.sp == STACK_SIZE - 1 ==> push_spec(c, value) == (c, Err::<(), ChipError>(
            ChipError::StackOverflow(STACK_SIZE),
        )),
        c.sp == 0 ==> pop_spec(c) == (c, Err::<u16, ChipError>(ChipError::StackUnderflow())),
{
}

/// Fetching reads the byte at the program counter as the high byte and the
/// next one as the low byte, and moves the program counter on by two,
/// whatever the instruction.
pub proof fn lemma_fetch_big_endian(c: CpuState, mem: Seq<u8>)
    requires
        0 <= c.pc,
        c.pc + 1 < mem.len(),
    ensures
        fetch_spec(c, mem).1 == Ok::<u16, ChipError>(
            (mem[c.pc] as int * 256 + mem[c.pc + 1] as int) as u16,
        ),
        fetch_spec(c, mem).0 == (CpuState { pc: c.pc + 2, ..c }),
{
}

/// The registers, stack and timers of the CHIP-8.
pub struct Cpu {
    /// The general registers V0 to VF.
    pub v: [u8; NUM_REGISTERS],
    /// The index register.
    pub i: u16,
    /// The program counter.
    pub pc: usize,
    /// How many entries of the stack are in use.
    pub sp: usize,
    /// The delay timer.
    pub timer_delay: u8,
    /// The sound timer.
    pub timer_sound: u8,
    /// The return addresses of the subroutines that were called.
    pub stack: [u16; STACK_SIZE],
    /// Which of the keys 0x0 to 0xF are pressed.
    pub keypad: [bool; NUM_KEYS],
    /// Where the font glyphs start in memory.
    pub font_base_addr: usize,
}

impl View for Cpu {
    type V = CpuState;

    open spec fn view(&self) -> CpuState {
        CpuState {
            v: self.v@,
            i: self.i,
            pc: self.pc as int,
            sp: self.sp as int,
            timer_delay: self.timer_delay,
            timer_sound: self.timer_sound,
            stack: self.stack@,
            keypad: self.keypad@,
            font_base_addr: self.font_base_addr as int,
        }
    }
}

impl Cpu {
    /// The stack pointer stays inside the stack.
    pub open spec fn wf(&self) -> bool {
        self@.wf()
    }

    /// Push a return address onto the stack.
    pub fn push(&mut self, value: u16) -> (r: Result<(), ChipError>)
        requires
            old(self).wf(),
        ensures
            final(self).wf(),
            (final(self)@, r) == push_spec(old(self)@, value),
    {
        if self.sp == STACK_SIZE - 1 {
            return Err(ChipError::StackOverflow(STACK_SIZE));
        }
        self.stack[self.sp] = value;
        self.sp = self.sp + 1;
        assert(self@.stack =~= old(self)@.stack.update(old(self)@.sp, value));
        Ok(())
    }

    /// Remove the most recently pushed return address from the stack.
    pub fn pop(&mut self) -> (r: Result<u16, ChipError>)
        requires
            old(self).wf(),
        ensures
            final(self).wf(),
            (final(self)@, r) == pop_spec(old(self)@),
    {
        if self.sp == 0 {
            return Err(ChipError::StackUnderflow());
        }
        self.sp = self.sp - 1;
        let value = self.stack[self.sp];
        Ok(value)
    }

    /// Read the instruction word at the program counter and move past it.
    pub fn fetch(&mut self, memory: &[u8]) -> (r: Result<u16, ChipError>)
        requires
            old(self).wf(),
        ensures
            final(self).wf(),
            (final(self)@, r) == fetch_spec(old(self)@, memory@),
    {
        let len = memory.len();
        if len == 0 || self.pc >= len - 1 {
            let address = if self.pc < usize::MAX {
                self.pc + 1
            } else {
                usize::MAX
            };
            return Err(ChipError::AddressOutOfBounds { address, limit: len });
        }
        let hi = memory[self.pc] as u16;
        let lo = memory[self.pc + 1] as u16;
        // The CHIP-8 is big endian.
        let opcode: u16 = (hi << 8u16) | lo;
        assert(opcode == hi * 256 + lo) by (bit_vector)
            requires
                hi < 256,
                lo < 256,
                opcode == (hi << 8u16) | lo,
        ;
        self.pc = self.pc + 2;
        Ok(opcode)
    }

    /// Perform a single fetch, decode and execute cycle.
    ///
    /// The outcome is that of `step_spec` for some random byte; only `Cxnn`
    /// reads that byte.
    pub fn step(&mut self, memory: &mut [u8], screen: &mut Screen) -> (r: Result<(), ChipError>)
        requires
            old(self).wf(),
            old(screen).wf(),
            old(memory)@.len() <= isize::MAX,
        ensures
            final(self).wf(),
            final(screen).wf(),
            exists|random: u8|
                #[trigger] step_spec(
                    MachineState { cpu: old(self)@, memory: old(memory)@, screen: old(screen)@ },
                    random,
                ) == (MachineState {
                    cpu: final(self)@,
                    memory: final(memory)@,
                    screen: final(screen)@,
                }, r),
    {
        proof {
            reveal(step_spec);
        }
        // Fetch
        let opcode_hex = match self.fetch(memory) {
            Ok(w) => w,
            Err(e) => {
                assert(step_spec(
                    MachineState { cpu: old(self)@, memory: old(memory)@, screen: old(screen)@ },
                    0,
                ).1 == Err::<(), ChipError>(e));
                return Err(e);
            },
        };
        // Decode
        let opcode = Opcode::from(opcode_hex);
        // Execute
        let random = if opcode.prefix == 0xC {
            random_byte()
        } else {
            0
        };
        let r = execute(opcode, self, memory, screen, random);
        assert(step_spec(
            MachineState { cpu: old(self)@, memory: old(memory)@, screen: old(screen)@ },
            random,
        ) == (MachineState { cpu: self@, memory: memory@, screen: screen@ }, r));
        r
    }

    /// Put the registers, the stack and the timers back to their initial values.
    pub fn reset(&mut self)
        ensures
            final(self)@ == initial_state(old(self)@.keypad, old(self)@.font_base_addr),
    {
        self.v = [0u8; NUM_REGISTERS];
        self.i = 0;
        self.pc = 0;
        self.sp = 0;
        self.timer_delay = 0;
        self.timer_sound = 0;
        self.stack = [0u16; STACK_SIZE];
        assert(self@.v =~= Seq::new(NUM_REGISTERS as nat, |r: int| 0u8));
        assert(self@.stack =~= Seq::new(STACK_SIZE as nat, |r: int| 0u16));
    }
}

/// A CPU with every register, the stack and the timers at zero.
pub open spec fn initial_state(keypad: Seq<bool>, font_base_addr: int) -> CpuState {
    CpuState {
        v: Seq::new(NUM_REGISTERS as nat, |r: int| 0u8),
        i: 0,
        pc: 0,
        sp: 0,
        timer_delay: 0,
        timer_sound: 0,
        stack: Seq::new(STACK_SIZE as nat, |r: int| 0u16),
        keypad,
        font_base_addr,
    }
}

impl Default for Cpu {
    fn default() -> (r: Self)
        ensures
            r.wf(),
            r@ == initial_state(
                Seq::new(NUM_KEYS as nat, |k: int| false),
                FONT_BASE_ADDRESS as int,
            ),
    {
        let r = Cpu {
            v: [0u8; NUM_REGISTERS],
            i: 0,
            pc: 0,
            sp: 0,
            timer_delay: 0,
            timer_sound: 0,
            stack: [0u16; STACK_SIZE],
            keypad: [false; NUM_KEYS],
            font_base_addr: FONT_BASE_ADDRESS,
        };
        assert(r@.v =~= Seq::new(NUM_REGISTERS as nat, |k: int| 0u8));
        assert(r@.stack =~= Seq::new(STACK_SIZE as nat, |k: int| 0u16));
        assert(r@.keypad =~= Seq::new(NUM_KEYS as nat, |k: int| false));
        r
    }
}

} // verus!
