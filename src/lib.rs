//! A virtual machine that runs CHIP-8 programs, leaving the frontend free to
//! pick its own graphics, sound and input libraries.
pub mod config;
pub mod cpu;
pub mod errors;
pub mod memory;
pub mod screen;

pub use config::{Config, DEFAULT_TICK_RATE, FONT_BASE_ADDRESS, ROM_BASE_ADDRESS};
pub use cpu::opcodes::{bcd, execute, MachineState, Opcode};
pub use cpu::Cpu;
pub use errors::ChipError;
pub use screen::Screen;

use vstd::prelude::*;

use cpu::opcodes::{step_spec, with_cpu};
use cpu::{initial_state, CpuState, NUM_KEYS};
use memory::{font_glyphs, load_rom_spec, load_spec, reset_memory_spec, zeroed_memory};
use screen::blank_pixels;

verus! {

/// The size of the memory in bytes.
pub const MEMORY_SIZE: usize = 4096;

/// The whole interpreter as plain mathematical values.
pub struct Chip8State {
    /// What instructions read and change.
    pub machine: MachineState,
    /// The program that resets load again.
    pub rom: Seq<u8>,
    /// Where programs are placed.
    pub rom_base_addr: int,
    /// Where the built-in font is placed.
    pub font_base_addr: int,
    /// How many steps run per tick.
    pub tick_rate: int,
}

/// Represents the CHIP-8 VM that acts as the interpreter.
pub struct Chip8 {
    /// The full memory of the machine.
    pub memory: [u8; MEMORY_SIZE],
    /// The display representing the pixels written to by the CPU.
    pub screen: Screen,
    /// Settings of the interpreter.
    pub config: Config,
    /// The CPU containing the core of the interpreter.
    pub cpu: Cpu,
    rom: Vec<u8>,
}

impl View for Chip8 {
    type V = Chip8State;

    closed spec fn view(&self) -> Chip8State {
        Chip8State {
            machine: MachineState {
                cpu: self.cpu@,
                memory: self.memory@,
                screen: self.screen@,
            },
            rom: self.rom@,
            rom_base_addr: self.config.rom_base_addr as int,
            font_base_addr: self.config.font_base_addr as int,
            tick_rate: self.config.tick_rate as int,
        }
    }
}

impl Chip8 {
    /// The CPU and the screen are well formed.
    pub closed spec fn wf(&self) -> bool {
        &&& self.cpu.wf()
        &&& self.screen.wf()
    }
}

/// A newly created interpreter: memory holds the built-in font, the program
/// counter is at the ROM base address, and everything else is zero or empty.
pub open spec fn new_spec(rom_base_addr: int, font_base_addr: int, tick_rate: int) -> Chip8State {
    Chip8State {
        machine: MachineState {
            cpu: CpuState {
                pc: rom_base_addr,
                ..initial_state(Seq::new(NUM_KEYS as nat, |k: int| false), font_base_addr)
            },
            memory: load_spec(zeroed_memory(), font_base_addr, font_glyphs()).0,
            screen: blank_pixels(),
        },
        rom: Seq::empty(),
        rom_base_addr,
        font_base_addr,
        tick_rate,
    }
}

/// The outcome of running one step per random byte of `randoms`, in order,
/// stopping at the first step that fails.
pub open spec fn run_steps(m: MachineState, randoms: Seq<u8>) -> (MachineState, Result<(), ChipError>)
    decreases randoms.len(),
{
    if randoms.len() == 0 {
        (m, Ok(()))
    } else {
        let before = run_steps(m, randoms.drop_last());
        match before.1 {
            Ok(_) => step_spec(before.0, randoms.last()),
            Err(_) => before,
        }
    }
}

/// Running one more step extends the run, unless it already failed.
proof fn lemma_run_steps_push(m: MachineState, randoms: Seq<u8>, random: u8)
    ensures
        run_steps(m, randoms.push(random)) == (match run_steps(m, randoms).1 {
            Ok(_) => step_spec(run_steps(m, randoms).0, random),
            Err(_) => run_steps(m, randoms),
        }),
{
    assert(randoms.push(random).drop_last() =~= randoms);
}

/// Once a step failed, further random bytes change nothing.
proof fn lemma_run_steps_failed(m: MachineState, randoms: Seq<u8>, more: Seq<u8>)
    requires
        run_steps(m, randoms).1 is Err,
    ensures
        run_steps(m, randoms + more) == run_steps(m, randoms),
    decreases more.len(),
{
    if more.len() == 0 {
        assert(randoms + more =~= randoms);
    } else {
        lemma_run_steps_failed(m, randoms, more.drop_last());
        assert((randoms + more).drop_last() =~= randoms + more.drop_last());
    }
}

/// Both timers count down by one, stopping at zero.
pub open spec fn count_down_timers(c: CpuState) -> CpuState {
    CpuState {
        timer_delay: if c.timer_delay > 0 {
            (c.timer_delay - 1) as u8
        } else {
            0
        },
        timer_sound: if c.timer_sound > 0 {
            (c.timer_sound - 1) as u8
        } else {
            0
        },
        ..c
    }
}

/// The outcome of one tick: the steps, then the timers when every step succeeded.
pub open spec fn tick_spec(m: MachineState, randoms: Seq<u8>) -> (MachineState, Result<(), ChipError>) {
    let ran = run_steps(m, randoms);
    match ran.1 {
        Ok(_) => (with_cpu(ran.0, count_down_timers(ran.0.cpu)), Ok(())),
        Err(_) => ran,
    }
}

/// The interpreter as a reset leaves it: the screen blank, memory holding the
/// font and the last program, the CPU back at its initial state with the
/// program counter at the ROM base address. The keypad and the settings stay.
pub open spec fn reset_spec(s: Chip8State) -> Chip8State {
    Chip8State {
        machine: MachineState {
            cpu: CpuState {
                pc: s.rom_base_addr,
                ..initial_state(s.machine.cpu.keypad, s.machine.cpu.font_base_addr)
            },
            memory: reset_memory_spec(s),
            screen: blank_pixels(),
        },
        ..s
    }
}

impl Chip8 {
    /// Create a new CHIP-8 interpreter with a custom [Config].
    pub fn new(config: Config) -> (r: Self)
        ensures
            r.wf(),
            r@ == new_spec(
                config.rom_base_addr as int,
                config.font_base_addr as int,
                config.tick_rate as int,
            ),
    {
        let mut c8 = Chip8 {
            memory: [0u8; MEMORY_SIZE],
            screen: Screen::default(),
            config,
            cpu: Cpu::default(),
            rom: Vec::new(),
        };
        c8.cpu.font_base_addr = c8.config.font_base_addr;
        assert(c8.memory@ =~= zeroed_memory());
        c8.load_default_font();
        c8.cpu.pc = c8.config.rom_base_addr;
        assert(c8@.machine.cpu.v =~= new_spec(
            config.rom_base_addr as int,
            config.font_base_addr as int,
            config.tick_rate as int,
        ).machine.cpu.v);
        assert(c8@.rom =~= Seq::<u8>::empty());
        c8
    }

    /// Performs a single fetch, decode and execute cycle in the [Cpu].
    pub fn step(&mut self) -> (r: Result<(), ChipError>)
        requires
            old(self).wf(),
        ensures
            final(self).wf(),
            exists|random: u8|
                #[trigger] step_spec(old(self)@.machine, random) == (
                final(self)@.machine,
                r,
            ),
            final(self)@ == (Chip8State { machine: final(self)@.machine, ..old(self)@ }),
    {
        let ghost before = self@.machine;
        let r = self.cpu.step(&mut self.memory, &mut self.screen);
        proof {
            let random = choose|random: u8|
                #[trigger] step_spec(
                    MachineState {
                        cpu: before.cpu,
                        memory: before.memory,
                        screen: before.screen,
                    },
                    random,
                ) == (MachineState {
                    cpu: self.cpu@,
                    memory: self.memory@,
                    screen: self.screen@,
                }, r);
            assert(step_spec(before, random) == (self@.machine, r));
        }
        r
    }

    /// Execute a full render cycle: `tick_rate` steps, then both timers count
    /// down once. The first step that fails ends the tick, and the timers stay.
    pub fn tick(&mut self) -> (r: Result<(), ChipError>)
        requires
            old(self).wf(),
        ensures
            final(self).wf(),
            exists|randoms: Seq<u8>|
                randoms.len() == old(self)@.tick_rate && #[trigger] tick_spec(
                    old(self)@.machine,
                    randoms,
                ) == (final(self)@.machine, r),
            final(self)@ == (Chip8State { machine: final(self)@.machine, ..old(self)@ }),
    {
        let ghost start = self@.machine;
        let ghost mut randoms: Seq<u8> = Seq::empty();
        let mut k: u32 = 0;
        while k < self.config.tick_rate
            invariant
                self.wf(),
                self@ == (Chip8State { machine: self@.machine, ..old(self)@ }),
                start == old(self)@.machine,
                0 <= k <= self.config.tick_rate,
                randoms.len() == k,
                run_steps(start, randoms) == (self@.machine, Ok::<(), ChipError>(())),
            decreases self.config.tick_rate - k,
        {
            let ghost before = self@.machine;
            let stepped = self.step();
            let ghost random = choose|random: u8|
                #[trigger] step_spec(before, random) == (
                    self@.machine,
                    stepped,
                );
            proof {
                lemma_run_steps_push(start, randoms, random);
                randoms = randoms.push(random);
            }
            match stepped {
                Ok(u) => {
                    assert(u == ());
                },
                Err(e) => {
                    proof {
                        let pad = Seq::new(
                            (self.config.tick_rate - randoms.len()) as nat,
                            |i: int| 0u8,
                        );
                        lemma_run_steps_failed(start, randoms, pad);
                        let full = randoms + pad;
                        assert(full.len() == old(self)@.tick_rate);
                        assert(tick_spec(start, full) == (self@.machine, stepped));
                    }
                    return Err(e);
                },
            }
            k = k + 1;
        }
        if self.cpu.timer_delay > 0 {
            self.cpu.timer_delay = self.cpu.timer_delay - 1;
        }
        if self.cpu.timer_sound > 0 {
            self.cpu.timer_sound = self.cpu.timer_sound - 1;
        }
        assert(tick_spec(start, randoms) == (self@.machine, Ok::<(), ChipError>(())));
        Ok(())
    }

    /// Sets the machine as if newly created. The settings and the loaded ROM persist.
    pub fn reset(&mut self)
        requires
            old(self).wf(),
        ensures
            final(self).wf(),
            final(self)@ == reset_spec(old(self)@),
    {
        self.screen.clear_screen();
        self.reset_memory();
        self.cpu.reset();
        self.cpu.pc = self.config.rom_base_addr;
    }

    /// Set which of the keys 0x0 to 0xF are pressed.
    pub fn set_input(&mut self, keys_pressed: [bool; 16])
        ensures
            final(self).wf() == old(self).wf(),
            final(self)@ == (Chip8State {
                machine: with_cpu(
                    old(self)@.machine,
                    CpuState { keypad: keys_pressed@, ..old(self)@.machine.cpu },
                ),
                ..old(self)@
            }),
    {
        self.cpu.keypad = keys_pressed;
    }

    /// Tells whether a tone should be played: the sound timer is running.
    pub fn should_play_sound(&self) -> (r: bool)
        ensures
            r == (self@.machine.cpu.timer_sound > 0),
    {
        self.cpu.timer_sound > 0
    }
}

impl Default for Chip8 {
    fn default() -> (r: Self)
        ensures
            r.wf(),
            r@ == new_spec(
                config::ROM_BASE_ADDRESS as int,
                config::FONT_BASE_ADDRESS as int,
                config::DEFAULT_TICK_RATE as int,
            ),
    {
        Chip8::new(Config::default())
    }
}

/// A reset after a program was loaded restores the program at the ROM base
/// address and the font at the font base address, with every other byte of
/// memory zero. This holds where both fit in memory and do not overlap.
pub proof fn lemma_reset_restores(s: Chip8State, data: Seq<u8>)
    requires
        0 <= s.font_base_addr,
        0 <= s.rom_base_addr,
        s.font_base_addr + font_glyphs().len() <= MEMORY_SIZE,
        s.rom_base_addr + data.len() <= MEMORY_SIZE,
        s.font_base_addr + font_glyphs().len() <= s.rom_base_addr || s.rom_base_addr
            + data.len() <= s.font_base_addr,
    ensures
        ({
            let mem = reset_spec(load_rom_spec(s, data).0).machine.memory;
            &&& mem.len() == MEMORY_SIZE
            &&& forall|k: int|
                0 <= k < data.len() ==> #[trigger] mem[s.rom_base_addr + k] == data[k]
            &&& forall|k: int|
                0 <= k < font_glyphs().len() ==> #[trigger] mem[s.font_base_addr + k]
                    == font_glyphs()[k]
            &&& forall|a: int|
                0 <= a < MEMORY_SIZE && !(s.rom_base_addr <= a < s.rom_base_addr + data.len())
                    && !(s.font_base_addr <= a < s.font_base_addr + font_glyphs().len())
                    ==> #[trigger] mem[a] == 0
        }),
{
    let mem = reset_spec(load_rom_spec(s, data).0).machine.memory;
    assert forall|k: int| 0 <= k < data.len() implies #[trigger] mem[s.rom_base_addr + k]
        == data[k] by {}
    assert forall|k: int| 0 <= k < font_glyphs().len() implies #[trigger] mem[s.font_base_addr
        + k] == font_glyphs()[k] by {}
}

/// A second reset changes nothing.
pub proof fn lemma_reset_idempotent(s: Chip8State)
    ensures
        reset_spec(reset_spec(s)) == reset_spec(s),
{
}

} // verus!
