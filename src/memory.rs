use vstd::prelude::*;

use crate::cpu::opcodes::MachineState;
use crate::errors::ChipError;
use crate::{Chip8, Chip8State, MEMORY_SIZE};

verus! {

/// The built-in font: the hexadecimal digits 0 to F, five rows each, drawn in
/// the upper four bits of every byte.
pub open spec fn font_glyphs() -> Seq<u8> {
    seq![
        0xF0u8, 0x90, 0x90, 0x90, 0xF0, // 0
        0x20, 0x60, 0x20, 0x20, 0x70, // 1
        0xF0, 0x10, 0xF0, 0x80, 0xF0, // 2
        0xF0, 0x10, 0xF0, 0x10, 0xF0, // 3
        0x90, 0x90, 0xF0, 0x10, 0x10, // 4
        0xF0, 0x80, 0xF0, 0x10, 0xF0, // 5
        0xF0, 0x80, 0xF0, 0x90, 0xF0, // 6
        0xF0, 0x10, 0x20, 0x40, 0x40, // 7
        0xF0, 0x90, 0xF0, 0x90, 0xF0, // 8
        0xF0, 0x90, 0xF0, 0x10, 0xF0, // 9
        0xF0, 0x90, 0xF0, 0x90, 0x90, // A
        0xE0, 0x90, 0xE0, 0x90, 0xE0, // B
        0xF0, 0x80, 0x80, 0x80, 0xF0, // C
        0xE0, 0x90, 0x90, 0x90, 0xE0, // D
        0xF0, 0x80, 0xF0, 0x80, 0xF0, // E
        0xF0, 0x80, 0xF0, 0x80, 0x80, // F
    ]
}

/// The built-in font as bytes.
fn default_font() -> (r: [u8; 80])
    ensures
        r@ == font_glyphs(),
{
    let r: [u8; 80] = [
        0xF0, 0x90, 0x90, 0x90, 0xF0, // 0
        0x20, 0x60, 0x20, 0x20, 0x70, // 1
        0xF0, 0x10, 0xF0, 0x80, 0xF0, // 2
        0xF0, 0x10, 0xF0, 0x10, 0xF0, // 3
        0x90, 0x90, 0xF0, 0x10, 0x10, // 4
        0xF0, 0x80, 0xF0, 0x10, 0xF0, // 5
        0xF0, 0x80, 0xF0, 0x90, 0xF0, // 6
        0xF0, 0x10, 0x20, 0x40, 0x40, // 7
        0xF0, 0x90, 0xF0, 0x90, 0xF0, // 8
        0xF0, 0x90, 0xF0, 0x10, 0xF0, // 9
        0xF0, 0x90, 0xF0, 0x90, 0x90, // A
        0xE0, 0x90, 0xE0, 0x90, 0xE0, // B
        0xF0, 0x80, 0x80, 0x80, 0xF0, // C
        0xE0, 0x90, 0x90, 0x90, 0xE0, // D
        0xF0, 0x80, 0xF0, 0x80, 0xF0, // E
        0xF0, 0x80, 0xF0, 0x80, 0x80, // F
    ];
    assert(r@ =~= font_glyphs());
    r
}

/// Memory with every byte zero.
pub open spec fn zeroed_memory() -> Seq<u8> {
    Seq::new(MEMORY_SIZE as nat, |a: int| 0u8)
}

/// The outcome of copying `data` into memory from `base` on. The block must
/// fit in memory, its last byte at the last address at most; otherwise
/// nothing is written and the error names the address just past the block.
pub open spec fn load_spec(mem: Seq<u8>, base: int, data: Seq<u8>) -> (Seq<u8>, Result<(), ChipError>) {
    let end = base + data.len();
    if end > MEMORY_SIZE {
        (
            mem,
            Err(
                ChipError::AddressOutOfBounds {
                    address: if end <= usize::MAX {
                        end as usize
                    } else {
                        usize::MAX
                    },
                    limit: MEMORY_SIZE,
                },
            ),
        )
    } else {
        (
            Seq::new(
                mem.len(),
                |a: int|
                    if base <= a < end {
                        data[a - base]
                    } else {
                        mem[a]
                    },
            ),
            Ok(()),
        )
    }
}

/// The error for an access at `address`, which lies outside memory.
pub open spec fn address_error(address: usize) -> ChipError {
    ChipError::AddressOutOfBounds { address, limit: MEMORY_SIZE }
}

/// The interpreter with its memory replaced.
pub open spec fn with_memory(s: Chip8State, mem: Seq<u8>) -> Chip8State {
    Chip8State { machine: MachineState { memory: mem, ..s.machine }, ..s }
}

/// The outcome of loading a program: it is recorded for resets whether or not
/// it fits.
pub open spec fn load_rom_spec(s: Chip8State, data: Seq<u8>) -> (Chip8State, Result<(), ChipError>) {
    let loaded = load_spec(s.machine.memory, s.rom_base_addr, data);
    (with_memory(Chip8State { rom: data, ..s }, loaded.0), loaded.1)
}

/// Memory as a reset leaves it: zero, with the built-in font and the recorded
/// program written over it where they fit.
pub open spec fn reset_memory_spec(s: Chip8State) -> Seq<u8> {
    let with_font = load_spec(zeroed_memory(), s.font_base_addr, font_glyphs()).0;
    load_spec(with_font, s.rom_base_addr, s.rom).0
}

/// Copy `data` into `memory` from `base_address` on.
fn load_into(memory: &mut [u8; MEMORY_SIZE], base_address: usize, data: &[u8]) -> (r: Result<
    (),
    ChipError,
>)
    ensures
        (final(memory)@, r) == load_spec(old(memory)@, base_address as int, data@),
{
    let len = data.len();
    if len > MEMORY_SIZE || base_address > MEMORY_SIZE - len {
        let address = if base_address <= usize::MAX - len {
            base_address + len
        } else {
            usize::MAX
        };
        return Err(ChipError::AddressOutOfBounds { address, limit: MEMORY_SIZE });
    }
    let ghost start = memory@;
    let mut k: usize = 0;
    while k < len
        invariant
            len == data@.len(),
            base_address + len <= MEMORY_SIZE,
            memory@.len() == MEMORY_SIZE,
            0 <= k <= len,
            forall|a: int|
                0 <= a < MEMORY_SIZE ==> #[trigger] memory@[a] == if base_address <= a
                    < base_address + k {
                    data@[a - base_address]
                } else {
                    start[a]
                },
        decreases len - k,
    {
        memory[base_address + k] = data[k];
        k = k + 1;
    }
    assert(memory@ =~= load_spec(start, base_address as int, data@).0);
    Ok(())
}

impl Chip8 {
    /// Write a byte of data to the address specified.
    pub fn write(&mut self, address: usize, data: u8) -> (r: Result<(), ChipError>)
        ensures
            address < MEMORY_SIZE ==> r == Ok::<(), ChipError>(()) && final(self)@ == with_memory(
                old(self)@,
                old(self)@.machine.memory.update(address as int, data),
            ),
            address >= MEMORY_SIZE ==> r == Err::<(), ChipError>(address_error(address))
                && final(self)@ == old(self)@,
            final(self).wf() == old(self).wf(),
    {
        if address >= MEMORY_SIZE {
            return Err(ChipError::AddressOutOfBounds { address, limit: MEMORY_SIZE });
        }
        self.memory[address] = data;
        Ok(())
    }

    /// Read a byte of data from the address specified.
    pub fn read(&self, address: usize) -> (r: Result<u8, ChipError>)
        ensures
            address < MEMORY_SIZE ==> r == Ok::<u8, ChipError>(
                self@.machine.memory[address as int],
            ),
            address >= MEMORY_SIZE ==> r == Err::<u8, ChipError>(address_error(address)),
    {
        if address >= MEMORY_SIZE {
            return Err(ChipError::AddressOutOfBounds { address, limit: MEMORY_SIZE });
        }
        Ok(self.memory[address])
    }

    /// Write an array of bytes to memory starting at the base address.
    pub fn load(&mut self, base_address: usize, data: &[u8]) -> (r: Result<(), ChipError>)
        ensures
            ({
                let o = load_spec(old(self)@.machine.memory, base_address as int, data@);
                final(self)@ == with_memory(old(self)@, o.0) && r == o.1
            }),
            final(self).wf() == old(self).wf(),
    {
        load_into(&mut self.memory, base_address, data)
    }

    /// Write an array of bytes to memory starting at the ROM base address,
    /// and keep them to load again on every reset.
    pub fn load_rom(&mut self, data: &[u8]) -> (r: Result<(), ChipError>)
        ensures
            (final(self)@, r) == load_rom_spec(old(self)@, data@),
            final(self).wf() == old(self).wf(),
    {
        self.rom = vstd::slice::slice_to_vec(data);
        load_into(&mut self.memory, self.config.rom_base_addr, data)
    }

    /// Write an array of bytes to memory starting at the font base address.
    pub fn load_font(&mut self, font: &[u8]) -> (r: Result<(), ChipError>)
        ensures
            ({
                let o = load_spec(old(self)@.machine.memory, old(self)@.font_base_addr, font@);
                final(self)@ == with_memory(old(self)@, o.0) && r == o.1
            }),
            final(self).wf() == old(self).wf(),
    {
        load_into(&mut self.memory, self.config.font_base_addr, font)
    }

    /// Write the default font to memory.
    pub fn load_default_font(&mut self)
        ensures
            final(self)@ == with_memory(
                old(self)@,
                load_spec(old(self)@.machine.memory, old(self)@.font_base_addr, font_glyphs()).0,
            ),
            final(self).wf() == old(self).wf(),
    {
        let font = default_font();
        let _ = self.load_font(&font);
    }

    /// Set all values in memory to zero, then reload the default font and the
    /// last loaded ROM.
    pub fn reset_memory(&mut self)
        ensures
            final(self)@ == with_memory(old(self)@, reset_memory_spec(old(self)@)),
            final(self).wf() == old(self).wf(),
    {
        self.memory = [0u8; MEMORY_SIZE];
        assert(self.memory@ =~= zeroed_memory());
        self.load_default_font();
        let _ = load_into(&mut self.memory, self.config.rom_base_addr, self.rom.as_slice());
    }
}

} // verus!
