use vstd::prelude::*;

verus! {

/// Where programs are placed unless configured otherwise.
pub const ROM_BASE_ADDRESS: usize = 0x200;

/// Where the built-in font is placed unless configured otherwise.
pub const FONT_BASE_ADDRESS: usize = 0x050;

/// How many interpreter steps run per timer tick unless configured otherwise.
pub const DEFAULT_TICK_RATE: u32 = 10;

/// Settings that modify the behaviour of the interpreter.
pub struct Config {
    /// The location in memory where the loaded ROM data starts.
    pub rom_base_addr: usize,
    /// The location in memory where the font glyphs start.
    pub font_base_addr: usize,
    /// How many CPU cycles occur before every frame render cycle.
    pub tick_rate: u32,
}

impl Default for Config {
    fn default() -> (r: Self)
        ensures
            r.rom_base_addr == ROM_BASE_ADDRESS,
            r.font_base_addr == FONT_BASE_ADDRESS,
            r.tick_rate == DEFAULT_TICK_RATE,
    {
        Config {
            rom_base_addr: ROM_BASE_ADDRESS,
            font_base_addr: FONT_BASE_ADDRESS,
            tick_rate: DEFAULT_TICK_RATE,
        }
    }
}

} // verus!
