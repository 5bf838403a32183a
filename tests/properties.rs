use schip8::{bcd, execute, Chip8, ChipError, Config, Cpu, Opcode, Screen};

/// Runs one instruction word placed at address zero of a small memory.
fn run_word(cpu: &mut Cpu, screen: &mut Screen, memory: &mut Vec<u8>, word: u16) -> Result<(), ChipError> {
    memory[0] = (word >> 8) as u8;
    memory[1] = (word & 0xFF) as u8;
    cpu.pc = 0;
    cpu.step(memory, screen)
}

#[test]
fn stack_lifo_up_to_the_boundary() {
    let mut cpu = Cpu::default();
    for k in 0..15u16 {
        cpu.push(100 + k).unwrap();
    }
    assert_eq!(cpu.sp, 15);
    let before = cpu.stack;
    let e = cpu.push(999);
    assert!(matches!(e, Err(ChipError::StackOverflow(16))));
    assert_eq!(cpu.sp, 15);
    assert_eq!(cpu.stack, before);
    for k in (0..15u16).rev() {
        assert_eq!(cpu.pop().unwrap(), 100 + k);
    }
    assert_eq!(cpu.sp, 0);
    assert!(matches!(cpu.pop(), Err(ChipError::StackUnderflow())));
    assert_eq!(cpu.sp, 0);
}

#[test]
fn fetch_reads_big_endian_and_advances_by_two() {
    let mut cpu = Cpu::default();
    let memory: [u8; 4] = [0xAB, 0xCD, 0x12, 0x34];
    assert_eq!(cpu.fetch(&memory).unwrap(), 0xABCD);
    assert_eq!(cpu.pc, 2);
    assert_eq!(cpu.fetch(&memory).unwrap(), 0x1234);
    assert_eq!(cpu.pc, 4);
    let e = cpu.fetch(&memory);
    assert!(matches!(e, Err(ChipError::AddressOutOfBounds { address: 5, limit: 4 })));
    assert_eq!(cpu.pc, 4);
}

#[test]
fn fetch_advances_by_two_for_every_family() {
    let mut screen = Screen::default();
    for word in [0x00E0u16, 0x6123, 0x7001, 0x8120, 0xA456, 0xF015, 0xF018, 0xF007] {
        let mut cpu = Cpu::default();
        let mut memory = vec![0u8; 16];
        run_word(&mut cpu, &mut screen, &mut memory, word).unwrap();
        assert_eq!(cpu.pc, 2, "word {:#06x}", word);
    }
}

#[test]
fn bcd_examples() {
    assert_eq!(bcd(123), (1, 2, 3));
    assert_eq!(bcd(151), (1, 5, 1));
    assert_eq!(bcd(0), (0, 0, 0));
    assert_eq!(bcd(255), (2, 5, 5));
    assert_eq!(bcd(9), (0, 0, 9));
    assert_eq!(bcd(10), (0, 1, 0));
    assert_eq!(bcd(99), (0, 9, 9));
    assert_eq!(bcd(100), (1, 0, 0));
}

#[test]
fn bcd_matches_division_for_every_byte() {
    for v in 0..=255u8 {
        assert_eq!(bcd(v), (v / 100, (v / 10) % 10, v % 10));
    }
}

#[test]
fn draw_twice_restores_and_collides() {
    let mut cpu = Cpu::default();
    let mut screen = Screen::default();
    let mut memory = vec![0u8; 8];
    memory[4] = 0xFF;
    cpu.i = 4;
    cpu.v[0] = 10;
    cpu.v[1] = 5;
    run_word(&mut cpu, &mut screen, &mut memory, 0xD011).unwrap();
    for x in 10..18 {
        assert!(screen.get_pixel(x, 5));
    }
    assert!(!screen.get_pixel(9, 5));
    assert!(!screen.get_pixel(18, 5));
    assert_eq!(cpu.v[0xF], 0);
    run_word(&mut cpu, &mut screen, &mut memory, 0xD011).unwrap();
    for y in 0..32 {
        for x in 0..64 {
            assert!(!screen.get_pixel(x, y));
        }
    }
    assert_eq!(cpu.v[0xF], 1);
}

#[test]
fn draw_wraps_past_the_last_column() {
    let mut cpu = Cpu::default();
    let mut screen = Screen::default();
    let mut memory = vec![0u8; 8];
    memory[4] = 0xC0;
    cpu.i = 4;
    cpu.v[0] = 63;
    cpu.v[1] = 0;
    run_word(&mut cpu, &mut screen, &mut memory, 0xD011).unwrap();
    assert!(screen.get_pixel(63, 0));
    assert!(screen.get_pixel(0, 0));
    assert!(!screen.get_pixel(1, 0));
    assert!(!screen.get_pixel(62, 0));
    assert_eq!(cpu.v[0xF], 0);
}

#[test]
fn draw_wraps_past_the_last_row() {
    let mut cpu = Cpu::default();
    let mut screen = Screen::default();
    let mut memory = vec![0u8; 8];
    memory[4] = 0x80;
    memory[5] = 0x80;
    cpu.i = 4;
    cpu.v[0] = 0;
    cpu.v[1] = 31;
    run_word(&mut cpu, &mut screen, &mut memory, 0xD012).unwrap();
    assert!(screen.get_pixel(0, 31));
    assert!(screen.get_pixel(0, 0));
    assert!(!screen.get_pixel(0, 1));
    assert!(!screen.get_pixel(0, 30));
}

#[test]
fn draw_reports_collision_with_a_lit_pixel() {
    let mut cpu = Cpu::default();
    let mut screen = Screen::default();
    let mut memory = vec![0u8; 8];
    memory[4] = 0x80;
    cpu.i = 4;
    cpu.v[2] = 3;
    cpu.v[3] = 4;
    screen.set_pixel(3, 4);
    run_word(&mut cpu, &mut screen, &mut memory, 0xD231).unwrap();
    assert!(!screen.get_pixel(3, 4));
    assert_eq!(cpu.v[0xF], 1);
}

#[test]
fn draw_past_the_end_of_memory_fails() {
    let mut cpu = Cpu::default();
    let mut screen = Screen::default();
    let mut memory = vec![0u8; 6];
    cpu.i = 4;
    let e = run_word(&mut cpu, &mut screen, &mut memory, 0xD013);
    assert!(matches!(e, Err(ChipError::AddressOutOfBounds { address: 6, limit: 6 })));
}

#[test]
fn add_sets_the_overflow_flag() {
    let mut cpu = Cpu::default();
    let mut screen = Screen::default();
    let mut memory = vec![0u8; 4];
    cpu.v[0] = 0xFF;
    cpu.v[1] = 0x01;
    run_word(&mut cpu, &mut screen, &mut memory, 0x8014).unwrap();
    assert_eq!(cpu.v[0], 0x00);
    assert_eq!(cpu.v[0xF], 1);

    cpu.v[0] = 0x10;
    cpu.v[1] = 0x20;
    run_word(&mut cpu, &mut screen, &mut memory, 0x8014).unwrap();
    assert_eq!(cpu.v[0], 0x30);
    assert_eq!(cpu.v[0xF], 0);
}

#[test]
fn sub_clears_the_flag_on_borrow() {
    let mut cpu = Cpu::default();
    let mut screen = Screen::default();
    let mut memory = vec![0u8; 4];
    cpu.v[0] = 0x01;
    cpu.v[1] = 0x02;
    run_word(&mut cpu, &mut screen, &mut memory, 0x8015).unwrap();
    assert_eq!(cpu.v[0], 0xFF);
    assert_eq!(cpu.v[0xF], 0);

    cpu.v[0] = 0x05;
    cpu.v[1] = 0x03;
    run_word(&mut cpu, &mut screen, &mut memory, 0x8015).unwrap();
    assert_eq!(cpu.v[0], 0x02);
    assert_eq!(cpu.v[0xF], 1);

    cpu.v[0] = 0x02;
    cpu.v[1] = 0x01;
    run_word(&mut cpu, &mut screen, &mut memory, 0x8017).unwrap();
    assert_eq!(cpu.v[0], 0xFF);
    assert_eq!(cpu.v[0xF], 0);
}

#[test]
fn shifts_keep_the_bit_shifted_out() {
    let mut cpu = Cpu::default();
    let mut screen = Screen::default();
    let mut memory = vec![0u8; 4];
    cpu.v[0] = 0x05;
    run_word(&mut cpu, &mut screen, &mut memory, 0x8016).unwrap();
    assert_eq!(cpu.v[0], 0x02);
    assert_eq!(cpu.v[0xF], 1);

    cpu.v[0] = 0x81;
    run_word(&mut cpu, &mut screen, &mut memory, 0x801E).unwrap();
    assert_eq!(cpu.v[0], 0x02);
    assert_eq!(cpu.v[0xF], 1);

    cpu.v[0] = 0x40;
    run_word(&mut cpu, &mut screen, &mut memory, 0x801E).unwrap();
    assert_eq!(cpu.v[0], 0x80);
    assert_eq!(cpu.v[0xF], 0);
}

#[test]
fn shift_into_the_flag_register_ends_with_the_shifted_value() {
    let mut cpu = Cpu::default();
    let mut screen = Screen::default();
    let mut memory = vec![0u8; 4];
    cpu.v[0xF] = 0x05;
    run_word(&mut cpu, &mut screen, &mut memory, 0x8F06).unwrap();
    assert_eq!(cpu.v[0xF], 0x02);
    cpu.v[0xF] = 0x81;
    run_word(&mut cpu, &mut screen, &mut memory, 0x8F0E).unwrap();
    assert_eq!(cpu.v[0xF], 0x02);
}

#[test]
fn execute_needs_no_fetch_before_it() {
    let mut cpu = Cpu::default();
    let mut screen = Screen::default();
    let mut memory = [0u8; 4];
    execute(Opcode::from(0x6A42), &mut cpu, &mut memory, &mut screen, 0).unwrap();
    assert_eq!(cpu.v[0xA], 0x42);
    assert_eq!(cpu.pc, 0);
    execute(Opcode::from(0xC1F0), &mut cpu, &mut memory, &mut screen, 0xAB).unwrap();
    assert_eq!(cpu.v[1], 0xA0);
}

#[test]
fn flag_register_as_destination_ends_with_the_flag() {
    let mut cpu = Cpu::default();
    let mut screen = Screen::default();
    let mut memory = vec![0u8; 4];
    cpu.v[0xF] = 0xFF;
    cpu.v[1] = 0x01;
    run_word(&mut cpu, &mut screen, &mut memory, 0x8F14).unwrap();
    assert_eq!(cpu.v[0xF], 1);
}

#[test]
fn logic_operations() {
    let mut cpu = Cpu::default();
    let mut screen = Screen::default();
    let mut memory = vec![0u8; 4];
    cpu.v[0] = 0b1100;
    cpu.v[1] = 0b1010;
    run_word(&mut cpu, &mut screen, &mut memory, 0x8011).unwrap();
    assert_eq!(cpu.v[0], 0b1110);
    cpu.v[0] = 0b1100;
    run_word(&mut cpu, &mut screen, &mut memory, 0x8012).unwrap();
    assert_eq!(cpu.v[0], 0b1000);
    cpu.v[0] = 0b1100;
    run_word(&mut cpu, &mut screen, &mut memory, 0x8013).unwrap();
    assert_eq!(cpu.v[0], 0b0110);
    run_word(&mut cpu, &mut screen, &mut memory, 0x8010).unwrap();
    assert_eq!(cpu.v[0], 0b1010);
}

#[test]
fn skips() {
    let mut cpu = Cpu::default();
    let mut screen = Screen::default();
    let mut memory = vec![0u8; 4];
    cpu.v[0] = 0x42;
    cpu.v[1] = 0x42;
    run_word(&mut cpu, &mut screen, &mut memory, 0x3042).unwrap();
    assert_eq!(cpu.pc, 4);
    run_word(&mut cpu, &mut screen, &mut memory, 0x3043).unwrap();
    assert_eq!(cpu.pc, 2);
    run_word(&mut cpu, &mut screen, &mut memory, 0x4043).unwrap();
    assert_eq!(cpu.pc, 4);
    run_word(&mut cpu, &mut screen, &mut memory, 0x4042).unwrap();
    assert_eq!(cpu.pc, 2);
    run_word(&mut cpu, &mut screen, &mut memory, 0x5010).unwrap();
    assert_eq!(cpu.pc, 4);
    run_word(&mut cpu, &mut screen, &mut memory, 0x9010).unwrap();
    assert_eq!(cpu.pc, 2);
    cpu.v[1] = 0x00;
    run_word(&mut cpu, &mut screen, &mut memory, 0x9010).unwrap();
    assert_eq!(cpu.pc, 4);
}

#[test]
fn jump_with_offset() {
    let mut cpu = Cpu::default();
    let mut screen = Screen::default();
    let mut memory = vec![0u8; 4];
    cpu.v[0] = 0x10;
    run_word(&mut cpu, &mut screen, &mut memory, 0xB300).unwrap();
    assert_eq!(cpu.pc, 0x310);
}

#[test]
fn call_and_return() {
    let mut cpu = Cpu::default();
    let mut screen = Screen::default();
    let mut memory = vec![0u8; 0x10];
    memory[0] = 0x20;
    memory[1] = 0x08;
    memory[8] = 0x00;
    memory[9] = 0xEE;
    cpu.step(&mut memory, &mut screen).unwrap();
    assert_eq!(cpu.pc, 8);
    assert_eq!(cpu.sp, 1);
    cpu.step(&mut memory, &mut screen).unwrap();
    assert_eq!(cpu.pc, 2);
    assert_eq!(cpu.sp, 0);
}

#[test]
fn call_on_a_full_stack_overflows() {
    let mut cpu = Cpu::default();
    let mut screen = Screen::default();
    let mut memory = vec![0u8; 4];
    cpu.sp = 15;
    let e = run_word(&mut cpu, &mut screen, &mut memory, 0x2123);
    assert!(matches!(e, Err(ChipError::StackOverflow(16))));
    assert_eq!(cpu.sp, 15);
}

#[test]
fn unknown_words_are_not_implemented() {
    let mut screen = Screen::default();
    for word in [0x0123u16, 0x0000, 0x800F, 0xE0FF, 0xF0FF] {
        let mut cpu = Cpu::default();
        let mut memory = vec![0u8; 4];
        let e = run_word(&mut cpu, &mut screen, &mut memory, word);
        assert_eq!(e, Err(ChipError::OpcodeNotImplemented { opcode: word }));
    }
}

#[test]
fn wait_for_key_repeats_until_a_key_is_pressed() {
    let mut cpu = Cpu::default();
    let mut screen = Screen::default();
    let mut memory = vec![0u8; 4];
    memory[0] = 0xF3;
    memory[1] = 0x0A;
    cpu.step(&mut memory, &mut screen).unwrap();
    assert_eq!(cpu.pc, 0);
    cpu.keypad[9] = true;
    cpu.keypad[7] = true;
    cpu.step(&mut memory, &mut screen).unwrap();
    assert_eq!(cpu.pc, 2);
    assert_eq!(cpu.v[3], 7);
}

#[test]
fn key_skips() {
    let mut cpu = Cpu::default();
    let mut screen = Screen::default();
    let mut memory = vec![0u8; 4];
    cpu.v[0] = 5;
    cpu.keypad[5] = true;
    run_word(&mut cpu, &mut screen, &mut memory, 0xE09E).unwrap();
    assert_eq!(cpu.pc, 4);
    run_word(&mut cpu, &mut screen, &mut memory, 0xE0A1).unwrap();
    assert_eq!(cpu.pc, 2);
    cpu.v[0] = 0x20;
    run_word(&mut cpu, &mut screen, &mut memory, 0xE09E).unwrap();
    assert_eq!(cpu.pc, 2);
    run_word(&mut cpu, &mut screen, &mut memory, 0xE0A1).unwrap();
    assert_eq!(cpu.pc, 4);
}

#[test]
fn timer_instructions() {
    let mut cpu = Cpu::default();
    let mut screen = Screen::default();
    let mut memory = vec![0u8; 4];
    cpu.v[1] = 42;
    run_word(&mut cpu, &mut screen, &mut memory, 0xF115).unwrap();
    assert_eq!(cpu.timer_delay, 42);
    run_word(&mut cpu, &mut screen, &mut memory, 0xF118).unwrap();
    assert_eq!(cpu.timer_sound, 42);
    run_word(&mut cpu, &mut screen, &mut memory, 0xF207).unwrap();
    assert_eq!(cpu.v[2], 42);
}

#[test]
fn index_instructions() {
    let mut cpu = Cpu::default();
    let mut screen = Screen::default();
    let mut memory = vec![0u8; 4];
    cpu.v[0] = 0xA;
    run_word(&mut cpu, &mut screen, &mut memory, 0xF029).unwrap();
    assert_eq!(cpu.i, 0x50 + 0xA * 5);
    cpu.i = 0xFFFF;
    cpu.v[0] = 2;
    run_word(&mut cpu, &mut screen, &mut memory, 0xF01E).unwrap();
    assert_eq!(cpu.i, 1);
}

#[test]
fn store_registers_and_its_bound() {
    let mut cpu = Cpu::default();
    let mut screen = Screen::default();
    let mut memory = vec![0u8; 8];
    cpu.v[0] = 1;
    cpu.v[1] = 2;
    cpu.v[2] = 3;
    cpu.v[3] = 4;
    cpu.i = 4;
    run_word(&mut cpu, &mut screen, &mut memory, 0xF255).unwrap();
    assert_eq!(memory[4..8], [1, 2, 3, 0]);
    assert_eq!(cpu.i, 4);
    cpu.i = 5;
    let e = run_word(&mut cpu, &mut screen, &mut memory, 0xF355);
    assert!(matches!(e, Err(ChipError::AddressOutOfBounds { address: 8, limit: 8 })));
    assert_eq!(memory[4..8], [1, 2, 3, 0]);
}

#[test]
fn random_byte_is_masked() {
    let mut cpu = Cpu::default();
    let mut screen = Screen::default();
    let mut memory = vec![0u8; 4];
    let mut seen = [false; 256];
    for _ in 0..5000 {
        run_word(&mut cpu, &mut screen, &mut memory, 0xC0FF).unwrap();
        seen[cpu.v[0] as usize] = true;
        run_word(&mut cpu, &mut screen, &mut memory, 0xC10F).unwrap();
        assert!(cpu.v[1] <= 0x0F);
    }
    // Every byte can be drawn, 0xFF included.
    assert!(seen[0xFF]);
    assert!(seen.iter().filter(|s| **s).count() > 200);
}

#[test]
fn decode_fields() {
    let op = Opcode::from(0xD123);
    assert_eq!(op.hex, 0xD123);
    assert_eq!(op.prefix, 0xD);
    assert_eq!(op.x, 0x1);
    assert_eq!(op.y, 0x2);
    assert_eq!(op.n, 0x3);
    assert_eq!(op.nn, 0x23);
    assert_eq!(op.nnn, 0x123);
}

#[test]
fn screen_pixel_operations() {
    let mut screen = Screen::default();
    assert_eq!(screen.width, 64);
    assert_eq!(screen.height, 32);
    screen.set_pixel(63, 31);
    assert!(screen.get_pixel(63, 31));
    screen.clear_pixel(63, 31);
    assert!(!screen.get_pixel(63, 31));
    screen.toggle_pixel(0, 0);
    assert!(screen.get_pixel(0, 0));
    screen.toggle_pixel(0, 0);
    assert!(!screen.get_pixel(0, 0));
}

#[test]
fn reset_restores_program_and_font() {
    let mut c8 = Chip8::default();
    c8.load_rom(&[1, 2, 3]).unwrap();
    c8.write(0x300, 9).unwrap();
    c8.write(0x200, 7).unwrap();
    c8.cpu.v[4] = 8;
    c8.cpu.i = 0x123;
    c8.cpu.pc = 0x400;
    c8.screen.set_pixel(1, 1);
    c8.reset();
    assert_eq!(c8.memory[0x200..0x203], [1, 2, 3]);
    assert_eq!(c8.memory[0x50..0x55], [0xF0, 0x90, 0x90, 0x90, 0xF0]);
    assert_eq!(c8.memory[0x9B..0xA0], [0xF0, 0x80, 0xF0, 0x80, 0x80]);
    for a in 0..4096 {
        if !(0x200..0x203).contains(&a) && !(0x50..0xA0).contains(&a) {
            assert_eq!(c8.memory[a], 0, "address {:#x}", a);
        }
    }
    assert_eq!(c8.cpu.pc, 0x200);
    assert_eq!(c8.cpu.v[4], 0);
    assert_eq!(c8.cpu.i, 0);
    assert!(!c8.screen.get_pixel(1, 1));
    let once = c8.memory;
    c8.reset();
    assert_eq!(c8.memory, once);
}

#[test]
fn end_to_end_program() {
    let mut c8 = Chip8::default();
    c8.load_rom(&[0x00, 0xE0, 0xA1, 0x23, 0x62, 0xF1, 0x12, 0x34]).unwrap();
    c8.load(0x234, &[0xF0, 0x33]).unwrap();
    c8.screen.set_pixel(5, 10);
    c8.screen.set_pixel(50, 30);
    c8.step().unwrap();
    assert!(!c8.screen.get_pixel(5, 10));
    assert!(!c8.screen.get_pixel(50, 30));
    c8.step().unwrap();
    assert_eq!(c8.cpu.i, 0x123);
    c8.step().unwrap();
    assert_eq!(c8.cpu.v[2], 0xF1);
    c8.step().unwrap();
    assert_eq!(c8.cpu.pc, 0x234);
    c8.cpu.v[0] = 123;
    c8.cpu.i = 2;
    c8.step().unwrap();
    assert_eq!(c8.memory[2..5], [1, 2, 3]);
}

#[test]
fn tick_runs_steps_then_counts_timers_down() {
    let mut c8 = Chip8::default();
    // Jump to itself forever.
    c8.load_rom(&[0x12, 0x00]).unwrap();
    c8.cpu.timer_delay = 3;
    c8.cpu.timer_sound = 1;
    assert!(c8.should_play_sound());
    c8.tick().unwrap();
    assert_eq!(c8.cpu.timer_delay, 2);
    assert_eq!(c8.cpu.timer_sound, 0);
    assert!(!c8.should_play_sound());
    c8.tick().unwrap();
    assert_eq!(c8.cpu.timer_delay, 1);
    assert_eq!(c8.cpu.timer_sound, 0);
}

#[test]
fn tick_counts_the_configured_steps() {
    let mut c8 = Chip8::new(Config { rom_base_addr: 0x200, font_base_addr: 0x50, tick_rate: 3 });
    c8.load_rom(&[0x70, 0x01, 0x70, 0x01, 0x70, 0x01, 0x70, 0x01]).unwrap();
    c8.tick().unwrap();
    assert_eq!(c8.cpu.v[0], 3);
    assert_eq!(c8.cpu.pc, 0x206);
}

#[test]
fn failed_tick_leaves_the_timers() {
    let mut c8 = Chip8::default();
    c8.load_rom(&[0x70, 0x01, 0x80, 0x0F]).unwrap();
    c8.cpu.timer_delay = 5;
    let e = c8.tick();
    assert_eq!(e, Err(ChipError::OpcodeNotImplemented { opcode: 0x800F }));
    assert_eq!(c8.cpu.timer_delay, 5);
    assert_eq!(c8.cpu.v[0], 1);
}

#[test]
fn set_input_replaces_the_keypad() {
    let mut c8 = Chip8::default();
    let mut keys = [false; 16];
    keys[0xC] = true;
    c8.set_input(keys);
    assert_eq!(c8.cpu.keypad, keys);
    c8.load_rom(&[0xF5, 0x0A]).unwrap();
    c8.step().unwrap();
    assert_eq!(c8.cpu.v[5], 0xC);
    c8.set_input([false; 16]);
    assert_eq!(c8.cpu.keypad, [false; 16]);
}

#[test]
fn load_bounds() {
    let mut c8 = Chip8::default();
    c8.load(4090, &[1, 2, 3, 4, 5]).unwrap();
    assert_eq!(c8.memory[4094], 5);
    c8.load(4000, &[7u8; 96]).unwrap();
    assert_eq!(c8.memory[4095], 7);
    let e = c8.load(4000, &[0u8; 97]);
    assert_eq!(e, Err(ChipError::AddressOutOfBounds { address: 4097, limit: 4096 }));
    assert_eq!(c8.memory[4095], 7);
    let e = c8.write(4096, 1);
    assert_eq!(e, Err(ChipError::AddressOutOfBounds { address: 4096, limit: 4096 }));
    let e = c8.load(usize::MAX, &[1]);
    assert_eq!(e, Err(ChipError::AddressOutOfBounds { address: usize::MAX, limit: 4096 }));
}

#[test]
fn load_rom_up_to_the_last_byte() {
    let mut c8 = Chip8::new(Config { rom_base_addr: 4094, font_base_addr: 0x50, tick_rate: 10 });
    c8.load_rom(&[0xAB, 0xCD]).unwrap();
    assert_eq!(c8.memory[4094..4096], [0xAB, 0xCD]);
    let e = c8.load_rom(&[1, 2, 3]);
    assert_eq!(e, Err(ChipError::AddressOutOfBounds { address: 4097, limit: 4096 }));
    c8.load_rom(&[0x12, 0x34]).unwrap();
    c8.reset();
    assert_eq!(c8.memory[4094..4096], [0x12, 0x34]);
}

#[test]
fn load_font_at_configured_base() {
    let mut c8 = Chip8::new(Config { rom_base_addr: 0x200, font_base_addr: 0x100, tick_rate: 10 });
    assert_eq!(c8.memory[0x100], 0xF0);
    assert_eq!(c8.memory[0x50], 0);
    c8.load_font(&[0xAA, 0xBB]).unwrap();
    assert_eq!(c8.memory[0x100..0x102], [0xAA, 0xBB]);
    c8.reset_memory();
    assert_eq!(c8.memory[0x100], 0xF0);
    c8.load_default_font();
    assert_eq!(c8.memory[0x101], 0x90);
}
