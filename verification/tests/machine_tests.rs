use mini_chip::machine::{Machine, ProgramTooLarge, Step, Stop};

fn loaded(program: &[u8]) -> Machine {
    Machine::new(program.to_vec()).unwrap()
}

fn with_registers(values: &[(u8, u8)], then: &[u8]) -> Machine {
    let mut program = Vec::new();
    for (x, value) in values {
        program.push(0x60 | x);
        program.push(*value);
    }
    program.extend_from_slice(then);
    let mut machine = loaded(&program);
    for _ in values {
        assert_eq!(machine.step(), Step::Ran { output: None });
    }
    machine
}

#[test]
fn a_fresh_machine_is_all_zero() {
    let machine = loaded(&[0x00, 0x00]);
    assert_eq!(machine.registers(), &[0u8; 16]);
    assert_eq!(machine.memory(), &[0u8; 256]);
    assert_eq!(machine.pc(), 0);
}

#[test]
fn programs_over_512_bytes_are_refused() {
    assert!(Machine::new(vec![0u8; 512]).is_ok());
    assert!(matches!(Machine::new(vec![0u8; 513]), Err(ProgramTooLarge)));
    assert!(Machine::new(Vec::new()).is_ok());
}

#[test]
fn an_empty_program_halts_at_once() {
    let mut machine = loaded(&[]);
    assert_eq!(machine.fetch(), None);
    assert_eq!(machine.step(), Step::Halted);
    let run = machine.run_for(5);
    assert_eq!(run.stop, Stop::Halted);
    assert!(run.output.is_empty());
}

#[test]
fn a_trailing_odd_byte_is_no_slot() {
    let mut machine = loaded(&[0x61, 0x09, 0xB0]);
    assert_eq!(machine.step(), Step::Ran { output: None });
    assert_eq!(machine.step(), Step::Halted);
    assert_eq!(machine.registers()[1], 9);
}

#[test]
fn add_sets_carry_and_wraps_for_all_bytes() {
    for a in 0u8..=255 {
        for b in 0u8..=255 {
            let mut machine = with_registers(&[(2, a), (7, b)], &[0x90, 0x27]);
            assert_eq!(machine.step(), Step::Ran { output: None });
            let sum = a as u16 + b as u16;
            assert_eq!(machine.registers()[2], (sum % 256) as u8);
            assert_eq!(machine.registers()[15], if sum > 255 { 1 } else { 0 });
            assert_eq!(machine.registers()[7], b);
            assert_eq!(machine.pc(), 3);
        }
    }
}

#[test]
fn sub_sets_borrow_and_wraps_for_all_bytes() {
    for a in 0u8..=255 {
        for b in 0u8..=255 {
            let mut machine = with_registers(&[(2, a), (7, b)], &[0x91, 0x27]);
            assert_eq!(machine.step(), Step::Ran { output: None });
            assert_eq!(machine.registers()[2], a.wrapping_sub(b));
            assert_eq!(machine.registers()[15], if b > a { 1 } else { 0 });
            assert_eq!(machine.pc(), 3);
        }
    }
}

#[test]
fn arithmetic_on_the_flag_register_leaves_the_flag() {
    let mut machine = with_registers(&[(15, 200), (1, 100)], &[0x90, 0xF1]);
    machine.step();
    assert_eq!(machine.registers()[15], 1);
    let mut machine = with_registers(&[(15, 5), (1, 3)], &[0x91, 0xF1]);
    machine.step();
    assert_eq!(machine.registers()[15], 0);
}

#[test]
fn conditionals_skip_exactly_one_slot() {
    for (opcode, a, b, skips) in [
        (0x10u8, 4u8, 4u8, true),
        (0x10, 4, 5, false),
        (0x20, 4, 5, true),
        (0x20, 4, 4, false),
        (0x30, 4, 5, true),
        (0x30, 4, 4, true),
        (0x30, 5, 4, false),
    ] {
        let mut machine =
            with_registers(&[(0, a), (1, b)], &[opcode, 0x01, 0x62, 0x11, 0x63, 0x22]);
        let before = *machine.registers();
        assert_eq!(machine.step(), Step::Ran { output: None });
        assert_eq!(machine.pc(), if skips { 4 } else { 3 });
        assert_eq!(machine.registers(), &before);
        assert_eq!(machine.memory(), &[0u8; 256]);
        let run = machine.run_for(10);
        assert_eq!(run.stop, Stop::Halted);
        assert_eq!(machine.registers()[2], if skips { 0 } else { 0x11 });
        assert_eq!(machine.registers()[3], 0x22);
    }
}

#[test]
fn a_skip_past_the_end_halts() {
    let mut machine = loaded(&[0x10, 0x00]);
    assert_eq!(machine.step(), Step::Ran { output: None });
    assert_eq!(machine.pc(), 2);
    assert_eq!(machine.step(), Step::Halted);
    assert_eq!(machine.pc(), 2);
}

#[test]
fn stores_emit_only_at_the_port() {
    for value in [0u8, 1, 42, 255] {
        for addr in [0u8, 1, 254, 255] {
            let mut machine = with_registers(&[(3, value)], &[0x83, addr]);
            let step = machine.step();
            let expected = if addr == 255 { Some(value) } else { None };
            assert_eq!(step, Step::Ran { output: expected });
            assert_eq!(machine.memory()[addr as usize], value);
            for other in 0usize..256 {
                if other != addr as usize {
                    assert_eq!(machine.memory()[other], 0);
                }
            }
        }
    }
}

#[test]
fn run_collects_one_output_per_port_write() {
    let mut machine = loaded(&[
        0x60, 0x03, 0x80, 0xFF, 0x80, 0x10, 0x61, 0x09, 0x81, 0xFF, 0x80, 0xFF,
    ]);
    let run = machine.run_for(100);
    assert_eq!(run.stop, Stop::Halted);
    assert_eq!(run.output, vec![3, 9, 3]);
    assert_eq!(machine.memory()[255], 3);
    assert_eq!(machine.memory()[0x10], 3);
}

#[test]
fn register_moves_and_loads() {
    let mut machine = with_registers(
        &[(1, 0x5A), (2, 0x0F)],
        &[0x40, 0x31, 0x81, 0x20, 0x54, 0x20, 0x41, 0x05, 0x6A, 0x77],
    );
    assert_eq!(machine.run_for(10).stop, Stop::Halted);
    let registers = machine.registers();
    assert_eq!(registers[3], 0x5A);
    assert_eq!(registers[4], 0x5A);
    assert_eq!(registers[5], 5);
    assert_eq!(registers[10], 0x77);
    assert_eq!(machine.memory()[0x20], 0x5A);
}

#[test]
fn bitwise_operations_leave_the_flag() {
    let mut machine = with_registers(
        &[(15, 9), (0, 0b1100), (1, 0b1010), (2, 0b1100), (3, 0b1100), (4, 0b1100)],
        &[0xA0, 0x01, 0xA1, 0x21, 0xA2, 0x31, 0xA3, 0x40],
    );
    assert_eq!(machine.run_for(10).stop, Stop::Halted);
    let registers = machine.registers();
    assert_eq!(registers[0], 0b1000);
    assert_eq!(registers[2], 0b1110);
    assert_eq!(registers[3], 0b0110);
    assert_eq!(registers[4], !0b1100u8);
    assert_eq!(registers[1], 0b1010);
    assert_eq!(registers[15], 9);
}

#[test]
fn jumps_set_the_program_counter_without_advancing() {
    let mut machine = loaded(&[0x00, 0x03, 0x60, 0x01, 0x60, 0x02, 0x61, 0x03]);
    assert_eq!(machine.step(), Step::Ran { output: None });
    assert_eq!(machine.pc(), 3);
    assert_eq!(machine.run_for(10).stop, Stop::Halted);
    assert_eq!(machine.registers()[0], 0);
    assert_eq!(machine.registers()[1], 3);

    let mut machine = with_registers(&[(5, 3)], &[0x70, 0x05, 0x61, 0x01, 0x62, 0x02]);
    assert_eq!(machine.step(), Step::Ran { output: None });
    assert_eq!(machine.pc(), 3);
    assert_eq!(machine.run_for(10).stop, Stop::Halted);
    assert_eq!(machine.registers()[1], 0);
    assert_eq!(machine.registers()[2], 2);
}

#[test]
fn a_jump_out_of_the_program_halts() {
    let mut machine = loaded(&[0x00, 0xFF, 0x60, 0x01]);
    let run = machine.run_for(10);
    assert_eq!(run.stop, Stop::Halted);
    assert_eq!(machine.pc(), 255);
    assert_eq!(machine.registers()[0], 0);
}

#[test]
fn an_unknown_instruction_faults_and_changes_nothing() {
    let mut machine = loaded(&[0x60, 0x01, 0xC1, 0x23, 0x61, 0x02]);
    let run = machine.run_for(10);
    assert_eq!(run.stop, Stop::Fault);
    assert_eq!(machine.pc(), 1);
    assert_eq!(machine.fetch(), Some((0xC1, 0x23)));
    assert_eq!(machine.registers()[0], 1);
    assert_eq!(machine.registers()[1], 0);
    assert_eq!(machine.step(), Step::Fault);
    assert_eq!(machine.pc(), 1);
}

#[test]
fn a_run_emits_no_more_bytes_than_its_limit() {
    for limit in 0u64..12 {
        let mut machine = loaded(&[0x60, 0x07, 0x80, 0xFF, 0x80, 0xFF, 0x00, 0x01]);
        let run = machine.run_for(limit);
        assert!(run.output.len() as u64 <= limit);
    }
}

#[test]
fn a_loop_ends_at_the_step_limit() {
    let mut machine = loaded(&[0x60, 0x07, 0x80, 0xFF, 0x00, 0x01]);
    let run = machine.run_for(7);
    assert_eq!(run.stop, Stop::StepLimit);
    assert_eq!(run.output, vec![7, 7, 7]);
    let more = machine.run_for(0);
    assert_eq!(more.stop, Stop::StepLimit);
    assert!(more.output.is_empty());
}

#[test]
fn a_full_program_runs_off_its_end() {
    let mut program = Vec::new();
    for _ in 0..256 {
        program.push(0x60);
        program.push(0x01);
    }
    let mut machine = loaded(&program);
    let run = machine.run_for(1000);
    assert_eq!(run.stop, Stop::Halted);
    assert_eq!(machine.pc(), 256);
}

#[test]
fn setrpc_stores_the_slot_of_the_instruction() {
    let mut program = vec![0x00, 0xFE];
    program.resize(2 * 254, 0);
    program.extend_from_slice(&[0x41, 0x03, 0x41, 0x04]);
    let mut machine = loaded(&program);
    assert_eq!(machine.run_for(10).stop, Stop::Halted);
    assert_eq!(machine.registers()[3], 254);
    assert_eq!(machine.registers()[4], 255);
    assert_eq!(machine.pc(), 256);
}
