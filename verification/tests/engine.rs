use asmvm::assembler::assemble;
use asmvm::isa::Instruction;
use asmvm::machine::{ExecError, Program, RunOutcome};

fn lines_of(src: &[&[&str]]) -> Vec<Vec<String>> {
    src.iter().map(|l| l.iter().map(|w| w.to_string()).collect()).collect()
}

fn program_of(src: &[&[&str]], input: &str) -> Program {
    let mut lines = lines_of(src);
    let instructions: Vec<Instruction> = assemble(&mut lines).unwrap();
    Program::new(instructions, input.chars().collect())
}

#[test]
fn hello_prints_and_halts() {
    // LDIM 72 ; MOV R0 IM ; MOV IO R0 with empty input prints 'H' (72) and
    // halts cleanly with the counter one past the instruction count.
    let mut p = program_of(&[&["LDIM", "72"], &["MOV", "R0", "IM"], &["MOV", "IO", "R0"]], "");
    assert_eq!(p.execute(u64::MAX), Ok(RunOutcome::Halted));
    assert_eq!(p.output, vec![72]);
    assert_eq!(char::from_u32(p.output[0]).unwrap(), 'H');
    assert_eq!(p.program_counter, 4);
}

#[test]
fn ldim_mov_probes_every_width() {
    for v in [0u32, 1, 63, 64, 72, 4094, 4095] {
        let text = v.to_string();
        let mut p = program_of(&[&["LDIM", text.as_str()], &["MOV", "R0", "IM"]], "");
        assert_eq!(p.execute(u64::MAX), Ok(RunOutcome::Halted));
        assert_eq!(p.registers[0], v);
        assert_eq!(p.registers[5], v);
    }
}

#[test]
fn memory_set_load_round_trip() {
    // Write 7 through SET at base R4 (zero) offset 5, read it back by LOAD.
    let mut p = program_of(
        &[
            &["LDIM", "7"],
            &["MOV", "R0", "IM"],
            &["SET", "R0", "R4", "5"],
            &["LOAD", "R1", "R4", "5"],
        ],
        "",
    );
    assert_eq!(p.execute(u64::MAX), Ok(RunOutcome::Halted));
    assert_eq!(p.ram[5], 7);
    assert_eq!(p.registers[1], 7);
}

#[test]
fn memory_offsets_hit_their_cells() {
    for v in [0usize, 1, 32, 63] {
        let o = v.to_string();
        let mut p = program_of(
            &[&["LDIM", "9"], &["MOV", "R1", "IM"], &["SET", "R1", "R0", o.as_str()]],
            "",
        );
        assert_eq!(p.execute(u64::MAX), Ok(RunOutcome::Halted));
        for cell in 0..64 {
            assert_eq!(p.ram[cell], if cell == v { 9 } else { 0 });
        }
    }
}

#[test]
fn not_twice_restores_value() {
    let mut p = program_of(
        &[
            &["LDIM", "100"],
            &["MOV", "R0", "IM"],
            &["NOT", "R1", "R0"],
            &["NOT", "R1", "R1"],
        ],
        "",
    );
    assert_eq!(p.execute(u64::MAX), Ok(RunOutcome::Halted));
    assert_eq!(p.registers[1], 100);
    assert_eq!(p.registers[0], 100);
}

#[test]
fn jar_lands_one_past_its_target() {
    // JAR with target 4 resumes at address 5 after the post-increment, so
    // the loader at position 4 is skipped; the link register keeps the
    // counter the jump was fetched at.
    let mut p = program_of(
        &[
            &["LDIM", "4"],
            &["MOV", "R0", "IM"],
            &["JAR", "R0"],
            &["LDIM", "1"],
            &["LDIM", "2"],
        ],
        "",
    );
    assert_eq!(p.execute(u64::MAX), Ok(RunOutcome::Halted));
    assert_eq!(p.registers[5], 2);
    assert_eq!(p.registers[7], 3);
}

#[test]
fn taken_jeq_lands_one_past_its_target() {
    // R1 == R2 (both zero), so the jump to R0 == 3 resumes at address 4.
    let mut p = program_of(
        &[
            &["LDIM", "3"],
            &["MOV", "R0", "IM"],
            &["JEQ", "R0", "R1", "R2"],
            &["LDIM", "9"],
        ],
        "",
    );
    assert_eq!(p.execute(u64::MAX), Ok(RunOutcome::Halted));
    assert_eq!(p.registers[5], 9);
}

#[test]
fn untaken_jumps_fall_through() {
    let mut p = program_of(
        &[
            &["LDIM", "1"],
            &["MOV", "R1", "IM"],
            &["JGT", "R0", "R2", "R1"],
            &["JLT", "R0", "R1", "R2"],
            &["LDIM", "7"],
        ],
        "",
    );
    assert_eq!(p.execute(u64::MAX), Ok(RunOutcome::Halted));
    assert_eq!(p.registers[5], 7);
}

#[test]
fn io_reads_consume_the_input_queue() {
    let mut p = program_of(&[&["MOV", "R0", "IO"], &["MOV", "R1", "IO"]], "AB");
    assert_eq!(p.execute(u64::MAX), Ok(RunOutcome::Halted));
    assert_eq!(p.registers[0], 65);
    assert_eq!(p.registers[1], 66);
    assert_eq!(p.char_index, 2);
}

#[test]
fn input_ends_with_null_then_exhausts() {
    // Empty input still yields one terminating null; the second read fails.
    let mut p = program_of(&[&["MOV", "R0", "IO"], &["MOV", "R1", "IO"]], "");
    assert_eq!(p.execute(u64::MAX), Err(ExecError::InputExhausted));
    assert_eq!(p.registers[0], 0);
}

#[test]
fn invalid_output_code_point_aborts() {
    // 3456 << 4 == 55296 == 0xD800, a surrogate: no character.
    let mut p = program_of(
        &[
            &["LDIM", "3456"],
            &["MOV", "R0", "IM"],
            &["LDIM", "4"],
            &["MOV", "R1", "IM"],
            &["SHL", "R2", "R0", "R1"],
            &["MOV", "IO", "R2"],
        ],
        "",
    );
    assert_eq!(p.execute(u64::MAX), Err(ExecError::InvalidOutputCharacter));
    assert_eq!(p.output, Vec::<u32>::new());
}

#[test]
fn memory_access_past_the_end_aborts() {
    let mut p = program_of(
        &[&["LDIM", "4095"], &["MOV", "R0", "IM"], &["LOAD", "R1", "R0", "63"]],
        "",
    );
    assert_eq!(p.execute(u64::MAX), Err(ExecError::MemoryOutOfBounds));
}

#[test]
fn add_and_sub_wrap_modulo_two_to_the_32() {
    let mut p = program_of(
        &[
            &["NOT", "R1", "R0"],
            &["LDIM", "1"],
            &["MOV", "R2", "IM"],
            &["ADD", "R3", "R1", "R2"],
            &["SUB", "R4", "R0", "R2"],
        ],
        "",
    );
    assert_eq!(p.execute(u64::MAX), Ok(RunOutcome::Halted));
    assert_eq!(p.registers[1], u32::MAX);
    assert_eq!(p.registers[3], 0);
    assert_eq!(p.registers[4], u32::MAX);
}

#[test]
fn bitwise_and_shift_operations() {
    let mut p = program_of(
        &[
            &["LDIM", "12"],
            &["MOV", "R0", "IM"],
            &["LDIM", "10"],
            &["MOV", "R1", "IM"],
            &["AND", "R2", "R0", "R1"],
            &["OR", "R3", "R0", "R1"],
            &["XOR", "R4", "R0", "R1"],
            &["LDIM", "2"],
            &["SHL", "R0", "R0", "IM"],
        ],
        "",
    );
    assert_eq!(p.execute(u64::MAX), Ok(RunOutcome::Halted));
    assert_eq!(p.registers[2], 8);
    assert_eq!(p.registers[3], 14);
    assert_eq!(p.registers[4], 6);
    assert_eq!(p.registers[0], 48);
}

#[test]
fn shifts_of_32_or_more_clear_the_target() {
    let mut p = program_of(
        &[
            &["LDIM", "1"],
            &["MOV", "R0", "IM"],
            &["LDIM", "32"],
            &["MOV", "R1", "IM"],
            &["SHL", "R2", "R0", "R1"],
            &["SHR", "R3", "R0", "R1"],
        ],
        "",
    );
    assert_eq!(p.execute(u64::MAX), Ok(RunOutcome::Halted));
    assert_eq!(p.registers[2], 0);
    assert_eq!(p.registers[3], 0);
}

#[test]
fn nonterminating_program_spends_its_budget() {
    // JEQ on two equal registers jumps back to address 0, which the
    // post-increment turns into an endless loop over position 1.
    let mut p = program_of(&[&["JEQ", "R0", "R1", "R2"]], "");
    assert_eq!(p.execute(1000), Ok(RunOutcome::StepLimit));
}

#[test]
fn label_loop_copies_input_to_output() {
    // Copy characters until the null terminator: a loop written with
    // labels, constants and comments, exercising the whole pipeline.
    let mut p = program_of(
        &[
            &["$NULL", "0"],
            &["LDIM", "NULL"],
            &["MOV", "R1", "IM", "//", "terminator"],
            &["(LOOP)"],
            &["MOV", "R0", "IO"],
            &["LDIM", "END"],
            &["MOV", "R2", "IM"],
            &["JEQ", "R2", "R0", "R1", "//", "stop", "on", "null"],
            &["MOV", "IO", "R0"],
            &["LDIM", "LOOP"],
            &["MOV", "R3", "IM"],
            &["JEQ", "R3", "R4", "R4"],
            &["(END)"],
        ],
        "Hi",
    );
    assert_eq!(p.execute(u64::MAX), Ok(RunOutcome::Halted));
    let printed: String = p.output.iter().map(|&c| char::from_u32(c).unwrap()).collect();
    assert_eq!(printed, "Hi");
}
