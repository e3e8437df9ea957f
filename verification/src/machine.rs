//! The execution engine: machine state (eight registers, a 4096-word
//! memory, a 1-based program counter, an input character queue and an output
//! buffer) and the fetch-decode-execute loop.
//!
//! Register 6 is the I/O port: any read from it consumes the next input
//! character and any write to it emits one output character; the trap sits
//! at the register-access layer, not at the instruction layer. `ADD` and
//! `SUB` wrap modulo 2^32; a shift by 32 or more clears the target. Jumps
//! set the counter to the destination and the unconditional post-increment
//! then adds one, so a jump target must be given as one less than the true
//! 1-based address of the instruction to land on.

use vstd::prelude::*;
use vstd::pervasive::VecAdditionalExecFns;
use crate::isa::{Instruction, Operation, Type, wf_instruction};

verus! {

/// Why a run aborts.
#[derive(Clone, Copy, Debug, PartialEq, Eq)]
pub enum ExecError {
    /// A memory access reached past the 4096-word memory.
    MemoryOutOfBounds,
    /// A read from the I/O port found the input queue exhausted.
    InputExhausted,
    /// A write to the I/O port carried a value that is no character code.
    InvalidOutputCharacter,
}

/// How a run ended when it did not abort.
#[derive(Clone, Copy, Debug, PartialEq, Eq)]
pub enum RunOutcome {
    /// The program counter passed the last instruction: the clean halt.
    Halted,
    /// The step budget ran out with the program still running.
    StepLimit,
}

/// The mathematical machine state.
pub ghost struct State {
    pub instructions: Seq<Instruction>,
    pub regs: Seq<u32>,
    pub ram: Seq<u32>,
    pub pc: nat,
    pub input: Seq<char>,
    pub cursor: nat,
    pub output: Seq<u32>,
}

/// A well-formed state: the fixed register and memory sizes, a cursor within
/// the input, a counter past the implicit position zero, and a program of
/// well-formed instructions short enough that every address fits 32 bits.
pub open spec fn wf_state(s: State) -> bool {
    &&& s.regs.len() == 8
    &&& s.ram.len() == 4096
    &&& s.cursor <= s.input.len()
    &&& s.pc >= 1
    &&& s.instructions.len() <= u32::MAX
    &&& forall|k: int|
        0 <= k < s.instructions.len() ==> wf_instruction(#[trigger] s.instructions[k])
}

/// The engine has run past the last instruction.
pub open spec fn halted(s: State) -> bool {
    s.pc > s.instructions.len()
}

/// A value that is a valid character code point.
pub open spec fn valid_char_code(v: u32) -> bool {
    v < 0xD800 || (0xE000 <= v && v <= 0x10FFFF)
}

/// Reading a register: index 6 consumes the next input character; any other
/// index reads storage. Yields the state after the read, the value, and the
/// error if the input queue was exhausted.
pub open spec fn spec_read_reg(s: State, idx: int) -> (State, u32, Option<ExecError>) {
    if idx == 6 {
        if s.cursor < s.input.len() {
            (State { cursor: s.cursor + 1, ..s }, s.input[s.cursor as int] as u32, None)
        } else {
            (s, 0, Some(ExecError::InputExhausted))
        }
    } else {
        (s, s.regs[idx], None)
    }
}

/// Writing a register: index 6 emits the value as one output character,
/// failing on a value that is no character code; any other index writes
/// storage.
pub open spec fn spec_write_reg(s: State, idx: int, v: u32) -> (State, Option<ExecError>) {
    if idx == 6 {
        if valid_char_code(v) {
            (State { output: s.output.push(v), ..s }, None)
        } else {
            (s, Some(ExecError::InvalidOutputCharacter))
        }
    } else {
        (State { regs: s.regs.update(idx, v), ..s }, None)
    }
}

/// One `ArithCompare` instruction: read the two operand registers, then
/// compute into the target, or — for the conditional jumps — set the counter
/// to the value held in the target register when the comparison holds.
/// Addition and subtraction wrap modulo 2^32; a shift by 32 or more yields
/// zero.
pub open spec fn spec_step_a(s: State, i: Instruction) -> (State, Option<ExecError>) {
    let t = i.register1.unwrap() as int;
    let r1 = spec_read_reg(s, i.register2.unwrap() as int);
    if r1.2 is Some {
        (r1.0, r1.2)
    } else {
        let op1 = r1.1;
        let r2 = spec_read_reg(r1.0, i.register3.unwrap() as int);
        if r2.2 is Some {
            (r2.0, r2.2)
        } else {
            let op2 = r2.1;
            let s2 = r2.0;
            match i.operation {
                Operation::AND => spec_write_reg(s2, t, op1 & op2),
                Operation::OR => spec_write_reg(s2, t, op1 | op2),
                Operation::XOR => spec_write_reg(s2, t, op1 ^ op2),
                Operation::SHR => spec_write_reg(
                    s2,
                    t,
                    if op2 >= 32 {
                        0u32
                    } else {
                        op1 >> op2
                    },
                ),
                Operation::SHL => spec_write_reg(
                    s2,
                    t,
                    if op2 >= 32 {
                        0u32
                    } else {
                        op1 << op2
                    },
                ),
                Operation::ADD => spec_write_reg(
                    s2,
                    t,
                    ((op1 + op2) % 0x1_0000_0000) as u32,
                ),
                Operation::SUB => spec_write_reg(
                    s2,
                    t,
                    ((op1 - op2 + 0x1_0000_0000) % 0x1_0000_0000) as u32,
                ),
                Operation::JEQ => if op1 == op2 {
                    spec_jump_to_target(s2, t)
                } else {
                    (s2, None)
                },
                Operation::JLT => if op1 < op2 {
                    spec_jump_to_target(s2, t)
                } else {
                    (s2, None)
                },
                Operation::JGT => if op1 > op2 {
                    spec_jump_to_target(s2, t)
                } else {
                    (s2, None)
                },
                _ => (s2, None),
            }
        }
    }
}

/// A taken conditional jump: the target register is read (through the
/// register-access layer, so reading the I/O port consumes input) and the
/// counter is set to the value found there.
pub open spec fn spec_jump_to_target(s: State, t: int) -> (State, Option<ExecError>) {
    let r = spec_read_reg(s, t);
    if r.2 is Some {
        (r.0, r.2)
    } else {
        (State { pc: r.1 as nat, ..r.0 }, None)
    }
}

/// One `Immediate` instruction: the embedded literal is written into
/// register 5 unconditionally.
pub open spec fn spec_step_i(s: State, i: Instruction) -> (State, Option<ExecError>) {
    spec_write_reg(s, 5, i.immediate.unwrap())
}

/// One `JumpRegister` instruction: read the named register, save the current
/// counter into register 7, then set the counter to the value read —
/// call-and-link.
pub open spec fn spec_step_j(s: State, i: Instruction) -> (State, Option<ExecError>) {
    let r = spec_read_reg(s, i.register1.unwrap() as int);
    if r.2 is Some {
        (r.0, r.2)
    } else {
        let w = spec_write_reg(r.0, 7, r.0.pc as u32);
        (State { pc: r.1 as nat, ..w.0 }, None)
    }
}

/// One `MemoryAccess` instruction: the address is the base register's value
/// plus the offset. `LOAD` copies memory into the target register; `SET`
/// copies the target register into memory. An address past the 4096-word
/// memory is a fatal error.
pub open spec fn spec_step_m(s: State, i: Instruction) -> (State, Option<ExecError>) {
    let t = i.register1.unwrap() as int;
    let r1 = spec_read_reg(s, i.register2.unwrap() as int);
    if r1.2 is Some {
        (r1.0, r1.2)
    } else {
        let addr = r1.1 + i.immediate.unwrap();
        let s1 = r1.0;
        match i.operation {
            Operation::LOAD => if addr >= 4096 {
                (s1, Some(ExecError::MemoryOutOfBounds))
            } else {
                spec_write_reg(s1, t, s1.ram[addr as int])
            },
            Operation::SET => {
                let r2 = spec_read_reg(s1, t);
                if r2.2 is Some {
                    (r2.0, r2.2)
                } else if addr >= 4096 {
                    (r2.0, Some(ExecError::MemoryOutOfBounds))
                } else {
                    (State { ram: r2.0.ram.update(addr as int, r2.1), ..r2.0 }, None)
                }
            },
            _ => (s1, None),
        }
    }
}

/// One `Unary` instruction: `NOT` writes the bitwise complement of the
/// source register into the target; `MOV` copies it verbatim.
pub open spec fn spec_step_n(s: State, i: Instruction) -> (State, Option<ExecError>) {
    let t = i.register1.unwrap() as int;
    let r = spec_read_reg(s, i.register2.unwrap() as int);
    if r.2 is Some {
        (r.0, r.2)
    } else {
        match i.operation {
            Operation::NOT => spec_write_reg(r.0, t, !r.1),
            Operation::MOV => spec_write_reg(r.0, t, r.1),
            _ => (r.0, None),
        }
    }
}

/// One whole engine step: fetch the instruction at `pc - 1`, dispatch by
/// shape, then — on success — unconditionally add one to the counter. On an
/// error the state keeps the effects the failing instruction already had
/// (input consumed by earlier operand reads), without the increment.
pub open spec fn spec_step(s: State) -> (State, Option<ExecError>)
    recommends
        1 <= s.pc <= s.instructions.len(),
{
    let i = s.instructions[s.pc - 1];
    let stepped = match i.instruction_type {
        Type::A => spec_step_a(s, i),
        Type::I => spec_step_i(s, i),
        Type::J => spec_step_j(s, i),
        Type::M => spec_step_m(s, i),
        Type::N => spec_step_n(s, i),
    };
    if stepped.1 is Some {
        stepped
    } else {
        (State { pc: stepped.0.pc + 1, ..stepped.0 }, None)
    }
}

/// The state after `n` successful steps from `s`. Meaningful while no step
/// halts or fails, which `ok_prefix` expresses.
pub open spec fn run_to(s: State, n: nat) -> State
    decreases n,
{
    if n == 0 {
        s
    } else {
        let prev = run_to(s, (n - 1) as nat);
        if !halted(prev) && spec_step(prev).1 is None {
            spec_step(prev).0
        } else {
            prev
        }
    }
}

/// Every step before the `n`-th neither halts nor fails.
pub open spec fn ok_prefix(s: State, n: nat) -> bool {
    forall|m: nat|
        m < n ==> !halted(#[trigger] run_to(s, m)) && spec_step(run_to(s, m)).1 is None
}

/// The halting prefix is unique: two step counts that both run cleanly to
/// a halt from the same state are the same count, so the state
/// [`Program::execute`] promises is the one the machine reaches.
pub proof fn lemma_halt_deterministic(s: State, n1: nat, n2: nat)
    requires
        ok_prefix(s, n1),
        halted(run_to(s, n1)),
        ok_prefix(s, n2),
        halted(run_to(s, n2)),
    ensures
        n1 == n2,
{
    if n1 < n2 {
        assert(!halted(run_to(s, n1)));
    }
    if n2 < n1 {
        assert(!halted(run_to(s, n2)));
    }
}

/// A successful step preserves well-formedness, and moves the counter to a
/// position that still fits an address plus one.
pub proof fn lemma_step_wf(s: State)
    requires
        wf_state(s),
        !halted(s),
    ensures
        spec_step(s).1 is None ==> wf_state(spec_step(s).0) && spec_step(s).0.pc
            <= u32::MAX as nat + 1,
        spec_step(s).0.instructions == s.instructions,
        spec_step(s).0.input == s.input,
{
    let i = s.instructions[s.pc - 1];
    assert(wf_instruction(i));
}

/// The initial machine state for a program and its input: counter at one,
/// registers and memory zeroed, the input queue the given string with a
/// terminating null character appended, cursor at zero, output empty.
pub open spec fn spec_init(instructions: Seq<Instruction>, input: Seq<char>) -> State {
    State {
        instructions: instructions,
        regs: Seq::new(8, |k: int| 0u32),
        ram: Seq::new(4096, |k: int| 0u32),
        pc: 1,
        input: input.push('\0'),
        cursor: 0,
        output: Seq::empty(),
    }
}

/// The execution engine: a resolved program together with the machine state
/// it mutates, run by [`Program::execute`].
pub struct Program {
    pub instructions: Vec<Instruction>,
    pub ram: Vec<u32>,
    pub registers: Vec<u32>,
    pub program_counter: u64,
    pub input: Vec<char>,
    pub char_index: usize,
    pub output: Vec<u32>,
}

impl View for Program {
    type V = State;

    open spec fn view(&self) -> State {
        State {
            instructions: self.instructions@,
            regs: self.registers@,
            ram: self.ram@,
            pc: self.program_counter as nat,
            input: self.input@,
            cursor: self.char_index as nat,
            output: self.output@,
        }
    }
}

/// A vector of `n` zeroed words.
fn zeros(n: usize) -> (r: Vec<u32>)
    ensures
        r@ == Seq::new(n as nat, |k: int| 0u32),
{
    let mut r: Vec<u32> = Vec::new();
    let mut i: usize = 0;
    while i < n
        invariant
            0 <= i <= n,
            r@ == Seq::new(i as nat, |k: int| 0u32),
        decreases n - i,
    {
        r.push(0);
        proof {
            assert(r@ =~= Seq::new(i as nat + 1, |k: int| 0u32));
        }
        i += 1;
    }
    r
}

impl Program {
    /// A fresh machine for a resolved program and a runtime input string:
    /// the initial condition of §execution — registers and memory zeroed,
    /// counter at one, and the null terminator appended to the input.
    pub fn new(instructions: Vec<Instruction>, input: Vec<char>) -> (r: Program)
        requires
            instructions@.len() <= u32::MAX,
            forall|k: int|
                0 <= k < instructions@.len() ==> wf_instruction(#[trigger] instructions@[k]),
        ensures
            r@ == spec_init(instructions@, input@),
            wf_state(r@),
    {
        let mut queue = input;
        queue.push('\0');
        let r = Program {
            instructions,
            ram: zeros(4096),
            registers: zeros(8),
            program_counter: 1,
            input: queue,
            char_index: 0,
            output: Vec::new(),
        };
        proof {
            assert(r@.regs =~= Seq::new(8, |k: int| 0u32));
            assert(r@.ram =~= Seq::new(4096, |k: int| 0u32));
            assert(r@.output =~= Seq::<u32>::empty());
        }
        r
    }

    /// Reads one character from the input queue and advances the cursor;
    /// fails when the queue is exhausted.
    pub fn read_from_io(&mut self) -> (r: Result<u32, ExecError>)
        ensures
            ({
                let (s1, v, e) = spec_read_reg(old(self)@, 6);
                final(self)@ == s1 && (match e {
                    None => r == Ok::<u32, ExecError>(v),
                    Some(err) => r == Err::<u32, ExecError>(err),
                })
            }),
    {
        if self.char_index < self.input.len() {
            let c = self.input[self.char_index];
            self.char_index = self.char_index + 1;
            Ok(c as u32)
        } else {
            Err(ExecError::InputExhausted)
        }
    }

    /// Emits one character to the output stream; fails when the value is no
    /// character code.
    pub fn write_to_io(&mut self, character: u32) -> (r: Result<(), ExecError>)
        ensures
            ({
                let (s1, e) = spec_write_reg(old(self)@, 6, character);
                final(self)@ == s1 && (match e {
                    None => r is Ok,
                    Some(err) => r == Err::<(), ExecError>(err),
                })
            }),
    {
        if character < 0xD800 || (character >= 0xE000 && character <= 0x10FFFF) {
            self.output.push(character);
            Ok(())
        } else {
            Err(ExecError::InvalidOutputCharacter)
        }
    }

    /// Reads a register through the access layer: index 6 is the trapped
    /// I/O port, every other index is ordinary storage.
    pub fn read_from_register(&mut self, index: usize) -> (r: Result<u32, ExecError>)
        requires
            old(self)@.regs.len() == 8,
            index < 8,
        ensures
            ({
                let (s1, v, e) = spec_read_reg(old(self)@, index as int);
                final(self)@ == s1 && (match e {
                    None => r == Ok::<u32, ExecError>(v),
                    Some(err) => r == Err::<u32, ExecError>(err),
                })
            }),
    {
        if index == 6 {
            self.read_from_io()
        } else {
            Ok(self.registers[index])
        }
    }

    /// Writes a register through the access layer: index 6 is the trapped
    /// I/O port, every other index is ordinary storage.
    pub fn write_to_register(&mut self, index: usize, value: u32) -> (r: Result<(), ExecError>)
        requires
            old(self)@.regs.len() == 8,
            index < 8,
        ensures
            ({
                let (s1, e) = spec_write_reg(old(self)@, index as int, value);
                final(self)@ == s1 && (match e {
                    None => r is Ok,
                    Some(err) => r == Err::<(), ExecError>(err),
                })
            }),
    {
        if index == 6 {
            self.write_to_io(value)
        } else {
            self.registers.set(index, value);
            Ok(())
        }
    }

    /// One `ArithCompare` instruction. `ADD` and `SUB` wrap modulo 2^32;
    /// `SHR` and `SHL` by 32 or more clear the target.
    pub fn execute_type_a(&mut self, instruction: &Instruction) -> (r: Result<(), ExecError>)
        requires
            wf_state(old(self)@),
            wf_instruction(*instruction),
            instruction.instruction_type == Type::A,
        ensures
            ({
                let (s1, e) = spec_step_a(old(self)@, *instruction);
                final(self)@ == s1 && (match e {
                    None => r is Ok,
                    Some(err) => r == Err::<(), ExecError>(err),
                })
            }),
    {
        let target_index = instruction.register1.unwrap();
        let operand1 = match self.read_from_register(instruction.register2.unwrap()) {
            Ok(v) => v,
            Err(e) => {
                return Err(e);
            },
        };
        let operand2 = match self.read_from_register(instruction.register3.unwrap()) {
            Ok(v) => v,
            Err(e) => {
                return Err(e);
            },
        };
        match instruction.operation {
            Operation::AND => self.write_to_register(target_index, operand1 & operand2),
            Operation::OR => self.write_to_register(target_index, operand1 | operand2),
            Operation::XOR => self.write_to_register(target_index, operand1 ^ operand2),
            Operation::SHR => {
                let v = if operand2 >= 32 {
                    0
                } else {
                    operand1 >> operand2
                };
                self.write_to_register(target_index, v)
            },
            Operation::SHL => {
                let v = if operand2 >= 32 {
                    0
                } else {
                    operand1 << operand2
                };
                self.write_to_register(target_index, v)
            },
            Operation::ADD => {
                let v = (((operand1 as u64) + (operand2 as u64)) % 0x1_0000_0000) as u32;
                self.write_to_register(target_index, v)
            },
            Operation::SUB => {
                let v = (((operand1 as u64) + 0x1_0000_0000 - (operand2 as u64))
                    % 0x1_0000_0000) as u32;
                self.write_to_register(target_index, v)
            },
            Operation::JEQ => {
                if operand1 == operand2 {
                    self.jump_to_target(target_index)
                } else {
                    Ok(())
                }
            },
            Operation::JLT => {
                if operand1 < operand2 {
                    self.jump_to_target(target_index)
                } else {
                    Ok(())
                }
            },
            Operation::JGT => {
                if operand1 > operand2 {
                    self.jump_to_target(target_index)
                } else {
                    Ok(())
                }
            },
            _ => Ok(()),
        }
    }

    /// A taken conditional jump: the target register holds the destination.
    fn jump_to_target(&mut self, target_index: usize) -> (r: Result<(), ExecError>)
        requires
            old(self)@.regs.len() == 8,
            target_index < 8,
        ensures
            ({
                let (s1, e) = spec_jump_to_target(old(self)@, target_index as int);
                final(self)@ == s1 && (match e {
                    None => r is Ok,
                    Some(err) => r == Err::<(), ExecError>(err),
                })
            }),
    {
        match self.read_from_register(target_index) {
            Ok(v) => {
                self.program_counter = v as u64;
                Ok(())
            },
            Err(e) => Err(e),
        }
    }

    /// One `Immediate` instruction: the literal goes into register 5.
    pub fn execute_type_i(&mut self, instruction: &Instruction) -> (r: Result<(), ExecError>)
        requires
            wf_state(old(self)@),
            wf_instruction(*instruction),
            instruction.instruction_type == Type::I,
        ensures
            ({
                let (s1, e) = spec_step_i(old(self)@, *instruction);
                final(self)@ == s1 && (match e {
                    None => r is Ok,
                    Some(err) => r == Err::<(), ExecError>(err),
                })
            }),
    {
        let immediate = instruction.immediate.unwrap();
        self.write_to_register(5, immediate)
    }

    /// One `JumpRegister` instruction: call-and-link through register 7.
    pub fn execute_type_j(&mut self, instruction: &Instruction) -> (r: Result<(), ExecError>)
        requires
            wf_state(old(self)@),
            old(self)@.pc <= u32::MAX,
            wf_instruction(*instruction),
            instruction.instruction_type == Type::J,
        ensures
            ({
                let (s1, e) = spec_step_j(old(self)@, *instruction);
                final(self)@ == s1 && (match e {
                    None => r is Ok,
                    Some(err) => r == Err::<(), ExecError>(err),
                })
            }),
    {
        let target = match self.read_from_register(instruction.register1.unwrap()) {
            Ok(v) => v,
            Err(e) => {
                return Err(e);
            },
        };
        let link = self.program_counter as u32;
        match self.write_to_register(7, link) {
            Ok(()) => {},
            Err(e) => {
                return Err(e);
            },
        }
        self.program_counter = target as u64;
        Ok(())
    }

    /// One `MemoryAccess` instruction: `LOAD` reads memory into the target
    /// register, `SET` writes the target register into memory, both at base
    /// register value plus offset. An address past the memory is fatal.
    pub fn execute_type_m(&mut self, instruction: &Instruction) -> (r: Result<(), ExecError>)
        requires
            wf_state(old(self)@),
            wf_instruction(*instruction),
            instruction.instruction_type == Type::M,
        ensures
            ({
                let (s1, e) = spec_step_m(old(self)@, *instruction);
                final(self)@ == s1 && (match e {
                    None => r is Ok,
                    Some(err) => r == Err::<(), ExecError>(err),
                })
            }),
    {
        let target_index = instruction.register1.unwrap();
        let base = match self.read_from_register(instruction.register2.unwrap()) {
            Ok(v) => v,
            Err(e) => {
                return Err(e);
            },
        };
        let offset = instruction.immediate.unwrap();
        let address = (base as u64) + (offset as u64);
        match instruction.operation {
            Operation::LOAD => {
                if address >= 4096 {
                    return Err(ExecError::MemoryOutOfBounds);
                }
                let data = self.ram[address as usize];
                self.write_to_register(target_index, data)
            },
            Operation::SET => {
                let data = match self.read_from_register(target_index) {
                    Ok(v) => v,
                    Err(e) => {
                        return Err(e);
                    },
                };
                if address >= 4096 {
                    return Err(ExecError::MemoryOutOfBounds);
                }
                self.ram.set(address as usize, data);
                Ok(())
            },
            _ => Ok(()),
        }
    }

    /// One `Unary` instruction: `NOT` complements, `MOV` copies.
    pub fn execute_type_n(&mut self, instruction: &Instruction) -> (r: Result<(), ExecError>)
        requires
            wf_state(old(self)@),
            wf_instruction(*instruction),
            instruction.instruction_type == Type::N,
        ensures
            ({
                let (s1, e) = spec_step_n(old(self)@, *instruction);
                final(self)@ == s1 && (match e {
                    None => r is Ok,
                    Some(err) => r == Err::<(), ExecError>(err),
                })
            }),
    {
        let target_index = instruction.register1.unwrap();
        let operand = match self.read_from_register(instruction.register2.unwrap()) {
            Ok(v) => v,
            Err(e) => {
                return Err(e);
            },
        };
        match instruction.operation {
            Operation::NOT => self.write_to_register(target_index, !operand),
            Operation::MOV => self.write_to_register(target_index, operand),
            _ => Ok(()),
        }
    }

    /// Runs the fetch-decode-execute loop until the program counter exceeds
    /// the instruction count (the clean halt), a runtime error aborts the
    /// run, or `max_steps` instructions have executed. The result and the
    /// final state are exactly the iterated [`spec_step`]: on a clean halt
    /// the state after the first halting prefix; on an error the state the
    /// failing instruction left, with the error; on a spent budget the
    /// state after exactly `max_steps` steps, still running.
    pub fn execute(&mut self, max_steps: u64) -> (r: Result<RunOutcome, ExecError>)
        requires
            wf_state(old(self)@),
        ensures
            r == Ok::<RunOutcome, ExecError>(RunOutcome::Halted) ==> exists|n: nat|
                n <= max_steps && #[trigger] ok_prefix(old(self)@, n) && halted(
                    run_to(old(self)@, n),
                ) && final(self)@ == run_to(old(self)@, n),
            r == Ok::<RunOutcome, ExecError>(RunOutcome::StepLimit) ==> ok_prefix(
                old(self)@,
                max_steps as nat,
            ) && !halted(run_to(old(self)@, max_steps as nat)) && final(self)@ == run_to(
                old(self)@,
                max_steps as nat,
            ),
            r is Err ==> exists|n: nat|
                n < max_steps && #[trigger] ok_prefix(old(self)@, n) && !halted(
                    run_to(old(self)@, n),
                ) && spec_step(run_to(old(self)@, n)).1 == Some(r->Err_0) && final(self)@
                == spec_step(run_to(old(self)@, n)).0,
    {
        let ghost s0 = self@;
        let mut steps: u64 = 0;
        while self.program_counter <= (self.instructions.len() as u64)
            invariant
                s0 == old(self)@,
                wf_state(s0),
                wf_state(self@),
                steps <= max_steps,
                self@ == run_to(s0, steps as nat),
                ok_prefix(s0, steps as nat),
            decreases max_steps - steps,
        {
            if steps == max_steps {
                return Ok(RunOutcome::StepLimit);
            }
            let ghost before = self@;
            proof {
                assert(!halted(before));
                lemma_step_wf(before);
            }
            let idx = (self.program_counter - 1) as usize;
            let instruction = self.instructions[idx];
            let res = match instruction.instruction_type {
                Type::A => self.execute_type_a(&instruction),
                Type::I => self.execute_type_i(&instruction),
                Type::J => self.execute_type_j(&instruction),
                Type::M => self.execute_type_m(&instruction),
                Type::N => self.execute_type_n(&instruction),
            };
            match res {
                Err(e) => {
                    proof {
                        assert(spec_step(before).1 == Some(e));
                        assert(self@ == spec_step(before).0);
                    }
                    return Err(e);
                },
                Ok(()) => {},
            }
            self.program_counter = self.program_counter + 1;
            proof {
                assert(self@ == spec_step(before).0);
                assert(run_to(s0, steps as nat + 1) == self@);
                assert forall|m: nat| m < steps as nat + 1 implies !halted(
                    #[trigger] run_to(s0, m),
                ) && spec_step(run_to(s0, m)).1 is None by {
                    if m < steps as nat {
                        assert(!halted(run_to(s0, m)) && spec_step(run_to(s0, m)).1 is None);
                    }
                }
            }
            steps = steps + 1;
        }
        Ok(RunOutcome::Halted)
    }
}

} // verus!
