//! The instruction set: the five instruction shapes, the sixteen operations,
//! the fixed operation-to-shape mapping, the register name table, the typed
//! instruction record with its shape invariant, and the bounded immediate
//! parsers used by the decoder.

use vstd::prelude::*;
use crate::text::{dec_val, parse_u32, parses_as_u32, str_eq};

verus! {

/// The operand-layout category of an instruction.
#[derive(Clone, Copy, Debug, PartialEq, Eq, Structural)]
pub enum Type {
    A,
    I,
    J,
    M,
    N,
}

/// The sixteen operation names of the instruction set.
#[derive(Clone, Copy, Debug, PartialEq, Eq, Structural)]
pub enum Operation {
    AND,
    NOT,
    OR,
    XOR,
    SHR,
    SHL,
    ADD,
    SUB,
    LOAD,
    SET,
    LDIM,
    JEQ,
    JLT,
    JGT,
    JAR,
    MOV,
}

/// Why a program text fails to assemble.
#[derive(Clone, Copy, Debug, PartialEq, Eq)]
pub enum AsmError {
    /// A constant declaration line does not have exactly two words.
    ConstantDeclarationArity,
    /// A constant's value is neither a quoted character nor a decimal number.
    ConstantValueUnparsable,
    /// The same constant name is declared twice.
    DuplicateConstant,
    /// A label declaration is not a single `(NAME)` word.
    MalformedLabel,
    /// The same label name is declared twice.
    DuplicateLabel,
    /// The first word of an instruction line is not an operation name.
    UnknownOperation,
    /// An instruction line does not have the operand count of its shape.
    OperandCount,
    /// An operand that must name a register does not.
    UnknownRegister,
    /// An immediate operand is not a decimal number.
    ImmediateUnparsable,
    /// An immediate operand exceeds the bit width of its shape.
    ImmediateOutOfRange,
}

/// A decoded instruction. Which optional fields are populated is fully
/// determined by the shape; see [`wf_instruction`].
#[derive(Clone, Copy, Debug, PartialEq, Eq)]
pub struct Instruction {
    pub instruction_type: Type,
    pub operation: Operation,
    pub register1: Option<usize>,
    pub register2: Option<usize>,
    pub register3: Option<usize>,
    pub immediate: Option<u32>,
}

/// The fixed, total mapping from operation to shape.
pub open spec fn op_shape(op: Operation) -> Type {
    match op {
        Operation::AND => Type::A,
        Operation::NOT => Type::N,
        Operation::OR => Type::A,
        Operation::XOR => Type::A,
        Operation::SHR => Type::A,
        Operation::SHL => Type::A,
        Operation::ADD => Type::A,
        Operation::SUB => Type::A,
        Operation::LOAD => Type::M,
        Operation::SET => Type::M,
        Operation::LDIM => Type::I,
        Operation::JEQ => Type::A,
        Operation::JLT => Type::A,
        Operation::JGT => Type::A,
        Operation::JAR => Type::J,
        Operation::MOV => Type::N,
    }
}

/// The populated-field set of an instruction matches its shape exactly, every
/// register index is in range, and every immediate is within its bit width.
pub open spec fn wf_instruction(i: Instruction) -> bool {
    op_shape(i.operation) == i.instruction_type && match i.instruction_type {
        Type::A => {
            &&& i.register1 is Some && i.register1.unwrap() < 8
            &&& i.register2 is Some && i.register2.unwrap() < 8
            &&& i.register3 is Some && i.register3.unwrap() < 8
            &&& i.immediate is None
        },
        Type::I => {
            &&& i.register1 is None
            &&& i.register2 is None
            &&& i.register3 is None
            &&& i.immediate is Some && i.immediate.unwrap() <= 4095
        },
        Type::J => {
            &&& i.register1 is Some && i.register1.unwrap() < 8
            &&& i.register2 is None
            &&& i.register3 is None
            &&& i.immediate is None
        },
        Type::M => {
            &&& i.register1 is Some && i.register1.unwrap() < 8
            &&& i.register2 is Some && i.register2.unwrap() < 8
            &&& i.register3 is None
            &&& i.immediate is Some && i.immediate.unwrap() <= 63
        },
        Type::N => {
            &&& i.register1 is Some && i.register1.unwrap() < 8
            &&& i.register2 is Some && i.register2.unwrap() < 8
            &&& i.register3 is None
            &&& i.immediate is None
        },
    }
}

/// The fixed register name table: `R0`..`R4`, `IM`, `IO`, `RA`.
pub open spec fn spec_register_of(w: Seq<char>) -> Option<usize> {
    if w == seq!['R', '0'] {
        Some(0usize)
    } else if w == seq!['R', '1'] {
        Some(1usize)
    } else if w == seq!['R', '2'] {
        Some(2usize)
    } else if w == seq!['R', '3'] {
        Some(3usize)
    } else if w == seq!['R', '4'] {
        Some(4usize)
    } else if w == seq!['I', 'M'] {
        Some(5usize)
    } else if w == seq!['I', 'O'] {
        Some(6usize)
    } else if w == seq!['R', 'A'] {
        Some(7usize)
    } else {
        None
    }
}

/// The fixed operation name table.
pub open spec fn spec_operation_of(w: Seq<char>) -> Option<Operation> {
    if w == seq!['A', 'N', 'D'] {
        Some(Operation::AND)
    } else if w == seq!['N', 'O', 'T'] {
        Some(Operation::NOT)
    } else if w == seq!['O', 'R'] {
        Some(Operation::OR)
    } else if w == seq!['X', 'O', 'R'] {
        Some(Operation::XOR)
    } else if w == seq!['S', 'H', 'R'] {
        Some(Operation::SHR)
    } else if w == seq!['S', 'H', 'L'] {
        Some(Operation::SHL)
    } else if w == seq!['A', 'D', 'D'] {
        Some(Operation::ADD)
    } else if w == seq!['S', 'U', 'B'] {
        Some(Operation::SUB)
    } else if w == seq!['L', 'O', 'A', 'D'] {
        Some(Operation::LOAD)
    } else if w == seq!['S', 'E', 'T'] {
        Some(Operation::SET)
    } else if w == seq!['L', 'D', 'I', 'M'] {
        Some(Operation::LDIM)
    } else if w == seq!['J', 'E', 'Q'] {
        Some(Operation::JEQ)
    } else if w == seq!['J', 'L', 'T'] {
        Some(Operation::JLT)
    } else if w == seq!['J', 'G', 'T'] {
        Some(Operation::JGT)
    } else if w == seq!['J', 'A', 'R'] {
        Some(Operation::JAR)
    } else if w == seq!['M', 'O', 'V'] {
        Some(Operation::MOV)
    } else {
        None
    }
}

/// A twelve-bit immediate: a decimal numeral whose value is at most 4095.
pub open spec fn spec_immediate12(w: Seq<char>) -> Result<u32, AsmError> {
    if !parses_as_u32(w) {
        Err(AsmError::ImmediateUnparsable)
    } else if dec_val(w) > 4095 {
        Err(AsmError::ImmediateOutOfRange)
    } else {
        Ok(dec_val(w) as u32)
    }
}

/// A six-bit immediate: a decimal numeral whose value is at most 63.
pub open spec fn spec_immediate6(w: Seq<char>) -> Result<u32, AsmError> {
    if !parses_as_u32(w) {
        Err(AsmError::ImmediateUnparsable)
    } else if dec_val(w) > 63 {
        Err(AsmError::ImmediateOutOfRange)
    } else {
        Ok(dec_val(w) as u32)
    }
}

/// Looks a word up in the fixed register name table.
pub fn str_to_register(word: &str) -> (r: Option<usize>)
    ensures
        r == spec_register_of(word@),
{
    proof {
        reveal_strlit("R0");
        reveal_strlit("R1");
        reveal_strlit("R2");
        reveal_strlit("R3");
        reveal_strlit("R4");
        reveal_strlit("IM");
        reveal_strlit("IO");
        reveal_strlit("RA");
        assert("R0"@ =~= seq!['R', '0']);
        assert("R1"@ =~= seq!['R', '1']);
        assert("R2"@ =~= seq!['R', '2']);
        assert("R3"@ =~= seq!['R', '3']);
        assert("R4"@ =~= seq!['R', '4']);
        assert("IM"@ =~= seq!['I', 'M']);
        assert("IO"@ =~= seq!['I', 'O']);
        assert("RA"@ =~= seq!['R', 'A']);
    }
    if str_eq(word, "R0") {
        Some(0)
    } else if str_eq(word, "R1") {
        Some(1)
    } else if str_eq(word, "R2") {
        Some(2)
    } else if str_eq(word, "R3") {
        Some(3)
    } else if str_eq(word, "R4") {
        Some(4)
    } else if str_eq(word, "IM") {
        Some(5)
    } else if str_eq(word, "IO") {
        Some(6)
    } else if str_eq(word, "RA") {
        Some(7)
    } else {
        None
    }
}

/// Looks a word up in the fixed operation name table.
pub fn str_to_operation(word: &str) -> (r: Option<Operation>)
    ensures
        r == spec_operation_of(word@),
{
    proof {
        reveal_strlit("AND");
        reveal_strlit("NOT");
        reveal_strlit("OR");
        reveal_strlit("XOR");
        reveal_strlit("SHR");
        reveal_strlit("SHL");
        reveal_strlit("ADD");
        reveal_strlit("SUB");
        reveal_strlit("LOAD");
        reveal_strlit("SET");
        reveal_strlit("LDIM");
        reveal_strlit("JEQ");
        reveal_strlit("JLT");
        reveal_strlit("JGT");
        reveal_strlit("JAR");
        reveal_strlit("MOV");
        assert("AND"@ =~= seq!['A', 'N', 'D']);
        assert("NOT"@ =~= seq!['N', 'O', 'T']);
        assert("OR"@ =~= seq!['O', 'R']);
        assert("XOR"@ =~= seq!['X', 'O', 'R']);
        assert("SHR"@ =~= seq!['S', 'H', 'R']);
        assert("SHL"@ =~= seq!['S', 'H', 'L']);
        assert("ADD"@ =~= seq!['A', 'D', 'D']);
        assert("SUB"@ =~= seq!['S', 'U', 'B']);
        assert("LOAD"@ =~= seq!['L', 'O', 'A', 'D']);
        assert("SET"@ =~= seq!['S', 'E', 'T']);
        assert("LDIM"@ =~= seq!['L', 'D', 'I', 'M']);
        assert("JEQ"@ =~= seq!['J', 'E', 'Q']);
        assert("JLT"@ =~= seq!['J', 'L', 'T']);
        assert("JGT"@ =~= seq!['J', 'G', 'T']);
        assert("JAR"@ =~= seq!['J', 'A', 'R']);
        assert("MOV"@ =~= seq!['M', 'O', 'V']);
    }
    if str_eq(word, "AND") {
        Some(Operation::AND)
    } else if str_eq(word, "NOT") {
        Some(Operation::NOT)
    } else if str_eq(word, "OR") {
        Some(Operation::OR)
    } else if str_eq(word, "XOR") {
        Some(Operation::XOR)
    } else if str_eq(word, "SHR") {
        Some(Operation::SHR)
    } else if str_eq(word, "SHL") {
        Some(Operation::SHL)
    } else if str_eq(word, "ADD") {
        Some(Operation::ADD)
    } else if str_eq(word, "SUB") {
        Some(Operation::SUB)
    } else if str_eq(word, "LOAD") {
        Some(Operation::LOAD)
    } else if str_eq(word, "SET") {
        Some(Operation::SET)
    } else if str_eq(word, "LDIM") {
        Some(Operation::LDIM)
    } else if str_eq(word, "JEQ") {
        Some(Operation::JEQ)
    } else if str_eq(word, "JLT") {
        Some(Operation::JLT)
    } else if str_eq(word, "JGT") {
        Some(Operation::JGT)
    } else if str_eq(word, "JAR") {
        Some(Operation::JAR)
    } else if str_eq(word, "MOV") {
        Some(Operation::MOV)
    } else {
        None
    }
}

/// Maps an operation to its shape.
pub fn operation_to_type(operation: &Operation) -> (r: Type)
    ensures
        r == op_shape(*operation),
{
    match operation {
        Operation::AND => Type::A,
        Operation::NOT => Type::N,
        Operation::OR => Type::A,
        Operation::XOR => Type::A,
        Operation::SHR => Type::A,
        Operation::SHL => Type::A,
        Operation::ADD => Type::A,
        Operation::SUB => Type::A,
        Operation::LOAD => Type::M,
        Operation::SET => Type::M,
        Operation::LDIM => Type::I,
        Operation::JEQ => Type::A,
        Operation::JLT => Type::A,
        Operation::JGT => Type::A,
        Operation::JAR => Type::J,
        Operation::MOV => Type::N,
    }
}

/// Parses a twelve-bit immediate operand for the `Immediate` shape.
pub fn str_to_immediate12(word: &str) -> (r: Result<u32, AsmError>)
    ensures
        r == spec_immediate12(word@),
{
    match parse_u32(word) {
        None => Err(AsmError::ImmediateUnparsable),
        Some(v) => if v > 4095 {
            Err(AsmError::ImmediateOutOfRange)
        } else {
            Ok(v)
        },
    }
}

/// Parses a six-bit immediate operand for the `MemoryAccess` shape.
pub fn str_to_immediate6(word: &str) -> (r: Result<u32, AsmError>)
    ensures
        r == spec_immediate6(word@),
{
    match parse_u32(word) {
        None => Err(AsmError::ImmediateUnparsable),
        Some(v) => if v > 63 {
            Err(AsmError::ImmediateOutOfRange)
        } else {
            Ok(v)
        },
    }
}

} // verus!
