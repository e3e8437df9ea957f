use asmvm::isa::{
    str_to_immediate12, str_to_immediate6, str_to_operation, str_to_register, operation_to_type,
    AsmError, Operation, Type,
};
use asmvm::text::{parse_u32, str_eq, u32_to_dec};

#[test]
fn parse_simple_numbers() {
    assert_eq!(parse_u32("0"), Some(0));
    assert_eq!(parse_u32("123"), Some(123));
    assert_eq!(parse_u32("4095"), Some(4095));
    assert_eq!(parse_u32("4294967295"), Some(u32::MAX));
}

#[test]
fn parse_rejects_bad_numerals() {
    assert_eq!(parse_u32(""), None);
    assert_eq!(parse_u32("12a"), None);
    assert_eq!(parse_u32("-1"), None);
    assert_eq!(parse_u32("4294967296"), None);
    assert_eq!(parse_u32("99999999999999999999"), None);
}

#[test]
fn print_numbers() {
    assert_eq!(u32_to_dec(0).as_str(), "0");
    assert_eq!(u32_to_dec(7).as_str(), "7");
    assert_eq!(u32_to_dec(72).as_str(), "72");
    assert_eq!(u32_to_dec(4095).as_str(), "4095");
    assert_eq!(u32_to_dec(u32::MAX).as_str(), "4294967295");
}

#[test]
fn print_parse_round_trip() {
    for v in [0u32, 1, 9, 10, 63, 64, 4095, 4096, 123456789, u32::MAX] {
        assert_eq!(parse_u32(u32_to_dec(v).as_str()), Some(v));
    }
}

#[test]
fn string_equality() {
    assert!(str_eq("LDIM", "LDIM"));
    assert!(!str_eq("LDIM", "LDI"));
    assert!(!str_eq("LDIM", "LDIX"));
    assert!(str_eq("", ""));
}

#[test]
fn register_name_table() {
    assert_eq!(str_to_register("R0"), Some(0));
    assert_eq!(str_to_register("R1"), Some(1));
    assert_eq!(str_to_register("R2"), Some(2));
    assert_eq!(str_to_register("R3"), Some(3));
    assert_eq!(str_to_register("R4"), Some(4));
    assert_eq!(str_to_register("IM"), Some(5));
    assert_eq!(str_to_register("IO"), Some(6));
    assert_eq!(str_to_register("RA"), Some(7));
    assert_eq!(str_to_register("R5"), None);
    assert_eq!(str_to_register("r0"), None);
}

#[test]
fn operation_name_table() {
    assert_eq!(str_to_operation("AND"), Some(Operation::AND));
    assert_eq!(str_to_operation("LDIM"), Some(Operation::LDIM));
    assert_eq!(str_to_operation("JAR"), Some(Operation::JAR));
    assert_eq!(str_to_operation("MOV"), Some(Operation::MOV));
    assert_eq!(str_to_operation("NOP"), None);
    assert_eq!(str_to_operation("ldim"), None);
}

#[test]
fn operation_shapes() {
    assert_eq!(operation_to_type(&Operation::AND), Type::A);
    assert_eq!(operation_to_type(&Operation::JEQ), Type::A);
    assert_eq!(operation_to_type(&Operation::LDIM), Type::I);
    assert_eq!(operation_to_type(&Operation::JAR), Type::J);
    assert_eq!(operation_to_type(&Operation::LOAD), Type::M);
    assert_eq!(operation_to_type(&Operation::SET), Type::M);
    assert_eq!(operation_to_type(&Operation::NOT), Type::N);
    assert_eq!(operation_to_type(&Operation::MOV), Type::N);
}

#[test]
fn immediate12_bounds() {
    assert_eq!(str_to_immediate12("0"), Ok(0));
    assert_eq!(str_to_immediate12("4095"), Ok(4095));
    assert_eq!(str_to_immediate12("4096"), Err(AsmError::ImmediateOutOfRange));
    assert_eq!(str_to_immediate12("abc"), Err(AsmError::ImmediateUnparsable));
}

#[test]
fn immediate6_bounds() {
    assert_eq!(str_to_immediate6("0"), Ok(0));
    assert_eq!(str_to_immediate6("63"), Ok(63));
    assert_eq!(str_to_immediate6("64"), Err(AsmError::ImmediateOutOfRange));
    assert_eq!(str_to_immediate6(""), Err(AsmError::ImmediateUnparsable));
}
