use asmvm::assembler::{
    assemble, lines_to_instructions, process_constants, process_labels, remove_comments,
    symbol_to_immediate,
};
use asmvm::isa::{AsmError, Operation, Type};
use asmvm::symtab::SymbolTable;

fn lines_of(src: &[&[&str]]) -> Vec<Vec<String>> {
    src.iter().map(|l| l.iter().map(|w| w.to_string()).collect()).collect()
}

fn words_of(lines: &Vec<Vec<String>>) -> Vec<Vec<&str>> {
    lines.iter().map(|l| l.iter().map(|w| w.as_str()).collect()).collect()
}

#[test]
fn comments_are_stripped() {
    let mut lines = lines_of(&[
        &["MOV", "R0", "R1", "//", "copy"],
        &["//", "a", "whole", "comment", "line"],
        &["ADD", "R0", "R0", "R1"],
        &["SUB", "//inline", "R1"],
    ]);
    remove_comments(&mut lines);
    assert_eq!(
        words_of(&lines),
        vec![vec!["MOV", "R0", "R1"], vec!["ADD", "R0", "R0", "R1"], vec!["SUB"]]
    );
}

#[test]
fn comment_marker_must_start_word() {
    let mut lines = lines_of(&[&["MOV", "R0//x", "R1"]]);
    remove_comments(&mut lines);
    assert_eq!(words_of(&lines), vec![vec!["MOV", "R0//x", "R1"]]);
}

#[test]
fn constants_resolve_and_declarations_disappear() {
    let mut lines = lines_of(&[&["$FIVE", "5"], &["LDIM", "FIVE"]]);
    assert_eq!(process_constants(&mut lines), Ok(()));
    assert_eq!(words_of(&lines), vec![vec!["LDIM", "5"]]);
}

#[test]
fn constant_char_literal_resolves_to_code_point() {
    let mut lines = lines_of(&[&["$LETTER", "'A'"], &["LDIM", "LETTER"]]);
    assert_eq!(process_constants(&mut lines), Ok(()));
    assert_eq!(words_of(&lines), vec![vec!["LDIM", "65"]]);
}

#[test]
fn duplicate_constant_aborts() {
    let mut lines = lines_of(&[&["$X", "1"], &["$X", "2"], &["LDIM", "X"]]);
    assert_eq!(process_constants(&mut lines), Err(AsmError::DuplicateConstant));
    // Nothing was resolved or deleted.
    assert_eq!(words_of(&lines), vec![vec!["$X", "1"], vec!["$X", "2"], vec!["LDIM", "X"]]);
}

#[test]
fn constant_declaration_arity_is_checked() {
    let mut lines = lines_of(&[&["$X", "1", "2"]]);
    assert_eq!(process_constants(&mut lines), Err(AsmError::ConstantDeclarationArity));
    let mut short = lines_of(&[&["$X"]]);
    assert_eq!(process_constants(&mut short), Err(AsmError::ConstantDeclarationArity));
}

#[test]
fn constant_value_must_parse() {
    let mut lines = lines_of(&[&["$X", "five"]]);
    assert_eq!(process_constants(&mut lines), Err(AsmError::ConstantValueUnparsable));
    let mut long_quote = lines_of(&[&["$X", "'ab'"]]);
    assert_eq!(process_constants(&mut long_quote), Err(AsmError::ConstantValueUnparsable));
}

#[test]
fn labels_resolve_to_surviving_positions() {
    // Declarations interleaved among three instruction lines: START is
    // position 0, MID position 1, END position 3 (one past the last).
    let mut lines = lines_of(&[
        &["(START)"],
        &["MOV", "R0", "R1"],
        &["(MID)"],
        &["ADD", "R0", "R0", "R1"],
        &["LDIM", "START"],
        &["(END)"],
    ]);
    assert_eq!(process_labels(&mut lines), Ok(()));
    assert_eq!(
        words_of(&lines),
        vec![vec!["MOV", "R0", "R1"], vec!["ADD", "R0", "R0", "R1"], vec!["LDIM", "0"]]
    );
}

#[test]
fn label_references_substitute_everywhere() {
    let mut lines = lines_of(&[
        &["MOV", "R0", "R1"],
        &["(LOOP)"],
        &["JEQ", "LOOP", "R1", "R2"],
    ]);
    assert_eq!(process_labels(&mut lines), Ok(()));
    assert_eq!(
        words_of(&lines),
        vec![vec!["MOV", "R0", "R1"], vec!["JEQ", "1", "R1", "R2"]]
    );
}

#[test]
fn malformed_label_aborts() {
    let mut no_close = lines_of(&[&["(LOOP"]]);
    assert_eq!(process_labels(&mut no_close), Err(AsmError::MalformedLabel));
    let mut two_words = lines_of(&[&["(LOOP)", "X"]]);
    assert_eq!(process_labels(&mut two_words), Err(AsmError::MalformedLabel));
}

#[test]
fn duplicate_label_aborts() {
    let mut lines = lines_of(&[&["(A)"], &["MOV", "R0", "R1"], &["(A)"]]);
    assert_eq!(process_labels(&mut lines), Err(AsmError::DuplicateLabel));
}

#[test]
fn symbol_table_substitutes_whole_words() {
    let mut table = SymbolTable::new();
    table.insert("LIMIT".to_string(), 10);
    assert!(table.contains("LIMIT"));
    assert!(!table.contains("LIMITS"));
    assert_eq!(table.get("LIMIT"), Some(10));
    assert_eq!(table.get("X"), None);
    let mut lines = lines_of(&[&["LDIM", "LIMIT"], &["MOV", "LIMITS", "LIMIT"]]);
    symbol_to_immediate(&mut lines, &table);
    assert_eq!(
        words_of(&lines),
        vec![vec!["LDIM", "10"], vec!["MOV", "LIMITS", "10"]]
    );
}

#[test]
fn decoding_fills_shape_fields_exactly() {
    let lines = lines_of(&[
        &["ADD", "R0", "R1", "R2"],
        &["LDIM", "4095"],
        &["JAR", "R3"],
        &["LOAD", "R4", "R0", "63"],
        &["NOT", "R1", "R2"],
    ]);
    let prog = lines_to_instructions(&lines).unwrap();
    assert_eq!(prog.len(), 5);

    assert_eq!(prog[0].instruction_type, Type::A);
    assert_eq!(prog[0].operation, Operation::ADD);
    assert_eq!(prog[0].register1, Some(0));
    assert_eq!(prog[0].register2, Some(1));
    assert_eq!(prog[0].register3, Some(2));
    assert_eq!(prog[0].immediate, None);

    assert_eq!(prog[1].instruction_type, Type::I);
    assert_eq!(prog[1].immediate, Some(4095));
    assert_eq!(prog[1].register1, None);

    assert_eq!(prog[2].instruction_type, Type::J);
    assert_eq!(prog[2].register1, Some(3));

    assert_eq!(prog[3].instruction_type, Type::M);
    assert_eq!(prog[3].register1, Some(4));
    assert_eq!(prog[3].register2, Some(0));
    assert_eq!(prog[3].immediate, Some(63));

    assert_eq!(prog[4].instruction_type, Type::N);
    assert_eq!(prog[4].register1, Some(1));
    assert_eq!(prog[4].register2, Some(2));
}

#[test]
fn decoding_rejects_bad_lines() {
    assert_eq!(
        lines_to_instructions(&lines_of(&[&["HCF", "R0"]])),
        Err(AsmError::UnknownOperation)
    );
    assert_eq!(
        lines_to_instructions(&lines_of(&[&["ADD", "R0", "R1"]])),
        Err(AsmError::OperandCount)
    );
    assert_eq!(
        lines_to_instructions(&lines_of(&[&["MOV", "R0", "R1", "R2"]])),
        Err(AsmError::OperandCount)
    );
    assert_eq!(
        lines_to_instructions(&lines_of(&[&["MOV", "R0", "R9"]])),
        Err(AsmError::UnknownRegister)
    );
    assert_eq!(
        lines_to_instructions(&lines_of(&[&["LDIM", "4096"]])),
        Err(AsmError::ImmediateOutOfRange)
    );
    assert_eq!(
        lines_to_instructions(&lines_of(&[&["SET", "R0", "R1", "64"]])),
        Err(AsmError::ImmediateOutOfRange)
    );
}

#[test]
fn unresolved_symbol_surfaces_as_format_error() {
    // A reference to an undeclared name falls through resolution and fails
    // decoding as an unknown register.
    let mut lines = lines_of(&[&["MOV", "R0", "UNDECLARED"]]);
    assert_eq!(process_constants(&mut lines), Ok(()));
    assert_eq!(process_labels(&mut lines), Ok(()));
    assert_eq!(lines_to_instructions(&lines), Err(AsmError::UnknownRegister));
}

#[test]
fn assemble_runs_all_passes_in_order() {
    let mut lines = lines_of(&[
        &["//", "a", "demo"],
        &["$N", "2"],
        &["(TOP)"],
        &["LDIM", "N"],
        &["MOV", "R0", "IM", "//", "probe"],
        &["LDIM", "TOP"],
    ]);
    let prog = assemble(&mut lines).unwrap();
    assert_eq!(prog.len(), 3);
    assert_eq!(prog[0].immediate, Some(2));
    assert_eq!(prog[2].immediate, Some(0));
}

#[test]
fn hand_substitution_matches_constant_resolution() {
    let mut declared = lines_of(&[&["$X", "5"], &["LDIM", "X"], &["MOV", "R0", "IM"]]);
    let mut by_hand = lines_of(&[&["LDIM", "5"], &["MOV", "R0", "IM"]]);
    let a = assemble(&mut declared).unwrap();
    let b = assemble(&mut by_hand).unwrap();
    assert_eq!(a, b);
}
