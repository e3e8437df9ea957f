//! Laws of the engine and of the assembler, stated over the same spec
//! functions the executable contracts use and proved once for all inputs.

use vstd::prelude::*;
use crate::assembler::{
    count_nonlabel, is_comment_word, is_const_decl, is_label_decl, label_name,
    lemma_const_table_skip, lemma_drop_const_decls_skip, lemma_drop_label_decls_skip,
    lemma_label_table_skip, lemma_strip_comments_noop, lemma_subst_lines_empty, spec_assemble,
    spec_const_table, spec_const_value, spec_decode, spec_decode_line, spec_drop_const_decls,
    spec_drop_label_decls, spec_label_table, spec_process_constants, spec_process_labels,
    spec_subst_line, spec_subst_lines, subst_word, wf_label_decl,
};
use crate::isa::{AsmError, Instruction, Operation, Type, wf_instruction};
use crate::machine::{
    State, halted, ok_prefix, run_to, spec_init, spec_step, spec_step_m, spec_step_n, wf_state,
};
use crate::symtab::{
    lemma_tbl_lookup_push, lemma_tbl_lookup_push_new, tbl_contains, tbl_lookup,
};
use crate::text::{dec_str, dec_val, is_dec_digit, lemma_dec_str_val, parses_as_u32};

verus! {

/// Bitwise complement is its own inverse on 32-bit words.
pub proof fn lemma_not_involutive(x: u32)
    ensures
        !(!x) == x,
{
    assert(!(!x) == x) by (bit_vector);
}

/// Applying `NOT` twice returns the original value: a `NOT t r` step
/// followed by a `NOT t t` step leaves the target register holding the
/// source register's original value. Registers are ordinary storage here,
/// so neither names the I/O port.
pub proof fn lemma_not_twice(s: State, t: usize, r: usize)
    requires
        wf_state(s),
        t < 8,
        r < 8,
        t != 6,
        r != 6,
    ensures
        ({
            let first = Instruction {
                instruction_type: Type::N,
                operation: Operation::NOT,
                register1: Some(t),
                register2: Some(r),
                register3: None,
                immediate: None,
            };
            let second = Instruction {
                instruction_type: Type::N,
                operation: Operation::NOT,
                register1: Some(t),
                register2: Some(t),
                register3: None,
                immediate: None,
            };
            let once = spec_step_n(s, first);
            let twice = spec_step_n(once.0, second);
            &&& once.1 is None
            &&& twice.1 is None
            &&& twice.0.regs[t as int] == s.regs[r as int]
        }),
{
    lemma_not_involutive(s.regs[r as int]);
}

/// Jump addressing is off by one: a `JumpRegister` step whose register
/// holds address `k` saves the counter into register 7 and leaves the
/// counter at `k + 1`, so the next fetched instruction is the one at
/// 1-based position `k + 1`.
pub proof fn lemma_jar_off_by_one(s: State)
    requires
        wf_state(s),
        1 <= s.pc <= s.instructions.len(),
        s.instructions[s.pc - 1].instruction_type == Type::J,
        s.instructions[s.pc - 1].register1.unwrap() != 6,
    ensures
        ({
            let k = s.regs[s.instructions[s.pc - 1].register1.unwrap() as int];
            let stepped = spec_step(s);
            &&& stepped.1 is None
            &&& stepped.0.pc == k + 1
            &&& stepped.0.regs[7] == s.pc as u32
        }),
{
    assert(wf_instruction(s.instructions[s.pc - 1]));
}

/// The same off-by-one law for a taken conditional jump: a `JEQ`, `JLT` or
/// `JGT` step whose comparison holds and whose target register holds
/// address `k` leaves the counter at `k + 1`. No register here names the
/// I/O port.
pub proof fn lemma_cond_jump_off_by_one(s: State)
    requires
        wf_state(s),
        1 <= s.pc <= s.instructions.len(),
        ({
            let i = s.instructions[s.pc - 1];
            &&& i.instruction_type == Type::A
            &&& (i.operation == Operation::JEQ || i.operation == Operation::JLT
                || i.operation == Operation::JGT)
            &&& i.register1.unwrap() != 6
            &&& i.register2.unwrap() != 6
            &&& i.register3.unwrap() != 6
            &&& ({
                let a = s.regs[i.register2.unwrap() as int];
                let b = s.regs[i.register3.unwrap() as int];
                match i.operation {
                    Operation::JEQ => a == b,
                    Operation::JLT => a < b,
                    _ => a > b,
                }
            })
        }),
    ensures
        ({
            let k = s.regs[s.instructions[s.pc - 1].register1.unwrap() as int];
            let stepped = spec_step(s);
            &&& stepped.1 is None
            &&& stepped.0.pc == k + 1
        }),
{
    assert(wf_instruction(s.instructions[s.pc - 1]));
}

/// A `MemoryAccess` with base register 0 holding zero and offset `v`
/// touches memory cell `v` exactly: `SET` writes it and `LOAD` reads it.
pub proof fn lemma_memory_offset_window(s: State, t: usize, v: u32)
    requires
        wf_state(s),
        t < 8,
        t != 6,
        v <= 63,
        s.regs[0] == 0,
    ensures
        ({
            let set = Instruction {
                instruction_type: Type::M,
                operation: Operation::SET,
                register1: Some(t),
                register2: Some(0usize),
                register3: None,
                immediate: Some(v),
            };
            let stepped = spec_step_m(s, set);
            &&& stepped.1 is None
            &&& stepped.0.ram == s.ram.update(v as int, s.regs[t as int])
        }),
        ({
            let load = Instruction {
                instruction_type: Type::M,
                operation: Operation::LOAD,
                register1: Some(t),
                register2: Some(0usize),
                register3: None,
                immediate: Some(v),
            };
            let stepped = spec_step_m(s, load);
            &&& stepped.1 is None
            &&& stepped.0.regs == s.regs.update(t as int, s.ram[v as int])
        }),
{
}

/// Round trip through memory: writing a register to cell `base + offset`
/// via `SET` and then reading the same cell via `LOAD` (same base register
/// and offset) returns the written value unchanged. No register here names
/// the I/O port, and the address is within memory.
pub proof fn lemma_set_load_roundtrip(s: State, t: usize, t2: usize, b: usize, o: u32)
    requires
        wf_state(s),
        t < 8 && t != 6,
        t2 < 8 && t2 != 6,
        b < 8 && b != 6,
        o <= 63,
        s.regs[b as int] + o < 4096,
    ensures
        ({
            let set = Instruction {
                instruction_type: Type::M,
                operation: Operation::SET,
                register1: Some(t),
                register2: Some(b),
                register3: None,
                immediate: Some(o),
            };
            let load = Instruction {
                instruction_type: Type::M,
                operation: Operation::LOAD,
                register1: Some(t2),
                register2: Some(b),
                register3: None,
                immediate: Some(o),
            };
            let written = spec_step_m(s, set);
            let read = spec_step_m(written.0, load);
            &&& written.1 is None
            &&& read.1 is None
            &&& read.0.regs[t2 as int] == s.regs[t as int]
        }),
{
}

/// Label resolution is position-correct under deletion: whenever the label
/// scan succeeds, every declared label resolves to the count of
/// non-declaration lines before it — the 0-based index its position would
/// have among the surviving instruction lines — whatever the declaration
/// order and interleaving.
pub proof fn lemma_label_addresses(lines: Seq<Seq<Seq<char>>>)
    requires
        spec_label_table(lines) is Ok,
    ensures
        forall|i: int|
            0 <= i < lines.len() && is_label_decl(#[trigger] lines[i]) ==> wf_label_decl(lines[i])
                && tbl_contains(spec_label_table(lines)->Ok_0, label_name(lines[i]))
                && tbl_lookup(spec_label_table(lines)->Ok_0, label_name(lines[i]))
                == count_nonlabel(lines.take(i)) as u32,
    decreases lines.len(),
{
    if lines.len() > 0 {
        let prefix = lines.drop_last();
        let t = spec_label_table(lines)->Ok_0;
        let t_prev = spec_label_table(prefix)->Ok_0;
        lemma_label_addresses(prefix);
        assert(forall|i: int| 0 <= i < prefix.len() ==> lines.take(i) =~= prefix.take(i));
        let last = lines.last();
        let n = lines.len() - 1;
        if is_label_decl(last) {
            let nm = label_name(last);
            let addr = count_nonlabel(prefix) as u32;
            assert(t == t_prev.push((nm, addr)));
            lemma_tbl_lookup_push_new(t_prev, nm, addr);
            assert(lines.take(n) =~= prefix);
            assert forall|i: int|
                0 <= i < lines.len() && is_label_decl(#[trigger] lines[i]) implies wf_label_decl(
                lines[i],
            ) && tbl_contains(t, label_name(lines[i])) && tbl_lookup(t, label_name(lines[i]))
                == count_nonlabel(lines.take(i)) as u32 by {
                if i < n {
                    assert(prefix[i] == lines[i]);
                    lemma_tbl_lookup_push(t_prev, (nm, addr), label_name(lines[i]));
                }
            }
        } else {
            assert(t == t_prev);
            assert forall|i: int|
                0 <= i < lines.len() && is_label_decl(#[trigger] lines[i]) implies wf_label_decl(
                lines[i],
            ) && tbl_contains(t, label_name(lines[i])) && tbl_lookup(t, label_name(lines[i]))
                == count_nonlabel(lines.take(i)) as u32 by {
                assert(i < n);
                assert(prefix[i] == lines[i]);
            }
        }
    }
}

/// A program that declares no constants passes the constant resolver
/// unchanged.
pub proof fn lemma_constants_noop(lines: Seq<Seq<Seq<char>>>)
    requires
        forall|i: int| 0 <= i < lines.len() ==> !is_const_decl(#[trigger] lines[i]),
    ensures
        spec_process_constants(lines) == Ok::<Seq<Seq<Seq<char>>>, AsmError>(lines),
{
    assert(spec_const_table(Seq::<Seq<Seq<char>>>::empty()) == Ok::<
        Seq<(Seq<char>, u32)>,
        AsmError,
    >(Seq::empty()));
    assert(spec_drop_const_decls(Seq::<Seq<Seq<char>>>::empty())
        == Seq::<Seq<Seq<char>>>::empty());
    lemma_const_table_skip(lines, 0);
    assert(lines.take(0) =~= Seq::<Seq<Seq<char>>>::empty());
    lemma_drop_const_decls_skip(lines, 0);
    assert(lines.skip(0) =~= lines);
    assert(spec_drop_const_decls(lines) =~= lines);
    assert(spec_subst_lines(Seq::empty(), lines) =~= lines) by {
        assert forall|i: int|
            0 <= i < lines.len() implies #[trigger] spec_subst_lines(Seq::empty(), lines)[i]
            == lines[i] by {
            assert(spec_subst_line(Seq::empty(), lines[i]) =~= lines[i]) by {
                assert(forall|j: int|
                    0 <= j < lines[i].len() ==> subst_word(
                        Seq::empty(),
                        #[trigger] lines[i][j],
                    ) == lines[i][j]);
            }
        }
    }
}

/// Constant substitution is transparent: prefixing a program that declares
/// no constants with a declaration of `name` behaves exactly like the same
/// program with every reference substituted by hand — the resolver maps
/// both to the same line sequence, so everything downstream is identical.
pub proof fn lemma_constant_transparency(
    lines: Seq<Seq<Seq<char>>>,
    name: Seq<char>,
    value_word: Seq<char>,
    v: u32,
)
    requires
        forall|i: int| 0 <= i < lines.len() ==> !is_const_decl(#[trigger] lines[i]),
        spec_const_value(value_word) == Ok::<u32, AsmError>(v),
    ensures
        ({
            let decl = seq![seq!['$'] + name, value_word];
            let hand = spec_subst_lines(seq![(name, v)], lines);
            &&& spec_process_constants(seq![decl] + lines) == Ok::<
                Seq<Seq<Seq<char>>>,
                AsmError,
            >(hand)
            &&& spec_process_constants(hand) == Ok::<Seq<Seq<Seq<char>>>, AsmError>(hand)
        }),
{
    let decl = seq![seq!['$'] + name, value_word];
    let table = seq![(name, v)];
    let hand = spec_subst_lines(table, lines);
    let full = seq![decl] + lines;

    // The table of the prefixed program is the single declared entry.
    assert(full.take(1) =~= seq![decl]);
    assert(seq![decl].drop_last() =~= Seq::<Seq<Seq<char>>>::empty());
    assert(spec_const_table(Seq::<Seq<Seq<char>>>::empty()) == Ok::<
        Seq<(Seq<char>, u32)>,
        AsmError,
    >(Seq::empty()));
    assert(is_const_decl(decl)) by {
        assert(decl[0][0] == '$');
    }
    assert(!tbl_contains(Seq::<(Seq<char>, u32)>::empty(), decl[0].drop_first()));
    assert(decl[0].drop_first() =~= name);
    assert(spec_const_table(full.take(1)) == Ok::<Seq<(Seq<char>, u32)>, AsmError>(
        Seq::<(Seq<char>, u32)>::empty().push((name, v)),
    ));
    assert(Seq::<(Seq<char>, u32)>::empty().push((name, v)) =~= table);
    assert(forall|i: int| 1 <= i < full.len() ==> !is_const_decl(#[trigger] full[i])) by {
        assert(forall|i: int| 1 <= i < full.len() ==> full[i] == lines[i - 1]);
    }
    lemma_const_table_skip(full, 1);

    // Deleting declarations leaves exactly the original lines.
    lemma_drop_const_decls_skip(full, 1);
    assert(spec_drop_const_decls(Seq::<Seq<Seq<char>>>::empty())
        == Seq::<Seq<Seq<char>>>::empty());
    assert(spec_drop_const_decls(full.take(1)) =~= Seq::<Seq<Seq<char>>>::empty()) by {
        assert(full.take(1) =~= seq![decl]);
        assert(seq![decl].drop_last() =~= Seq::<Seq<Seq<char>>>::empty());
        assert(seq![decl].last() == decl);
    }
    assert(full.skip(1) =~= lines);
    assert(spec_drop_const_decls(full) =~= lines);
    assert(spec_process_constants(full) == Ok::<Seq<Seq<Seq<char>>>, AsmError>(hand));

    // The hand-substituted program declares no constants either: a
    // substituted word is a numeral, which never starts with the sigil.
    assert forall|i: int| 0 <= i < hand.len() implies !is_const_decl(#[trigger] hand[i]) by {
        assert(hand[i] == spec_subst_line(table, lines[i]));
        if hand[i].len() > 0 && hand[i][0].len() > 0 {
            assert(hand[i][0] == subst_word(table, lines[i][0]));
            if tbl_contains(table, lines[i][0]) {
                lemma_dec_str_val(tbl_lookup(table, lines[i][0]) as nat);
                assert(is_dec_digit(hand[i][0][0]));
                assert(hand[i][0][0] != '$');
            } else {
                assert(hand[i][0] == lines[i][0]);
                assert(!is_const_decl(lines[i]));
            }
        }
    }

    // So its own resolution is a no-op.
    lemma_constants_noop(hand);
}

/// A program that declares no labels passes the label resolver unchanged.
pub proof fn lemma_labels_noop(lines: Seq<Seq<Seq<char>>>)
    requires
        forall|i: int| 0 <= i < lines.len() ==> !is_label_decl(#[trigger] lines[i]),
    ensures
        spec_process_labels(lines) == Ok::<Seq<Seq<Seq<char>>>, AsmError>(lines),
{
    assert(spec_label_table(Seq::<Seq<Seq<char>>>::empty()) == Ok::<
        Seq<(Seq<char>, u32)>,
        AsmError,
    >(Seq::empty()));
    assert(spec_drop_label_decls(Seq::<Seq<Seq<char>>>::empty())
        == Seq::<Seq<Seq<char>>>::empty());
    lemma_label_table_skip(lines, 0);
    assert(lines.take(0) =~= Seq::<Seq<Seq<char>>>::empty());
    lemma_drop_label_decls_skip(lines, 0);
    assert(lines.skip(0) =~= lines);
    assert(spec_drop_label_decls(lines) =~= lines);
    lemma_subst_lines_empty(lines);
}

/// For every valid twelve-bit value, assembling and running a single
/// `LDIM` of that value followed by a `MOV` from register 5 into probe
/// register 0 halts cleanly with the probe register holding exactly the
/// value, whatever the runtime input.
pub proof fn lemma_ldim_mov_roundtrip(v: u32, input: Seq<char>)
    requires
        v <= 4095,
    ensures
        ({
            let lines = seq![
                seq![seq!['L', 'D', 'I', 'M'], dec_str(v as nat)],
                seq![seq!['M', 'O', 'V'], seq!['R', '0'], seq!['I', 'M']],
            ];
            &&& spec_assemble(lines) is Ok
            &&& ok_prefix(spec_init(spec_assemble(lines)->Ok_0, input), 2)
            &&& halted(run_to(spec_init(spec_assemble(lines)->Ok_0, input), 2))
            &&& run_to(spec_init(spec_assemble(lines)->Ok_0, input), 2).regs[0] == v
        }),
{
    let numeral = dec_str(v as nat);
    lemma_dec_str_val(v as nat);
    let l0 = seq![seq!['L', 'D', 'I', 'M'], numeral];
    let l1 = seq![seq!['M', 'O', 'V'], seq!['R', '0'], seq!['I', 'M']];
    let lines = seq![l0, l1];

    // The source holds no comment words, no constant and no label
    // declarations: the numeral starts with a digit, the other words with
    // letters.
    assert(is_dec_digit(numeral[0]));
    assert(!is_comment_word(numeral));
    lemma_strip_comments_noop(lines);
    assert(forall|i: int| 0 <= i < lines.len() ==> !is_const_decl(#[trigger] lines[i]));
    lemma_constants_noop(lines);
    assert(forall|i: int| 0 <= i < lines.len() ==> !is_label_decl(#[trigger] lines[i]));
    lemma_labels_noop(lines);

    // Decoding yields the loader and the move.
    let i0 = Instruction {
        instruction_type: Type::I,
        operation: Operation::LDIM,
        register1: None,
        register2: None,
        register3: None,
        immediate: Some(v),
    };
    let i1 = Instruction {
        instruction_type: Type::N,
        operation: Operation::MOV,
        register1: Some(0usize),
        register2: Some(5usize),
        register3: None,
        immediate: None,
    };
    assert(spec_decode_line(l0) == Ok::<Instruction, AsmError>(i0)) by {
        assert(parses_as_u32(numeral) && dec_val(numeral) == v);
    }
    assert(spec_decode_line(l1) == Ok::<Instruction, AsmError>(i1));
    let prog = seq![i0, i1];
    assert(spec_decode(lines) == Ok::<Seq<Instruction>, AsmError>(prog)) by {
        assert(lines.drop_last() =~= seq![l0]);
        assert(seq![l0].drop_last() =~= Seq::<Seq<Seq<char>>>::empty());
        assert(spec_decode(Seq::<Seq<Seq<char>>>::empty()) == Ok::<
            Seq<Instruction>,
            AsmError,
        >(Seq::empty()));
        assert(seq![l0].last() == l0);
        assert(spec_decode(seq![l0]) == Ok::<Seq<Instruction>, AsmError>(
            Seq::<Instruction>::empty().push(i0),
        ));
        assert(lines.last() == l1);
        assert(Seq::<Instruction>::empty().push(i0).push(i1) =~= prog);
    }
    assert(spec_assemble(lines) == Ok::<Seq<Instruction>, AsmError>(prog));

    // Running: the loader writes the value into register 5, the move
    // copies it into register 0, and the counter passes the end.
    let s0 = spec_init(prog, input);
    assert(!halted(s0));
    let step1 = spec_step(s0);
    assert(s0.instructions[0] == i0);
    let s1 = step1.0;
    assert(step1.1 is None);
    assert(s1.regs == s0.regs.update(5, v));
    assert(s1.pc == 2);
    assert(run_to(s0, 1) == s1) by {
        assert(run_to(s0, 0) == s0);
    }
    assert(!halted(s1));
    let step2 = spec_step(s1);
    assert(s1.instructions[1] == i1);
    assert(step2.1 is None);
    let s2 = step2.0;
    assert(s2.regs == s1.regs.update(0, s1.regs[5]));
    assert(s2.pc == 3);
    assert(run_to(s0, 2) == s2);
    assert(halted(s2));
    assert(s2.regs[0] == v);
    assert(ok_prefix(s0, 2)) by {
        assert forall|m: nat| m < 2 implies !halted(#[trigger] run_to(s0, m)) && spec_step(
            run_to(s0, m),
        ).1 is None by {
            if m == 0 {
                assert(run_to(s0, 0) == s0);
            } else {
                assert(m == 1);
            }
        }
    }
}

} // verus!
