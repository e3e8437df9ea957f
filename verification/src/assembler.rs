//! The assembler pipeline: comment stripping, constant resolution, label
//! resolution and instruction decoding. Each pass mutates an ordered sequence
//! of token lines; the order of the passes is a hard dependency, because
//! label addresses are computed from line positions after every line-deleting
//! pass has run.

use vstd::prelude::*;
use crate::isa::{
    AsmError, Instruction, Operation, Type, op_shape, operation_to_type, spec_immediate12,
    spec_immediate6,
    spec_operation_of, spec_register_of, str_to_immediate12, str_to_immediate6, str_to_operation,
    str_to_register, wf_instruction,
};
use crate::symtab::{SymbolTable, tbl_contains, tbl_lookup};
use crate::text::{dec_str, dec_val, lemma_dec_str_val, parse_u32, parses_as_u32, u32_to_dec};

verus! {

/// The token lines of a program: each line an ordered sequence of words.
pub open spec fn view_line(l: Seq<String>) -> Seq<Seq<char>> {
    l.map_values(|w: String| w@)
}

/// The mathematical view of a whole line sequence.
pub open spec fn view_lines(lines: Seq<Vec<String>>) -> Seq<Seq<Seq<char>>> {
    lines.map_values(|l: Vec<String>| view_line(l@))
}

/// Every word of every line is nonempty. Tokenization splits on whitespace,
/// so it never produces an empty word; lines may still be empty.
pub open spec fn wf_words(lines: Seq<Seq<Seq<char>>>) -> bool {
    forall|i: int, j: int|
        0 <= i < lines.len() && 0 <= j < lines[i].len() ==> (#[trigger] lines[i][j]).len() > 0
}

/// Every line is nonempty and every word is nonempty. This holds of every
/// line sequence from the comment stripper onward.
pub open spec fn wf_lines(lines: Seq<Seq<Seq<char>>>) -> bool {
    &&& forall|i: int| 0 <= i < lines.len() ==> (#[trigger] lines[i]).len() > 0
    &&& wf_words(lines)
}

// ---------------------------------------------------------------------------
// Comment stripping
// ---------------------------------------------------------------------------

/// A word that opens a comment: it begins with the two-character marker.
pub open spec fn is_comment_word(w: Seq<char>) -> bool {
    w.len() >= 2 && w[0] == '/' && w[1] == '/'
}

/// The number of leading words before the first comment word.
pub open spec fn comment_free_len(l: Seq<Seq<char>>) -> int
    decreases l.len(),
{
    if l.len() == 0 {
        0
    } else if is_comment_word(l[0]) {
        0
    } else {
        1 + comment_free_len(l.drop_first())
    }
}

/// A line with its first comment word and everything after it discarded.
pub open spec fn spec_strip_line(l: Seq<Seq<char>>) -> Seq<Seq<char>> {
    l.take(comment_free_len(l))
}

/// The comment stripper: strips each line, then deletes lines that became
/// empty.
pub open spec fn spec_strip_comments(lines: Seq<Seq<Seq<char>>>) -> Seq<Seq<Seq<char>>>
    decreases lines.len(),
{
    if lines.len() == 0 {
        Seq::empty()
    } else {
        let rest = spec_strip_comments(lines.drop_last());
        let stripped = spec_strip_line(lines.last());
        if stripped.len() == 0 {
            rest
        } else {
            rest.push(stripped)
        }
    }
}

/// `comment_free_len` is characterized by its position: all words before it
/// are comment-free, and it is the line length or a comment word's position.
proof fn lemma_comment_free_len_at(l: Seq<Seq<char>>, k: int)
    requires
        0 <= k <= l.len(),
        forall|j: int| 0 <= j < k ==> !is_comment_word(#[trigger] l[j]),
        k < l.len() ==> is_comment_word(l[k]),
    ensures
        comment_free_len(l) == k,
    decreases k,
{
    if k == 0 {
    } else {
        let rest = l.drop_first();
        assert(forall|j: int| 0 <= j < k - 1 ==> !is_comment_word(#[trigger] rest[j]));
        lemma_comment_free_len_at(rest, k - 1);
    }
}

/// Comment-free prefixes are bounded by the line length.
proof fn lemma_comment_free_len_le(l: Seq<Seq<char>>)
    ensures
        0 <= comment_free_len(l) <= l.len(),
    decreases l.len(),
{
    if l.len() > 0 && !is_comment_word(l[0]) {
        lemma_comment_free_len_le(l.drop_first());
    }
}

/// The stripper's output is well-formed and no longer than its input.
pub proof fn lemma_strip_comments_wf(lines: Seq<Seq<Seq<char>>>)
    requires
        wf_words(lines),
    ensures
        wf_lines(spec_strip_comments(lines)),
        spec_strip_comments(lines).len() <= lines.len(),
    decreases lines.len(),
{
    if lines.len() > 0 {
        let prefix = lines.drop_last();
        assert(wf_words(prefix)) by {
            assert(forall|i: int, j: int|
                0 <= i < prefix.len() && 0 <= j < prefix[i].len()
                    ==> (#[trigger] prefix[i][j]).len() > 0);
        }
        lemma_strip_comments_wf(prefix);
        let l = lines.last();
        lemma_comment_free_len_le(l);
        let stripped = spec_strip_line(l);
        assert(forall|j: int| 0 <= j < stripped.len() ==> (#[trigger] stripped[j]).len() > 0) by {
            assert(forall|j: int| 0 <= j < stripped.len() ==> stripped[j] == l[j]);
            assert(forall|j: int|
                0 <= j < l.len() ==> (#[trigger] l[j]).len() > 0);
        }
        if stripped.len() > 0 {
            let out = spec_strip_comments(lines);
            assert(out == spec_strip_comments(prefix).push(stripped));
        }
    }
}

/// Is `c` the character at position `k` of `w`?
fn char_at_is(w: &str, k: usize, c: char) -> (r: bool)
    requires
        k < w@.len(),
    ensures
        r == (w@[k as int] == c),
{
    w.get_char(k) == c
}

/// Does this word open a comment?
fn is_comment_word_exec(w: &str) -> (r: bool)
    ensures
        r == is_comment_word(w@),
{
    let n = w.unicode_len();
    n >= 2 && char_at_is(w, 0, '/') && char_at_is(w, 1, '/')
}

/// Strips trailing comments from each token line: once a word starting with
/// the comment marker is seen, it and all following words of the line are
/// discarded; lines that become empty are removed from the sequence.
pub fn remove_comments(lines: &mut Vec<Vec<String>>)
    requires
        wf_words(view_lines(old(lines)@)),
    ensures
        view_lines(final(lines)@) == spec_strip_comments(view_lines(old(lines)@)),
{
    let ghost lv = view_lines(lines@);
    let n = lines.len();
    let mut out: Vec<Vec<String>> = Vec::new();
    let mut i: usize = 0;
    while i < n
        invariant
            0 <= i <= n,
            n == lines.len(),
            lv == view_lines(lines@),
            view_lines(out@) == spec_strip_comments(lv.take(i as int)),
        decreases n - i,
    {
        let line = &lines[i];
        let m = line.len();
        let mut kept: Vec<String> = Vec::new();
        let mut j: usize = 0;
        let mut saw_comment = false;
        while j < m
            invariant
                0 <= j <= m,
                m == line.len(),
                line@ == lines@[i as int]@,
                i < n == lines.len(),
                lv == view_lines(lines@),
                !saw_comment ==> forall|k: int|
                    0 <= k < j ==> !is_comment_word(#[trigger] lv[i as int][k]),
                saw_comment ==> j <= lv[i as int].len()
                    && comment_free_len(lv[i as int]) == view_line(kept@).len(),
                !saw_comment ==> view_line(kept@) == lv[i as int].take(j as int),
                saw_comment ==> view_line(kept@) == spec_strip_line(lv[i as int]),
            decreases m - j,
        {
            if !saw_comment {
                if is_comment_word_exec(line[j].as_str()) {
                    proof {
                        lemma_comment_free_len_at(lv[i as int], j as int);
                    }
                    saw_comment = true;
                } else {
                    let w = line[j].clone();
                    kept.push(w);
                    proof {
                        assert(view_line(kept@) =~= lv[i as int].take(j as int + 1));
                    }
                }
            }
            j += 1;
        }
        proof {
            if !saw_comment {
                lemma_comment_free_len_at(lv[i as int], m as int);
                assert(lv[i as int].take(m as int) =~= lv[i as int]);
                assert(view_line(kept@) == spec_strip_line(lv[i as int]));
            }
        }
        if kept.len() > 0 {
            let ghost out_before = view_lines(out@);
            out.push(kept);
            proof {
                assert(view_lines(out@) =~= out_before.push(spec_strip_line(lv[i as int])));
            }
        }
        proof {
            assert(lv.take(i as int + 1).drop_last() =~= lv.take(i as int));
            assert(lv.take(i as int + 1).last() == lv[i as int]);
        }
        i += 1;
    }
    proof {
        assert(lv.take(n as int) =~= lv);
    }
    *lines = out;
}

// ---------------------------------------------------------------------------
// Symbol substitution, shared by the constant and label resolvers
// ---------------------------------------------------------------------------

/// A word that names a table entry is replaced by the decimal numeral of its
/// value; every other word is kept. Substitution is whole-word equality.
pub open spec fn subst_word(t: Seq<(Seq<char>, u32)>, w: Seq<char>) -> Seq<char> {
    if tbl_contains(t, w) {
        dec_str(tbl_lookup(t, w) as nat)
    } else {
        w
    }
}

/// Substitution over one line.
pub open spec fn spec_subst_line(t: Seq<(Seq<char>, u32)>, l: Seq<Seq<char>>) -> Seq<Seq<char>> {
    l.map_values(|w: Seq<char>| subst_word(t, w))
}

/// Substitution over a whole line sequence.
pub open spec fn spec_subst_lines(
    t: Seq<(Seq<char>, u32)>,
    lines: Seq<Seq<Seq<char>>>,
) -> Seq<Seq<Seq<char>>> {
    lines.map_values(|l: Seq<Seq<char>>| spec_subst_line(t, l))
}

/// Substitution preserves well-formedness and every length.
pub proof fn lemma_subst_lines_wf(t: Seq<(Seq<char>, u32)>, lines: Seq<Seq<Seq<char>>>)
    requires
        wf_lines(lines),
    ensures
        wf_lines(spec_subst_lines(t, lines)),
        spec_subst_lines(t, lines).len() == lines.len(),
{
    let out = spec_subst_lines(t, lines);
    assert forall|i: int, j: int|
        0 <= i < out.len() && 0 <= j < out[i].len() implies (#[trigger] out[i][j]).len() > 0 by {
        assert(lines[i][j].len() > 0);
        if tbl_contains(t, lines[i][j]) {
            lemma_dec_str_val(tbl_lookup(t, lines[i][j]) as nat);
        }
    }
}

/// Replaces every word that names a symbol with the decimal numeral of the
/// symbol's value, on one line.
fn subst_line_exec(line: &Vec<String>, table: &SymbolTable) -> (r: Vec<String>)
    ensures
        view_line(r@) == spec_subst_line(table@, view_line(line@)),
{
    let m = line.len();
    let mut out: Vec<String> = Vec::new();
    let mut j: usize = 0;
    while j < m
        invariant
            0 <= j <= m,
            m == line.len(),
            view_line(out@) == spec_subst_line(table@, view_line(line@)).take(j as int),
        decreases m - j,
    {
        let ghost before = view_line(out@);
        match table.get(line[j].as_str()) {
            Some(v) => {
                out.push(u32_to_dec(v));
            },
            None => {
                out.push(line[j].clone());
            },
        }
        proof {
            assert(view_line(out@) =~= before.push(subst_word(table@, view_line(line@)[j as int])));
            assert(view_line(out@) =~= spec_subst_line(table@, view_line(line@)).take(j as int + 1));
        }
        j += 1;
    }
    proof {
        let s = spec_subst_line(table@, view_line(line@));
        assert(s.take(m as int) =~= s);
    }
    out
}

/// Replaces all references to a symbol with the corresponding decimal
/// numeral, over the whole line sequence.
pub fn symbol_to_immediate(lines: &mut Vec<Vec<String>>, symbol_table: &SymbolTable)
    ensures
        view_lines(final(lines)@) == spec_subst_lines(symbol_table@, view_lines(old(lines)@)),
{
    let ghost lv = view_lines(lines@);
    let n = lines.len();
    let mut out: Vec<Vec<String>> = Vec::new();
    let mut i: usize = 0;
    while i < n
        invariant
            0 <= i <= n,
            n == lines.len(),
            lv == view_lines(lines@),
            view_lines(out@) == spec_subst_lines(symbol_table@, lv).take(i as int),
        decreases n - i,
    {
        let ghost before = view_lines(out@);
        let mapped = subst_line_exec(&lines[i], symbol_table);
        out.push(mapped);
        proof {
            assert(view_lines(out@) =~= before.push(spec_subst_line(symbol_table@, lv[i as int])));
            assert(view_lines(out@) =~= spec_subst_lines(symbol_table@, lv).take(i as int + 1));
        }
        i += 1;
    }
    proof {
        assert(spec_subst_lines(symbol_table@, lv).take(n as int) =~= spec_subst_lines(
            symbol_table@,
            lv,
        ));
    }
    *lines = out;
}

// ---------------------------------------------------------------------------
// Constant resolution
// ---------------------------------------------------------------------------

/// A line is a constant declaration exactly when its first word begins with
/// the sigil.
pub open spec fn is_const_decl(l: Seq<Seq<char>>) -> bool {
    l.len() > 0 && l[0].len() > 0 && l[0][0] == '$'
}

/// The value word of a constant declaration: a single character between
/// single quotes resolves to its code point, anything else must be an
/// unsigned decimal numeral.
pub open spec fn spec_const_value(w: Seq<char>) -> Result<u32, AsmError> {
    if w.len() == 3 && w[0] == '\'' && w[2] == '\'' {
        Ok(w[1] as u32)
    } else if parses_as_u32(w) {
        Ok(dec_val(w) as u32)
    } else {
        Err(AsmError::ConstantValueUnparsable)
    }
}

/// Scans the lines in order and collects the constant table, stopping at the
/// first malformed, unparsable or duplicate declaration. The table keys are
/// the declared names without the sigil.
pub open spec fn spec_const_table(lines: Seq<Seq<Seq<char>>>) -> Result<
    Seq<(Seq<char>, u32)>,
    AsmError,
>
    decreases lines.len(),
{
    if lines.len() == 0 {
        Ok(Seq::empty())
    } else {
        match spec_const_table(lines.drop_last()) {
            Err(e) => Err(e),
            Ok(t) => {
                let l = lines.last();
                if !is_const_decl(l) {
                    Ok(t)
                } else if l.len() != 2 {
                    Err(AsmError::ConstantDeclarationArity)
                } else if tbl_contains(t, l[0].drop_first()) {
                    Err(AsmError::DuplicateConstant)
                } else {
                    match spec_const_value(l[1]) {
                        Err(e) => Err(e),
                        Ok(v) => Ok(t.push((l[0].drop_first(), v))),
                    }
                }
            },
        }
    }
}

/// The line sequence with every constant declaration deleted.
pub open spec fn spec_drop_const_decls(lines: Seq<Seq<Seq<char>>>) -> Seq<Seq<Seq<char>>>
    decreases lines.len(),
{
    if lines.len() == 0 {
        Seq::empty()
    } else {
        let rest = spec_drop_const_decls(lines.drop_last());
        if is_const_decl(lines.last()) {
            rest
        } else {
            rest.push(lines.last())
        }
    }
}

/// The constant resolver: collect the table, delete the declarations,
/// substitute every reference.
pub open spec fn spec_process_constants(lines: Seq<Seq<Seq<char>>>) -> Result<
    Seq<Seq<Seq<char>>>,
    AsmError,
> {
    match spec_const_table(lines) {
        Err(e) => Err(e),
        Ok(t) => Ok(spec_subst_lines(t, spec_drop_const_decls(lines))),
    }
}

/// A failed table scan of a prefix decides the scan of the whole sequence.
proof fn lemma_const_table_err(lines: Seq<Seq<Seq<char>>>, i: int)
    requires
        0 <= i <= lines.len(),
        spec_const_table(lines.take(i)) is Err,
    ensures
        spec_const_table(lines) == spec_const_table(lines.take(i)),
    decreases lines.len() - i,
{
    if i == lines.len() {
        assert(lines.take(i) =~= lines);
    } else {
        assert(lines.take(i + 1).drop_last() =~= lines.take(i));
        lemma_const_table_err(lines, i + 1);
    }
}

/// The resolver's output is well-formed and no longer than its input.
pub proof fn lemma_process_constants_wf(lines: Seq<Seq<Seq<char>>>)
    requires
        wf_lines(lines),
        spec_process_constants(lines) is Ok,
    ensures
        wf_lines(spec_process_constants(lines)->Ok_0),
        spec_process_constants(lines)->Ok_0.len() <= lines.len(),
{
    let t = spec_const_table(lines)->Ok_0;
    lemma_drop_const_decls_wf(lines);
    lemma_subst_lines_wf(t, spec_drop_const_decls(lines));
}

/// Deleting declaration lines keeps well-formedness and shortens or keeps
/// the length.
proof fn lemma_drop_const_decls_wf(lines: Seq<Seq<Seq<char>>>)
    requires
        wf_lines(lines),
    ensures
        wf_lines(spec_drop_const_decls(lines)),
        spec_drop_const_decls(lines).len() <= lines.len(),
    decreases lines.len(),
{
    if lines.len() > 0 {
        let prefix = lines.drop_last();
        assert(wf_lines(prefix)) by {
            assert(forall|i: int|
                0 <= i < prefix.len() ==> (#[trigger] prefix[i]).len() > 0);
            assert(forall|i: int, j: int|
                0 <= i < prefix.len() && 0 <= j < prefix[i].len()
                    ==> (#[trigger] prefix[i][j]).len() > 0);
        }
        lemma_drop_const_decls_wf(prefix);
    }
}

/// Lines that declare no constant leave the table scan where it stood.
pub proof fn lemma_const_table_skip(lines: Seq<Seq<Seq<char>>>, k: int)
    requires
        0 <= k <= lines.len(),
        forall|i: int| k <= i < lines.len() ==> !is_const_decl(#[trigger] lines[i]),
    ensures
        spec_const_table(lines) == spec_const_table(lines.take(k)),
    decreases lines.len() - k,
{
    if k == lines.len() {
        assert(lines.take(k) =~= lines);
    } else {
        assert(lines.take(k + 1).drop_last() =~= lines.take(k));
        assert(lines.take(k + 1).last() == lines[k]);
        lemma_const_table_skip(lines, k + 1);
    }
}

/// Lines that declare no constant all survive deletion, in order.
pub proof fn lemma_drop_const_decls_skip(lines: Seq<Seq<Seq<char>>>, k: int)
    requires
        0 <= k <= lines.len(),
        forall|i: int| k <= i < lines.len() ==> !is_const_decl(#[trigger] lines[i]),
    ensures
        spec_drop_const_decls(lines) == spec_drop_const_decls(lines.take(k)) + lines.skip(k),
    decreases lines.len() - k,
{
    if k == lines.len() {
        assert(lines.take(k) =~= lines);
        assert(spec_drop_const_decls(lines.take(k)) + lines.skip(k) =~= spec_drop_const_decls(
            lines,
        ));
    } else {
        assert(lines.take(k + 1).drop_last() =~= lines.take(k));
        assert(lines.take(k + 1).last() == lines[k]);
        lemma_drop_const_decls_skip(lines, k + 1);
        assert(spec_drop_const_decls(lines.take(k + 1)) == spec_drop_const_decls(
            lines.take(k),
        ).push(lines[k]));
        assert(spec_drop_const_decls(lines.take(k)).push(lines[k]) + lines.skip(k + 1)
            =~= spec_drop_const_decls(lines.take(k)) + lines.skip(k));
    }
}

/// Lines that declare no label leave the table scan where it stood.
pub proof fn lemma_label_table_skip(lines: Seq<Seq<Seq<char>>>, k: int)
    requires
        0 <= k <= lines.len(),
        forall|i: int| k <= i < lines.len() ==> !is_label_decl(#[trigger] lines[i]),
    ensures
        spec_label_table(lines) == spec_label_table(lines.take(k)),
    decreases lines.len() - k,
{
    if k == lines.len() {
        assert(lines.take(k) =~= lines);
    } else {
        assert(lines.take(k + 1).drop_last() =~= lines.take(k));
        assert(lines.take(k + 1).last() == lines[k]);
        lemma_label_table_skip(lines, k + 1);
    }
}

/// Lines that declare no label all survive deletion, in order.
pub proof fn lemma_drop_label_decls_skip(lines: Seq<Seq<Seq<char>>>, k: int)
    requires
        0 <= k <= lines.len(),
        forall|i: int| k <= i < lines.len() ==> !is_label_decl(#[trigger] lines[i]),
    ensures
        spec_drop_label_decls(lines) == spec_drop_label_decls(lines.take(k)) + lines.skip(k),
    decreases lines.len() - k,
{
    if k == lines.len() {
        assert(lines.take(k) =~= lines);
        assert(spec_drop_label_decls(lines.take(k)) + lines.skip(k) =~= spec_drop_label_decls(
            lines,
        ));
    } else {
        assert(lines.take(k + 1).drop_last() =~= lines.take(k));
        assert(lines.take(k + 1).last() == lines[k]);
        lemma_drop_label_decls_skip(lines, k + 1);
        assert(spec_drop_label_decls(lines.take(k + 1)) == spec_drop_label_decls(
            lines.take(k),
        ).push(lines[k]));
        assert(spec_drop_label_decls(lines.take(k)).push(lines[k]) + lines.skip(k + 1)
            =~= spec_drop_label_decls(lines.take(k)) + lines.skip(k));
    }
}

/// Substitution under the empty table is the identity.
pub proof fn lemma_subst_lines_empty(lines: Seq<Seq<Seq<char>>>)
    ensures
        spec_subst_lines(Seq::empty(), lines) == lines,
{
    assert(spec_subst_lines(Seq::empty(), lines) =~= lines) by {
        assert forall|i: int|
            0 <= i < lines.len() implies #[trigger] spec_subst_lines(Seq::empty(), lines)[i]
            == lines[i] by {
            assert(spec_subst_line(Seq::empty(), lines[i]) =~= lines[i]) by {
                assert(forall|j: int|
                    0 <= j < lines[i].len() ==> subst_word(
                        Seq::empty(),
                        #[trigger] lines[i][j],
                    ) == lines[i][j]);
            }
        }
    }
}

/// A line sequence of nonempty lines without comment words passes the
/// comment stripper unchanged.
pub proof fn lemma_strip_comments_noop(lines: Seq<Seq<Seq<char>>>)
    requires
        forall|i: int| 0 <= i < lines.len() ==> (#[trigger] lines[i]).len() > 0,
        forall|i: int, j: int|
            0 <= i < lines.len() && 0 <= j < lines[i].len() ==> !is_comment_word(
                #[trigger] lines[i][j],
            ),
    ensures
        spec_strip_comments(lines) == lines,
    decreases lines.len(),
{
    if lines.len() > 0 {
        let prefix = lines.drop_last();
        assert(forall|i: int| 0 <= i < prefix.len() ==> (#[trigger] prefix[i]).len() > 0);
        assert(forall|i: int, j: int|
            0 <= i < prefix.len() && 0 <= j < prefix[i].len() ==> !is_comment_word(
                #[trigger] prefix[i][j],
            ));
        lemma_strip_comments_noop(prefix);
        let l = lines.last();
        lemma_comment_free_len_at(l, l.len() as int);
        assert(spec_strip_line(l) =~= l);
        assert(spec_strip_comments(lines) =~= lines);
    }
}

/// The word starting at position one, as an owned string.
fn word_tail(w: &str) -> (r: String)
    requires
        w@.len() >= 1,
    ensures
        r@ == w@.drop_first(),
{
    let n = w.unicode_len();
    let tail = w.substring_char(1, n);
    proof {
        assert(tail@ =~= w@.drop_first());
    }
    String::from_str(tail)
}

/// Resolves a constant declaration's value word.
fn const_value(w: &str) -> (r: Result<u32, AsmError>)
    ensures
        r == spec_const_value(w@),
{
    let n = w.unicode_len();
    if n == 3 && char_at_is(w, 0, '\'') && char_at_is(w, 2, '\'') {
        Ok(w.get_char(1) as u32)
    } else {
        match parse_u32(w) {
            Some(v) => Ok(v),
            None => Err(AsmError::ConstantValueUnparsable),
        }
    }
}

/// The constant resolver: reads every `$NAME VALUE` declaration into a fresh
/// table, rejects malformed and duplicate declarations, deletes the
/// declaration lines, and replaces every whole-word reference with the
/// decimal numeral of its value. On an error the line sequence is unchanged.
pub fn process_constants(lines: &mut Vec<Vec<String>>) -> (r: Result<(), AsmError>)
    requires
        wf_lines(view_lines(old(lines)@)),
    ensures
        r is Ok ==> spec_process_constants(view_lines(old(lines)@)) is Ok && view_lines(
            final(lines)@,
        ) == spec_process_constants(view_lines(old(lines)@))->Ok_0,
        r is Err ==> spec_process_constants(view_lines(old(lines)@)) is Err && r->Err_0
            == spec_process_constants(view_lines(old(lines)@))->Err_0 && final(lines)@ == old(
            lines,
        )@,
{
    let ghost lv = view_lines(lines@);
    let n = lines.len();
    let mut table = SymbolTable::new();
    let mut i: usize = 0;
    while i < n
        invariant
            0 <= i <= n,
            n == lines.len(),
            lv == view_lines(lines@),
            wf_lines(lv),
            spec_const_table(lv.take(i as int)) == Ok::<Seq<(Seq<char>, u32)>, AsmError>(table@),
        decreases n - i,
    {
        proof {
            assert(lv.take(i as int + 1).drop_last() =~= lv.take(i as int));
            assert(lv.take(i as int + 1).last() == lv[i as int]);
            assert(lv[i as int].len() > 0);
            assert(lv[i as int][0].len() > 0);
        }
        let line = &lines[i];
        if char_at_is(line[0].as_str(), 0, '$') {
            assert(is_const_decl(lv[i as int]));
            if line.len() != 2 {
                proof {
                    lemma_const_table_err(lv, i as int + 1);
                }
                return Err(AsmError::ConstantDeclarationArity);
            }
            let name = word_tail(line[0].as_str());
            if table.contains(name.as_str()) {
                proof {
                    lemma_const_table_err(lv, i as int + 1);
                }
                return Err(AsmError::DuplicateConstant);
            }
            match const_value(line[1].as_str()) {
                Err(e) => {
                    proof {
                        lemma_const_table_err(lv, i as int + 1);
                    }
                    return Err(e);
                },
                Ok(v) => {
                    table.insert(name, v);
                },
            }
        } else {
            assert(!is_const_decl(lv[i as int]));
        }
        i += 1;
    }
    proof {
        assert(lv.take(n as int) =~= lv);
    }
    let mut out: Vec<Vec<String>> = Vec::new();
    let mut i: usize = 0;
    while i < n
        invariant
            0 <= i <= n,
            n == lines.len(),
            lv == view_lines(lines@),
            wf_lines(lv),
            spec_const_table(lv) == Ok::<Seq<(Seq<char>, u32)>, AsmError>(table@),
            view_lines(out@) == spec_subst_lines(table@, spec_drop_const_decls(lv.take(i as int))),
        decreases n - i,
    {
        proof {
            assert(lv.take(i as int + 1).drop_last() =~= lv.take(i as int));
            assert(lv.take(i as int + 1).last() == lv[i as int]);
            assert(lv[i as int].len() > 0);
            assert(lv[i as int][0].len() > 0);
        }
        let line = &lines[i];
        if !char_at_is(line[0].as_str(), 0, '$') {
            let ghost before = view_lines(out@);
            let mapped = subst_line_exec(line, &table);
            out.push(mapped);
            proof {
                assert(view_lines(out@) =~= before.push(
                    spec_subst_line(table@, lv[i as int]),
                ));
                assert(spec_drop_const_decls(lv.take(i as int + 1))
                    == spec_drop_const_decls(lv.take(i as int)).push(lv[i as int]));
                assert(view_lines(out@) =~= spec_subst_lines(
                    table@,
                    spec_drop_const_decls(lv.take(i as int + 1)),
                ));
            }
        }
        i += 1;
    }
    proof {
        assert(lv.take(n as int) =~= lv);
    }
    *lines = out;
    Ok(())
}

// ---------------------------------------------------------------------------
// Label resolution
// ---------------------------------------------------------------------------

/// A line is a label declaration exactly when its first word begins with an
/// opening parenthesis.
pub open spec fn is_label_decl(l: Seq<Seq<char>>) -> bool {
    l.len() > 0 && l[0].len() > 0 && l[0][0] == '('
}

/// The number of lines that are not label declarations: the instruction
/// addresses that survive deletion of the declarations.
pub open spec fn count_nonlabel(lines: Seq<Seq<Seq<char>>>) -> int
    decreases lines.len(),
{
    if lines.len() == 0 {
        0
    } else {
        count_nonlabel(lines.drop_last()) + if is_label_decl(lines.last()) {
            0int
        } else {
            1int
        }
    }
}

/// A well-shaped label declaration: one word, closed by a parenthesis.
pub open spec fn wf_label_decl(l: Seq<Seq<char>>) -> bool {
    l.len() == 1 && l[0].len() > 0 && l[0].last() == ')'
}

/// The declared name: the word without its enclosing parentheses.
pub open spec fn label_name(l: Seq<Seq<char>>) -> Seq<char> {
    l[0].subrange(1, l[0].len() - 1)
}

/// Scans the lines in order and collects the label table. The address of a
/// label is the 0-based position its line would occupy in the final
/// instruction sequence: the count of non-declaration lines before it.
pub open spec fn spec_label_table(lines: Seq<Seq<Seq<char>>>) -> Result<
    Seq<(Seq<char>, u32)>,
    AsmError,
>
    decreases lines.len(),
{
    if lines.len() == 0 {
        Ok(Seq::empty())
    } else {
        match spec_label_table(lines.drop_last()) {
            Err(e) => Err(e),
            Ok(t) => {
                let l = lines.last();
                if !is_label_decl(l) {
                    Ok(t)
                } else if !wf_label_decl(l) {
                    Err(AsmError::MalformedLabel)
                } else if tbl_contains(t, label_name(l)) {
                    Err(AsmError::DuplicateLabel)
                } else {
                    Ok(t.push((label_name(l), count_nonlabel(lines.drop_last()) as u32)))
                }
            },
        }
    }
}

/// The line sequence with every label declaration deleted.
pub open spec fn spec_drop_label_decls(lines: Seq<Seq<Seq<char>>>) -> Seq<Seq<Seq<char>>>
    decreases lines.len(),
{
    if lines.len() == 0 {
        Seq::empty()
    } else {
        let rest = spec_drop_label_decls(lines.drop_last());
        if is_label_decl(lines.last()) {
            rest
        } else {
            rest.push(lines.last())
        }
    }
}

/// The label resolver: collect the table, delete the declarations,
/// substitute every reference by its address.
pub open spec fn spec_process_labels(lines: Seq<Seq<Seq<char>>>) -> Result<
    Seq<Seq<Seq<char>>>,
    AsmError,
> {
    match spec_label_table(lines) {
        Err(e) => Err(e),
        Ok(t) => Ok(spec_subst_lines(t, spec_drop_label_decls(lines))),
    }
}

/// A failed table scan of a prefix decides the scan of the whole sequence.
proof fn lemma_label_table_err(lines: Seq<Seq<Seq<char>>>, i: int)
    requires
        0 <= i <= lines.len(),
        spec_label_table(lines.take(i)) is Err,
    ensures
        spec_label_table(lines) == spec_label_table(lines.take(i)),
    decreases lines.len() - i,
{
    if i == lines.len() {
        assert(lines.take(i) =~= lines);
    } else {
        assert(lines.take(i + 1).drop_last() =~= lines.take(i));
        lemma_label_table_err(lines, i + 1);
    }
}

/// The count of surviving lines never exceeds the line count.
proof fn lemma_count_nonlabel_le(lines: Seq<Seq<Seq<char>>>)
    ensures
        0 <= count_nonlabel(lines) <= lines.len(),
    decreases lines.len(),
{
    if lines.len() > 0 {
        lemma_count_nonlabel_le(lines.drop_last());
    }
}

/// Deleting label declarations keeps well-formedness.
proof fn lemma_drop_label_decls_wf(lines: Seq<Seq<Seq<char>>>)
    requires
        wf_lines(lines),
    ensures
        wf_lines(spec_drop_label_decls(lines)),
        spec_drop_label_decls(lines).len() <= lines.len(),
    decreases lines.len(),
{
    if lines.len() > 0 {
        let prefix = lines.drop_last();
        assert(wf_lines(prefix)) by {
            assert(forall|i: int|
                0 <= i < prefix.len() ==> (#[trigger] prefix[i]).len() > 0);
            assert(forall|i: int, j: int|
                0 <= i < prefix.len() && 0 <= j < prefix[i].len()
                    ==> (#[trigger] prefix[i][j]).len() > 0);
        }
        lemma_drop_label_decls_wf(prefix);
    }
}

/// The resolver's output is well-formed and no longer than its input.
pub proof fn lemma_process_labels_wf(lines: Seq<Seq<Seq<char>>>)
    requires
        wf_lines(lines),
        spec_process_labels(lines) is Ok,
    ensures
        wf_lines(spec_process_labels(lines)->Ok_0),
        spec_process_labels(lines)->Ok_0.len() <= lines.len(),
{
    let t = spec_label_table(lines)->Ok_0;
    lemma_drop_label_decls_wf(lines);
    lemma_subst_lines_wf(t, spec_drop_label_decls(lines));
}

/// The word without its first and last characters, as an owned string.
fn word_middle(w: &str) -> (r: String)
    requires
        w@.len() >= 2,
    ensures
        r@ == w@.subrange(1, w@.len() - 1),
{
    let n = w.unicode_len();
    let mid = w.substring_char(1, n - 1);
    String::from_str(mid)
}

/// The label resolver: reads every `(NAME)` declaration into a fresh table,
/// resolving each to the 0-based position its line would occupy among the
/// surviving instruction lines, rejects malformed and duplicate
/// declarations, deletes the declaration lines, and replaces every
/// whole-word reference with the decimal numeral of its address. Must run
/// after every pass that deletes lines. On an error the line sequence is
/// unchanged.
pub fn process_labels(lines: &mut Vec<Vec<String>>) -> (r: Result<(), AsmError>)
    requires
        wf_lines(view_lines(old(lines)@)),
        old(lines)@.len() <= u32::MAX,
    ensures
        r is Ok ==> spec_process_labels(view_lines(old(lines)@)) is Ok && view_lines(
            final(lines)@,
        ) == spec_process_labels(view_lines(old(lines)@))->Ok_0,
        r is Err ==> spec_process_labels(view_lines(old(lines)@)) is Err && r->Err_0
            == spec_process_labels(view_lines(old(lines)@))->Err_0 && final(lines)@ == old(
            lines,
        )@,
{
    let ghost lv = view_lines(lines@);
    let n = lines.len();
    let mut table = SymbolTable::new();
    let mut survivors: u32 = 0;
    let mut i: usize = 0;
    while i < n
        invariant
            0 <= i <= n,
            n == lines.len(),
            n <= u32::MAX,
            lv == view_lines(lines@),
            wf_lines(lv),
            survivors == count_nonlabel(lv.take(i as int)),
            spec_label_table(lv.take(i as int)) == Ok::<Seq<(Seq<char>, u32)>, AsmError>(table@),
        decreases n - i,
    {
        proof {
            assert(lv.take(i as int + 1).drop_last() =~= lv.take(i as int));
            assert(lv.take(i as int + 1).last() == lv[i as int]);
            assert(lv[i as int].len() > 0);
            assert(lv[i as int][0].len() > 0);
            lemma_count_nonlabel_le(lv.take(i as int));
        }
        let line = &lines[i];
        if char_at_is(line[0].as_str(), 0, '(') {
            assert(is_label_decl(lv[i as int]));
            let w0 = line[0].as_str();
            let wn = w0.unicode_len();
            if line.len() != 1 || !char_at_is(w0, wn - 1, ')') {
                proof {
                    assert(!wf_label_decl(lv[i as int]));
                    lemma_label_table_err(lv, i as int + 1);
                }
                return Err(AsmError::MalformedLabel);
            }
            assert(wf_label_decl(lv[i as int]));
            assert(wn >= 2) by {
                if wn == 1 {
                    assert(lv[i as int][0][0] == '(');
                    assert(lv[i as int][0].last() == ')');
                }
            }
            let name = word_middle(w0);
            assert(name@ == label_name(lv[i as int]));
            if table.contains(name.as_str()) {
                proof {
                    lemma_label_table_err(lv, i as int + 1);
                }
                return Err(AsmError::DuplicateLabel);
            }
            table.insert(name, survivors);
        } else {
            assert(!is_label_decl(lv[i as int]));
            survivors += 1;
        }
        i += 1;
    }
    proof {
        assert(lv.take(n as int) =~= lv);
    }
    let mut out: Vec<Vec<String>> = Vec::new();
    let mut i: usize = 0;
    while i < n
        invariant
            0 <= i <= n,
            n == lines.len(),
            lv == view_lines(lines@),
            wf_lines(lv),
            spec_label_table(lv) == Ok::<Seq<(Seq<char>, u32)>, AsmError>(table@),
            view_lines(out@) == spec_subst_lines(table@, spec_drop_label_decls(lv.take(i as int))),
        decreases n - i,
    {
        proof {
            assert(lv.take(i as int + 1).drop_last() =~= lv.take(i as int));
            assert(lv.take(i as int + 1).last() == lv[i as int]);
            assert(lv[i as int].len() > 0);
            assert(lv[i as int][0].len() > 0);
        }
        let line = &lines[i];
        if !char_at_is(line[0].as_str(), 0, '(') {
            let ghost before = view_lines(out@);
            let mapped = subst_line_exec(line, &table);
            out.push(mapped);
            proof {
                assert(view_lines(out@) =~= before.push(
                    spec_subst_line(table@, lv[i as int]),
                ));
                assert(spec_drop_label_decls(lv.take(i as int + 1))
                    == spec_drop_label_decls(lv.take(i as int)).push(lv[i as int]));
                assert(view_lines(out@) =~= spec_subst_lines(
                    table@,
                    spec_drop_label_decls(lv.take(i as int + 1)),
                ));
            }
        }
        i += 1;
    }
    proof {
        assert(lv.take(n as int) =~= lv);
    }
    *lines = out;
    Ok(())
}

// ---------------------------------------------------------------------------
// Instruction decoding
// ---------------------------------------------------------------------------

/// Decodes one resolved token line: the first word must be an operation
/// name, the operand count must match the operation's shape exactly, and the
/// operands must parse by the shape's grammar.
pub open spec fn spec_decode_line(l: Seq<Seq<char>>) -> Result<Instruction, AsmError>
    recommends
        l.len() > 0,
{
    match spec_operation_of(l[0]) {
        None => Err(AsmError::UnknownOperation),
        Some(op) => match op_shape(op) {
            Type::A => if l.len() != 4 {
                Err(AsmError::OperandCount)
            } else {
                match spec_register_of(l[1]) {
                    None => Err(AsmError::UnknownRegister),
                    Some(r1) => match spec_register_of(l[2]) {
                        None => Err(AsmError::UnknownRegister),
                        Some(r2) => match spec_register_of(l[3]) {
                            None => Err(AsmError::UnknownRegister),
                            Some(r3) => Ok(Instruction {
                                instruction_type: Type::A,
                                operation: op,
                                register1: Some(r1),
                                register2: Some(r2),
                                register3: Some(r3),
                                immediate: None,
                            }),
                        },
                    },
                }
            },
            Type::I => if l.len() != 2 {
                Err(AsmError::OperandCount)
            } else {
                match spec_immediate12(l[1]) {
                    Err(e) => Err(e),
                    Ok(v) => Ok(Instruction {
                        instruction_type: Type::I,
                        operation: op,
                        register1: None,
                        register2: None,
                        register3: None,
                        immediate: Some(v),
                    }),
                }
            },
            Type::J => if l.len() != 2 {
                Err(AsmError::OperandCount)
            } else {
                match spec_register_of(l[1]) {
                    None => Err(AsmError::UnknownRegister),
                    Some(r1) => Ok(Instruction {
                        instruction_type: Type::J,
                        operation: op,
                        register1: Some(r1),
                        register2: None,
                        register3: None,
                        immediate: None,
                    }),
                }
            },
            Type::M => if l.len() != 4 {
                Err(AsmError::OperandCount)
            } else {
                match spec_register_of(l[1]) {
                    None => Err(AsmError::UnknownRegister),
                    Some(r1) => match spec_register_of(l[2]) {
                        None => Err(AsmError::UnknownRegister),
                        Some(r2) => match spec_immediate6(l[3]) {
                            Err(e) => Err(e),
                            Ok(v) => Ok(Instruction {
                                instruction_type: Type::M,
                                operation: op,
                                register1: Some(r1),
                                register2: Some(r2),
                                register3: None,
                                immediate: Some(v),
                            }),
                        },
                    },
                }
            },
            Type::N => if l.len() != 3 {
                Err(AsmError::OperandCount)
            } else {
                match spec_register_of(l[1]) {
                    None => Err(AsmError::UnknownRegister),
                    Some(r1) => match spec_register_of(l[2]) {
                        None => Err(AsmError::UnknownRegister),
                        Some(r2) => Ok(Instruction {
                            instruction_type: Type::N,
                            operation: op,
                            register1: Some(r1),
                            register2: Some(r2),
                            register3: None,
                            immediate: None,
                        }),
                    },
                }
            },
        },
    }
}

/// Decodes the lines in order, stopping at the first failing line.
pub open spec fn spec_decode(lines: Seq<Seq<Seq<char>>>) -> Result<Seq<Instruction>, AsmError>
    decreases lines.len(),
{
    if lines.len() == 0 {
        Ok(Seq::empty())
    } else {
        match spec_decode(lines.drop_last()) {
            Err(e) => Err(e),
            Ok(rest) => match spec_decode_line(lines.last()) {
                Err(e) => Err(e),
                Ok(i) => Ok(rest.push(i)),
            },
        }
    }
}

/// A failed decode of a prefix decides the decode of the whole sequence.
proof fn lemma_decode_err(lines: Seq<Seq<Seq<char>>>, i: int)
    requires
        0 <= i <= lines.len(),
        spec_decode(lines.take(i)) is Err,
    ensures
        spec_decode(lines) == spec_decode(lines.take(i)),
    decreases lines.len() - i,
{
    if i == lines.len() {
        assert(lines.take(i) =~= lines);
    } else {
        assert(lines.take(i + 1).drop_last() =~= lines.take(i));
        lemma_decode_err(lines, i + 1);
    }
}

/// Every instruction a successful decode produces is well-formed: the
/// populated fields match the shape, registers are below eight and
/// immediates are within their bit widths.
pub proof fn lemma_decode_wf(lines: Seq<Seq<Seq<char>>>)
    requires
        spec_decode(lines) is Ok,
    ensures
        forall|k: int|
            0 <= k < spec_decode(lines)->Ok_0.len() ==> wf_instruction(
                #[trigger] spec_decode(lines)->Ok_0[k],
            ),
    decreases lines.len(),
{
    if lines.len() > 0 {
        lemma_decode_wf(lines.drop_last());
    }
}

/// Decodes each resolved token line into a typed instruction record, in
/// order, using the fixed operation-to-shape mapping and shape-specific
/// operand grammar. Fails on the first line with an unknown operation name,
/// a wrong operand count, an unknown register name, or a bad immediate.
pub fn lines_to_instructions(lines: &Vec<Vec<String>>) -> (r: Result<Vec<Instruction>, AsmError>)
    requires
        wf_lines(view_lines(lines@)),
    ensures
        r is Ok ==> spec_decode(view_lines(lines@)) is Ok && r->Ok_0@ == spec_decode(
            view_lines(lines@),
        )->Ok_0,
        r is Err ==> spec_decode(view_lines(lines@)) is Err && r->Err_0 == spec_decode(
            view_lines(lines@),
        )->Err_0,
{
    let ghost lv = view_lines(lines@);
    let n = lines.len();
    let mut out: Vec<Instruction> = Vec::new();
    let mut i: usize = 0;
    while i < n
        invariant
            0 <= i <= n,
            n == lines.len(),
            lv == view_lines(lines@),
            wf_lines(lv),
            spec_decode(lv.take(i as int)) == Ok::<Seq<Instruction>, AsmError>(out@),
        decreases n - i,
    {
        proof {
            assert(lv.take(i as int + 1).drop_last() =~= lv.take(i as int));
            assert(lv.take(i as int + 1).last() == lv[i as int]);
            assert(lv[i as int].len() > 0);
        }
        let line = &lines[i];
        match decode_line(line) {
            Err(e) => {
                proof {
                    lemma_decode_err(lv, i as int + 1);
                }
                return Err(e);
            },
            Ok(instruction) => {
                out.push(instruction);
            },
        }
        i += 1;
    }
    proof {
        assert(lv.take(n as int) =~= lv);
    }
    Ok(out)
}

/// Decodes one token line.
fn decode_line(line: &Vec<String>) -> (r: Result<Instruction, AsmError>)
    requires
        view_line(line@).len() > 0,
    ensures
        r == spec_decode_line(view_line(line@)),
{
    let op = match str_to_operation(line[0].as_str()) {
        None => {
            return Err(AsmError::UnknownOperation);
        },
        Some(op) => op,
    };
    match operation_to_type(&op) {
        Type::A => {
            if line.len() != 4 {
                return Err(AsmError::OperandCount);
            }
            let r1 = match str_to_register(line[1].as_str()) {
                None => {
                    return Err(AsmError::UnknownRegister);
                },
                Some(r) => r,
            };
            let r2 = match str_to_register(line[2].as_str()) {
                None => {
                    return Err(AsmError::UnknownRegister);
                },
                Some(r) => r,
            };
            let r3 = match str_to_register(line[3].as_str()) {
                None => {
                    return Err(AsmError::UnknownRegister);
                },
                Some(r) => r,
            };
            Ok(Instruction {
                instruction_type: Type::A,
                operation: op,
                register1: Some(r1),
                register2: Some(r2),
                register3: Some(r3),
                immediate: None,
            })
        },
        Type::I => {
            if line.len() != 2 {
                return Err(AsmError::OperandCount);
            }
            match str_to_immediate12(line[1].as_str()) {
                Err(e) => Err(e),
                Ok(v) => Ok(Instruction {
                    instruction_type: Type::I,
                    operation: op,
                    register1: None,
                    register2: None,
                    register3: None,
                    immediate: Some(v),
                }),
            }
        },
        Type::J => {
            if line.len() != 2 {
                return Err(AsmError::OperandCount);
            }
            match str_to_register(line[1].as_str()) {
                None => Err(AsmError::UnknownRegister),
                Some(r1) => Ok(Instruction {
                    instruction_type: Type::J,
                    operation: op,
                    register1: Some(r1),
                    register2: None,
                    register3: None,
                    immediate: None,
                }),
            }
        },
        Type::M => {
            if line.len() != 4 {
                return Err(AsmError::OperandCount);
            }
            let r1 = match str_to_register(line[1].as_str()) {
                None => {
                    return Err(AsmError::UnknownRegister);
                },
                Some(r) => r,
            };
            let r2 = match str_to_register(line[2].as_str()) {
                None => {
                    return Err(AsmError::UnknownRegister);
                },
                Some(r) => r,
            };
            match str_to_immediate6(line[3].as_str()) {
                Err(e) => Err(e),
                Ok(v) => Ok(Instruction {
                    instruction_type: Type::M,
                    operation: op,
                    register1: Some(r1),
                    register2: Some(r2),
                    register3: None,
                    immediate: Some(v),
                }),
            }
        },
        Type::N => {
            if line.len() != 3 {
                return Err(AsmError::OperandCount);
            }
            let r1 = match str_to_register(line[1].as_str()) {
                None => {
                    return Err(AsmError::UnknownRegister);
                },
                Some(r) => r,
            };
            match str_to_register(line[2].as_str()) {
                None => Err(AsmError::UnknownRegister),
                Some(r2) => Ok(Instruction {
                    instruction_type: Type::N,
                    operation: op,
                    register1: Some(r1),
                    register2: Some(r2),
                    register3: None,
                    immediate: None,
                }),
            }
        },
    }
}

// ---------------------------------------------------------------------------
// The whole pipeline
// ---------------------------------------------------------------------------

/// The assembler pipeline: strip comments, resolve constants, resolve
/// labels, decode. The first failing pass decides the error.
pub open spec fn spec_assemble(lines: Seq<Seq<Seq<char>>>) -> Result<Seq<Instruction>, AsmError> {
    let stripped = spec_strip_comments(lines);
    match spec_process_constants(stripped) {
        Err(e) => Err(e),
        Ok(resolved) => match spec_process_labels(resolved) {
            Err(e) => Err(e),
            Ok(addressed) => spec_decode(addressed),
        },
    }
}

/// Runs the whole assembler pipeline over raw token lines and returns the
/// decoded program. Every instruction returned is well-formed.
pub fn assemble(lines: &mut Vec<Vec<String>>) -> (r: Result<Vec<Instruction>, AsmError>)
    requires
        wf_words(view_lines(old(lines)@)),
        old(lines)@.len() <= u32::MAX,
    ensures
        r is Ok ==> spec_assemble(view_lines(old(lines)@)) is Ok && r->Ok_0@ == spec_assemble(
            view_lines(old(lines)@),
        )->Ok_0 && (forall|k: int|
            0 <= k < r->Ok_0@.len() ==> wf_instruction(#[trigger] r->Ok_0@[k])),
        r is Err ==> spec_assemble(view_lines(old(lines)@)) is Err && r->Err_0 == spec_assemble(
            view_lines(old(lines)@),
        )->Err_0,
{
    let ghost lv0 = view_lines(lines@);
    remove_comments(lines);
    proof {
        lemma_strip_comments_wf(lv0);
    }
    match process_constants(lines) {
        Err(e) => {
            return Err(e);
        },
        Ok(()) => {},
    }
    proof {
        lemma_process_constants_wf(spec_strip_comments(lv0));
    }
    match process_labels(lines) {
        Err(e) => {
            return Err(e);
        },
        Ok(()) => {},
    }
    proof {
        lemma_process_labels_wf(spec_process_constants(spec_strip_comments(lv0))->Ok_0);
    }
    let r = lines_to_instructions(lines);
    proof {
        if r is Ok {
            lemma_decode_wf(view_lines(lines@));
        }
    }
    r
}

} // verus!
