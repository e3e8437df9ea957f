//! Decimal text: the numeric value of a digit string, the digit string of a
//! number, an exact unsigned-decimal parser and printer, and character-level
//! string equality. The assembler substitutes symbols by printed values and
//! the decoder parses them back, so the two directions are proved inverse.

use vstd::prelude::*;

verus! {

/// `c` is one of the ten decimal digit characters.
pub open spec fn is_dec_digit(c: char) -> bool {
    48 <= (c as u32) && (c as u32) <= 57
}

/// The numeric value of a single digit character.
pub open spec fn digit_val(c: char) -> nat {
    ((c as u32) - 48) as nat
}

/// The digit character for a value below ten.
pub open spec fn digit_char(d: nat) -> char {
    if d == 0 {
        '0'
    } else if d == 1 {
        '1'
    } else if d == 2 {
        '2'
    } else if d == 3 {
        '3'
    } else if d == 4 {
        '4'
    } else if d == 5 {
        '5'
    } else if d == 6 {
        '6'
    } else if d == 7 {
        '7'
    } else if d == 8 {
        '8'
    } else {
        '9'
    }
}

/// Every character of `s` is a decimal digit.
pub open spec fn is_digits(s: Seq<char>) -> bool {
    forall|i: int| 0 <= i < s.len() ==> is_dec_digit(#[trigger] s[i])
}

/// The value of `s` read as an unsigned decimal numeral.
pub open spec fn dec_val(s: Seq<char>) -> nat
    decreases s.len(),
{
    if s.len() == 0 {
        0
    } else {
        dec_val(s.drop_last()) * 10 + digit_val(s.last())
    }
}

/// The decimal numeral of `n`, without leading zeros.
pub open spec fn dec_str(n: nat) -> Seq<char>
    decreases n,
{
    if n < 10 {
        seq![digit_char(n)]
    } else {
        dec_str(n / 10).push(digit_char(n % 10))
    }
}

/// `s` parses as a `u32`: nonempty, all digits, and within range.
pub open spec fn parses_as_u32(s: Seq<char>) -> bool {
    s.len() > 0 && is_digits(s) && dec_val(s) <= u32::MAX
}

/// The value of a longer digit prefix is at least the value of a shorter one.
pub proof fn lemma_dec_val_prefix_mono(s: Seq<char>, j1: int, j2: int)
    requires
        0 <= j1 <= j2 <= s.len(),
    ensures
        dec_val(s.subrange(0, j1)) <= dec_val(s.subrange(0, j2)),
    decreases j2 - j1,
{
    if j1 < j2 {
        lemma_dec_val_prefix_mono(s, j1, j2 - 1);
        let shorter = s.subrange(0, j2 - 1);
        let longer = s.subrange(0, j2);
        assert(longer.drop_last() =~= shorter);
        assert(dec_val(longer) == dec_val(shorter) * 10 + digit_val(longer.last()));
    }
}

/// Printing then reading a number is the identity, and the numeral is a
/// nonempty digit string.
pub proof fn lemma_dec_str_val(n: nat)
    ensures
        dec_str(n).len() >= 1,
        is_digits(dec_str(n)),
        dec_val(dec_str(n)) == n,
    decreases n,
{
    if n < 10 {
        assert(dec_str(n) =~= seq![digit_char(n)]);
        assert(dec_str(n).drop_last() =~= Seq::<char>::empty());
        assert(dec_str(n).last() == digit_char(n));
        assert(dec_val(Seq::<char>::empty()) == 0);
        assert(dec_val(dec_str(n)) == digit_val(digit_char(n)));
        assert(digit_val(digit_char(n)) == n);
    } else {
        lemma_dec_str_val(n / 10);
        let t = dec_str(n / 10);
        let whole = t.push(digit_char(n % 10));
        assert(whole.drop_last() =~= t);
        assert(whole.last() == digit_char(n % 10));
        assert(digit_val(digit_char(n % 10)) == n % 10);
        assert(dec_val(whole) == (n / 10) * 10 + n % 10);
        assert((n / 10) * 10 + n % 10 == n) by (nonlinear_arith);
        assert(forall|i: int|
            0 <= i < whole.len() ==> is_dec_digit(#[trigger] whole[i]));
    }
}

/// Exact decimal parser: `Some` exactly on nonempty all-digit strings whose
/// value fits a `u32`, and then the value read.
pub fn parse_u32(word: &str) -> (r: Option<u32>)
    ensures
        r is Some <==> parses_as_u32(word@),
        r is Some ==> r.unwrap() == dec_val(word@),
{
    let n = word.unicode_len();
    if n == 0 {
        return None;
    }
    let mut acc: u32 = 0;
    let mut i: usize = 0;
    while i < n
        invariant
            0 <= i <= n,
            n == word@.len(),
            is_digits(word@.subrange(0, i as int)),
            acc == dec_val(word@.subrange(0, i as int)),
        decreases n - i,
    {
        let c = word.get_char(i);
        let cv = c as u32;
        if cv < 48 || cv > 57 {
            assert(!is_dec_digit(word@[i as int]));
            return None;
        }
        let d = cv - 48;
        if acc > (u32::MAX - d) / 10 {
            proof {
                let next = word@.subrange(0, i as int + 1);
                assert(next.drop_last() =~= word@.subrange(0, i as int));
                assert(next.last() == word@[i as int]);
                assert(dec_val(next) == acc * 10 + d);
                assert(acc * 10 + d > u32::MAX) by (nonlinear_arith)
                    requires
                        acc > (u32::MAX - d) / 10,
                        d <= 9,
                ;
                lemma_dec_val_prefix_mono(word@, i as int + 1, n as int);
                assert(word@.subrange(0, n as int) =~= word@);
            }
            return None;
        }
        proof {
            let next = word@.subrange(0, i as int + 1);
            assert(next.drop_last() =~= word@.subrange(0, i as int));
            assert(next.last() == word@[i as int]);
            assert(acc * 10 + d <= u32::MAX) by (nonlinear_arith)
                requires
                    acc <= (u32::MAX - d) / 10,
                    d <= 9,
            ;
        }
        acc = acc * 10 + d;
        i += 1;
    }
    proof {
        assert(word@.subrange(0, n as int) =~= word@);
    }
    Some(acc)
}

/// A one-character string for a digit value.
fn digit_str(d: u32) -> (r: &'static str)
    requires
        d < 10,
    ensures
        r@ =~= seq![digit_char(d as nat)],
{
    proof {
        reveal_strlit("0");
        reveal_strlit("1");
        reveal_strlit("2");
        reveal_strlit("3");
        reveal_strlit("4");
        reveal_strlit("5");
        reveal_strlit("6");
        reveal_strlit("7");
        reveal_strlit("8");
        reveal_strlit("9");
    }
    match d {
        0 => "0",
        1 => "1",
        2 => "2",
        3 => "3",
        4 => "4",
        5 => "5",
        6 => "6",
        7 => "7",
        8 => "8",
        _ => "9",
    }
}

/// Exact decimal printer: the returned string is the numeral of `v`.
pub fn u32_to_dec(v: u32) -> (r: String)
    ensures
        r@ == dec_str(v as nat),
    decreases v,
{
    if v < 10 {
        String::from_str(digit_str(v))
    } else {
        let mut s = u32_to_dec(v / 10);
        s.append(digit_str(v % 10));
        proof {
            assert(dec_str((v / 10) as nat).push(digit_char((v % 10) as nat))
                =~= dec_str((v / 10) as nat) + seq![digit_char((v % 10) as nat)]);
        }
        s
    }
}

/// Character-for-character string equality, decided in executable code.
pub fn str_eq(a: &str, b: &str) -> (r: bool)
    ensures
        r == (a@ == b@),
{
    let na = a.unicode_len();
    let nb = b.unicode_len();
    if na != nb {
        return false;
    }
    let mut i: usize = 0;
    while i < na
        invariant
            0 <= i <= na,
            na == a@.len(),
            na == b@.len(),
            forall|j: int| 0 <= j < i ==> a@[j] == b@[j],
        decreases na - i,
    {
        if a.get_char(i) != b.get_char(i) {
            return false;
        }
        i += 1;
    }
    proof {
        assert(a@ =~= b@);
    }
    true
}

} // verus!
