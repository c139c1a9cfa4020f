//! Decimal digits: the spec-level meaning of digit characters, the
//! canonical decimal rendering of a natural number, and the executable
//! digit conversions that the field parser and the session codec share.
use vstd::prelude::*;

verus! {

/// True exactly of the ten decimal digit characters.
pub open spec fn is_dec_digit(c: char) -> bool {
    c == '0' || c == '1' || c == '2' || c == '3' || c == '4' || c == '5' || c == '6' || c == '7'
        || c == '8' || c == '9'
}

/// Numeric value of a decimal digit character (0 on any other character).
pub open spec fn digit_val(c: char) -> nat {
    if c == '1' {
        1
    } else if c == '2' {
        2
    } else if c == '3' {
        3
    } else if c == '4' {
        4
    } else if c == '5' {
        5
    } else if c == '6' {
        6
    } else if c == '7' {
        7
    } else if c == '8' {
        8
    } else if c == '9' {
        9
    } else {
        0
    }
}

/// The digit character of a value below ten ('0' on anything else).
pub open spec fn dec_digit_char(d: nat) -> char {
    if d == 1 {
        '1'
    } else if d == 2 {
        '2'
    } else if d == 3 {
        '3'
    } else if d == 4 {
        '4'
    } else if d == 5 {
        '5'
    } else if d == 6 {
        '6'
    } else if d == 7 {
        '7'
    } else if d == 8 {
        '8'
    } else if d == 9 {
        '9'
    } else {
        '0'
    }
}

/// Every character of `s` is a decimal digit.
pub open spec fn all_dec_digits(s: Seq<char>) -> bool {
    forall|i: int| 0 <= i < s.len() ==> is_dec_digit(#[trigger] s[i])
}

/// Value of a digit sequence read from the left, starting from an
/// accumulated prefix value `acc` (most significant digits first).
pub open spec fn chars_val(s: Seq<char>, acc: nat) -> nat
    decreases s.len(),
{
    if s.len() == 0 {
        acc
    } else {
        chars_val(s.drop_first(), acc * 10 + digit_val(s[0]))
    }
}

/// Canonical decimal rendering of a natural number: no sign, no leading
/// zero except for the single digit of zero itself.
pub open spec fn dec_chars(n: nat) -> Seq<char>
    decreases n,
{
    if n < 10 {
        seq![dec_digit_char(n)]
    } else {
        dec_chars(n / 10).push(dec_digit_char(n % 10))
    }
}

/// Digit characters round-trip through their numeric value.
pub proof fn lemma_dec_digit_char_val(d: nat)
    requires
        d < 10,
    ensures
        is_dec_digit(dec_digit_char(d)),
        digit_val(dec_digit_char(d)) == d,
{
}

/// The decimal rendering is never empty and consists of digits only.
pub proof fn lemma_dec_chars_digits(n: nat)
    ensures
        dec_chars(n).len() >= 1,
        all_dec_digits(dec_chars(n)),
    decreases n,
{
    if n < 10 {
        lemma_dec_digit_char_val(n);
    } else {
        lemma_dec_chars_digits(n / 10);
        lemma_dec_digit_char_val(n % 10);
        assert forall|i: int| 0 <= i < dec_chars(n).len() implies is_dec_digit(
            #[trigger] dec_chars(n)[i],
        ) by {
            if i < dec_chars(n / 10).len() {
                assert(dec_chars(n)[i] == dec_chars(n / 10)[i]);
            }
        }
    }
}

/// Reading one more digit on the right multiplies the value by ten and
/// adds that digit.
pub proof fn lemma_chars_val_snoc(s: Seq<char>, c: char, acc: nat)
    ensures
        chars_val(s.push(c), acc) == chars_val(s, acc) * 10 + digit_val(c),
    decreases s.len(),
{
    reveal_with_fuel(chars_val, 3);
    if s.len() == 0 {
        assert(s.push(c)[0] == c);
        assert(s.push(c).drop_first() =~= Seq::<char>::empty());
    } else {
        assert(s.push(c)[0] == s[0]);
        assert(s.push(c).drop_first() =~= s.drop_first().push(c));
        lemma_chars_val_snoc(s.drop_first(), c, acc * 10 + digit_val(s[0]));
        assert(chars_val(s.push(c), acc) == chars_val(s.drop_first().push(c), acc * 10 + digit_val(
            s[0],
        )));
    }
}

/// Reading a concatenation reads the left part first, then continues
/// with its value as the accumulator.
pub proof fn lemma_chars_val_concat(a: Seq<char>, b: Seq<char>, acc: nat)
    ensures
        chars_val(a + b, acc) == chars_val(b, chars_val(a, acc)),
    decreases a.len(),
{
    reveal_with_fuel(chars_val, 3);
    if a.len() == 0 {
        assert(a + b =~= b);
    } else {
        assert((a + b)[0] == a[0]);
        assert((a + b).drop_first() =~= a.drop_first() + b);
        lemma_chars_val_concat(a.drop_first(), b, acc * 10 + digit_val(a[0]));
    }
}

/// Reading digits never lowers the accumulated value.
pub proof fn lemma_chars_val_ge_acc(s: Seq<char>, acc: nat)
    ensures
        chars_val(s, acc) >= acc,
    decreases s.len(),
{
    if s.len() > 0 {
        lemma_chars_val_ge_acc(s.drop_first(), acc * 10 + digit_val(s[0]));
    }
}

/// Reading back the canonical decimal rendering gives the number itself.
pub proof fn lemma_chars_val_dec_chars(n: nat)
    ensures
        chars_val(dec_chars(n), 0) == n,
    decreases n,
{
    reveal_with_fuel(chars_val, 3);
    if n < 10 {
        lemma_dec_digit_char_val(n);
        assert(seq![dec_digit_char(n)].drop_first() =~= Seq::<char>::empty());
    } else {
        lemma_chars_val_dec_chars(n / 10);
        lemma_chars_val_snoc(dec_chars(n / 10), dec_digit_char(n % 10), 0);
        lemma_dec_digit_char_val(n % 10);
        vstd::arithmetic::div_mod::lemma_fundamental_div_mod(n as int, 10);
    }
}

/// Executable digit test and conversion: the numeric value of `c` when it
/// is a decimal digit.
pub fn digit_of_char(c: char) -> (r: Option<u8>)
    ensures
        match r {
            Some(d) => is_dec_digit(c) && d as nat == digit_val(c) && d < 10,
            None => !is_dec_digit(c),
        },
{
    match c {
        '0' => Some(0u8),
        '1' => Some(1u8),
        '2' => Some(2u8),
        '3' => Some(3u8),
        '4' => Some(4u8),
        '5' => Some(5u8),
        '6' => Some(6u8),
        '7' => Some(7u8),
        '8' => Some(8u8),
        '9' => Some(9u8),
        _ => None,
    }
}

/// Executable rendering of one digit value as a one-character string.
pub fn digit_str(d: u8) -> (r: &'static str)
    requires
        d < 10,
    ensures
        r@ == seq![dec_digit_char(d as nat)],
{
    let r: &'static str = match d {
        0u8 => "0",
        1u8 => "1",
        2u8 => "2",
        3u8 => "3",
        4u8 => "4",
        5u8 => "5",
        6u8 => "6",
        7u8 => "7",
        8u8 => "8",
        _ => "9",
    };
    proof {
        reveal_strlit("0");
        reveal_strlit("1");
        reveal_strlit("2");
        reveal_strlit("3");
        reveal_strlit("4");
        reveal_strlit("5");
        reveal_strlit("6");
        reveal_strlit("7");
        reveal_strlit("8");
        reveal_strlit("9");
        assert(r@ =~= seq![dec_digit_char(d as nat)]);
    }
    r
}

} // verus!
