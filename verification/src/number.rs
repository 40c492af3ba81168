//! Decimal and hexadecimal digits: rendering `u64` values as text and
//! reading them back the way `u64::from_str_radix` does.

use vstd::prelude::*;
use crate::text::push_char;

verus! {

/// The character of digit `d` (0 to 15), lowercase for 10 to 15.
pub open spec fn digit_char(d: nat) -> char {
    if d < 10 {
        (48 + d) as char
    } else {
        (87 + d) as char
    }
}

/// The decimal digits of `n`, most significant first, without leading zeros
/// (`"0"` for zero), as `{}` formats an unsigned integer.
pub open spec fn decimal(n: nat) -> Seq<char>
    decreases n,
{
    if n < 10 {
        seq![digit_char(n)]
    } else {
        decimal(n / 10).push(digit_char(n % 10))
    }
}

/// The lowest `width` hexadecimal digits of `n`, most significant first,
/// lowercase and zero-padded.
pub open spec fn hex_width(n: nat, width: nat) -> Seq<char>
    decreases width,
{
    if width == 0 {
        seq![]
    } else {
        hex_width(n / 16, (width - 1) as nat).push(digit_char(n % 16))
    }
}

/// `n` as sixteen lowercase hexadecimal digits, as `{:016x}` formats a `u64`.
pub open spec fn hex16(n: u64) -> Seq<char> {
    hex_width(n as nat, 16)
}

/// The value of `c` as a digit in base `radix` (`char::to_digit`): `0`-`9`,
/// then letters of either case for 10 and up, only below `radix`.
pub open spec fn char_digit(c: char, radix: nat) -> Option<nat> {
    let v: int = if '0' <= c && c <= '9' {
        c as int - 48
    } else if 'a' <= c && c <= 'z' {
        c as int - 87
    } else if 'A' <= c && c <= 'Z' {
        c as int - 55
    } else {
        radix as int
    };
    if v < radix {
        Some(v as nat)
    } else {
        None
    }
}

/// The value of the digit string `d` in base `radix`, if every character is
/// a digit of that base (zero for no digits).
pub open spec fn digits_value(d: Seq<char>, radix: nat) -> Option<nat>
    decreases d.len(),
{
    if d.len() == 0 {
        Some(0)
    } else {
        match (digits_value(d.drop_last(), radix), char_digit(d.last(), radix)) {
            (Some(high), Some(low)) => Some(high * radix + low),
            _ => None,
        }
    }
}

/// What `u64::from_str_radix(s, radix)` gives: an optional leading `+`, then
/// at least one digit of base `radix` and nothing else, for a value that
/// fits in a `u64`.
pub open spec fn parse_unsigned(s: Seq<char>, radix: nat) -> Option<u64> {
    let d = if s.len() > 0 && s[0] == '+' {
        s.drop_first()
    } else {
        s
    };
    if d.len() == 0 {
        None
    } else {
        match digits_value(d, radix) {
            Some(v) => if v <= u64::MAX {
                Some(v as u64)
            } else {
                None
            },
            None => None,
        }
    }
}

/// The character of digit `d`.
pub fn digit_to_char(d: u64) -> (c: char)
    requires
        d < 16,
    ensures
        c == digit_char(d as nat),
{
    if d < 10 {
        ((48 + d) as u8) as char
    } else {
        ((87 + d) as u8) as char
    }
}

/// Appends the decimal digits of `n` to `s`.
pub fn push_decimal(s: &mut String, n: u64)
    ensures
        final(s)@ == old(s)@ + decimal(n as nat),
    decreases n,
{
    if n >= 10 {
        push_decimal(s, n / 10);
    }
    push_char(s, digit_to_char(n % 10));
    proof {
        if n < 10 {
            assert(decimal(n as nat) =~= seq![digit_char(n as nat)]);
        }
    }
}

/// Appends the lowest `width` hexadecimal digits of `n` to `s`.
pub fn push_hex_width(s: &mut String, n: u64, width: u64)
    ensures
        final(s)@ == old(s)@ + hex_width(n as nat, width as nat),
    decreases width,
{
    if width > 0 {
        push_hex_width(s, n / 16, width - 1);
        push_char(s, digit_to_char(n % 16));
    } else {
        assert(hex_width(n as nat, 0) =~= Seq::<char>::empty());
        assert(old(s)@ + Seq::<char>::empty() =~= old(s)@);
    }
}

/// Appends `n` as sixteen lowercase hexadecimal digits to `s`.
pub fn push_hex16(s: &mut String, n: u64)
    ensures
        final(s)@ == old(s)@ + hex16(n),
{
    push_hex_width(s, n, 16);
}

/// The value of `c` as a digit in base `radix`.
pub fn char_to_digit(c: char, radix: u64) -> (d: Option<u64>)
    requires
        2 <= radix <= 36,
    ensures
        d == (match char_digit(c, radix as nat) {
            Some(v) => Some(v as u64),
            None => None::<u64>,
        }),
{
    let v: u64 = if '0' <= c && c <= '9' {
        (c as u32 - 48) as u64
    } else if 'a' <= c && c <= 'z' {
        (c as u32 - 87) as u64
    } else if 'A' <= c && c <= 'Z' {
        (c as u32 - 55) as u64
    } else {
        radix
    };
    if v < radix {
        Some(v)
    } else {
        None
    }
}

/// A prefix of a digit string that has a value has a value no larger.
pub proof fn lemma_digits_value_prefix(d: Seq<char>, radix: nat, i: int)
    requires
        0 <= i <= d.len(),
        radix >= 1,
        digits_value(d, radix) is Some,
    ensures
        digits_value(d.take(i), radix) is Some,
        digits_value(d.take(i), radix).unwrap() <= digits_value(d, radix).unwrap(),
    decreases d.len(),
{
    if i == d.len() {
        assert(d.take(i) =~= d);
    } else {
        assert(d.drop_last().take(i) =~= d.take(i));
        lemma_digits_value_prefix(d.drop_last(), radix, i);
        let high = digits_value(d.drop_last(), radix).unwrap();
        assert(high * radix >= high) by (nonlinear_arith)
            requires
                radix >= 1,
        ;
    }
}

/// Reads `cs[lo..hi]` as an unsigned number in base `radix`, as
/// `u64::from_str_radix` does.
pub fn parse_u64(cs: &Vec<char>, lo: usize, hi: usize, radix: u64) -> (r: Option<u64>)
    requires
        lo <= hi <= cs@.len(),
        2 <= radix <= 36,
    ensures
        r == parse_unsigned(cs@.subrange(lo as int, hi as int), radix as nat),
{
    let ghost s = cs@.subrange(lo as int, hi as int);
    let mut start = lo;
    if lo < hi && cs[lo] == '+' {
        start = lo + 1;
    }
    let ghost d = cs@.subrange(start as int, hi as int);
    assert(d =~= (if s.len() > 0 && s[0] == '+' { s.drop_first() } else { s }));
    if start == hi {
        return None;
    }
    let mut acc: u64 = 0;
    let mut i = start;
    while i < hi
        invariant
            start <= i <= hi <= cs@.len(),
            2 <= radix <= 36,
            d == cs@.subrange(start as int, hi as int),
            s == cs@.subrange(lo as int, hi as int),
            d == (if s.len() > 0 && s[0] == '+' { s.drop_first() } else { s }),
            d.len() > 0,
            digits_value(d.take(i - start), radix as nat) == Some(acc as nat),
        decreases hi - i,
    {
        let ghost k = i - start;
        assert(d.take(k + 1).drop_last() =~= d.take(k));
        assert(d.take(k + 1).last() == cs@[i as int]);
        match char_to_digit(cs[i], radix) {
            None => {
                proof {
                    if digits_value(d, radix as nat) is Some {
                        lemma_digits_value_prefix(d, radix as nat, k + 1);
                    }
                }
                return None;
            },
            Some(v) => {
                match acc.checked_mul(radix) {
                    None => {
                        proof {
                            if digits_value(d, radix as nat) is Some {
                                lemma_digits_value_prefix(d, radix as nat, k + 1);
                            }
                        }
                        return None;
                    },
                    Some(m) => match m.checked_add(v) {
                        None => {
                            proof {
                                if digits_value(d, radix as nat) is Some {
                                    lemma_digits_value_prefix(d, radix as nat, k + 1);
                                }
                            }
                            return None;
                        },
                        Some(next) => {
                            acc = next;
                        },
                    },
                }
            },
        }
        i = i + 1;
    }
    assert(d.take(i - start) =~= d);
    Some(acc)
}

/// Every digit character reads back as its digit.
pub proof fn lemma_digit_char_reads_back(d: nat, radix: nat)
    requires
        d < radix <= 16,
    ensures
        char_digit(digit_char(d), radix) == Some(d),
{
}

/// The decimal rendering of `n` reads back as the digits of `n`.
pub proof fn lemma_decimal_value(n: nat)
    ensures
        digits_value(decimal(n), 10) == Some(n),
        decimal(n).len() > 0,
        forall|i: int| 0 <= i < decimal(n).len() ==> '0' <= #[trigger] decimal(n)[i] && decimal(n)[i] <= '9',
    decreases n,
{
    if n < 10 {
        lemma_digit_char_reads_back(n, 10);
        assert(decimal(n).drop_last() =~= Seq::<char>::empty());
        assert(digits_value(decimal(n).drop_last(), 10) == Some(0nat));
        assert(decimal(n).last() == digit_char(n));
    } else {
        lemma_decimal_value(n / 10);
        lemma_digit_char_reads_back(n % 10, 10);
        assert(decimal(n).drop_last() =~= decimal(n / 10));
        assert(decimal(n).last() == digit_char(n % 10));
        assert(n == (n / 10) * 10 + n % 10);
    }
}

/// Rendering a `u64` in decimal and reading it back gives the same value.
pub proof fn lemma_decimal_roundtrip(n: u64)
    ensures
        parse_unsigned(decimal(n as nat), 10) == Some(n),
{
    lemma_decimal_value(n as nat);
    assert('0' <= decimal(n as nat)[0]);
}

/// `16` to the power `w`.
pub open spec fn pow16(w: nat) -> nat
    decreases w,
{
    if w == 0 {
        1
    } else {
        16 * pow16((w - 1) as nat)
    }
}

/// The hexadecimal rendering of `n` in `width` digits reads back as `n`
/// modulo `16^width`.
pub proof fn lemma_hex_width_value(n: nat, width: nat)
    ensures
        digits_value(hex_width(n, width), 16) == Some(n % pow16(width)),
        hex_width(n, width).len() == width,
        forall|i: int| 0 <= i < width ==> #[trigger] char_digit(hex_width(n, width)[i], 16) is Some,
    decreases width,
{
    if width == 0 {
    } else {
        let w1 = (width - 1) as nat;
        lemma_hex_width_value(n / 16, w1);
        lemma_digit_char_reads_back(n % 16, 16);
        assert(hex_width(n, width).drop_last() =~= hex_width(n / 16, w1));
        assert(pow16(w1) > 0) by {
            lemma_pow16_positive(w1);
        }
        vstd::arithmetic::div_mod::lemma_mod_breakdown(n as int, 16, pow16(w1) as int);
        assert forall|i: int| 0 <= i < width implies #[trigger] char_digit(hex_width(n, width)[i], 16) is Some by {
            if i < w1 {
                assert(hex_width(n, width)[i] == hex_width(n / 16, w1)[i]);
            }
        }
    }
}

pub proof fn lemma_pow16_positive(w: nat)
    ensures
        pow16(w) > 0,
    decreases w,
{
    if w > 0 {
        lemma_pow16_positive((w - 1) as nat);
    }
}

/// Rendering a `u64` as sixteen hexadecimal digits and reading it back
/// gives the same value.
pub proof fn lemma_hex16_roundtrip(n: u64)
    ensures
        parse_unsigned(hex16(n), 16) == Some(n),
        hex16(n).len() == 16,
{
    lemma_hex_width_value(n as nat, 16);
    reveal_with_fuel(pow16, 17);
    assert(pow16(16) == 0x1_0000_0000_0000_0000nat);
    assert(char_digit(hex16(n)[0], 16) is Some);
}

} // verus!
