//! Unsigned numbers as ASCII text: reading and writing them in base 10 and
//! base 16.
//!
//! A number is an optional `+` followed by one or more digits. Hexadecimal
//! digits are accepted in either case and written in lower case.

use vstd::prelude::*;

verus! {

pub const PLUS: u8 = 43;

pub const DIGIT_ZERO: u8 = 48;

pub const DIGIT_NINE: u8 = 57;

pub const UPPER_A: u8 = 65;

pub const UPPER_Z: u8 = 90;

pub const LOWER_A: u8 = 97;

pub const LOWER_Z: u8 = 122;

/// The bases in which numbers are read and written.
pub open spec fn radix_ok(radix: nat) -> bool {
    radix == 10 || radix == 16
}

/// The value of an ASCII digit or letter, letters counting from ten.
pub open spec fn digit_value(b: u8) -> Option<nat> {
    if DIGIT_ZERO <= b <= DIGIT_NINE {
        Some((b - DIGIT_ZERO) as nat)
    } else if LOWER_A <= b <= LOWER_Z {
        Some((b - LOWER_A + 10) as nat)
    } else if UPPER_A <= b <= UPPER_Z {
        Some((b - UPPER_A + 10) as nat)
    } else {
        None
    }
}

/// Whether `b` is a digit of base `radix`.
pub open spec fn is_digit(b: u8, radix: nat) -> bool {
    digit_value(b) is Some && digit_value(b).unwrap() < radix
}

/// The number that a string of digits denotes, most significant digit
/// first; `None` where some byte is no digit of the base. The empty string
/// denotes zero.
pub open spec fn digits_value(s: Seq<u8>, radix: nat) -> Option<nat>
    decreases s.len(),
{
    if s.len() == 0 {
        Some(0)
    } else {
        match digits_value(s.drop_last(), radix) {
            Some(high) => if is_digit(s.last(), radix) {
                Some(high * radix + digit_value(s.last()).unwrap())
            } else {
                None
            },
            None => None,
        }
    }
}

/// The digits of a number's text: the text itself without a leading `+`.
pub open spec fn digits_part(s: Seq<u8>) -> Seq<u8> {
    if s.len() > 0 && s[0] == PLUS {
        s.subrange(1, s.len() as int)
    } else {
        s
    }
}

/// The number that a text denotes: an optional `+`, then at least one
/// digit, and nothing else.
pub open spec fn number_value(s: Seq<u8>, radix: nat) -> Option<nat> {
    if digits_part(s).len() == 0 {
        None
    } else {
        digits_value(digits_part(s), radix)
    }
}

/// What reading a text as a `usize` gives: its value where it denotes a
/// number that fits, `None` otherwise.
pub open spec fn parse_usize(s: Seq<u8>, radix: nat) -> Option<usize> {
    match number_value(s, radix) {
        Some(v) => if v <= usize::MAX {
            Some(v as usize)
        } else {
            None
        },
        None => None,
    }
}

/// The ASCII digit for a value below sixteen, letters in lower case.
pub open spec fn digit_char(d: nat) -> u8 {
    if d < 10 {
        (DIGIT_ZERO + d) as u8
    } else {
        (LOWER_A + d - 10) as u8
    }
}

/// The shortest text of a number in base ten, most significant digit
/// first.
pub open spec fn decimal_text(n: nat) -> Seq<u8>
    decreases n,
{
    if n < 10 {
        seq![digit_char(n)]
    } else {
        decimal_text(n / 10).push(digit_char(n % 10))
    }
}

/// The shortest text of a number in base sixteen, in lower case.
pub open spec fn hex_text(n: nat) -> Seq<u8>
    decreases n,
{
    if n < 16 {
        seq![digit_char(n)]
    } else {
        hex_text(n / 16).push(digit_char(n % 16))
    }
}

/// `count` zero digits.
pub open spec fn zeros(count: nat) -> Seq<u8> {
    Seq::new(count, |i: int| DIGIT_ZERO)
}

/// A number in base sixteen, filled up with leading zeros to `width`
/// digits where it is shorter.
pub open spec fn padded_hex_text(n: nat, width: nat) -> Seq<u8> {
    let digits = hex_text(n);
    if digits.len() < width {
        zeros((width - digits.len()) as nat) + digits
    } else {
        digits
    }
}

/// A string of digits denotes at least what each of its prefixes denotes.
pub proof fn lemma_digits_prefix(s: Seq<u8>, k: int, radix: nat)
    requires
        radix_ok(radix),
        0 <= k <= s.len(),
        digits_value(s, radix) is Some,
    ensures
        digits_value(s.subrange(0, k), radix) is Some,
        digits_value(s.subrange(0, k), radix).unwrap() <= digits_value(s, radix).unwrap(),
    decreases s.len(),
{
    if k == s.len() {
        assert(s.subrange(0, k) =~= s);
    } else {
        lemma_digits_prefix(s.drop_last(), k, radix);
        assert(s.drop_last().subrange(0, k) =~= s.subrange(0, k));
        let high = digits_value(s.drop_last(), radix).unwrap();
        assert(high * radix >= high) by (nonlinear_arith)
            requires
                radix >= 1,
                high >= 0,
        ;
    }
}

/// Whether every byte of `s` is a digit of base `radix`.
pub open spec fn all_digits(s: Seq<u8>, radix: nat) -> bool {
    forall|i: int| 0 <= i < s.len() ==> is_digit(#[trigger] s[i], radix)
}

/// The text of a number in base sixteen is not empty, holds digits only,
/// and denotes the number.
pub proof fn lemma_hex_text(n: nat)
    ensures
        hex_text(n).len() > 0,
        all_digits(hex_text(n), 16),
        digits_value(hex_text(n), 16) == Some(n),
    decreases n,
{
    let s = hex_text(n);
    if n >= 16 {
        lemma_hex_text(n / 16);
        assert(s.drop_last() =~= hex_text(n / 16));
        assert(s.last() == digit_char(n % 16));
        assert forall|i: int| 0 <= i < s.len() implies is_digit(#[trigger] s[i], 16) by {
            if i < s.len() - 1 {
                assert(s[i] == hex_text(n / 16)[i]);
            }
        }
    } else {
        assert(s.drop_last() =~= Seq::<u8>::empty());
        assert(digits_value(s.drop_last(), 16) == Some(0nat));
    }
}

/// The text of a number in base ten is not empty, holds digits only, and
/// denotes the number.
pub proof fn lemma_decimal_text(n: nat)
    ensures
        decimal_text(n).len() > 0,
        all_digits(decimal_text(n), 10),
        digits_value(decimal_text(n), 10) == Some(n),
    decreases n,
{
    let s = decimal_text(n);
    if n >= 10 {
        lemma_decimal_text(n / 10);
        assert(s.drop_last() =~= decimal_text(n / 10));
        assert(s.last() == digit_char(n % 10));
        assert forall|i: int| 0 <= i < s.len() implies is_digit(#[trigger] s[i], 10) by {
            if i < s.len() - 1 {
                assert(s[i] == decimal_text(n / 10)[i]);
            }
        }
    } else {
        assert(s.drop_last() =~= Seq::<u8>::empty());
        assert(digits_value(s.drop_last(), 10) == Some(0nat));
    }
}

/// Zeros in front of a string of digits do not change what it denotes.
pub proof fn lemma_leading_zeros(count: nat, s: Seq<u8>, radix: nat)
    requires
        radix_ok(radix),
    ensures
        digits_value(zeros(count) + s, radix) == digits_value(s, radix),
    decreases s.len(), count,
{
    let whole = zeros(count) + s;
    if s.len() > 0 {
        lemma_leading_zeros(count, s.drop_last(), radix);
        assert(whole.drop_last() =~= zeros(count) + s.drop_last());
        assert(whole.last() == s.last());
    } else if count > 0 {
        lemma_leading_zeros((count - 1) as nat, s, radix);
        assert(whole.drop_last() =~= zeros((count - 1) as nat) + s);
        assert(whole.last() == DIGIT_ZERO);
    } else {
        assert(whole =~= s);
    }
}

/// A number written in base sixteen, padded or not, reads back as itself.
pub proof fn lemma_parse_hex_text(n: usize, width: nat)
    ensures
        parse_usize(hex_text(n as nat), 16) == Some(n),
        parse_usize(padded_hex_text(n as nat, width), 16) == Some(n),
        all_digits(padded_hex_text(n as nat, width), 16),
        padded_hex_text(n as nat, width).len() > 0,
{
    lemma_hex_text(n as nat);
    let digits = hex_text(n as nat);
    let padded = padded_hex_text(n as nat, width);
    assert(is_digit(digits[0], 16));
    if digits.len() < width {
        let fill = (width - digits.len()) as nat;
        lemma_leading_zeros(fill, digits, 16);
        assert forall|i: int| 0 <= i < padded.len() implies is_digit(#[trigger] padded[i], 16) by {
            if i >= fill {
                assert(padded[i] == digits[i - fill]);
            }
        }
    }
    assert(is_digit(padded[0], 16));
}

/// A number written in base ten reads back as itself.
pub proof fn lemma_parse_decimal_text(n: usize)
    ensures
        parse_usize(decimal_text(n as nat), 10) == Some(n),
{
    lemma_decimal_text(n as nat);
    assert(is_digit(decimal_text(n as nat)[0], 10));
}

/// The value of one byte as a digit: `None` where it is neither an ASCII
/// digit nor an ASCII letter.
pub fn digit_of(b: u8) -> (r: Option<usize>)
    ensures
        r is Some <==> digit_value(b) is Some,
        r is Some ==> r.unwrap() == digit_value(b).unwrap() && r.unwrap() < 36,
{
    if DIGIT_ZERO <= b && b <= DIGIT_NINE {
        Some((b - DIGIT_ZERO) as usize)
    } else if LOWER_A <= b && b <= LOWER_Z {
        Some((b - LOWER_A + 10) as usize)
    } else if UPPER_A <= b && b <= UPPER_Z {
        Some((b - UPPER_A + 10) as usize)
    } else {
        None
    }
}

/// Reads `s` as a number in base `radix`.
fn parse_radix(s: &[u8], radix: usize) -> (r: Option<usize>)
    requires
        radix_ok(radix as nat),
    ensures
        r == parse_usize(s@, radix as nat),
{
    let n = s.len();
    let start: usize = if n > 0 && s[0] == PLUS {
        1
    } else {
        0
    };
    if start == n {
        return None;
    }
    let ghost body = s@.subrange(start as int, n as int);
    assert(body =~= digits_part(s@));
    let mut acc: usize = 0;
    let mut i: usize = start;
    while i < n
        invariant
            radix_ok(radix as nat),
            n == s.len(),
            start <= i <= n,
            body == s@.subrange(start as int, n as int),
            body == digits_part(s@),
            body.len() > 0,
            digits_value(body.subrange(0, i - start), radix as nat) == Some(acc as nat),
        decreases n - i,
    {
        let ghost before = body.subrange(0, i - start);
        let ghost through = body.subrange(0, i - start + 1);
        proof {
            assert(through.drop_last() =~= before);
            assert(through.last() == s[i as int]);
            if digits_value(body, radix as nat) is Some {
                lemma_digits_prefix(body, i - start + 1, radix as nat);
            }
        }
        let digit = match digit_of(s[i]) {
            Some(d) => d,
            None => {
                return None;
            },
        };
        if digit >= radix {
            return None;
        }
        let shifted = match acc.checked_mul(radix) {
            Some(m) => m,
            None => {
                return None;
            },
        };
        acc = match shifted.checked_add(digit) {
            Some(v) => v,
            None => {
                return None;
            },
        };
        i += 1;
    }
    assert(body.subrange(0, n - start) =~= body);
    Some(acc)
}

/// Reads a number in base sixteen, as `parse_usize` states.
pub fn parse_hex(s: &[u8]) -> (r: Option<usize>)
    ensures
        r == parse_usize(s@, 16),
{
    parse_radix(s, 16)
}

/// Reads a number in base ten, as `parse_usize` states.
pub fn parse_decimal(s: &[u8]) -> (r: Option<usize>)
    ensures
        r == parse_usize(s@, 10),
{
    parse_radix(s, 10)
}

/// The digit for a value below sixteen.
fn digit_byte(d: usize) -> (b: u8)
    requires
        d < 16,
    ensures
        b == digit_char(d as nat),
{
    if d < 10 {
        DIGIT_ZERO + d as u8
    } else {
        LOWER_A + (d as u8 - 10)
    }
}

/// Writes a number in base sixteen, in lower case and without padding.
pub fn format_hex(n: usize) -> (out: Vec<u8>)
    ensures
        out@ == hex_text(n as nat),
    decreases n,
{
    let mut out = if n < 16 {
        Vec::new()
    } else {
        format_hex(n / 16)
    };
    out.push(digit_byte(n % 16));
    out
}

/// Writes a number in base ten.
pub fn format_decimal(n: usize) -> (out: Vec<u8>)
    ensures
        out@ == decimal_text(n as nat),
    decreases n,
{
    let mut out = if n < 10 {
        Vec::new()
    } else {
        format_decimal(n / 10)
    };
    out.push(digit_byte(n % 10));
    out
}

/// Writes a number in base sixteen with leading zeros up to `width` digits.
pub fn format_padded_hex(n: usize, width: usize) -> (out: Vec<u8>)
    ensures
        out@ == padded_hex_text(n as nat, width as nat),
{
    let mut digits = format_hex(n);
    let mut out: Vec<u8> = Vec::new();
    let len = digits.len();
    let mut filled: usize = len;
    while filled < width
        invariant
            digits@ == hex_text(n as nat),
            len == digits.len(),
            len <= filled,
            len < width ==> filled <= width,
            len >= width ==> filled == len,
            out@ =~= zeros((filled - len) as nat),
        decreases width - filled,
    {
        out.push(DIGIT_ZERO);
        filled += 1;
    }
    out.append(&mut digits);
    assert(out@ =~= padded_hex_text(n as nat, width as nat));
    out
}

} // verus!
