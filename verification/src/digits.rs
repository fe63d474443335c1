//! Numbers as digits: decimal for names, and sixteen hexadecimal digits for the exact bits
//! of a floating-point value.
use vstd::arithmetic::power::{lemma_pow_increases, pow};
use vstd::prelude::*;
use vstd::string::{StrSliceExecFns, StringExecFns, StringSliceAdditionalSpecFns};
use vstd::utf8::{is_ascii_chars, is_ascii_chars_encode_utf8};

use crate::error::Error;
use crate::text::utf8;

verus! {

/// The character of one hexadecimal digit.
pub open spec fn hex_digit(value: u8) -> char {
    if value < 10 {
        (48 + value) as char
    } else {
        (87 + value) as char
    }
}

/// The last `n` hexadecimal digits of `value`.
pub open spec fn hex_digits(value: nat, n: nat) -> Seq<char>
    decreases n,
{
    if n == 0 {
        Seq::empty()
    } else {
        hex_digits(value / 16, (n - 1) as nat).push(hex_digit((value % 16) as u8))
    }
}

/// The decimal digits of `value`.
pub open spec fn decimal_of(value: nat) -> Seq<char>
    decreases value,
{
    if value < 10 {
        seq![hex_digit(value as u8)]
    } else {
        decimal_of(value / 10).push(hex_digit((value % 10) as u8))
    }
}

/// Append the hexadecimal digit of `value`.
pub fn push_digit(text: &mut String, value: u8)
    requires
        value < 16,
    ensures
        final(text)@ == old(text)@.push(hex_digit(value)),
{
    let digits = "0123456789abcdef";
    proof {
        reveal_strlit("0123456789abcdef");
        assert(vstd::string::is_ascii(digits)) by {
            assert forall|i: int| 0 <= i < digits@.len() implies 0 <= #[trigger] (
            digits@[i] as nat) < 128 by {}
        }
    }
    let digit = digits.substring_ascii(value as usize, value as usize + 1);
    let ghost before = text@;
    text.append(digit);
    proof {
        assert(digit@ =~= seq![hex_digit(value)]);
        assert(text@ =~= before.push(hex_digit(value)));
    }
}

/// Append the decimal digits of `value`.
pub fn push_decimal(text: &mut String, value: u64)
    ensures
        final(text)@ == old(text)@ + decimal_of(value as nat),
    decreases value,
{
    let ghost before = text@;
    if value < 10 {
        push_digit(text, value as u8);
        assert(text@ =~= before + decimal_of(value as nat));
    } else {
        push_decimal(text, value / 10);
        push_digit(text, (value % 10) as u8);
        assert(text@ =~= before + decimal_of(value as nat));
    }
}

fn push_hex(text: &mut String, value: u64, n: u32)
    ensures
        final(text)@ == old(text)@ + hex_digits(value as nat, n as nat),
    decreases n,
{
    let ghost before = text@;
    if n > 0 {
        push_hex(text, value / 16, n - 1);
        push_digit(text, (value % 16) as u8);
    }
    assert(text@ =~= before + hex_digits(value as nat, n as nat));
}

/// Sixteen lower-case hexadecimal digits.
pub fn bits_text(bits: u64) -> (r: String)
    ensures
        r@ == hex_digits(bits as nat, 16),
{
    let mut text: String = String::new();
    push_hex(&mut text, bits, 16);
    assert(text@ =~= hex_digits(bits as nat, 16));
    text
}

/// The byte of a lower-case hexadecimal digit.
pub open spec fn lower_hex_byte(b: u8) -> bool {
    48 <= b <= 57 || 97 <= b <= 102
}

/// `size` lower-case hexadecimal digits.
pub open spec fn lower_hex_bytes(bytes: Seq<u8>, size: int) -> bool {
    &&& bytes.len() == size
    &&& forall|i: int| 0 <= i < bytes.len() ==> lower_hex_byte(#[trigger] bytes[i])
}

/// What the byte of a hexadecimal digit stands for.
pub open spec fn digit_value(b: u8) -> int {
    if b <= 57 {
        b - 48
    } else {
        b - 87
    }
}

/// The number that hexadecimal digits stand for.
pub open spec fn value_of(bytes: Seq<u8>) -> int
    decreases bytes.len(),
{
    if bytes.len() == 0 {
        0
    } else {
        value_of(bytes.drop_last()) * 16 + digit_value(bytes.last())
    }
}

/// Whether `text` is `size` lower-case hexadecimal digits.
pub fn lower_hex(text: &str, size: usize) -> (r: bool)
    ensures
        r == lower_hex_bytes(utf8(text@), size as int),
{
    let bytes = text.as_bytes();
    if bytes.len() != size {
        return false;
    }
    let mut i: usize = 0;
    while i < size
        invariant
            i <= size,
            bytes@.len() == size,
            bytes@ == utf8(text@),
            forall|k: int| 0 <= k < i ==> lower_hex_byte(#[trigger] bytes@[k]),
        decreases size - i,
    {
        let b: u8 = bytes[i];
        if !(48 <= b && b <= 57 || 97 <= b && b <= 102) {
            return false;
        }
        i += 1;
    }
    true
}

proof fn lemma_value_bound(bytes: Seq<u8>)
    requires
        bytes.len() <= 16,
        forall|i: int| 0 <= i < bytes.len() ==> lower_hex_byte(#[trigger] bytes[i]),
    ensures
        0 <= value_of(bytes) < pow(16, bytes.len()),
        pow(16, bytes.len()) <= pow(16, 16),
    decreases bytes.len(),
{
    reveal(pow);
    if bytes.len() > 0 {
        lemma_value_bound(bytes.drop_last());
        assert(pow(16, bytes.len()) == 16 * pow(16, (bytes.len() - 1) as nat));
        if bytes.len() < 16 {
            lemma_pow_increases(16, bytes.len(), 16);
        }
    } else {
        lemma_pow_increases(16, 0, 16);
    }
}

/// The number of sixteen lower-case hexadecimal digits.
pub fn bits_of(text: &str) -> (r: Result<u64, Error>)
    ensures
        r == (if lower_hex_bytes(utf8(text@), 16) {
            Ok::<u64, Error>(value_of(utf8(text@)) as u64)
        } else {
            Err(Error::ExpectedBits)
        }),
        lower_hex_bytes(utf8(text@), 16) ==> 0 <= value_of(utf8(text@)) <= u64::MAX,
{
    if !lower_hex(text, 16) {
        return Err(Error::ExpectedBits);
    }
    let bytes = text.as_bytes();
    let mut value: u64 = 0;
    let mut i: usize = 0;
    proof {
        assert(pow(16, 16) == 0x1_0000_0000_0000_0000) by {
            reveal_with_fuel(pow, 17);
        }
    }
    while i < 16
        invariant
            i <= 16,
            bytes@.len() == 16,
            bytes@ == utf8(text@),
            lower_hex_bytes(bytes@, 16),
            value == value_of(bytes@.take(i as int)),
            pow(16, 16) == 0x1_0000_0000_0000_0000,
        decreases 16 - i,
    {
        let b: u8 = bytes[i];
        let digit: u64 = if b <= 57 {
            (b - 48) as u64
        } else {
            (b - 87) as u64
        };
        proof {
            let next = bytes@.take(i + 1);
            assert(next.drop_last() =~= bytes@.take(i as int));
            assert(next.last() == b);
            lemma_value_bound(next);
            assert(value_of(next) == value * 16 + digit);
        }
        value = value * 16 + digit;
        i += 1;
    }
    proof {
        assert(bytes@.take(16) =~= bytes@);
    }
    Ok(value)
}

proof fn lemma_hex_digits(value: nat, n: nat)
    requires
        value < pow(16, n),
    ensures
        hex_digits(value, n).len() == n,
        is_ascii_chars(hex_digits(value, n)),
        lower_hex_bytes(utf8(hex_digits(value, n)), n as int),
        value_of(utf8(hex_digits(value, n))) == value,
    decreases n,
{
    reveal(pow);
    let text = hex_digits(value, n);
    if n == 0 {
        assert(value == 0);
        is_ascii_chars_encode_utf8(text);
        assert(utf8(text) =~= Seq::<u8>::empty());
    } else {
        let rest = hex_digits(value / 16, (n - 1) as nat);
        assert(pow(16, n) == 16 * pow(16, (n - 1) as nat));
        lemma_hex_digits(value / 16, (n - 1) as nat);
        assert(is_ascii_chars(text)) by {
            assert forall|i: int| 0 <= i < text.len() implies '\0' <= #[trigger] text[i]
                <= '\u{7f}' by {
                if i < n - 1 {
                    assert(text[i] == rest[i]);
                }
            }
        }
        is_ascii_chars_encode_utf8(text);
        is_ascii_chars_encode_utf8(rest);
        let bytes = utf8(text);
        assert(bytes.drop_last() =~= utf8(rest)) by {
            assert forall|i: int| 0 <= i < n - 1 implies bytes[i] == #[trigger] utf8(rest)[i] by {
                assert(text[i] == rest[i]);
                assert(text[i] as u8 == bytes[i]);
                assert(rest[i] as u8 == utf8(rest)[i]);
            }
        }
        assert(text[n - 1] as u8 == bytes[n - 1]);
        let d = (value % 16) as u8;
        assert(lower_hex_byte(bytes.last()) && digit_value(bytes.last()) == d);
        assert forall|i: int| 0 <= i < bytes.len() implies lower_hex_byte(#[trigger] bytes[i]) by {
            if i < n - 1 {
                assert(bytes[i] == utf8(rest)[i]);
            }
        }
    }
}

/// The exact bits of a value come back from their text.
pub proof fn bits_round_trip(bits: u64)
    ensures
        lower_hex_bytes(utf8(hex_digits(bits as nat, 16)), 16),
        value_of(utf8(hex_digits(bits as nat, 16))) == bits,
{
    assert(pow(16, 16) == 0x1_0000_0000_0000_0000) by {
        reveal_with_fuel(pow, 17);
    }
    lemma_hex_digits(bits as nat, 16);
}

/// Numbers with the same decimal digits are the same.
pub proof fn decimal_is_injective(a: nat, b: nat)
    requires
        decimal_of(a) == decimal_of(b),
    ensures
        a == b,
    decreases a,
{
    let s = decimal_of(a);
    lemma_decimal_len(a);
    lemma_decimal_len(b);
    if a < 10 {
        assert(b < 10);
        assert(s[0] == hex_digit(a as u8) && s[0] == hex_digit(b as u8));
    } else {
        assert(b >= 10);
        assert(s.drop_last() =~= decimal_of(a / 10));
        assert(s.drop_last() =~= decimal_of(b / 10));
        decimal_is_injective(a / 10, b / 10);
        assert(s.last() == hex_digit((a % 10) as u8) && s.last() == hex_digit((b % 10) as u8));
    }
}

proof fn lemma_decimal_len(a: nat)
    ensures
        decimal_of(a).len() >= 1,
        a >= 10 ==> decimal_of(a).len() >= 2,
    decreases a,
{
    if a >= 10 {
        lemma_decimal_len(a / 10);
    }
}

} // verus!
