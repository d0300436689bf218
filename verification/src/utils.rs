//! Turning the hexadecimal text of a field representation into a decimal number.

use num_bigint::BigUint;
use num_traits::Num;
use crate::field::{decimal_value, digit_value, is_digit_char, is_field_decimal, modulus};
use vstd::prelude::*;
use vstd::string::StringSliceAdditionalSpecFns;
use vstd::utf8::is_char_boundary;

verus! {

/// Whether a byte is a hexadecimal digit, in either case.
pub open spec fn is_hex_digit_byte(b: u8) -> bool {
    (0x30 <= b <= 0x39) || (0x61 <= b <= 0x66) || (0x41 <= b <= 0x46)
}

/// The value of a hexadecimal digit.
pub open spec fn hex_digit_value(b: u8) -> nat {
    if 0x30 <= b <= 0x39 {
        (b - 0x30) as nat
    } else if 0x61 <= b <= 0x66 {
        (b - 0x61 + 10) as nat
    } else {
        (b - 0x41 + 10) as nat
    }
}

/// The digits of a base-16 number as `BigUint::from_str_radix` reads them:
/// the text without one leading '+'.
pub open spec fn radix16_body(s: Seq<u8>) -> Seq<u8> {
    if s.len() > 0 && s[0] == 0x2b {
        s.drop_first()
    } else {
        s
    }
}

/// The texts that `BigUint::from_str_radix(_, 16)` accepts: an optional '+',
/// then hexadecimal digits and '_' separators, starting with a digit.
pub open spec fn is_radix16(s: Seq<u8>) -> bool {
    let t = radix16_body(s);
    &&& t.len() > 0
    &&& t[0] != 0x5f
    &&& forall|i: int| 0 <= i < t.len() ==> is_hex_digit_byte(#[trigger] t[i]) || t[i] == 0x5f
}

/// The number that hexadecimal digits stand for, '_' separators skipped.
pub open spec fn hex_value(t: Seq<u8>) -> nat
    decreases t.len(),
{
    if t.len() == 0 {
        0
    } else if t.last() == 0x5f {
        hex_value(t.drop_last())
    } else {
        hex_value(t.drop_last()) * 16 + hex_digit_value(t.last())
    }
}

/// The number that base-2^32 digits stand for, least significant first.
pub open spec fn digits_value(d: Seq<u32>) -> nat
    decreases d.len(),
{
    if d.len() == 0 {
        0
    } else {
        d[0] as nat + 0x1_0000_0000 * digits_value(d.drop_first())
    }
}

/// The character of a decimal digit.
pub open spec fn decimal_digit_char(n: nat) -> char {
    ('0' as nat + n % 10) as char
}

/// The decimal text of a number: its digits without leading zeros, "0" for zero.
pub open spec fn decimal_string(n: nat) -> Seq<char>
    decreases n,
{
    if n < 10 {
        seq![decimal_digit_char(n)]
    } else {
        decimal_string(n / 10).push(decimal_digit_char(n % 10))
    }
}

/// `BigUint::from_str_radix(_, 16)` of num-bigint, the number then handed out as
/// its base-2^32 digits (`to_u32_digits`).
/// The claim: it accepts exactly the texts of `is_radix16`, and the digits stand
/// for the hexadecimal value of the text.
#[verifier::external_body]
fn biguint_from_hex(s: &str) -> (r: Option<Vec<u32>>)
    ensures
        r is Some <==> is_radix16(s.spec_bytes()),
        r matches Some(d) ==> digits_value(d@) == hex_value(radix16_body(s.spec_bytes())),
{
    <BigUint as Num>::from_str_radix(s, 16).ok().map(|b| b.to_u32_digits())
}

/// `BigUint::to_str_radix(_, 10)` of num-bigint, on the number whose base-2^32
/// digits are given (`BigUint::new`).
/// The claim: the decimal text of that number.
#[verifier::external_body]
fn biguint_to_decimal(d: &Vec<u32>) -> (r: String)
    ensures
        r@ == decimal_string(digits_value(d@)),
{
    BigUint::new(d.clone()).to_str_radix(10)
}

/// The decimal text of the number that a representation's text stands for:
/// the text is "0x" (any two bytes) followed by the number in hexadecimal.
pub fn repr_to_big(r: &str) -> (res: String)
    requires
        r.spec_bytes().len() >= 2,
        is_char_boundary(r.spec_bytes(), 2),
        is_radix16(r.spec_bytes().skip(2)),
    ensures
        res@ == decimal_string(hex_value(radix16_body(r.spec_bytes().skip(2)))),
{
    let (_prefix, digits) = r.split_at(2);
    assert(digits.spec_bytes() =~= r.spec_bytes().skip(2));
    let value = biguint_from_hex(digits).unwrap();
    biguint_to_decimal(&value)
}

/// The decimal text of a number is digits without a leading zero (unless it is
/// "0") and stands for the number.
pub proof fn lemma_decimal_string_digits(n: nat)
    ensures
        is_field_decimal(decimal_string(n)),
        decimal_value(decimal_string(n)) == n,
    decreases n,
{
    let c = decimal_digit_char(n % 10);
    assert(is_digit_char(c) && digit_value(c) == n % 10);
    if n < 10 {
        assert(n % 10 == n);
        assert(decimal_string(n).drop_last() =~= Seq::<char>::empty());
        assert(decimal_string(n).last() == c);
        assert(decimal_value(decimal_string(n)) == decimal_value(decimal_string(n).drop_last()) * 10
            + digit_value(c));
    } else {
        lemma_decimal_string_digits(n / 10);
        let t = decimal_string(n / 10);
        assert(decimal_string(n).drop_last() =~= t);
        assert(decimal_string(n).last() == c);
        assert(n == (n / 10) * 10 + n % 10) by {
            vstd::arithmetic::div_mod::lemma_fundamental_div_mod(n as int, 10);
        }
        assert(decimal_value(decimal_string(n)) == decimal_value(t) * 10 + digit_value(c));
        assert(decimal_string(n)[0] == t[0]);
        if t.len() == 1 {
            assert(t[0] != '0') by {
                assert(decimal_value(t.drop_last()) == 0) by {
                    assert(t.drop_last() =~= Seq::<char>::empty());
                }
            }
        }
        assert forall|i: int| 0 <= i < decimal_string(n).len() implies is_digit_char(
            #[trigger] decimal_string(n)[i],
        ) by {
            if i < t.len() {
                assert(decimal_string(n)[i] == t[i]);
            }
        }
    }
}

/// The decimal text of a field element's value is read back, as a field element
/// in decimal, to that same value.
pub proof fn lemma_decimal_text_reads_back(n: nat)
    requires
        n < modulus(),
    ensures
        is_field_decimal(decimal_string(n)),
        decimal_value(decimal_string(n)) % modulus() == n,
{
    lemma_decimal_string_digits(n);
    vstd::arithmetic::div_mod::lemma_small_mod(n, modulus());
}

} // verus!
