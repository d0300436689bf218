//! Elements of the BN256 scalar field, held as their canonical little-endian limbs.

use bellman_ce::pairing::bn256::{Fr, FrRepr};
use bellman_ce::pairing::ff::PrimeField;
use vstd::prelude::*;

verus! {

/// The order of the BN256 scalar field.
pub open spec fn modulus() -> nat {
    21888242871839275222246405745257275088548364400416034343698204186575808495617nat
}

/// 2^64.
pub open spec fn limb_base() -> nat {
    0x1_0000_0000_0000_0000nat
}

/// The number that four little-endian 64-bit limbs stand for.
pub open spec fn limbs_value(l: [u64; 4]) -> nat {
    l[0] as nat + limb_base() * (l[1] as nat + limb_base() * (l[2] as nat + limb_base() * (
    l[3] as nat)))
}

/// Whether `c` is one of the characters '0' to '9'.
pub open spec fn is_digit_char(c: char) -> bool {
    '0' <= c && c <= '9'
}

/// The value of a digit character.
pub open spec fn digit_value(c: char) -> nat {
    (c as nat - '0' as nat) as nat
}

/// The number that a string of decimal digits stands for (most significant first).
pub open spec fn decimal_value(s: Seq<char>) -> nat
    decreases s.len(),
{
    if s.len() == 0 {
        0
    } else {
        decimal_value(s.drop_last()) * 10 + digit_value(s.last())
    }
}

/// The strings that a field element is read from: one or more decimal digits,
/// without a leading zero unless the string is "0" itself.
pub open spec fn is_field_decimal(s: Seq<char>) -> bool {
    &&& s.len() > 0
    &&& forall|i: int| 0 <= i < s.len() ==> is_digit_char(#[trigger] s[i])
    &&& (s.len() == 1 || s[0] != '0')
}

/// `Fr::from_str` of ff_ce, with its result converted to canonical limbs.
/// The claim: it accepts exactly the decimal strings of `is_field_decimal` and
/// gives the element whose value is the decimal number reduced modulo the field order.
#[verifier::external_body]
fn fr_from_str(s: &str) -> (r: Option<[u64; 4]>)
    ensures
        r is Some <==> is_field_decimal(s@),
        r matches Some(l) ==> limbs_value(l) == decimal_value(s@) % modulus(),
{
    <Fr as PrimeField>::from_str(s).map(|f| f.into_repr().0)
}

/// `Fr::from_repr` of ff_ce, with its result converted back to canonical limbs.
/// The claim: it accepts exactly the limbs whose value is below the field order,
/// and the element it gives has those same limbs as its canonical form.
#[verifier::external_body]
fn fr_from_repr(limbs: [u64; 4]) -> (r: Option<[u64; 4]>)
    ensures
        r == (if limbs_value(limbs) < modulus() { Some(limbs) } else { None::<[u64; 4]> }),
{
    Fr::from_repr(FrRepr(limbs)).ok().map(|f| f.into_repr().0)
}

/// A BN256 scalar field element in canonical form.
#[derive(Clone, Copy, Debug)]
pub struct FieldElement {
    limbs: [u64; 4],
}

impl View for FieldElement {
    type V = nat;

    closed spec fn view(&self) -> nat {
        limbs_value(self.limbs)
    }
}

impl FieldElement {
    #[verifier::type_invariant]
    closed spec fn canonical(self) -> bool {
        limbs_value(self.limbs) < modulus()
    }

    /// Reads an element from its decimal form, as `Fr::from_str` does.
    pub fn from_decimal(s: &str) -> (r: Option<FieldElement>)
        ensures
            r is Some <==> is_field_decimal(s@),
            r matches Some(e) ==> e@ == decimal_value(s@) % modulus(),
    {
        match fr_from_str(s) {
            Some(limbs) => Some(FieldElement { limbs }),
            None => None,
        }
    }

    /// Builds an element from little-endian limbs, as `Fr::from_repr` does:
    /// limbs at or above the field order are refused.
    pub fn from_limbs(limbs: [u64; 4]) -> (r: Option<FieldElement>)
        ensures
            r is Some <==> limbs_value(limbs) < modulus(),
            r matches Some(e) ==> e@ == limbs_value(limbs) && e.limbs() == limbs,
    {
        match fr_from_repr(limbs) {
            Some(l) => Some(FieldElement { limbs: l }),
            None => None,
        }
    }

    /// The canonical little-endian limbs.
    pub closed spec fn limbs(&self) -> [u64; 4] {
        self.limbs
    }

    /// The canonical little-endian limbs.
    pub fn to_limbs(&self) -> (r: [u64; 4])
        ensures
            r == self.limbs(),
            limbs_value(r) == self@,
            self@ < modulus(),
    {
        proof {
            use_type_invariant(self);
        }
        self.limbs
    }

    /// The element one, read as `Fr::from_str("1")`.
    pub fn one() -> (r: FieldElement)
        ensures
            r@ == 1,
    {
        let s = "1";
        proof {
            reveal_strlit("1");
            assert(decimal_value(s@.drop_last()) == 0);
        }
        FieldElement::from_decimal(s).unwrap()
    }
}

} // verus!
