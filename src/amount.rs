//! Unsigned 256-bit token amounts, held as four little-endian 64-bit limbs.
//! The arithmetic itself is done by `ethers::types::U256`.
use ethers::types::U256;
use vstd::prelude::*;

verus! {

/// 2^64, the weight of one limb.
pub open spec fn limb_base() -> nat {
    0x1_0000_0000_0000_0000
}

/// The largest value an `Amount` can hold: 2^256 - 1.
pub open spec fn amount_max() -> nat {
    (limb_base() * limb_base() * limb_base() * limb_base() - 1) as nat
}

/// `min(x, amount_max())`: the result of an operation that clamps instead of overflowing.
pub open spec fn saturate(x: nat) -> nat {
    if x > amount_max() {
        amount_max()
    } else {
        x
    }
}

/// Value of a decimal digit character.
pub open spec fn digit_value(c: char) -> nat {
    (c as u32 - '0' as u32) as nat
}

pub open spec fn is_digit(c: char) -> bool {
    '0' <= c && c <= '9'
}

pub open spec fn all_digits(s: Seq<char>) -> bool {
    forall|i: int| 0 <= i < s.len() ==> is_digit(#[trigger] s[i])
}

/// The number written in decimal by `s` (the empty string reads as zero).
pub open spec fn decimal_value(s: Seq<char>) -> nat
    decreases s.len(),
{
    if s.len() == 0 {
        0
    } else {
        decimal_value(s.drop_last()) * 10 + digit_value(s.last())
    }
}

/// `s` is read as an amount: only digits, and a value that fits in 256 bits.
pub open spec fn parses_as_amount(s: Seq<char>) -> bool {
    all_digits(s) && decimal_value(s) <= amount_max()
}

/// What parsing `s` as a decimal amount gives.
pub open spec fn parse_amount_spec(s: Seq<char>) -> Option<nat> {
    if parses_as_amount(s) {
        Some(decimal_value(s))
    } else {
        None
    }
}

#[derive(Clone, Copy, Debug, PartialEq, Eq)]
pub struct Amount {
    pub limbs: [u64; 4],
}

impl Amount {
    /// The number this amount stands for.
    pub open spec fn value(self) -> nat {
        self.limbs@[0] as nat + self.limbs@[1] as nat * limb_base() + self.limbs@[2] as nat
            * limb_base() * limb_base() + self.limbs@[3] as nat * limb_base() * limb_base()
            * limb_base()
    }

    pub fn zero() -> (r: Amount)
        ensures
            r.value() == 0,
    {
        Amount { limbs: [0u64, 0u64, 0u64, 0u64] }
    }

    /// An amount below 2^64.
    pub fn from_u64(x: u64) -> (r: Amount)
        ensures
            r.value() == x as nat,
    {
        Amount { limbs: [x, 0u64, 0u64, 0u64] }
    }
}

/// Relies on `U256::from_str_radix` with radix 10 (uint's `from_dec_str`): it reads
/// each byte as a digit, fails on any other byte, fails when the value leaves 256 bits,
/// and reads the empty string as zero.
#[verifier::external_body]
pub(crate) fn parse_amount(s: &str) -> (r: Option<Amount>)
    ensures
        r.is_some() == parses_as_amount(s@),
        r.is_some() ==> r->0.value() == decimal_value(s@),
{
    U256::from_str_radix(s, 10).ok().map(|v| Amount { limbs: v.0 })
}

/// Relies on `U256::saturating_add`: the sum, or `U256::MAX` on overflow.
#[verifier::external_body]
pub(crate) fn saturating_add(a: Amount, b: Amount) -> (r: Amount)
    ensures
        r.value() == saturate(a.value() + b.value()),
{
    Amount { limbs: U256(a.limbs).saturating_add(U256(b.limbs)).0 }
}

/// Relies on `U256::saturating_sub`: the difference, or zero when `b > a`.
#[verifier::external_body]
pub(crate) fn saturating_sub(a: Amount, b: Amount) -> (r: Amount)
    ensures
        a.value() >= b.value() ==> r.value() == a.value() - b.value(),
        a.value() < b.value() ==> r.value() == 0,
{
    Amount { limbs: U256(a.limbs).saturating_sub(U256(b.limbs)).0 }
}

/// Relies on `U256::saturating_mul`: the product, or `U256::MAX` on overflow.
#[verifier::external_body]
pub(crate) fn saturating_mul(a: Amount, b: Amount) -> (r: Amount)
    ensures
        r.value() == saturate(a.value() * b.value()),
{
    Amount { limbs: U256(a.limbs).saturating_mul(U256(b.limbs)).0 }
}

/// Relies on `U256::checked_div`: `None` for a zero divisor, else the truncated quotient.
#[verifier::external_body]
pub(crate) fn checked_div(a: Amount, b: Amount) -> (r: Option<Amount>)
    ensures
        r.is_some() == (b.value() != 0),
        r.is_some() ==> r->0.value() == a.value() / b.value(),
{
    U256(a.limbs).checked_div(U256(b.limbs)).map(|v| Amount { limbs: v.0 })
}

/// Relies on `U256`'s `PartialOrd`: numeric order.
#[verifier::external_body]
pub(crate) fn less_or_equal(a: Amount, b: Amount) -> (r: bool)
    ensures
        r == (a.value() <= b.value()),
{
    U256(a.limbs).le(&U256(b.limbs))
}

} // verus!
