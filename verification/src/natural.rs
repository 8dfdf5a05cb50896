//! Natural numbers of any size, as big-endian bytes. The arithmetic on them is
//! that of `num_bigint::BigUint`.
use num_bigint::{BigUint, ParseBigIntError};
use num_integer::Integer;
use num_traits::{One, Zero};
use std::str::FromStr;
use vstd::arithmetic::power2::{lemma2_to64, lemma_pow2_adds, lemma_pow2_pos, pow2};
use vstd::prelude::*;

use crate::text::{decimal, is_digit, numeral_value, unsigned_part};

verus! {

/// The number whose big-endian bytes are `s`.
pub open spec fn be_value(s: Seq<u8>) -> nat
    decreases s.len(),
{
    if s.len() == 0 {
        0
    } else {
        256 * be_value(s.drop_last()) + s.last() as nat
    }
}

/// The big-endian bytes of `n`, without leading zeros; a single zero for 0.
pub open spec fn be_bytes(n: nat) -> Seq<u8>
    decreases n,
{
    if n < 256 {
        seq![n as u8]
    } else {
        be_bytes(n / 256).push((n % 256) as u8)
    }
}

/// A natural number of any size. Its view is the number.
#[derive(Clone, Debug)]
pub struct Natural {
    /// The big-endian bytes of the number. Leading zeros do not count.
    pub bytes: Vec<u8>,
}

impl View for Natural {
    type V = nat;

    open spec fn view(&self) -> nat {
        be_value(self.bytes@)
    }
}

/// `num_bigint::ParseBigIntError`, which is passed on unread.
#[verifier::external_type_specification]
#[verifier::external_body]
pub struct ExParseBigIntError(ParseBigIntError);

/// The number that `s` stands for as a natural number: digits, after a plus sign
/// or none, with underscores anywhere behind the first digit.
pub open spec fn natural_numeral(s: Seq<char>) -> Option<nat> {
    let digits = unsigned_part(s);
    if digits.len() > 0 && is_digit(digits[0]) && (forall|i: int|
        0 <= i < digits.len() ==> is_digit(#[trigger] digits[i]) || digits[i] == '_') {
        Some(numeral_value(digits))
    } else {
        None
    }
}

impl Natural {
    /// `BigUint::from_bytes_be` gives the number whose big-endian bytes it is
    /// handed: 0 for none.
    #[verifier::external_body]
    pub(crate) fn from_bytes_be(bytes: &[u8]) -> (r: Natural)
        ensures
            r@ == be_value(bytes@),
    {
        Natural { bytes: BigUint::from_bytes_be(bytes).to_bytes_be() }
    }

    /// `BigUint::to_bytes_be` gives the big-endian bytes of the number without
    /// leading zeros, and a single zero for 0.
    #[verifier::external_body]
    pub(crate) fn to_bytes_be(&self) -> (r: Vec<u8>)
        ensures
            r@ == be_bytes(self@),
    {
        BigUint::from_bytes_be(&self.bytes).to_bytes_be()
    }

    /// `BigUint::from_str` reads a decimal numeral, which may begin with a plus
    /// sign and may hold underscores, though not in front of the first digit.
    #[verifier::external_body]
    pub(crate) fn from_text(s: &str) -> (r: Result<Natural, ParseBigIntError>)
        ensures
            match r {
                Ok(n) => natural_numeral(s@) == Some(n@),
                Err(_) => natural_numeral(s@) is None,
            },
    {
        match BigUint::from_str(s) {
            Ok(n) => Ok(Natural { bytes: n.to_bytes_be() }),
            Err(e) => Err(e),
        }
    }

    /// `BigUint` is displayed in decimal, without leading zeros.
    #[verifier::external_body]
    pub(crate) fn to_text(&self) -> (r: String)
        ensures
            r@ == decimal(self@),
    {
        format!("{}", BigUint::from_bytes_be(&self.bytes))
    }

    /// `BigUint::one` is 1.
    #[verifier::external_body]
    pub(crate) fn one() -> (r: Natural)
        ensures
            r@ == 1,
    {
        Natural { bytes: BigUint::one().to_bytes_be() }
    }

    /// `BigUint::is_zero` holds of 0 alone.
    #[verifier::external_body]
    pub(crate) fn is_zero(&self) -> (r: bool)
        ensures
            r == (self@ == 0),
    {
        BigUint::from_bytes_be(&self.bytes).is_zero()
    }

    /// `BigUint::is_even` holds of the multiples of 2.
    #[verifier::external_body]
    pub(crate) fn is_even(&self) -> (r: bool)
        ensures
            r == (self@ % 2 == 0),
    {
        BigUint::from_bytes_be(&self.bytes).is_even()
    }

    /// `BigUint` values are ordered as the numbers are.
    #[verifier::external_body]
    pub(crate) fn at_least(&self, other: &Natural) -> (r: bool)
        ensures
            r == (self@ >= other@),
    {
        BigUint::from_bytes_be(&self.bytes) >= BigUint::from_bytes_be(&other.bytes)
    }

    /// `<<= 1` on a `BigUint` doubles it.
    #[verifier::external_body]
    pub(crate) fn shifted_left_once(&self) -> (r: Natural)
        ensures
            r@ == 2 * self@,
    {
        let mut n = BigUint::from_bytes_be(&self.bytes);
        n <<= 1;
        Natural { bytes: n.to_bytes_be() }
    }

    /// `-=` on a `BigUint` subtracts. It panics where the result would be
    /// negative.
    #[verifier::external_body]
    pub(crate) fn minus(&self, other: &Natural) -> (r: Natural)
        requires
            self@ >= other@,
        ensures
            r@ == self@ - other@,
    {
        let mut n = BigUint::from_bytes_be(&self.bytes);
        n -= BigUint::from_bytes_be(&other.bytes);
        Natural { bytes: n.to_bytes_be() }
    }

    /// `%=` on a `BigUint` leaves the remainder of the division. It panics where
    /// the divisor is 0.
    #[verifier::external_body]
    pub(crate) fn modulo(&self, other: &Natural) -> (r: Natural)
        requires
            other@ > 0,
        ensures
            r@ == self@ % other@,
    {
        let mut n = BigUint::from_bytes_be(&self.bytes);
        n %= BigUint::from_bytes_be(&other.bytes);
        Natural { bytes: n.to_bytes_be() }
    }
}

/// The bytes that `be_bytes` gives stand for the number.
pub proof fn lemma_be_bytes_value(n: nat)
    ensures
        be_value(be_bytes(n)) == n,
        be_bytes(n).len() > 0,
    decreases n,
{
    reveal_with_fuel(be_value, 2);
    if n >= 256 {
        lemma_be_bytes_value(n / 256);
        assert(be_bytes(n).drop_last() =~= be_bytes(n / 256));
    }
}

/// `len` bytes stand for a number below 256 to the power `len`.
pub proof fn lemma_be_value_bound(s: Seq<u8>)
    ensures
        be_value(s) < pow2(8 * s.len()),
    decreases s.len(),
{
    if s.len() == 0 {
        lemma_pow2_pos(0);
    } else {
        lemma_be_value_bound(s.drop_last());
        lemma_pow2_adds((8 * (s.len() - 1)) as nat, 8);
        lemma2_to64();
    }
}

/// A number below 256 to the power `len` has no more than `len` bytes.
pub proof fn lemma_be_bytes_len(n: nat, len: nat)
    requires
        n < pow2(8 * len),
        len > 0,
    ensures
        be_bytes(n).len() <= len,
    decreases len,
{
    lemma2_to64();
    if n >= 256 {
        assert(len > 1) by {
            if len == 1 {
                assert(pow2(8) == 256);
            }
        }
        lemma_pow2_adds((8 * (len - 1)) as nat, 8);
        assert(8 * (len - 1) + 8 == 8 * len);
        let p = pow2((8 * (len - 1)) as nat);
        assert(n / 256 < p) by (nonlinear_arith)
            requires
                n < p * 256,
        ;
        lemma_be_bytes_len(n / 256, (len - 1) as nat);
    }
}

/// The bytes of a number are the shortest ones that stand for it: they do not begin
/// with a zero, unless the number is 0.
pub proof fn law_bytes_are_the_shortest(n: nat)
    ensures
        be_value(be_bytes(n)) == n,
        n == 0 ==> be_bytes(n) == seq![0u8],
        n > 0 ==> be_bytes(n)[0] != 0,
    decreases n,
{
    lemma_be_bytes_value(n);
    if n >= 256 {
        law_bytes_are_the_shortest(n / 256);
        lemma_be_bytes_value(n / 256);
        assert(be_bytes(n)[0] == be_bytes(n / 256)[0]);
    }
}

} // verus!
