//! Binary long division: the digits of `rem / n` behind the binary point.
use vstd::arithmetic::div_mod::{
    lemma_fundamental_div_mod, lemma_fundamental_div_mod_converse, lemma_mod_bound,
    lemma_mul_mod_noop_left, lemma_small_mod,
};
use vstd::arithmetic::mul::lemma_mul_is_associative;
use vstd::arithmetic::power2::{lemma2_to64, lemma_pow2_adds, lemma_pow2_unfold, pow2};
use vstd::prelude::*;

use crate::natural::Natural;

verus! {

/// Digit `i` behind the binary point of `rem / n`: the lowest bit of
/// `rem * 2^(i + 1) / n`. A remainder that is not below `n` is never brought
/// below it by taking away one `n` a step, and has the digit 1 everywhere.
pub open spec fn expansion_digit(n: nat, rem: nat, i: nat) -> char {
    if rem >= n || (rem * pow2(i + 1) / n) % 2 == 1 {
        '1'
    } else {
        '0'
    }
}

/// The first `bits` digits behind the binary point of `rem / n`.
pub open spec fn expansion(n: nat, rem: nat, bits: nat) -> Seq<char> {
    Seq::new(bits, |i: int| expansion_digit(n, rem, i as nat))
}

/// The remainder that is left once `bits` digits of `rem / n` are written down.
pub open spec fn remainder_after(n: nat, rem: nat, bits: nat) -> nat {
    if rem < n {
        rem * pow2(bits) % n
    } else {
        (n + (rem - n) * pow2(bits)) as nat
    }
}

/// Writes down the first `bits` digits behind the binary point of `rem / n`, and
/// gives them with the remainder that is left.
pub fn binary_reciprocal_bits(n: &Natural, rem: Natural, bits: usize) -> (r: (String, Natural))
    requires
        n@ % 2 == 1,
        n@ > 1,
        bits <= isize::MAX,
    ensures
        r.0@ == expansion(n@, rem@, bits as nat),
        r.1@ == remainder_after(n@, rem@, bits as nat),
{
    let ghost start = rem@;
    let mut rem = rem;
    let mut s = String::with_capacity(bits);
    proof {
        lemma_nothing_written(n@, start);
    }
    for i in 0..bits
        invariant
            n@ > 1,
            s@ == expansion(n@, start, i as nat),
            rem@ == remainder_after(n@, start, i as nat),
    {
        proof {
            lemma_step(n@, start, i as nat);
        }
        rem = rem.shifted_left_once();
        if rem.at_least(n) {
            s.push('1');
            rem = rem.minus(n);
        } else {
            s.push('0');
        }
        assert(s@ =~= expansion(n@, start, i as nat + 1));
    }
    (s, rem)
}

proof fn lemma_nothing_written(n: nat, rem: nat)
    requires
        n > 1,
    ensures
        expansion(n, rem, 0) == Seq::<char>::empty(),
        remainder_after(n, rem, 0) == rem,
{
    lemma2_to64();
    if rem < n {
        lemma_small_mod(rem, n);
    }
    assert(expansion(n, rem, 0) =~= Seq::<char>::empty());
}

/// One step of the division: the remainder is doubled, and `n` taken away where
/// it fits, which is where the digit is 1.
proof fn lemma_step(n: nat, rem: nat, i: nat)
    requires
        n > 1,
    ensures
        (2 * remainder_after(n, rem, i) >= n) == (expansion_digit(n, rem, i) == '1'),
        remainder_after(n, rem, i + 1) == if expansion_digit(n, rem, i) == '1' {
            2 * remainder_after(n, rem, i) - n
        } else {
            2 * remainder_after(n, rem, i) as int
        },
{
    lemma_pow2_unfold(i + 1);
    let p = pow2(i);
    let cur = remainder_after(n, rem, i);
    assert(pow2(i + 1) == 2 * p);
    if rem < n {
        let q = rem * p / n;
        lemma_fundamental_div_mod((rem * p) as int, n as int);
        lemma_mod_bound((rem * p) as int, n as int);
        assert(rem * pow2(i + 1) == 2 * (rem * p)) by (nonlinear_arith)
            requires
                pow2(i + 1) == 2 * p,
        ;
        if 2 * cur >= n {
            assert(rem * pow2(i + 1) == (2 * q + 1) * n + (2 * cur - n)) by (nonlinear_arith)
                requires
                    rem * pow2(i + 1) == 2 * (rem * p),
                    rem * p == n * q + cur,
            ;
            lemma_fundamental_div_mod_converse(
                (rem * pow2(i + 1)) as int,
                n as int,
                (2 * q + 1) as int,
                (2 * cur - n) as int,
            );
        } else {
            assert(rem * pow2(i + 1) == (2 * q) * n + 2 * cur) by (nonlinear_arith)
                requires
                    rem * pow2(i + 1) == 2 * (rem * p),
                    rem * p == n * q + cur,
            ;
            lemma_fundamental_div_mod_converse(
                (rem * pow2(i + 1)) as int,
                n as int,
                (2 * q) as int,
                (2 * cur) as int,
            );
        }
    } else {
        let d = (rem - n) as nat;
        assert(d * pow2(i + 1) == 2 * (d * p)) by (nonlinear_arith)
            requires
                pow2(i + 1) == 2 * p,
        ;
        assert(d * p >= 0) by (nonlinear_arith);
    }
}

/// The number that the digits `0` and `1` of `s` write in binary.
pub open spec fn binary_value(s: Seq<char>) -> nat
    decreases s.len(),
{
    if s.len() == 0 {
        0
    } else if s.last() == '1' {
        2 * binary_value(s.drop_last()) + 1
    } else {
        2 * binary_value(s.drop_last())
    }
}

/// The digits of `rem / n`, read as a whole number, are the quotient of
/// `rem * 2^bits` by `n`, and the remainder that is left is that of the same
/// division.
pub proof fn law_digits_are_quotient(n: nat, rem: nat, bits: nat)
    requires
        n > 1,
        rem < n,
    ensures
        binary_value(expansion(n, rem, bits)) == rem * pow2(bits) / n,
        remainder_after(n, rem, bits) < n,
        rem * pow2(bits) == n * binary_value(expansion(n, rem, bits)) + remainder_after(
            n,
            rem,
            bits,
        ),
    decreases bits,
{
    lemma_mod_bound((rem * pow2(bits)) as int, n as int);
    lemma_fundamental_div_mod((rem * pow2(bits)) as int, n as int);
    if bits == 0 {
        lemma2_to64();
        lemma_small_mod(rem, n);
        lemma_fundamental_div_mod_converse(rem as int, n as int, 0, rem as int);
    } else {
        let k = (bits - 1) as nat;
        law_digits_are_quotient(n, rem, k);
        lemma_step(n, rem, k);
        lemma_pow2_unfold(bits);
        let v = binary_value(expansion(n, rem, k));
        let cur = remainder_after(n, rem, k);
        assert(expansion(n, rem, bits).drop_last() =~= expansion(n, rem, k));
        assert(expansion(n, rem, bits).last() == expansion_digit(n, rem, k));
        let w = binary_value(expansion(n, rem, bits));
        let left = remainder_after(n, rem, bits);
        assert(rem * pow2(bits) == w * n + left) by (nonlinear_arith)
            requires
                pow2(bits) == 2 * pow2(k),
                rem * pow2(k) == n * v + cur,
                w == 2 * v + 1 && left == 2 * cur - n || w == 2 * v && left == 2 * cur,
        ;
        lemma_fundamental_div_mod_converse(
            (rem * pow2(bits)) as int,
            n as int,
            w as int,
            left as int,
        );
    }
}

/// The division can be broken off and taken up again: `a + b` digits are `a`
/// digits and then `b` digits of the remainder that was left.
pub proof fn law_division_continues(n: nat, rem: nat, a: nat, b: nat)
    requires
        n > 1,
    ensures
        remainder_after(n, rem, a + b) == remainder_after(n, remainder_after(n, rem, a), b),
        expansion(n, rem, a + b) == expansion(n, rem, a) + expansion(
            n,
            remainder_after(n, rem, a),
            b,
        ),
{
    let left = remainder_after(n, rem, a);
    lemma_remainder_continues(n, rem, a, b);
    assert forall|i: nat| i < b implies #[trigger] expansion_digit(n, rem, a + i)
        == expansion_digit(n, left, i) by {
        lemma_digit_continues(n, rem, a, i);
    }
    assert(expansion(n, rem, a + b) =~= expansion(n, rem, a) + expansion(n, left, b)) by {
        assert forall|j: int| a <= j < a + b implies #[trigger] expansion(n, rem, a + b)[j]
            == expansion(n, left, b)[j - a] by {
            assert(expansion_digit(n, rem, a + (j - a) as nat) == expansion_digit(
                n,
                left,
                (j - a) as nat,
            ));
        }
    }
}

proof fn lemma_remainder_continues(n: nat, rem: nat, a: nat, b: nat)
    requires
        n > 1,
    ensures
        remainder_after(n, rem, a + b) == remainder_after(n, remainder_after(n, rem, a), b),
{
    lemma_pow2_adds(a, b);
    let (p, q) = (pow2(a), pow2(b));
    if rem < n {
        lemma_mod_bound((rem * p) as int, n as int);
        lemma_mul_mod_noop_left((rem * p) as int, q as int, n as int);
        lemma_mul_is_associative(rem as int, p as int, q as int);
    } else {
        let d = (rem - n) as nat;
        lemma_mul_is_associative(d as int, p as int, q as int);
        assert(d * p >= 0) by (nonlinear_arith);
    }
}

/// Digit `a + i` of `rem / n` is digit `i` of the remainder left after `a` digits.
pub(crate) proof fn lemma_digit_continues(n: nat, rem: nat, a: nat, i: nat)
    requires
        n > 1,
    ensures
        expansion_digit(n, rem, a + i) == expansion_digit(n, remainder_after(n, rem, a), i),
{
    lemma_remainder_continues(n, rem, a, i);
    lemma_step(n, rem, a + i);
    lemma_step(n, remainder_after(n, rem, a), i);
}

/// Whether `s` is made of the digits `0` and `1`.
pub open spec fn is_binary(s: Seq<char>) -> bool {
    forall|i: int| 0 <= i < s.len() ==> #[trigger] s[i] == '0' || s[i] == '1'
}

/// Of all the texts of `bits` binary digits, the expansion of `rem / n` is the one
/// whose value, times `n`, goes into `rem * 2^bits` and leaves less than `n`.
pub proof fn law_expansion_is_the_quotient(n: nat, rem: nat, bits: nat, s: Seq<char>)
    requires
        n > 1,
        rem < n,
    ensures
        s == expansion(n, rem, bits) <==> {
            &&& s.len() == bits
            &&& is_binary(s)
            &&& n * binary_value(s) <= rem * pow2(bits) < n * binary_value(s) + n
        },
{
    let e = expansion(n, rem, bits);
    law_digits_are_quotient(n, rem, bits);
    assert(is_binary(e));
    if s.len() == bits && is_binary(s) && n * binary_value(s) <= rem * pow2(bits) < n
        * binary_value(s) + n {
        let (v, w, total) = (binary_value(s), binary_value(e), rem * pow2(bits));
        let left = remainder_after(n, rem, bits);
        assert(v == w) by (nonlinear_arith)
            requires
                n * v <= total < n * v + n,
                total == n * w + left,
                left < n,
        ;
        lemma_binary_value_is_unique(s, e);
    }
}

/// Two texts of as many binary digits with the same value are the same.
proof fn lemma_binary_value_is_unique(s: Seq<char>, t: Seq<char>)
    requires
        s.len() == t.len(),
        is_binary(s),
        is_binary(t),
        binary_value(s) == binary_value(t),
    ensures
        s == t,
    decreases s.len(),
{
    if s.len() > 0 {
        assert(s[s.len() - 1] == s.last() && t[t.len() - 1] == t.last());
        assert(is_binary(s.drop_last()) && is_binary(t.drop_last()));
        lemma_binary_value_is_unique(s.drop_last(), t.drop_last());
        assert(s =~= s.drop_last().push(s.last()));
        assert(t =~= t.drop_last().push(t.last()));
    } else {
        assert(s =~= t);
    }
}

/// A remainder that is not below `n` has the digit 1 everywhere: `n` is taken away
/// at every step, and what is left over grows.
pub proof fn law_large_remainder_has_only_ones(n: nat, rem: nat, bits: nat)
    requires
        n > 1,
        rem >= n,
    ensures
        expansion(n, rem, bits).len() == bits,
        forall|i: int| 0 <= i < bits ==> #[trigger] expansion(n, rem, bits)[i] == '1',
        rem * pow2(bits) + n == n * pow2(bits) + remainder_after(n, rem, bits),
{
    let (p, d) = (pow2(bits), (rem - n) as nat);
    let left = remainder_after(n, rem, bits);
    assert(d * p >= 0) by (nonlinear_arith);
    assert(left == n + d * p);
    assert(rem * p == n * p + d * p) by (nonlinear_arith)
        requires
            rem == n + d,
    ;
}

} // verus!
