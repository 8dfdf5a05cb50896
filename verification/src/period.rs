//! When the binary digits of `rem / n` repeat.
use vstd::arithmetic::div_mod::{
    lemma_fundamental_div_mod, lemma_fundamental_div_mod_converse, lemma_mod_bound,
    lemma_mod_multiples_basic, lemma_small_mod,
};
use vstd::arithmetic::power2::{lemma2_to64, lemma_pow2_adds, lemma_pow2_unfold, pow2};
use vstd::prelude::*;
use vstd::set_lib::{lemma_int_range, lemma_len_subset, set_int_range};

use crate::reciprocal::{
    binary_value, expansion, expansion_digit, law_digits_are_quotient, lemma_digit_continues,
    remainder_after,
};

verus! {

/// Whether `p` is the multiplicative order of 2 modulo `n`: the least positive
/// `p` with `2^p` congruent to 1.
pub open spec fn is_order_of_two(n: nat, p: nat) -> bool {
    &&& p > 0
    &&& pow2(p) % n == 1
    &&& forall|q: nat| 0 < q < p ==> #[trigger] pow2(q) % n != 1
}

/// Whether the digits of `rem / n` repeat every `p` places, from the first on.
pub open spec fn repeats_every(n: nat, rem: nat, p: nat) -> bool {
    forall|i: nat| #[trigger] expansion_digit(n, rem, i + p) == expansion_digit(n, rem, i)
}

/// Whether `a` and `b` have no common divisor but 1.
pub open spec fn coprime(a: nat, b: nat) -> bool {
    forall|d: nat| d > 1 && #[trigger] divides(d, a) ==> !divides(d, b)
}

/// Whether `d` divides `x`.
pub open spec fn divides(d: nat, x: nat) -> bool {
    x % d == 0
}

/// For an odd `n` above 1, 2 has a multiplicative order modulo `n`, and it is
/// not more than `n`.
pub proof fn law_order_exists(n: nat)
    requires
        n % 2 == 1,
        n > 1,
    ensures
        exists|p: nat| p <= n && is_order_of_two(n, p),
{
    let (i, j) = lemma_powers_meet(n);
    let q = (j - i) as nat;
    lemma_pow2_adds(i, q);
    lemma_pow2_at_least_one(q);
    let y = (pow2(q) - 1) as nat;
    lemma_same_residue(pow2(j), pow2(i), n);
    assert(pow2(i) * y == pow2(j) - pow2(i)) by (nonlinear_arith)
        requires
            pow2(j) == pow2(i) * pow2(q),
            pow2(q) == y + 1,
    ;
    lemma_cancel_power(n, i, y);
    lemma_one_more(n, pow2(q));
    lemma_least(n, q);
}

/// The digits of `rem / n` repeat with the multiplicative order of 2 modulo
/// `n`, for every remainder; and where the remainder has no divisor in common
/// with `n`, as 1 has, they repeat with no smaller period.
pub proof fn law_period_is_order(n: nat, rem: nat, p: nat)
    requires
        n % 2 == 1,
        n > 1,
        rem < n,
        is_order_of_two(n, p),
    ensures
        repeats_every(n, rem, p),
        coprime(rem, n) ==> forall|q: nat| 0 < q < p ==> !#[trigger] repeats_every(n, rem, q),
{
    lemma_returns(n, rem, p);
    assert forall|i: nat| #[trigger] expansion_digit(n, rem, i + p) == expansion_digit(n, rem, i) by {
        lemma_digit_continues(n, rem, p, i);
        assert(p + i == i + p);
    }
    if coprime(rem, n) {
        assert forall|q: nat| 0 < q < p implies !#[trigger] repeats_every(n, rem, q) by {
            if repeats_every(n, rem, q) {
                lemma_period_is_power(n, rem, q);
                assert(pow2(q) % n == 1);
            }
        }
    }
}

/// 1 has no divisor in common with any number.
pub proof fn law_one_is_coprime(n: nat)
    ensures
        coprime(1, n),
{
    assert forall|d: nat| d > 1 && #[trigger] divides(d, 1) implies !divides(d, n) by {
        lemma_small_mod(1, d);
    }
}

/// Where `2^p` is congruent to 1, `p` steps of the division lead back to the
/// remainder they began with.
proof fn lemma_returns(n: nat, rem: nat, p: nat)
    requires
        n > 1,
        rem < n,
        pow2(p) % n == 1,
    ensures
        remainder_after(n, rem, p) == rem,
{
    let k = pow2(p) / n;
    lemma_fundamental_div_mod(pow2(p) as int, n as int);
    assert(rem * pow2(p) == (rem * k) * n + rem) by (nonlinear_arith)
        requires
            pow2(p) == n * k + 1,
    ;
    lemma_fundamental_div_mod_converse(
        (rem * pow2(p)) as int,
        n as int,
        (rem * k) as int,
        rem as int,
    );
}

/// Where the digits repeat every `q` places and `rem` is coprime to `n`, `2^q` is
/// congruent to 1.
proof fn lemma_period_is_power(n: nat, rem: nat, q: nat)
    requires
        n > 1,
        rem < n,
        coprime(rem, n),
        repeats_every(n, rem, q),
    ensures
        pow2(q) % n == 1,
{
    let left = remainder_after(n, rem, q);
    lemma_mod_bound((rem * pow2(q)) as int, n as int);
    assert forall|i: nat| #[trigger] expansion_digit(n, left, i) == expansion_digit(n, rem, i) by {
        lemma_digit_continues(n, rem, q, i);
        assert(expansion_digit(n, rem, i + q) == expansion_digit(n, rem, i));
        assert(q + i == i + q);
    }
    lemma_digits_tell_remainders_apart(n, left, rem);
    lemma2_to64();
    lemma_pow2_at_least_one(q);
    let y = (pow2(q) - 1) as nat;
    lemma_same_residue_of_self(rem * pow2(q), rem, n);
    assert(rem * pow2(q) >= rem && rem * pow2(q) - rem == rem * y) by (nonlinear_arith)
        requires
            pow2(q) >= 1,
            y == pow2(q) - 1,
    ;
    assert(divides(n, rem * y));
    lemma_mod_multiples_basic(y as int, n as int);
    assert(n * y == y * n) by (nonlinear_arith);
    lemma_cancel_coprime(rem, n, n, y);
    lemma_one_more(n, pow2(q));
}

/// Remainders below `n` with the same digits are the same.
proof fn lemma_digits_tell_remainders_apart(n: nat, a: nat, b: nat)
    requires
        n > 1,
        a < n,
        b < n,
        forall|i: nat| #[trigger] expansion_digit(n, a, i) == expansion_digit(n, b, i),
    ensures
        a == b,
{
    assert(expansion(n, a, n) =~= expansion(n, b, n));
    law_digits_are_quotient(n, a, n);
    law_digits_are_quotient(n, b, n);
    lemma_pow2_outgrows(n);
    let v = binary_value(expansion(n, a, n));
    let p = pow2(n);
    assert(a == b) by (nonlinear_arith)
        requires
            a * p >= n * v,
            a * p < n * v + n,
            b * p >= n * v,
            b * p < n * v + n,
            p > n,
    ;
}

proof fn lemma_pow2_outgrows(k: nat)
    ensures
        pow2(k) > k,
    decreases k,
{
    lemma2_to64();
    if k > 0 {
        lemma_pow2_outgrows((k - 1) as nat);
        lemma_pow2_unfold(k);
    }
}

proof fn lemma_pow2_at_least_one(k: nat)
    ensures
        pow2(k) >= 1,
{
    lemma_pow2_outgrows(k);
}

/// Two of the powers `2^0` to `2^n` leave the same remainder.
proof fn lemma_powers_meet(n: nat) -> (r: (nat, nat))
    requires
        n > 1,
    ensures
        r.0 < r.1 <= n,
        pow2(r.0) % n == pow2(r.1) % n,
        pow2(r.0) <= pow2(r.1),
{
    let s = Seq::new((n + 1) as nat, |i: int| (pow2(i as nat) % n) as int);
    if s.no_duplicates() {
        s.unique_seq_to_set();
        lemma_int_range(0, n as int);
        assert forall|x: int| s.to_set().contains(x) implies set_int_range(0, n as int).contains(
            x,
        ) by {
            let i = choose|i: int| 0 <= i < s.len() && s[i] == x;
            lemma_mod_bound(pow2(i as nat) as int, n as int);
        }
        lemma_len_subset(s.to_set(), set_int_range(0, n as int));
        assert(false);
    }
    let (i, j) = choose|i: int, j: int|
        0 <= i < s.len() && 0 <= j < s.len() && i != j && s[i] == s[j];
    let (lo, hi) = if i < j {
        (i as nat, j as nat)
    } else {
        (j as nat, i as nat)
    };
    assert(s[lo as int] == s[hi as int]);
    lemma_pow2_adds(lo, (hi - lo) as nat);
    lemma_pow2_at_least_one((hi - lo) as nat);
    assert(pow2(lo) <= pow2(hi)) by (nonlinear_arith)
        requires
            pow2(hi) == pow2(lo) * pow2((hi - lo) as nat),
            pow2((hi - lo) as nat) >= 1,
    ;
    (lo, hi)
}

/// Numbers with the same remainder differ by a multiple.
proof fn lemma_same_residue(x: nat, y: nat, n: nat)
    requires
        n > 0,
        x >= y,
        x % n == y % n,
    ensures
        divides(n, (x - y) as nat),
{
    lemma_fundamental_div_mod(x as int, n as int);
    lemma_fundamental_div_mod(y as int, n as int);
    let (a, b) = ((x / n) as int, (y / n) as int);
    assert(x - y == (a - b) * n) by (nonlinear_arith)
        requires
            x == n * a + x % n,
            y == n * b + y % n,
            x % n == y % n,
    ;
    lemma_mod_multiples_basic(a - b, n as int);
}

proof fn lemma_same_residue_of_self(x: nat, y: nat, n: nat)
    requires
        n > 0,
        y < n,
        x % n == y,
    ensures
        x >= y,
        divides(n, (x - y) as nat),
{
    lemma_small_mod(y, n);
    lemma_fundamental_div_mod(x as int, n as int);
    assert(n * (x / n) >= 0) by (nonlinear_arith);
    lemma_same_residue(x, y, n);
}

/// Where `n > 1` divides `x - 1`, `x` is congruent to 1.
proof fn lemma_one_more(n: nat, x: nat)
    requires
        n > 1,
        x >= 1,
        divides(n, (x - 1) as nat),
    ensures
        x % n == 1,
{
    let k = (x - 1) / n as int;
    lemma_fundamental_div_mod(x - 1, n as int);
    assert(x == k * n + 1) by (nonlinear_arith)
        requires
            x - 1 == n * k + 0,
    ;
    lemma_fundamental_div_mod_converse(x as int, n as int, k, 1);
}

/// An odd `n` that divides `2^i * x` divides `x`.
proof fn lemma_cancel_power(n: nat, i: nat, x: nat)
    requires
        n % 2 == 1,
        divides(n, pow2(i) * x),
    ensures
        divides(n, x),
    decreases i,
{
    lemma2_to64();
    if i > 0 {
        let j = (i - 1) as nat;
        lemma_pow2_unfold(i);
        let z = pow2(j) * x;
        assert(pow2(i) * x == 2 * z) by (nonlinear_arith)
            requires
                pow2(i) == 2 * pow2(j),
                z == pow2(j) * x,
        ;
        let k = (2 * z) / n;
        lemma_fundamental_div_mod((2 * z) as int, n as int);
        assert(2 * z == n * k);
        let h = n / 2;
        assert(k % 2 == 0) by {
            assert(n * k == 2 * (h * k) + k) by (nonlinear_arith)
                requires
                    n == 2 * h + 1,
            ;
        }
        let m = k / 2;
        assert(z == m * n) by (nonlinear_arith)
            requires
                2 * z == n * k,
                k == 2 * m,
        ;
        lemma_mod_multiples_basic(m as int, n as int);
        lemma_cancel_power(n, j, x);
    } else {
        assert(pow2(0) * x == x) by (nonlinear_arith)
            requires
                pow2(0) == 1,
        ;
    }
}

/// Where `n` divides `a * y` and `b * y`, and `a` and `b` are coprime, it divides
/// `y`.
proof fn lemma_cancel_coprime(a: nat, b: nat, n: nat, y: nat)
    requires
        n > 0,
        coprime(a, b),
        divides(n, a * y),
        divides(n, b * y),
    ensures
        divides(n, y),
    decreases b,
{
    if b == 0 {
        if a > 1 {
            assert(divides(a, a)) by {
                lemma_mod_multiples_basic(1, a as int);
            }
            lemma_small_mod(0, a);
            assert(divides(a, b));
        } else if a == 0 {
            assert(divides(2, a));
            assert(divides(2, b));
        }
        assert(a == 1);
        assert(a * y == y) by (nonlinear_arith)
            requires
                a == 1,
        ;
    } else {
        let (q, r) = (a / b, a % b);
        lemma_fundamental_div_mod(a as int, b as int);
        assert forall|d: nat| d > 1 && #[trigger] divides(d, b) implies !divides(d, r) by {
            if divides(d, r) {
                lemma_combination(d, b, r, q, a);
                assert(divides(d, a));
            }
        }
        lemma_mod_bound(a as int, b as int);
        let (u, v) = ((a * y) / n, (b * y) / n);
        lemma_fundamental_div_mod((a * y) as int, n as int);
        lemma_fundamental_div_mod((b * y) as int, n as int);
        assert(r * y == (u - q * v) * n) by (nonlinear_arith)
            requires
                a == b * q + r,
                a * y == n * u,
                b * y == n * v,
        ;
        lemma_mod_multiples_basic(u - q * v, n as int);
        lemma_cancel_coprime(b, r, n, y);
    }
}

proof fn lemma_combination(d: nat, b: nat, r: nat, q: nat, a: nat)
    requires
        d > 1,
        divides(d, b),
        divides(d, r),
        a == b * q + r,
    ensures
        divides(d, a),
{
    let (s, t) = (b / d, r / d);
    lemma_fundamental_div_mod(b as int, d as int);
    lemma_fundamental_div_mod(r as int, d as int);
    assert(a == (s * q + t) * d) by (nonlinear_arith)
        requires
            a == b * q + r,
            b == d * s,
            r == d * t,
    ;
    lemma_mod_multiples_basic((s * q + t) as int, d as int);
}

/// Among the exponents up to `q` with `2^q` congruent to 1 there is a least one.
proof fn lemma_least(n: nat, q: nat)
    requires
        0 < q <= n,
        pow2(q) % n == 1,
    ensures
        exists|p: nat| p <= n && is_order_of_two(n, p),
    decreases q,
{
    if forall|k: nat| 0 < k < q ==> #[trigger] pow2(k) % n != 1 {
        assert(is_order_of_two(n, q));
    } else {
        let k = choose|k: nat| 0 < k < q && #[trigger] pow2(k) % n == 1;
        lemma_least(n, k);
    }
}

} // verus!
