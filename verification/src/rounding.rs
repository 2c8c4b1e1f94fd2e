//! Rounding of natural numbers to the precision of a binary32 number.
//!
//! A real number is held here as a natural number of equal units, each a
//! negative power of two that is small enough for every quantity in sight to be
//! a whole number of them. Rounding then happens between whole numbers.

use vstd::prelude::*;
use vstd::arithmetic::div_mod::{
    lemma_div_by_multiple, lemma_div_is_ordered, lemma_div_multiples_vanish_quotient,
    lemma_fundamental_div_mod, lemma_fundamental_div_mod_converse, lemma_mod_multiples_basic,
    lemma_truncate_middle,
};
use vstd::arithmetic::mul::{
    lemma_mul_inequality, lemma_mul_is_associative, lemma_mul_is_commutative,
    lemma_mul_strict_inequality,
};
use vstd::arithmetic::power2::{
    lemma_pow2_adds, lemma_pow2_pos, lemma_pow2_strictly_increases, lemma_pow2_unfold, pow2,
};
use vstd::bits::{lemma_u64_pow2_no_overflow, lemma_u64_shl_is_mul};

verus! {

/// Number of binary digits of `n`: 0 for 0, otherwise the `l` with
/// `2^(l-1) <= n < 2^l`.
pub open spec fn bit_length(n: nat) -> nat
    decreases n,
{
    if n == 0 {
        0
    } else {
        1 + bit_length(n / 2)
    }
}

/// The whole number nearest to `n / d`; of two equally near ones, the even one.
pub open spec fn round_half_even(n: nat, d: nat) -> nat {
    let q = n / d;
    let r = n % d;
    if 2 * r < d || (2 * r == d && q % 2 == 0) {
        q
    } else {
        q + 1
    }
}

/// The whole number nearest to `n / d`; of two equally near ones, the larger.
pub open spec fn round_half_up(n: nat, d: nat) -> nat {
    let q = n / d;
    let r = n % d;
    if 2 * r < d {
        q
    } else {
        q + 1
    }
}

/// Binary32 numbers near `n` are spaced `2^spacing_exponent(n, floor)` units apart.
///
/// A binary32 number has 24 significant binary digits, so numbers of `l > 24`
/// digits are `2^(l-24)` apart. No two are closer than the smallest positive
/// binary32 number, which is `2^floor` units.
pub open spec fn spacing_exponent(n: nat, floor: nat) -> nat {
    if bit_length(n) >= 24 + floor {
        (bit_length(n) - 24) as nat
    } else {
        floor
    }
}

/// The binary32 number nearest to `n` units, ties to even, in the same units,
/// where the smallest positive binary32 number is `2^floor` units.
///
/// The exponent range has no upper end here: a result of `2^(floor + 277)`
/// units or more stands for what hardware makes an infinity.
pub open spec fn round_binary32(n: nat, floor: nat) -> nat {
    let g = pow2(spacing_exponent(n, floor));
    round_half_even(n, g) * g
}

/// The binary32 number nearest to `num / den` units, ties to even, in the
/// same units, where the smallest positive binary32 number is `2^floor` units.
pub open spec fn round_binary32_quotient(num: nat, den: nat, floor: nat) -> nat {
    let g = pow2(spacing_exponent(num / den, floor));
    round_half_even(num, den * g) * g
}

/// A positive number lies between the powers of two that its digit count names.
pub proof fn lemma_bit_length_bounds(n: nat)
    requires
        n > 0,
    ensures
        bit_length(n) >= 1,
        pow2((bit_length(n) - 1) as nat) <= n < pow2(bit_length(n)),
    decreases n,
{
    if n == 1 {
        assert(bit_length(1) == 1 + bit_length(0));
        lemma_pow2_unfold(1);
        assert(pow2(0) == 1) by {
            reveal_with_fuel(vstd::arithmetic::power::pow, 1);
            vstd::arithmetic::power2::lemma_pow2(0);
        }
    } else {
        let h: nat = n / 2;
        lemma_bit_length_bounds(h);
        let l = bit_length(h);
        assert(bit_length(n) == l + 1);
        lemma_pow2_unfold(l);
        lemma_pow2_unfold(l + 1);
    }
}

/// A larger exponent gives a power of two that is not smaller.
pub proof fn lemma_pow2_monotone(a: nat, b: nat)
    requires
        a <= b,
    ensures
        pow2(a) <= pow2(b),
{
    if a < b {
        lemma_pow2_strictly_increases(a, b);
    }
}

/// A number between two neighbouring powers of two has the digit count of the
/// larger.
pub proof fn lemma_bit_length_unique(n: nat, l: nat)
    requires
        l >= 1,
        pow2((l - 1) as nat) <= n < pow2(l),
    ensures
        bit_length(n) == l,
{
    lemma_pow2_pos((l - 1) as nat);
    lemma_bit_length_bounds(n);
    let k = bit_length(n);
    if k < l {
        lemma_pow2_monotone(k, (l - 1) as nat);
    } else if k > l {
        lemma_pow2_monotone(l, (k - 1) as nat);
    }
}

/// A number below `2^l` has at most `l` digits.
pub proof fn lemma_bit_length_below(n: nat, l: nat)
    requires
        n < pow2(l),
    ensures
        bit_length(n) <= l,
{
    if n > 0 {
        lemma_bit_length_bounds(n);
        if bit_length(n) > l {
            lemma_pow2_monotone(l, (bit_length(n) - 1) as nat);
        }
    }
}

/// A larger number has no fewer digits.
pub proof fn lemma_bit_length_monotone(a: nat, b: nat)
    requires
        a <= b,
    ensures
        bit_length(a) <= bit_length(b),
{
    if a > 0 {
        lemma_bit_length_bounds(a);
        lemma_bit_length_bounds(b);
        if bit_length(a) > bit_length(b) {
            lemma_pow2_monotone(bit_length(b), (bit_length(a) - 1) as nat);
        }
    }
}

/// Multiplying by a power of two appends that many digits.
pub proof fn lemma_bit_length_shift(n: nat, j: nat)
    requires
        n > 0,
    ensures
        bit_length(n * pow2(j)) == bit_length(n) + j,
{
    lemma_bit_length_bounds(n);
    let l = bit_length(n);
    let p = pow2(j);
    lemma_pow2_pos(j);
    lemma_pow2_adds((l - 1) as nat, j);
    lemma_pow2_adds(l, j);
    lemma_mul_inequality(pow2((l - 1) as nat) as int, n as int, p as int);
    lemma_mul_strict_inequality(n as int, pow2(l) as int, p as int);
    lemma_bit_length_unique(n * p, l + j);
}

/// Rounding moves a quotient by less than one, and not at all where the
/// division is exact.
pub proof fn lemma_round_half_even_bounds(n: nat, d: nat)
    requires
        d > 0,
    ensures
        n / d <= round_half_even(n, d) <= n / d + 1,
        n % d == 0 ==> round_half_even(n, d) == n / d,
        2 * n - d <= 2 * d * round_half_even(n, d) <= 2 * n + d,
{
    lemma_fundamental_div_mod(n as int, d as int);
    let q = n / d;
    let r = n % d;
    assert(n == d * q + r);
    assert(2 * d * (q + 1) == 2 * (d * q) + 2 * d) by (nonlinear_arith);
    assert(2 * d * q == 2 * (d * q)) by (nonlinear_arith);
}

/// Rounding a quotient keeps the order of the numerators.
pub proof fn lemma_round_half_even_monotone(a: nat, b: nat, d: nat)
    requires
        a <= b,
        d > 0,
    ensures
        round_half_even(a, d) <= round_half_even(b, d),
{
    lemma_div_is_ordered(a as int, b as int, d as int);
    lemma_fundamental_div_mod(a as int, d as int);
    lemma_fundamental_div_mod(b as int, d as int);
}

/// A common factor of numerator and denominator does not change the rounding.
pub proof fn lemma_round_half_even_scale(n: nat, d: nat, c: nat)
    requires
        d > 0,
        c > 0,
    ensures
        round_half_even(n * c, d * c) == round_half_even(n, d),
{
    lemma_div_multiples_vanish_quotient(c as int, n as int, d as int);
    lemma_truncate_middle(n as int, c as int, d as int);
    lemma_mul_is_commutative(n as int, c as int);
    lemma_mul_is_commutative(d as int, c as int);
    let r = n % d;
    assert((n * c) / (d * c) == n / d);
    assert((n * c) % (d * c) == c * r);
    assert(2 * (c * r) < d * c <==> 2 * r < d) by (nonlinear_arith)
        requires
            c > 0,
    ;
    assert(2 * (c * r) == d * c <==> 2 * r == d) by (nonlinear_arith)
        requires
            c > 0,
    ;
}

/// Rounding a quotient keeps the order of the numerators.
pub proof fn lemma_round_half_up_monotone(a: nat, b: nat, d: nat)
    requires
        a <= b,
        d > 0,
    ensures
        round_half_up(a, d) <= round_half_up(b, d),
{
    lemma_div_is_ordered(a as int, b as int, d as int);
    lemma_fundamental_div_mod(a as int, d as int);
    lemma_fundamental_div_mod(b as int, d as int);
}

/// Rounding to multiples of `g` does not cross a multiple of `g`.
pub proof fn lemma_round_half_up_multiple(n: nat, g: nat, m: nat)
    requires
        g > 0,
    ensures
        round_half_up(m * g, g) == m,
        m * g <= n ==> m <= round_half_up(n, g),
        n <= m * g ==> round_half_up(n, g) <= m,
{
    lemma_fundamental_div_mod_converse((m * g) as int, g as int, m as int, 0);
    if m * g <= n {
        lemma_round_half_up_monotone(m * g, n, g);
    }
    if n <= m * g {
        lemma_round_half_up_monotone(n, m * g, g);
    }
}

/// A common factor of numerator and denominator does not change the rounding.
pub proof fn lemma_round_half_up_scale(n: nat, d: nat, c: nat)
    requires
        d > 0,
        c > 0,
    ensures
        round_half_up(n * c, d * c) == round_half_up(n, d),
{
    lemma_div_multiples_vanish_quotient(c as int, n as int, d as int);
    lemma_truncate_middle(n as int, c as int, d as int);
    lemma_mul_is_commutative(n as int, c as int);
    lemma_mul_is_commutative(d as int, c as int);
    let r = n % d;
    assert((n * c) % (d * c) == c * r);
    assert(2 * (c * r) < d * c <==> 2 * r < d) by (nonlinear_arith)
        requires
            c > 0,
    ;
}

/// Rounding to multiples of `g` does not cross a multiple of `g`.
pub proof fn lemma_round_half_even_multiple(n: nat, g: nat, m: nat)
    requires
        g > 0,
    ensures
        round_half_even(m * g, g) == m,
        m * g <= n ==> m <= round_half_even(n, g),
        n <= m * g ==> round_half_even(n, g) <= m,
{
    lemma_fundamental_div_mod_converse((m * g) as int, g as int, m as int, 0);
    if m * g <= n {
        lemma_round_half_even_monotone(m * g, n, g);
    }
    if n <= m * g {
        lemma_round_half_even_monotone(n, m * g, g);
    }
}

/// Rounding to binary32 moves a number by at most half the spacing of the
/// binary32 numbers around it.
pub proof fn lemma_round_binary32_is_near(n: nat, floor: nat)
    ensures
        2 * (round_binary32(n, floor) - n) <= pow2(spacing_exponent(n, floor)),
        2 * (n - round_binary32(n, floor)) <= pow2(spacing_exponent(n, floor)),
{
    let g = pow2(spacing_exponent(n, floor));
    lemma_pow2_pos(spacing_exponent(n, floor));
    lemma_round_half_even_bounds(n, g);
    let h = round_half_even(n, g);
    assert(2 * (h * g) == 2 * g * h) by (nonlinear_arith);
}

/// A number that already lies on the binary32 grid is its own rounding.
pub proof fn lemma_round_binary32_exact(n: nat, floor: nat)
    requires
        n % pow2(spacing_exponent(n, floor)) == 0,
    ensures
        round_binary32(n, floor) == n,
{
    let g = pow2(spacing_exponent(n, floor));
    lemma_pow2_pos(spacing_exponent(n, floor));
    lemma_round_half_even_bounds(n, g);
    lemma_fundamental_div_mod(n as int, g as int);
    lemma_mul_is_commutative(g as int, (n / g) as int);
}

/// A multiple of `2^j` with few enough digits lies on the binary32 grid.
pub proof fn lemma_round_binary32_of_multiple(n: nat, j: nat, floor: nat)
    requires
        bit_length(n) <= 24,
        floor <= j,
    ensures
        round_binary32(n * pow2(j), floor) == n * pow2(j),
{
    let v = n * pow2(j);
    lemma_pow2_pos(j);
    if n == 0 {
        assert(v == 0) by (nonlinear_arith)
            requires
                v == n * pow2(j),
                n == 0,
        ;
        assert(bit_length(0) == 0);
        lemma_pow2_pos(floor);
        assert(0nat % pow2(floor) == 0) by {
            lemma_fundamental_div_mod_converse(0, pow2(floor) as int, 0, 0);
        }
    } else {
        lemma_bit_length_shift(n, j);
        let e = spacing_exponent(v, floor);
        assert(e <= j);
        lemma_pow2_pos(e);
        lemma_pow2_adds((j - e) as nat, e);
        lemma_mul_is_associative(n as int, pow2((j - e) as nat) as int, pow2(e) as int);
        let m = n * pow2((j - e) as nat);
        assert(v == m * pow2(e));
        lemma_fundamental_div_mod_converse(v as int, pow2(e) as int, m as int, 0);
    }
    lemma_round_binary32_exact(v, floor);
}

/// Rounding a number of at least 24 digits, seen as a shorter number times a
/// power of two, rounds the shorter number.
pub proof fn lemma_round_binary32_shift(n: nat, j: nat, floor: nat)
    requires
        bit_length(n) >= 24,
        bit_length(n) + j >= 24 + floor,
    ensures
        round_binary32(n * pow2(j), floor) == round_half_even(
            n,
            pow2((bit_length(n) - 24) as nat),
        ) * pow2((bit_length(n) - 24 + j) as nat),
{
    assert(n > 0) by {
        assert(bit_length(0) == 0);
    }
    let k = (bit_length(n) - 24) as nat;
    lemma_bit_length_shift(n, j);
    assert(spacing_exponent(n * pow2(j), floor) == k + j);
    lemma_pow2_adds(k, j);
    lemma_pow2_pos(k);
    lemma_pow2_pos(j);
    lemma_round_half_even_scale(n, pow2(k), pow2(j));
}

/// Rounding to binary32 keeps the order of its arguments.
pub proof fn lemma_round_binary32_monotone(a: nat, b: nat, floor: nat)
    requires
        a <= b,
    ensures
        round_binary32(a, floor) <= round_binary32(b, floor),
{
    let la = bit_length(a);
    let lb = bit_length(b);
    let ea = spacing_exponent(a, floor);
    let eb = spacing_exponent(b, floor);
    lemma_bit_length_monotone(a, b);
    lemma_pow2_pos(ea);
    lemma_pow2_pos(eb);
    if ea == eb {
        lemma_round_half_even_monotone(a, b, pow2(ea));
        lemma_mul_inequality(
            round_half_even(a, pow2(ea)) as int,
            round_half_even(b, pow2(ea)) as int,
            pow2(ea) as int,
        );
    } else {
        assert(ea < eb);
        assert(eb == lb - 24);
        assert(la < lb);
        // Between the two lies the power of two 2^(lb - 1), which is on both grids.
        let top = if la >= ea { la } else { ea };
        assert(top <= lb - 1);
        if a > 0 {
            lemma_bit_length_bounds(a);
        }
        lemma_pow2_pos(la);
        lemma_pow2_monotone(la, top);
        lemma_pow2_adds((top - ea) as nat, ea);
        lemma_round_half_even_multiple(a, pow2(ea), pow2((top - ea) as nat));
        lemma_mul_inequality(
            round_half_even(a, pow2(ea)) as int,
            pow2((top - ea) as nat) as int,
            pow2(ea) as int,
        );
        assert(round_binary32(a, floor) <= pow2(top));
        lemma_pow2_monotone(top, (lb - 1) as nat);
        lemma_bit_length_bounds(b);
        lemma_pow2_adds(23, eb);
        lemma_round_half_even_multiple(b, pow2(eb), pow2(23));
        lemma_mul_inequality(
            pow2(23) as int,
            round_half_even(b, pow2(eb)) as int,
            pow2(eb) as int,
        );
        assert(pow2((lb - 1) as nat) <= round_binary32(b, floor));
    }
}

/// What rounding to binary32 returns is a binary32 number: it lies on the grid
/// at its own magnitude, and rounding it again changes nothing.
pub proof fn lemma_round_binary32_on_grid(n: nat, floor: nat)
    ensures
        round_binary32(n, floor) % pow2(spacing_exponent(round_binary32(n, floor), floor)) == 0,
        round_binary32(round_binary32(n, floor), floor) == round_binary32(n, floor),
{
    let l = bit_length(n);
    let e = spacing_exponent(n, floor);
    let g = pow2(e);
    let h = round_half_even(n, g);
    let r = round_binary32(n, floor);
    lemma_pow2_pos(e);
    vstd::arithmetic::power2::lemma2_to64();
    if n > 0 {
        lemma_bit_length_bounds(n);
    }
    if l >= 24 + floor {
        lemma_pow2_adds(23, e);
        lemma_pow2_adds(24, e);
        lemma_round_half_even_multiple(n, g, pow2(23));
        lemma_round_half_even_multiple(n, g, pow2(24));
        if h < pow2(24) {
            lemma_bit_length_unique(h, 24);
            lemma_bit_length_shift(h, e);
            assert(spacing_exponent(r, floor) == e);
            lemma_mod_multiples_basic(h as int, g as int);
        } else {
            lemma_pow2_adds(23, e + 1);
            lemma_pow2_adds(1, e);
            lemma_pow2_pos(e + 1);
            assert(r == pow2(23) * pow2(e + 1)) by (nonlinear_arith)
                requires
                    r == h * g,
                    h == pow2(24),
                    pow2(24) == 2 * pow2(23),
                    pow2(e + 1) == 2 * g,
            ;
            lemma_bit_length_unique(pow2(23), 24);
            lemma_bit_length_shift(pow2(23), e + 1);
            assert(spacing_exponent(r, floor) == e + 1);
            lemma_mod_multiples_basic(pow2(23) as int, pow2(e + 1) as int);
        }
    } else {
        // Fewer than 24 digits above the floor: the grid is the floor's, before and after.
        lemma_pow2_monotone(l, 23 + floor);
        lemma_pow2_adds(23, floor);
        lemma_pow2_adds(24, floor);
        lemma_round_half_even_multiple(n, g, pow2(23));
        lemma_mul_inequality(h as int, pow2(23) as int, g as int);
        assert(r < pow2(24 + floor));
        lemma_bit_length_below(r, 24 + floor);
        assert(spacing_exponent(r, floor) == floor);
        lemma_mod_multiples_basic(h as int, g as int);
    }
    lemma_round_binary32_exact(r, floor);
}

/// Rounding the quotient of a multiple of the denominator rounds the other
/// factor.
pub proof fn lemma_round_binary32_quotient_of_multiple(n: nat, d: nat, floor: nat)
    requires
        d > 0,
    ensures
        round_binary32_quotient(n * d, d, floor) == round_binary32(n, floor),
{
    lemma_div_by_multiple(n as int, d as int);
    let g = pow2(spacing_exponent(n, floor));
    lemma_pow2_pos(spacing_exponent(n, floor));
    lemma_round_half_even_scale(n, g, d);
    lemma_mul_is_commutative(d as int, g as int);
}

/// A quotient within half of a whole number rounds to that number.
pub proof fn lemma_round_half_even_near(n: nat, g: nat, m: nat)
    requires
        g > 0,
        2 * (n - m * g) < g,
        2 * (m * g - n) < g,
    ensures
        round_half_even(n, g) == m,
{
    if n >= m * g {
        lemma_fundamental_div_mod_converse(n as int, g as int, m as int, n - m * g);
    } else {
        assert((m - 1) * g + (g - (m * g - n)) == n) by (nonlinear_arith);
        lemma_fundamental_div_mod_converse(
            n as int,
            g as int,
            m - 1,
            g - (m * g - n),
        );
    }
}

/// Dividing a multiple of `2^a` by a larger power of two divides the other
/// factor by what is left of the power.
pub proof fn lemma_div_pow2_cancel(r: nat, a: nat, b: nat)
    requires
        a <= b,
    ensures
        (r * pow2(a)) / pow2(b) == r / pow2((b - a) as nat),
        (r * pow2(a)) % pow2(b) == (r % pow2((b - a) as nat)) * pow2(a),
{
    let d = pow2((b - a) as nat);
    lemma_pow2_pos(a);
    lemma_pow2_pos((b - a) as nat);
    lemma_pow2_adds((b - a) as nat, a);
    lemma_div_multiples_vanish_quotient(pow2(a) as int, r as int, d as int);
    lemma_truncate_middle(r as int, pow2(a) as int, d as int);
    lemma_mul_is_commutative(r as int, pow2(a) as int);
    lemma_mul_is_commutative(d as int, pow2(a) as int);
    lemma_mul_is_commutative((r % d) as int, pow2(a) as int);
}

/// Floor division of a negated number rounds away from zero.
pub proof fn lemma_div_of_negated(a: nat, d: nat)
    requires
        d > 0,
    ensures
        (-(a as int)) / (d as int) == if a % d == 0 {
            -((a / d) as int)
        } else {
            -((a / d) as int) - 1
        },
{
    lemma_fundamental_div_mod(a as int, d as int);
    let q = (a / d) as int;
    let r = (a % d) as int;
    if r == 0 {
        assert(-(a as int) == (-q) * d + 0) by (nonlinear_arith)
            requires
                a == d * q + r,
                r == 0,
        ;
        lemma_fundamental_div_mod_converse(-(a as int), d as int, -q, 0);
    } else {
        assert(-(a as int) == (-q - 1) * d + (d - r)) by (nonlinear_arith)
            requires
                a == d * q + r,
        ;
        lemma_fundamental_div_mod_converse(-(a as int), d as int, -q - 1, d - r);
    }
}

/// Number of binary digits of `n`.
pub fn count_bits(n: u64) -> (l: u32)
    ensures
        l == bit_length(n as nat),
        l <= 64,
{
    let mut rest: u64 = n;
    let mut l: u32 = 0;
    proof {
        vstd::arithmetic::power2::lemma2_to64();
        lemma_bit_length_below(n as nat, 64);
    }
    while rest > 0
        invariant
            l + bit_length(rest as nat) == bit_length(n as nat),
            bit_length(n as nat) <= 64,
        decreases rest,
    {
        rest = rest / 2;
        l = l + 1;
    }
    l
}

/// The power of two with exponent `k`.
pub fn power_of_two(k: u32) -> (p: u64)
    requires
        k < 64,
    ensures
        p == pow2(k as nat),
        p > 0,
{
    proof {
        lemma_u64_pow2_no_overflow(k as nat);
        lemma_u64_shl_is_mul(1, k as u64);
        lemma_pow2_pos(k as nat);
    }
    1u64 << k
}

/// `n / d`, rounded to the nearest whole number, ties to the even one.
pub fn divide_round_half_even_by(n: u64, d: u64) -> (r: u64)
    requires
        d > 0,
    ensures
        r == round_half_even(n as nat, d as nat),
{
    let q: u64 = n / d;
    let rest: u64 = n % d;
    proof {
        lemma_fundamental_div_mod(n as int, d as int);
        // Where the quotient is rounded up, the divisor is at least 2.
        assert(d >= 2 ==> 2 * q <= n) by (nonlinear_arith)
            requires
                n == d * q + rest,
                rest >= 0,
                q >= 0,
        ;
    }
    if rest < d - rest || (rest == d - rest && q % 2 == 0) {
        q
    } else {
        q + 1
    }
}

/// `n / 2^k`, rounded to the nearest whole number, ties to the even one.
pub fn divide_round_half_even(n: u64, k: u32) -> (r: u64)
    requires
        k < 64,
    ensures
        r == round_half_even(n as nat, pow2(k as nat)),
{
    let p: u64 = power_of_two(k);
    divide_round_half_even_by(n, p)
}

/// `n / 2^k`, rounded to the nearest whole number, ties to the larger one.
pub fn divide_round_half_up(n: u64, k: u32) -> (r: u64)
    requires
        k < 64,
    ensures
        r == round_half_up(n as nat, pow2(k as nat)),
{
    let p: u64 = power_of_two(k);
    let q: u64 = n / p;
    let rest: u64 = n % p;
    proof {
        lemma_fundamental_div_mod(n as int, p as int);
        assert(p >= 2 ==> 2 * q <= n) by (nonlinear_arith)
            requires
                n == p * q + rest,
                rest >= 0,
                q >= 0,
        ;
    }
    if rest < p - rest {
        q
    } else {
        q + 1
    }
}

} // verus!
