//! Token amounts as text.
//!
//! An amount counts the indivisible units of the token. Its text is that of the
//! double-precision number nearest to the amount in whole tokens: the decimal
//! with the fewest digits that reads back as the same number. The arithmetic here
//! is that of integers throughout: a double is `m / 2^k` with `m` of 53 bits.

use crate::text::{
    decimal, decimal_text, decimal_value, is_digits, lemma_decimal_value, lemma_padded_value,
    pad_zeros, zero_padded,
};
use vstd::arithmetic::power2::{
    lemma2_to64, lemma2_to64_rest, lemma_pow2_pos, lemma_pow2_strictly_increases,
    lemma_pow2_unfold, pow2,
};
use vstd::prelude::*;
use vstd::string::StringExecFns;

verus! {

/// The indivisible units of one token.
pub const ONE_ORE: u128 = 100_000_000_000;

/// The least number of 53 bits.
pub const MIN_MANTISSA: u128 = 0x10_0000_0000_0000;

/// The least number of 54 bits.
pub const MANTISSA_END: u128 = 0x20_0000_0000_0000;

/// The least amount in units of which the quotient by `ONE_ORE` has 53 bits.
pub const SCALED_MIN: u128 = 450_359_962_737_049_600_000_000_000;

/// `num / den` rounded to the nearest integer, and to the even one of two.
pub open spec fn round_half_even(num: nat, den: nat) -> nat {
    let q = num / den;
    let r = num % den;
    if 2 * r < den || (2 * r == den && q % 2 == 0) {
        q
    } else {
        q + 1
    }
}

/// The distance between doubles in the neighbourhood of an integer: one where it
/// has at most 53 bits, and twice as much for each bit more.
pub open spec fn spacing(n: nat) -> nat
    decreases n,
{
    if n < MANTISSA_END {
        1
    } else {
        2 * spacing(n / 2)
    }
}

/// The double nearest to an integer; it is an integer.
pub open spec fn double_of_integer(n: nat) -> nat {
    round_half_even(n, spacing(n)) * spacing(n)
}

/// How many binary places the quotient of `a` units by `ONE_ORE` has to be given
/// for 53 bits.
pub open spec fn binary_places(a: nat) -> nat
    decreases
        if a < SCALED_MIN {
            SCALED_MIN - a
        } else {
            0
        },
{
    if a == 0 || a >= SCALED_MIN {
        0
    } else {
        1 + binary_places(2 * a)
    }
}

/// The double nearest to `a / ONE_ORE`, as `m` and `k` of `m / 2^k`.
pub open spec fn double_of_quotient(a: nat) -> (nat, nat) {
    let k = binary_places(a);
    let m = round_half_even(a * pow2(k), ONE_ORE as nat);
    if m == MANTISSA_END {
        (MIN_MANTISSA as nat, (k - 1) as nat)
    } else {
        (m, k)
    }
}

/// Ten to the power of `n`.
pub open spec fn pow10(n: nat) -> nat
    decreases n,
{
    if n == 0 {
        1
    } else {
        10 * pow10((n - 1) as nat)
    }
}

/// Four times the lower end of what rounds to `m`, in units of `m`. The double
/// below the least `m` of 53 bits is only half as far away as the one above.
pub open spec fn lower_end(m: nat) -> int {
    if m == MIN_MANTISSA {
        4 * m - 1
    } else {
        4 * m - 2
    }
}

/// Whether the decimal `d / 10^n` reads as the double `m / 2^k`: it lies between
/// the middles to the doubles on both sides, or on one of them where `m` is even.
pub open spec fn reads_as(d: nat, n: nat, m: nat, k: nat) -> bool {
    let x = 4 * d * pow2(k);
    let lo = lower_end(m) * pow10(n);
    let hi = (4 * m + 2) * pow10(n);
    if m % 2 == 0 {
        lo <= x <= hi
    } else {
        lo < x < hi
    }
}

/// How far the decimal `d / 10^n` is from the double `m / 2^k`, in units of
/// `1 / (10^n 2^k)`.
pub open spec fn distance(d: nat, n: nat, m: nat, k: nat) -> int {
    let x = d * pow2(k);
    let y = m * pow10(n);
    if x <= y {
        y - x
    } else {
        x - y
    }
}

/// Whether `d / 10^n` is the decimal with the fewest places that reads as the
/// double `m / 2^k`, the nearest of them, and the greater one of two.
pub open spec fn is_shortest(d: nat, n: nat, m: nat, k: nat) -> bool {
    &&& reads_as(d, n, m, k)
    &&& forall|d2: nat, n2: nat| n2 < n ==> !(#[trigger] reads_as(d2, n2, m, k))
    &&& forall|d2: nat| #[trigger]
        reads_as(d2, n, m, k) ==> {
            ||| distance(d, n, m, k) < distance(d2, n, m, k)
            ||| distance(d, n, m, k) == distance(d2, n, m, k) && d2 <= d
        }
}

/// The text of `d / 10^n` with `n` decimal places.
pub open spec fn fixed_point(d: nat, n: nat) -> Seq<char> {
    if n == 0 {
        decimal(d)
    } else {
        decimal(d / pow10(n)) + "."@ + zero_padded(decimal(d % pow10(n)), n)
    }
}

/// Whether `d / 10^n` is the decimal that `amount` is shown as.
pub open spec fn shown_as(amount: u64, d: nat, n: nat) -> bool {
    if amount == 0 {
        d == 0 && n == 0
    } else {
        let double = double_of_quotient(double_of_integer(amount as nat));
        is_shortest(d, n, double.0, double.1)
    }
}

/// The text that `amount` is shown as.
pub open spec fn amount_text(amount: u64) -> Seq<char> {
    let shown = choose|d: nat, n: nat| #[trigger] shown_as(amount, d, n);
    fixed_point(shown.0, shown.1)
}

/// `num / den`, rounded to the nearest integer, and to the even one of two.
fn divide(num: u128, den: u128) -> (out: u128)
    requires
        den > 0,
        2 * den <= u128::MAX,
        num < u128::MAX,
    ensures
        out == round_half_even(num as nat, den as nat),
{
    let q: u128 = num / den;
    let r: u128 = num % den;
    if 2 * r < den || (2 * r == den && q % 2 == 0) {
        q
    } else {
        assert(q <= num) by (nonlinear_arith)
            requires
                q == num / den,
                den > 0,
        ;
        q + 1
    }
}

/// The double nearest to `amount`.
fn round_amount(amount: u64) -> (out: u128)
    ensures
        out == double_of_integer(amount as nat),
        amount > 0 ==> out > 0,
        out < SCALED_MIN,
{
    let mut n: u128 = amount as u128;
    let mut step: u128 = 1;
    while n >= MANTISSA_END
        invariant
            spacing(amount as nat) == step * spacing(n as nat),
            n * step <= amount,
            step >= 1,
            step == 1 || n >= MIN_MANTISSA,
        decreases n,
    {
        proof {
            let s = spacing(n as nat / 2);
            assert(step * (2 * s) == (2 * step) * s) by (nonlinear_arith);
            assert((n / 2) * (2 * step) <= n * step) by (nonlinear_arith);
            assert(step <= n * step) by (nonlinear_arith)
                requires
                    n >= 1,
                    step >= 1,
            ;
        }
        n = n / 2;
        step = 2 * step;
    }
    assert(step * 1 == step);
    assert(step <= 0x1000) by (nonlinear_arith)
        requires
            n * step <= amount,
            step == 1 || n >= MIN_MANTISSA,
            amount <= u64::MAX,
    ;
    let q: u128 = divide(amount as u128, step);
    assert(q * step <= amount + step) by {
        vstd::arithmetic::div_mod::lemma_fundamental_div_mod(amount as int, step as int);
        assert(q * step <= (amount as int / step as int + 1) * step) by (nonlinear_arith)
            requires
                q <= amount as int / step as int + 1,
                step >= 1,
        ;
        assert((amount as int / step as int + 1) * step == step * (amount as int / step as int)
            + step) by (nonlinear_arith);
    }
    assert(amount > 0 ==> q >= 1) by {
        assert(step > 1 ==> amount as int / step as int >= 1) by (nonlinear_arith)
            requires
                n * step <= amount,
                step >= 1,
                step == 1 || n >= MIN_MANTISSA,
        ;
        assert(amount as int / 1 == amount);
    }
    assert(q >= 1 ==> q * step >= 1) by (nonlinear_arith)
        requires
            step >= 1,
    ;
    q * step
}

/// A double `m / 2^k`, with `p` for `2^k`.
struct Double {
    m: u128,
    p: u128,
    k: Ghost<nat>,
}

impl Double {
    /// What holds of a double in the range of amounts.
    spec fn well_formed(self) -> bool {
        &&& MIN_MANTISSA <= self.m < MANTISSA_END
        &&& 0 < self.p < 2 * SCALED_MIN
        &&& self.p == pow2(self.k@)
    }
}

/// The double nearest to `a / ONE_ORE`, which `a` units read as.
fn quotient(a: u128) -> (out: Double)
    requires
        0 < a < SCALED_MIN,
    ensures
        out.well_formed(),
        (out.m as nat, out.k@) == double_of_quotient(a as nat),
        reads_as(a as nat, 11, out.m as nat, out.k@),
{
    let mut x: u128 = a;
    let mut p: u128 = 1;
    let ghost mut k: nat = 0;
    proof {
        lemma2_to64();
    }
    while x < SCALED_MIN
        invariant
            0 < a <= x < 2 * SCALED_MIN,
            p == pow2(k),
            x == a * p,
            0 < p <= x,
            binary_places(a as nat) == k + binary_places(x as nat),
            k == 0 ==> x < SCALED_MIN,
        decreases 2 * SCALED_MIN - x,
    {
        proof {
            lemma_pow2_unfold(k + 1);
            assert(2 * (a * p) == a * (2 * p)) by (nonlinear_arith);
            k = k + 1;
        }
        x = 2 * x;
        p = 2 * p;
    }
    let m: u128 = divide(x, ONE_ORE);
    proof {
        lemma_reads_as_quotient(a as nat);
        assert(x as nat == a as nat * pow2(k));
    }
    if m == MANTISSA_END {
        let half: u128 = p / 2;
        proof {
            lemma_pow2_unfold(k);
        }
        Double { m: MIN_MANTISSA, p: half, k: Ghost((k - 1) as nat) }
    } else {
        Double { m, p, k: Ghost(k) }
    }
}

/// Whether `c / 10^n` reads as `double`, with `t` for `10^n`.
fn reads(c: u128, t: u128, double: &Double, Ghost(n): Ghost<nat>) -> (out: bool)
    requires
        double.well_formed(),
        t == pow10(n),
        t <= ONE_ORE,
        c * double.p <= double.m * t + double.p,
    ensures
        out == reads_as(c as nat, n, double.m as nat, double.k@),
{
    let m: u128 = double.m;
    proof {
        assert(m * t <= MANTISSA_END * ONE_ORE) by (nonlinear_arith)
            requires
                m < MANTISSA_END,
                t <= ONE_ORE,
        ;
        assert((4 * m + 2) * t <= (4 * MANTISSA_END + 2) * ONE_ORE) by (nonlinear_arith)
            requires
                m < MANTISSA_END,
                t <= ONE_ORE,
        ;
        assert((4 * m - 1) * t <= (4 * m + 2) * t) by (nonlinear_arith);
        assert((4 * m - 2) * t <= (4 * m + 2) * t) by (nonlinear_arith);
        assert(4 * (c as nat) * pow2(double.k@) == 4 * (c * double.p)) by (nonlinear_arith)
            requires
                double.p == pow2(double.k@),
        ;
    }
    let x: u128 = 4 * (c * double.p);
    let lo: u128 = if m == MIN_MANTISSA {
        (4 * m - 1) * t
    } else {
        (4 * m - 2) * t
    };
    let hi: u128 = (4 * m + 2) * t;
    if m % 2 == 0 {
        lo <= x && x <= hi
    } else {
        lo < x && x < hi
    }
}

/// Of all decimals with `n` places that read as a double, the nearest are the two
/// on both sides of it: where another one reads as the double, the one on its side
/// does so too and is no farther away.
proof fn lemma_nearest(d: nat, n: nat, m: nat, k: nat, d2: nat)
    requires
        m >= MIN_MANTISSA,
        d * pow2(k) <= m * pow10(n) < (d + 1) * pow2(k),
        reads_as(d2, n, m, k),
    ensures
        d2 <= d ==> reads_as(d, n, m, k) && (d2 == d || distance(d, n, m, k) < distance(
            d2,
            n,
            m,
            k,
        )),
        d2 > d ==> reads_as(d + 1, n, m, k) && (d2 == d + 1 || distance(d + 1, n, m, k) < distance(
            d2,
            n,
            m,
            k,
        )),
{
    let p = pow2(k);
    let t = pow10(n);
    lemma_pow2_pos(k);
    lemma_pow10_pos(n);
    let lo = lower_end(m) * t;
    let hi = (4 * m + 2) * t;
    assert(lo < 4 * (m * t) < hi) by (nonlinear_arith)
        requires
            lo == lower_end(m) * t,
            hi == (4 * m + 2) * t,
            lower_end(m) < 4 * m,
            t > 0,
    ;
    assert(4 * d * p == 4 * (d * p)) by (nonlinear_arith);
    assert(4 * (d + 1) * p == 4 * ((d + 1) * p)) by (nonlinear_arith);
    assert(4 * d2 * p == 4 * (d2 * p)) by (nonlinear_arith);
    if d2 < d {
        assert(d2 * p < d * p) by (nonlinear_arith)
            requires
                d2 < d,
                p > 0,
        ;
    } else if d2 > d + 1 {
        assert((d + 1) * p < d2 * p) by (nonlinear_arith)
            requires
                d + 1 < d2,
                p > 0,
        ;
    }
}

proof fn lemma_pow10_pos(n: nat)
    ensures
        pow10(n) > 0,
    decreases n,
{
    if n > 0 {
        lemma_pow10_pos((n - 1) as nat);
    }
}

/// The shortest decimal that reads as `double`: the digits, the power of ten, and
/// the number of places.
fn shortest(double: &Double, Ghost(a): Ghost<nat>) -> (out: (u128, u128, usize))
    requires
        double.well_formed(),
        reads_as(a, 11, double.m as nat, double.k@),
    ensures
        is_shortest(out.0 as nat, out.2 as nat, double.m as nat, double.k@),
        out.1 == pow10(out.2 as nat),
        out.2 <= 11,
{
    let ghost m = double.m as nat;
    let ghost k = double.k@;
    let mut n: usize = 0;
    let mut t: u128 = 1;
    loop
        invariant
            double.well_formed(),
            reads_as(a, 11, m, k),
            m == double.m,
            k == double.k@,
            n <= 11,
            t == pow10(n as nat),
            forall|d2: nat, n2: nat| n2 < n ==> !(#[trigger] reads_as(d2, n2, m, k)),
        decreases 11 - n,
    {
        proof {
            lemma_pow10_up_to(n as nat, 11);
            reveal_with_fuel(pow10, 12);
            assert(double.m * t <= MANTISSA_END * ONE_ORE) by (nonlinear_arith)
                requires
                    double.m < MANTISSA_END,
                    t <= ONE_ORE,
            ;
        }
        let y: u128 = double.m * t;
        let d: u128 = y / double.p;
        proof {
            assert(d * double.p <= y < (d + 1) * double.p) by (nonlinear_arith)
                requires
                    d == y / double.p,
                    double.p > 0,
            ;
            assert((d + 1) * double.p == d * double.p + double.p) by (nonlinear_arith);
            assert(d <= y) by (nonlinear_arith)
                requires
                    d == y / double.p,
                    double.p > 0,
            ;
        }
        let low: bool = reads(d, t, double, Ghost(n as nat));
        let high: bool = reads(d + 1, t, double, Ghost(n as nat));
        proof {
            assert forall|d2: nat| #[trigger] reads_as(d2, n as nat, m, k) implies {
                ||| d2 == d && low
                ||| d2 == d + 1 && high
                ||| d2 < d && low && distance(d as nat, n as nat, m, k) < distance(
                    d2,
                    n as nat,
                    m,
                    k,
                )
                ||| d2 > d + 1 && high && distance((d + 1) as nat, n as nat, m, k) < distance(
                    d2,
                    n as nat,
                    m,
                    k,
                )
            } by {
                lemma_nearest(d as nat, n as nat, m, k, d2);
            }
        }
        if low || high {
            let below: u128 = y - d * double.p;
            let above: u128 = (d + 1) * double.p - y;
            let up: bool = high && (!low || above <= below);
            if up {
                return (d + 1, t, n);
            } else {
                return (d, t, n);
            }
        }
        proof {
            if n == 11 {
                assert(reads_as(a, n as nat, m, k));
            }
        }
        n = n + 1;
        t = 10 * t;
    }
}

proof fn lemma_pow10_up_to(n: nat, limit: nat)
    requires
        n <= limit,
    ensures
        pow10(n) <= pow10(limit),
    decreases limit - n,
{
    if n < limit {
        lemma_pow10_up_to(n + 1, limit);
        lemma_pow10_pos(n);
    }
}

/// The text of `d / 10^n`, with `t` for `10^n`.
fn fixed_point_text(d: u128, t: u128, n: usize) -> (out: String)
    requires
        t == pow10(n as nat),
    ensures
        out@ == fixed_point(d as nat, n as nat),
{
    if n == 0 {
        return decimal_text(d);
    }
    proof {
        lemma_pow10_pos(n as nat);
    }
    let mut out = decimal_text(d / t);
    out.append(".");
    out.append(pad_zeros(decimal_text(d % t).as_str(), n).as_str());
    out
}

/// An amount of indivisible units, in tokens.
pub fn amount_u64_to_string(amount: u64) -> (out: String)
    ensures
        exists|d: nat, n: nat| #[trigger] shown_as(amount, d, n) && out@ == fixed_point(d, n),
        out@ == amount_text(amount),
        is_plain_decimal(out@),
{
    if amount == 0 {
        let out = decimal_text(0);
        assert(shown_as(amount, 0, 0));
        proof {
            law_plain_decimal(amount, 0, 0);
        }
        return out;
    }
    let a: u128 = round_amount(amount);
    let double = quotient(a);
    let (d, t, n) = shortest(&double, Ghost(a as nat));
    proof {
        assert(shown_as(amount, d as nat, n as nat));
        let shown = choose|d2: nat, n2: nat| #[trigger] shown_as(amount, d2, n2);
        law_one_decimal(amount, d as nat, n as nat, shown.0, shown.1);
        law_plain_decimal(amount, d as nat, n as nat);
    }
    fixed_point_text(d, t, n)
}

/// An amount is shown as one decimal only.
pub proof fn law_one_decimal(amount: u64, d1: nat, n1: nat, d2: nat, n2: nat)
    requires
        shown_as(amount, d1, n1),
        shown_as(amount, d2, n2),
    ensures
        d1 == d2,
        n1 == n2,
{
}

/// The scaled amount has the 53 bits that it was scaled for.
proof fn lemma_binary_places(a: nat)
    requires
        0 < a < SCALED_MIN,
    ensures
        binary_places(a) > 0,
        SCALED_MIN <= a * pow2(binary_places(a)) < 2 * SCALED_MIN,
    decreases SCALED_MIN - a,
{
    lemma2_to64();
    let k = binary_places(a);
    lemma_pow2_unfold(k);
    assert(a * (2 * pow2((k - 1) as nat)) == (2 * a) * pow2((k - 1) as nat)) by (nonlinear_arith);
    if 2 * a < SCALED_MIN {
        lemma_binary_places(2 * a);
    } else {
        assert(binary_places(2 * a) == 0);
    }
}

/// Below 65536 tokens there are at least 37 binary places.
proof fn lemma_fine_places(a: nat)
    requires
        0 < a < 65536 * ONE_ORE,
    ensures
        double_of_quotient(a).1 >= 37,
{
    lemma_binary_places(a);
    let k = binary_places(a);
    lemma2_to64_rest();
    lemma_pow2_pos(k);
    if k < 37 {
        if k < 36 {
            lemma_pow2_strictly_increases(k, 36);
        }
        assert(pow2(36) == 0x10_0000_0000);
        assert(a * pow2(k) < 65536 * ONE_ORE * 0x10_0000_0000) by (nonlinear_arith)
            requires
                a < 65536 * ONE_ORE,
                pow2(k) <= 0x10_0000_0000,
                pow2(k) > 0,
        ;
        assert(false);
    }
    if k == 37 {
        assert(pow2(37) == 0x20_0000_0000);
        assert(a * pow2(37) <= 65536 * ONE_ORE * 0x20_0000_0000 - 0x20_0000_0000)
            by (nonlinear_arith)
            requires
                a <= 65536 * ONE_ORE - 1,
                pow2(37) == 0x20_0000_0000,
        ;
        let x = a * pow2(37);
        let q = x / ONE_ORE as nat;
        let r = x % ONE_ORE as nat;
        assert(x == ONE_ORE * q + r && 0 <= r < ONE_ORE);
        assert(round_half_even(x, ONE_ORE as nat) < MANTISSA_END);
    }
}

/// An amount below 65536 tokens is shown exactly, with no more than eleven
/// decimal places.
pub proof fn law_small_amounts_exact(amount: u64, d: nat, n: nat)
    requires
        amount < 65536 * ONE_ORE,
        shown_as(amount, d, n),
    ensures
        n <= 11,
        d * pow10((11 - n) as nat) == amount,
{
    if amount > 0 {
        let a = amount as nat;
        assert(spacing(a) == 1);
        assert(round_half_even(a, 1) == a);
        assert(double_of_integer(a) == a) by (nonlinear_arith)
            requires
                double_of_integer(a) == round_half_even(a, spacing(a)) * spacing(a),
                round_half_even(a, 1) == a,
                spacing(a) == 1,
        ;
        let (m, k) = double_of_quotient(a);
        lemma_fine_places(a);
        lemma_reads_as_quotient(a);
        assert(n <= 11) by {
            if n > 11 {
                assert(reads_as(a, 11, m, k));
            }
        }
        let rest = (11 - n) as nat;
        let e = d * pow10(rest);
        lemma_same_value(d, n, rest, m, k);
        assert(reads_as(e, 11, m, k));
        lemma_reads_as_one(a, e, m, k);
    }
}

/// An amount reads as its own double.
proof fn lemma_reads_as_quotient(a: nat)
    requires
        0 < a < SCALED_MIN,
    ensures
        reads_as(a, 11, double_of_quotient(a).0, double_of_quotient(a).1),
        double_of_quotient(a).0 >= MIN_MANTISSA,
{
    lemma_binary_places(a);
    let k = binary_places(a);
    let x = a * pow2(k);
    let m = round_half_even(x, ONE_ORE as nat);
    reveal_with_fuel(pow10, 12);
    assert(pow10(11) == ONE_ORE);
    let q = x / ONE_ORE as nat;
    let r = x % ONE_ORE as nat;
    assert(x == ONE_ORE * q + r && 0 <= r < ONE_ORE);
    assert(4 * a * pow2(k) == 4 * x) by (nonlinear_arith)
        requires
            x == a * pow2(k),
    ;
    if m == MANTISSA_END {
        lemma_pow2_unfold(k);
        let half = pow2((k - 1) as nat);
        assert(4 * a * half == 2 * x) by (nonlinear_arith)
            requires
                x == a * (2 * half),
        ;
    }
}

/// A decimal with more places, all of them zeros, reads as the same double.
proof fn lemma_same_value(d: nat, n: nat, rest: nat, m: nat, k: nat)
    ensures
        reads_as(d * pow10(rest), n + rest, m, k) == reads_as(d, n, m, k),
    decreases rest,
{
    if rest > 0 {
        let e = d * pow10((rest - 1) as nat);
        let n2 = (n + rest - 1) as nat;
        lemma_same_value(d, n, (rest - 1) as nat, m, k);
        assert(d * pow10(rest) == 10 * e) by (nonlinear_arith)
            requires
                pow10(rest) == 10 * pow10((rest - 1) as nat),
                e == d * pow10((rest - 1) as nat),
        ;
        assert(pow10(n2 + 1) == 10 * pow10(n2));
        assert(4 * (10 * e) * pow2(k) == 10 * (4 * e * pow2(k))) by (nonlinear_arith);
        assert(lower_end(m) * (10 * pow10(n2)) == 10 * (lower_end(m) * pow10(n2)))
            by (nonlinear_arith);
        assert((4 * m + 2) * (10 * pow10(n2)) == 10 * ((4 * m + 2) * pow10(n2)))
            by (nonlinear_arith);
        assert(n2 + 1 == n + rest);
    } else {
        assert(d * 1 == d);
    }
}

/// Where there are at least 37 binary places, only one decimal with eleven places
/// reads as a double.
proof fn lemma_reads_as_one(a: nat, e: nat, m: nat, k: nat)
    requires
        k >= 37,
        m >= MIN_MANTISSA,
        reads_as(a, 11, m, k),
        reads_as(e, 11, m, k),
    ensures
        a == e,
{
    lemma2_to64_rest();
    let p = pow2(k);
    assert(p >= 0x20_0000_0000) by {
        if k > 37 {
            lemma_pow2_strictly_increases(37, k);
        }
    }
    reveal_with_fuel(pow10, 12);
    let t = pow10(11);
    assert(t == ONE_ORE);
    assert((4 * m + 2) * t <= lower_end(m) * t + 4 * t) by (nonlinear_arith)
        requires
            lower_end(m) >= 4 * m - 2,
    ;
    assert(4 * a * p == 4 * (a * p)) by (nonlinear_arith);
    assert(4 * e * p == 4 * (e * p)) by (nonlinear_arith);
    if a < e {
        assert(e * p >= a * p + p) by (nonlinear_arith)
            requires
                e >= a + 1,
        ;
    } else if e < a {
        assert(a * p >= e * p + p) by (nonlinear_arith)
            requires
                a >= e + 1,
        ;
    }
}

/// Whether a text is a decimal without a sign or an exponent: digits, or digits, a point
/// and digits.
pub open spec fn is_plain_decimal(s: Seq<char>) -> bool {
    ||| is_digits(s)
    ||| exists|i: int| #[trigger] has_point_at(s, i)
}

/// Whether a text is digits, a point at `i`, and digits.
pub open spec fn has_point_at(s: Seq<char>, i: int) -> bool {
    &&& 0 <= i < s.len()
    &&& s[i] == '.'
    &&& is_digits(s.take(i))
    &&& is_digits(s.skip(i + 1))
}

/// Whether `s` reads as `d / 10^n`: its digits are those of `d`, and `n` of them stand
/// behind the point.
pub open spec fn is_text_of_decimal(s: Seq<char>, d: nat, n: nat) -> bool {
    if n == 0 {
        is_digits(s) && decimal_value(s) == d
    } else {
        let i = s.len() - n - 1;
        has_point_at(s, i) && decimal_value(s.take(i) + s.skip(i + 1)) == d
    }
}

proof fn lemma_decimal_digits(n: nat)
    ensures
        is_digits(decimal(n)),
    decreases n,
{
    if n >= 10 {
        lemma_decimal_digits(n / 10);
    }
}

proof fn lemma_decimal_len(r: nat, n: nat)
    requires
        r < pow10(n),
        n > 0,
    ensures
        decimal(r).len() <= n,
    decreases n,
{
    if r >= 10 {
        lemma_pow10_pos((n - 1) as nat);
        lemma_decimal_len(r / 10, (n - 1) as nat);
    }
}

proof fn lemma_concat_value(a: Seq<char>, b: Seq<char>)
    ensures
        decimal_value(a + b) == decimal_value(a) * pow10(b.len()) + decimal_value(b),
    decreases b.len(),
{
    if b.len() == 0 {
        assert(a + b =~= a);
        assert(decimal_value(a) * 1 == decimal_value(a));
    } else {
        let c = b.drop_last();
        lemma_concat_value(a, c);
        assert((a + b).drop_last() =~= a + c);
        let (v, t) = (decimal_value(a), pow10(c.len()));
        assert(10 * (v * t) == v * (10 * t)) by (nonlinear_arith);
    }
}

/// The text of a decimal reads as that decimal.
proof fn lemma_fixed_point_reads_back(d: nat, n: nat)
    ensures
        is_text_of_decimal(fixed_point(d, n), d, n),
{
    if n == 0 {
        lemma_decimal_digits(d);
        lemma_decimal_value(d);
    } else {
        let t = pow10(n);
        lemma_pow10_pos(n);
        vstd::arithmetic::div_mod::lemma_fundamental_div_mod(d as int, t as int);
        let (q, r) = (d / t, d % t);
        assert(r < t);
        let whole = decimal(q);
        let part = zero_padded(decimal(r), n);
        lemma_decimal_digits(q);
        lemma_decimal_digits(r);
        lemma_decimal_len(r, n);
        assert(part.len() == n);
        assert(is_digits(part)) by {
            assert forall|i: int| 0 <= i < part.len() implies '0' <= #[trigger] part[i] <= '9' by {
                let pad = n - decimal(r).len();
                if i >= pad {
                    assert(part[i] == decimal(r)[i - pad]);
                }
            }
        }
        lemma_decimal_value(q);
        lemma_padded_value(r, n);
        lemma_concat_value(whole, part);
        reveal_strlit(".");
        let s = fixed_point(d, n);
        let i = s.len() - n - 1;
        assert(s.take(i) =~= whole);
        assert(s.skip(i + 1) =~= part);
        assert(q * t == t * q) by (nonlinear_arith);
    }
}

/// An amount is shown as a plain decimal: only digits, and at most one point with a digit
/// on both sides.
pub proof fn law_plain_decimal(amount: u64, d: nat, n: nat)
    requires
        shown_as(amount, d, n),
    ensures
        is_plain_decimal(fixed_point(d, n)),
{
    lemma_fixed_point_reads_back(d, n);
    let s = fixed_point(d, n);
    if n > 0 {
        assert(has_point_at(s, s.len() - n - 1));
    }
}

/// What is shown reads back: the text is that of a decimal which rounds to the double of
/// the amount, or that of zero where the amount is zero.
pub proof fn law_amount_reads_back(amount: u64, d: nat, n: nat)
    requires
        shown_as(amount, d, n),
    ensures
        is_text_of_decimal(fixed_point(d, n), d, n),
        amount == 0 ==> d == 0,
        amount > 0 ==> {
            let double = double_of_quotient(double_of_integer(amount as nat));
            reads_as(d, n, double.0, double.1)
        },
{
    lemma_fixed_point_reads_back(d, n);
}

/// The distance between two numbers.
pub open spec fn apart(x: nat, y: nat) -> nat {
    if x <= y {
        (y - x) as nat
    } else {
        (x - y) as nat
    }
}

proof fn lemma_spacing(n: nat)
    ensures
        spacing(n) >= 1,
        n < MANTISSA_END * spacing(n),
        spacing(n) > 1 ==> n >= MIN_MANTISSA * spacing(n),
    decreases n,
{
    if n >= MANTISSA_END {
        lemma_spacing(n / 2);
    }
}

proof fn lemma_round_half_even(num: nat, den: nat)
    requires
        den > 0,
    ensures
        2 * apart(round_half_even(num, den) * den, num) <= den,
        2 * apart(round_half_even(num, den) * den, num) == den ==> round_half_even(num, den)
            % 2 == 0,
{
    let q = num / den;
    let r = num % den;
    vstd::arithmetic::div_mod::lemma_fundamental_div_mod(num as int, den as int);
    assert(num == den * q + r && 0 <= r < den);
    assert(q * den == den * q) by (nonlinear_arith);
    assert((q + 1) * den == den * q + den) by (nonlinear_arith);
}

/// The double of an amount is the nearest number of 53 bits with zeros behind them, and of two
/// that are as near the one whose last bit is zero.
pub proof fn law_amount_is_rounded(amount: u64)
    ensures
        ({
            let s = spacing(amount as nat);
            let a = double_of_integer(amount as nat);
            &&& a == (a / s) * s
            &&& amount < 0x20_0000_0000_0000 * s
            &&& s > 1 ==> amount >= 0x10_0000_0000_0000 * s
            &&& 2 * apart(a, amount as nat) <= s
            &&& 2 * apart(a, amount as nat) == s ==> (a / s) % 2 == 0
            &&& amount < 0x20_0000_0000_0000 ==> a == amount
            &&& 0x20_0000_0000_0000 * apart(a, amount as nat) <= amount
        }),
{
    let n = amount as nat;
    let s = spacing(n);
    let q = round_half_even(n, s);
    let a = double_of_integer(n);
    lemma_spacing(n);
    lemma_round_half_even(n, s);
    vstd::arithmetic::div_mod::lemma_div_by_multiple(q as int, s as int);
    assert(a == q * s);
    assert(q * s == s * q) by (nonlinear_arith);
    if n < MANTISSA_END {
        assert(s == 1);
        assert(q * 1 == q);
    }
    if s == 1 {
        assert(apart(a, n) == 0);
    }
}

/// The double of a quotient by one token is the nearest number of 53 bits over a power of two,
/// and of two that are as near the one whose last bit is zero.
pub proof fn law_quotient_is_rounded(a: nat)
    requires
        0 < a < SCALED_MIN,
    ensures
        ({
            let (m, k) = double_of_quotient(a);
            &&& 0x10_0000_0000_0000 <= m < 0x20_0000_0000_0000
            &&& 2 * apart(m * 100_000_000_000nat, a * pow2(k)) <= 100_000_000_000
            &&& 2 * apart(m * 100_000_000_000nat, a * pow2(k)) == 100_000_000_000 ==> m % 2 == 0
        }),
{
    lemma_binary_places(a);
    lemma_reads_as_quotient(a);
    let k = binary_places(a);
    let x = a * pow2(k);
    lemma_round_half_even(x, ONE_ORE as nat);
    let m = round_half_even(x, ONE_ORE as nat);
    let q = x / ONE_ORE as nat;
    let r = x % ONE_ORE as nat;
    assert(x == ONE_ORE * q + r && 0 <= r < ONE_ORE);
    if m == MANTISSA_END {
        lemma_pow2_unfold(k);
        let half = pow2((k - 1) as nat);
        assert(a * (2 * half) == 2 * (a * half)) by (nonlinear_arith);
    }
}

/// A decimal that reads as a double is no farther from it than half of the last of its bits;
/// one that is not even half as far away as that does read as it.
pub proof fn law_reading_is_rounding(d: nat, n: nat, m: nat, k: nat)
    requires
        m >= 0x10_0000_0000_0000,
    ensures
        reads_as(d, n, m, k) ==> 2 * apart(d * pow2(k), m * pow10(n)) <= pow10(n),
        4 * apart(d * pow2(k), m * pow10(n)) < pow10(n) ==> reads_as(d, n, m, k),
{
    let (p, t) = (pow2(k), pow10(n));
    lemma_pow10_pos(n);
    assert(4 * d * p == 4 * (d * p)) by (nonlinear_arith);
    assert((4 * m + 2) * t == 4 * (m * t) + 2 * t) by (nonlinear_arith);
    assert((4 * m - 1) * t == 4 * (m * t) - t) by (nonlinear_arith);
    assert((4 * m - 2) * t == 4 * (m * t) - 2 * t) by (nonlinear_arith);
}

/// What is shown has no more places than needed: no decimal with fewer places reads as the
/// double of the amount, and of those with as many none that does is nearer, or greater and
/// as near.
pub proof fn law_shown_is_shortest(amount: u64, d: nat, n: nat, d2: nat, n2: nat)
    requires
        amount > 0,
        shown_as(amount, d, n),
        n2 <= n,
    ensures
        ({
            let (m, k) = double_of_quotient(double_of_integer(amount as nat));
            &&& n2 < n ==> 4 * apart(d2 * pow2(k), m * pow10(n2)) >= pow10(n2)
            &&& reads_as(d2, n, m, k) ==> apart(d * pow2(k), m * pow10(n)) <= apart(
                d2 * pow2(k),
                m * pow10(n),
            )
            &&& reads_as(d2, n, m, k) && apart(d * pow2(k), m * pow10(n)) == apart(
                d2 * pow2(k),
                m * pow10(n),
            ) ==> d2 <= d
        }),
{
    let a = double_of_integer(amount as nat);
    lemma_amount_in_range(amount);
    let (m, k) = double_of_quotient(a);
    law_quotient_is_rounded(a);
    law_reading_is_rounding(d2, n2, m, k);
}

proof fn lemma_amount_in_range(amount: u64)
    requires
        amount > 0,
    ensures
        0 < double_of_integer(amount as nat) < SCALED_MIN,
{
    law_amount_is_rounded(amount);
}

/// What is shown is the amount, but for the last digits of a large one: it has at most eleven
/// places, and is wrong by no more than one part in 2^51. So it is exact where the amount is
/// smaller than that.
pub proof fn law_shown_is_near(amount: u64, d: nat, n: nat)
    requires
        shown_as(amount, d, n),
    ensures
        n <= 11,
        0x8_0000_0000_0000 * apart(d * pow10((11 - n) as nat), amount as nat) <= amount,
{
    if amount > 0 {
        let a = double_of_integer(amount as nat);
        law_amount_is_rounded(amount);
        lemma_amount_in_range(amount);
        let (m, k) = double_of_quotient(a);
        law_quotient_is_rounded(a);
        lemma_reads_as_quotient(a);
        assert(n <= 11) by {
            if n > 11 {
                assert(reads_as(a, 11, m, k));
            }
        }
        let rest = (11 - n) as nat;
        let e = d * pow10(rest);
        lemma_same_value(d, n, rest, m, k);
        assert(reads_as(e, 11, m, k));
        law_reading_is_rounding(e, 11, m, k);
        reveal_with_fuel(pow10, 12);
        assert(pow10(11) == ONE_ORE);
        lemma_pow2_pos(k);
        let p = pow2(k);
        let (x, y) = (apart(e, a), apart(a, amount as nat));
        assert(apart(e * p, a * p) == x * p) by {
            assert(e * p - a * p == (e - a) * p) by (nonlinear_arith);
            assert(a * p - e * p == (a - e) * p) by (nonlinear_arith);
            if e > a {
                assert((a - e) * p < 0) by (nonlinear_arith)
                    requires
                        a < e,
                        p > 0,
                ;
            } else {
                assert((a - e) * p >= 0) by (nonlinear_arith)
                    requires
                        a >= e,
                        p > 0,
                ;
            }
        }
        assert(x * p <= ONE_ORE);
        assert(2 * (a * p) >= (0x20_0000_0000_0000 - 1) * ONE_ORE);
        assert(x * (0x20_0000_0000_0000 - 1) <= 2 * a) by (nonlinear_arith)
            requires
                x * p <= ONE_ORE,
                2 * (a * p) >= (0x20_0000_0000_0000 - 1) * ONE_ORE,
                p > 0,
                x >= 0,
        ;
    } else {
        assert(0 * pow10(11) == 0);
    }
}

/// The text of an amount is that of the decimal that it is shown as; that of zero is `0`.
pub proof fn law_text_of_amount(amount: u64, d: nat, n: nat)
    requires
        shown_as(amount, d, n),
    ensures
        amount_text(amount) == fixed_point(d, n),
        is_text_of_decimal(amount_text(amount), d, n),
        amount == 0 ==> amount_text(amount) == seq!['0'],
{
    let shown = choose|d2: nat, n2: nat| #[trigger] shown_as(amount, d2, n2);
    law_one_decimal(amount, d, n, shown.0, shown.1);
    lemma_fixed_point_reads_back(d, n);
    if amount == 0 {
        assert(amount_text(amount) =~= seq!['0']);
    }
}

} // verus!
