//! Numbers in decimal notation, and rounding.

use vstd::prelude::*;

verus! {

/// The decimal digit for a value below ten.
pub open spec fn digit(d: int) -> char {
    ('0' as int + d) as char
}

/// A number in decimal notation, without leading zeros.
pub open spec fn decimal(n: int) -> Seq<char>
    decreases n,
{
    if n < 10 {
        seq![digit(n)]
    } else {
        decimal(n / 10).push(digit(n % 10))
    }
}

/// The decimal digit for a value below ten.
pub fn digit_char(d: u8) -> (c: char)
    requires
        d < 10,
    ensures
        c == digit(d as int),
{
    (48u8 + d) as char
}

/// Writes a number in decimal notation.
pub fn to_decimal(n: u128) -> (r: String)
    ensures
        r@ == decimal(n as int),
    decreases n,
{
    if n < 10 {
        let mut out = String::new();
        out.push(digit_char(n as u8));
        assert(out@ =~= seq![digit(n as int)]);
        out
    } else {
        let mut out = to_decimal(n / 10);
        out.push(digit_char((n % 10) as u8));
        out
    }
}

/// `n / d` rounded to the nearest whole number, to the even one of two that
/// are equally near.
pub open spec fn half_even(n: int, d: int) -> int {
    let q = n / d;
    let r = n % d;
    if 2 * r > d || (2 * r == d && q % 2 == 1) {
        q + 1
    } else {
        q
    }
}

/// `n / d` rounded to the nearest whole number, to the even one of two that
/// are equally near.
pub fn div_half_even(n: u128, d: u128) -> (r: u128)
    requires
        0 < d <= u64::MAX,
    ensures
        r == half_even(n as int, d as int),
{
    let q: u128 = n / d;
    let r: u128 = n % d;
    assert(q * d <= n) by (nonlinear_arith)
        requires
            q == n / d,
            d > 0,
    ;
    if 2 * r > d || (2 * r == d && q % 2 == 1) {
        assert(q < u128::MAX) by (nonlinear_arith)
            requires
                q * d <= n <= u128::MAX,
                r == n % d,
                q == n / d,
                d > 0,
                2 * r >= d,
        ;
        q + 1
    } else {
        q
    }
}

/// The distance between neighbouring double-precision numbers at `n`, for a
/// whole number `n`: numbers below 2^53 are all represented.
pub open spec fn spacing(n: int) -> int
    decreases n,
{
    if n < 0x20_0000_0000_0000 {
        1
    } else {
        2 * spacing(n / 2)
    }
}

/// The double-precision number nearest to a whole number.
pub open spec fn nearest_double(n: int) -> int {
    half_even(n, spacing(n)) * spacing(n)
}

/// A number lies between 2^52 and 2^53 times its spacing, which is one below
/// 2^53 and even above.
pub proof fn lemma_spacing(n: int)
    requires
        0 <= n,
    ensures
        1 <= spacing(n),
        n < 0x20_0000_0000_0000 ==> spacing(n) == 1,
        n >= 0x20_0000_0000_0000 ==> spacing(n) * 0x10_0000_0000_0000 <= n < spacing(n)
            * 0x20_0000_0000_0000 && spacing(n) % 2 == 0,
    decreases n,
{
    if n >= 0x20_0000_0000_0000 {
        lemma_spacing(n / 2);
    }
}

/// The distance between neighbouring double-precision numbers at `n`.
pub fn spacing_of(n: u64) -> (gap: u64)
    ensures
        gap == spacing(n as int),
        1 <= gap,
{
    let mut rest: u64 = n;
    let mut gap: u64 = 1;
    while rest >= 0x20_0000_0000_0000
        invariant
            spacing(n as int) == gap * spacing(rest as int),
            1 <= gap,
            gap * rest <= n,
        decreases rest,
    {
        let ghost before = rest as int;
        assert(gap * 2 <= u64::MAX) by (nonlinear_arith)
            requires
                gap * rest <= n,
                rest >= 0x20_0000_0000_0000,
                n <= u64::MAX,
        ;
        assert((gap * 2) * (rest / 2) <= gap * rest) by (nonlinear_arith)
            requires
                gap >= 1,
        ;
        assert((gap * 2) * spacing(before / 2) == gap * (2 * spacing(before / 2)))
            by (nonlinear_arith);
        gap = gap * 2;
        rest = rest / 2;
    }
    assert(gap * spacing(rest as int) == gap);
    gap
}

/// The double-precision number nearest to a whole number.
pub fn round_to_double(n: u64) -> (r: u128)
    ensures
        r == nearest_double(n as int),
        r <= 2 * u64::MAX,
{
    let gap: u64 = spacing_of(n);
    let units: u128 = div_half_even(n as u128, gap as u128);
    proof {
        lemma_rounding_bound(n as int, gap as int);
    }
    units * gap as u128
}

proof fn lemma_rounding_bound(n: int, g: int)
    requires
        0 <= n <= u64::MAX,
        1 <= g <= u64::MAX,
    ensures
        0 <= half_even(n, g) * g <= 2 * u64::MAX,
{
    let q = n / g;
    assert(0 <= q * g <= n && (q + 1) * g == q * g + g) by (nonlinear_arith)
        requires
            q == n / g,
            0 <= n,
            1 <= g,
    ;
}

/// Ten to the power of `k`.
pub open spec fn pow10(k: nat) -> int
    decreases k,
{
    if k == 0 {
        1
    } else {
        10 * pow10((k - 1) as nat)
    }
}

/// Two to the power of `k`.
pub open spec fn pow2(k: nat) -> int
    decreases k,
{
    if k == 0 {
        1
    } else {
        2 * pow2((k - 1) as nat)
    }
}

/// How finely the double-precision numbers divide the distance from `q` to the
/// next whole number: into `2^p` parts. Below one the coarsest division
/// counts.
pub open spec fn fineness(q: int) -> int
    decreases
            if q >= 0x10_0000_0000_0000 {
                0
            } else {
                0x10_0000_0000_0000 - q
            },
{
    if q <= 0 {
        0x20_0000_0000_0000
    } else if q >= 0x10_0000_0000_0000 {
        1
    } else {
        2 * fineness(2 * q)
    }
}

/// The whole part of the double-precision number nearest to `n / d`.
pub open spec fn truncated_double(n: int, d: int) -> int {
    let q = n / d;
    if q < 0x10_0000_0000_0000 {
        half_even(n * fineness(q), d) / fineness(q)
    } else {
        half_even(n, d * spacing(q)) * spacing(q)
    }
}

/// The number that a list of decimal digits stands for.
pub open spec fn digits_value(v: Seq<u8>) -> int
    decreases v.len(),
{
    if v.len() == 0 {
        0
    } else {
        digits_value(v.drop_last()) * 10 + v.last()
    }
}

/// Every element is a decimal digit.
pub open spec fn are_digits(v: Seq<u8>) -> bool {
    forall|i: int| 0 <= i < v.len() ==> (#[trigger] v[i]) < 10
}

proof fn lemma_pow10_positive(k: nat)
    ensures
        pow10(k) >= 1,
    decreases k,
{
    if k > 0 {
        lemma_pow10_positive((k - 1) as nat);
    }
}

proof fn lemma_digits_bound(v: Seq<u8>)
    requires
        are_digits(v),
    ensures
        0 <= digits_value(v) < pow10(v.len()),
    decreases v.len(),
{
    if v.len() > 0 {
        let w = v.drop_last();
        assert forall|i: int| 0 <= i < w.len() implies (#[trigger] w[i]) < 10 by {
            assert(w[i] == v[i]);
        }
        lemma_digits_bound(w);
        assert(v[v.len() - 1] < 10);
    }
}

/// A digit in front counts for its power of ten.
proof fn lemma_front_digit(x: u8, v: Seq<u8>)
    ensures
        digits_value(seq![x] + v) == x * pow10(v.len()) + digits_value(v),
    decreases v.len(),
{
    let w = seq![x] + v;
    if v.len() == 0 {
        assert(w.drop_last() =~= Seq::<u8>::empty());
        assert(w.last() == x);
        assert(digits_value(w.drop_last()) == 0);
        let one = pow10(v.len());
        assert(x * one == x) by (nonlinear_arith)
            requires
                one == 1,
        ;
    } else {
        lemma_front_digit(x, v.drop_last());
        assert(w.drop_last() =~= seq![x] + v.drop_last());
        assert(w.last() == v.last());
        let p = pow10(v.drop_last().len());
        assert(pow10(v.len()) == 10 * p);
        assert((x * p + digits_value(v.drop_last())) * 10 == x * (10 * p) + digits_value(
            v.drop_last(),
        ) * 10) by (nonlinear_arith);
    }
}

/// Doubles the fraction that decimal digits stand for, and tells whether a one
/// has come out at the front.
fn double_fraction(v: &mut Vec<u8>) -> (carry: bool)
    requires
        are_digits(old(v)@),
    ensures
        are_digits(final(v)@),
        final(v)@.len() == old(v)@.len(),
        2 * digits_value(old(v)@) == (if carry {
            pow10(old(v)@.len())
        } else {
            0
        }) + digits_value(final(v)@),
{
    let ghost start = v@;
    let n: usize = v.len();
    let mut i: usize = n;
    let mut c: u8 = 0;
    proof {
        assert(start.skip(n as int) =~= Seq::<u8>::empty());
        assert(v@.skip(n as int) =~= Seq::<u8>::empty());
    }
    while i > 0
        invariant
            i <= n == start.len() == v@.len(),
            c <= 1,
            are_digits(start),
            are_digits(v@),
            forall|j: int| 0 <= j < i ==> v@[j] == start[j],
            2 * digits_value(start.skip(i as int)) == c * pow10((n - i) as nat) + digits_value(
                v@.skip(i as int),
            ),
        decreases i,
    {
        let ghost now = v@;
        let ghost p = pow10((n - i) as nat);
        i -= 1;
        assert(start[i as int] < 10);
        let d: u8 = 2 * v[i] + c;
        v.set(i, d % 10);
        proof {
            let x = start[i as int];
            let y = d % 10;
            let rest = now.skip(i + 1);
            assert(start.skip(i as int) =~= seq![x] + start.skip(i + 1));
            assert(v@.skip(i + 1) =~= rest);
            assert(v@.skip(i as int) =~= seq![y] + rest);
            lemma_front_digit(x, start.skip(i + 1));
            lemma_front_digit(y, rest);
            assert(pow10((n - i) as nat) == 10 * p);
            let low = digits_value(rest);
            let high = digits_value(start.skip(i + 1));
            assert(2 * (x * p + high) == (d / 10) * (10 * p) + (y * p + low)) by (nonlinear_arith)
                requires
                    d == 2 * x + c,
                    y == d % 10,
                    2 * high == c * p + low,
            ;
        }
        c = d / 10;
    }
    assert(start.skip(0) =~= start);
    assert(v@.skip(0) =~= v@);
    c == 1
}

/// One more doubling: what has come out, and what is left.
proof fn lemma_double(x: int, d: int, t: int, r: int, carry: bool)
    requires
        0 < d,
        0 <= r < d,
        t == x / d,
        r == x % d,
        0 <= x,
        carry == (2 * r >= d),
    ensures
        (2 * x) / d == 2 * t + (if carry {
            1int
        } else {
            0int
        }),
        (2 * x) % d == 2 * r - (if carry {
            d
        } else {
            0
        }),
{
    let c: int = if carry {
        1
    } else {
        0
    };
    let left = 2 * r - c * d;
    assert(x == d * t + r) by {
        vstd::arithmetic::div_mod::lemma_fundamental_div_mod(x, d);
    }
    assert(c * d == if carry {
        d
    } else {
        0
    });
    assert(2 * x == (2 * t + c) * d + left) by (nonlinear_arith)
        requires
            x == d * t + r,
            left == 2 * r - c * d,
    ;
    vstd::arithmetic::div_mod::lemma_fundamental_div_mod_converse(2 * x, d, 2 * t + c, left);
}

/// Shifts `m` bits out of a fraction, and hands out the number they make.
fn take_bits(v: &mut Vec<u8>, m: usize) -> (bits: u64)
    requires
        are_digits(old(v)@),
        m <= 40,
    ensures
        are_digits(final(v)@),
        final(v)@.len() == old(v)@.len(),
        bits == (digits_value(old(v)@) * pow2(m as nat)) / pow10(old(v)@.len()),
        digits_value(final(v)@) == (digits_value(old(v)@) * pow2(m as nat)) % pow10(
            old(v)@.len(),
        ),
        bits < 0x100_0000_0000,
{
    let ghost f = digits_value(v@);
    let ghost d = pow10(v@.len());
    let mut bits: u64 = 0;
    let mut i: usize = 0;
    let ghost mut bound: int = 1;
    proof {
        lemma_digits_bound(v@);
        assert(f * pow2(0) == f);
        assert(pow2(40) == 0x100_0000_0000) by {
            reveal_with_fuel(pow2, 41);
        }
        vstd::arithmetic::div_mod::lemma_small_mod(f as nat, d as nat);
        vstd::arithmetic::div_mod::lemma_basic_div(f, d);
    }
    while i < m
        invariant
            0 <= i <= m <= 40,
            are_digits(v@),
            d == pow10(v@.len()),
            v@.len() == old(v)@.len(),
            0 <= f < d,
            bits == (f * pow2(i as nat)) / d,
            digits_value(v@) == (f * pow2(i as nat)) % d,
            bits < bound,
            bound == pow2(i as nat),
            bound * pow2((40 - i) as nat) == 0x100_0000_0000,
        decreases m - i,
    {
        let ghost x = f * pow2(i as nat);
        proof {
            lemma_digits_bound(v@);
            lemma_pow2_positive(i as nat);
            lemma_pow2_positive((40 - i) as nat);
            assert(0 <= x) by (nonlinear_arith)
                requires
                    x == f * pow2(i as nat),
                    0 <= f,
                    pow2(i as nat) >= 1,
            ;
            assert(f * pow2((i + 1) as nat) == 2 * x) by (nonlinear_arith)
                requires
                    pow2((i + 1) as nat) == 2 * pow2(i as nat),
                    x == f * pow2(i as nat),
            ;
            let b = bound;
            let rest = pow2((40 - i - 1) as nat);
            assert((2 * b) * rest == 0x100_0000_0000 && b <= 0x100_0000_0000) by (nonlinear_arith)
                requires
                    b * (2 * rest) == 0x100_0000_0000,
                    b >= 1,
                    rest >= 1 || rest == 0,
            ;
        }
        let ghost before = v@;
        let carry: bool = double_fraction(v);
        proof {
            lemma_digits_bound(v@);
            lemma_double(x, d, bits as int, digits_value(before), carry);
        }
        bits = 2 * bits + if carry {
            1
        } else {
            0
        };
        i += 1;
        proof {
            bound = 2 * bound;
        }
    }
    proof {
        lemma_pow2_positive((40 - m) as nat);
        assert(bound <= 0x100_0000_0000) by (nonlinear_arith)
            requires
                bound * pow2((40 - m) as nat) == 0x100_0000_0000,
                pow2((40 - m) as nat) >= 1,
                bound >= 1,
        ;
    }
    bits
}

proof fn lemma_pow2_positive(k: nat)
    ensures
        pow2(k) >= 1,
    decreases k,
{
    if k > 0 {
        lemma_pow2_positive((k - 1) as nat);
    }
}

/// Whether the first `count` bits of a fraction are all ones.
fn leading_ones(v: &mut Vec<u8>, count: usize) -> (b: bool)
    requires
        are_digits(old(v)@),
    ensures
        b == ((digits_value(old(v)@) * pow2(count as nat)) / pow10(old(v)@.len()) == pow2(
            count as nat,
        ) - 1),
{
    let ghost f = digits_value(v@);
    let ghost d = pow10(v@.len());
    let mut all: bool = true;
    let mut i: usize = 0;
    proof {
        lemma_digits_bound(v@);
        assert(f * pow2(0) == f);
        vstd::arithmetic::div_mod::lemma_small_mod(f as nat, d as nat);
        vstd::arithmetic::div_mod::lemma_basic_div(f, d);
    }
    while i < count
        invariant
            0 <= i <= count,
            are_digits(v@),
            d == pow10(v@.len()),
            v@.len() == old(v)@.len(),
            0 <= f < d,
            all == ((f * pow2(i as nat)) / d == pow2(i as nat) - 1),
            (f * pow2(i as nat)) / d <= pow2(i as nat) - 1,
            digits_value(v@) == (f * pow2(i as nat)) % d,
        decreases count - i,
    {
        let ghost x = f * pow2(i as nat);
        proof {
            lemma_digits_bound(v@);
            lemma_pow2_positive(i as nat);
            assert(0 <= x) by (nonlinear_arith)
                requires
                    x == f * pow2(i as nat),
                    0 <= f,
                    pow2(i as nat) >= 1,
            ;
            assert(f * pow2((i + 1) as nat) == 2 * x) by (nonlinear_arith)
                requires
                    pow2((i + 1) as nat) == 2 * pow2(i as nat),
                    x == f * pow2(i as nat),
            ;
        }
        let ghost before = v@;
        let carry: bool = double_fraction(v);
        proof {
            lemma_digits_bound(v@);
            lemma_double(x, d, x / d, digits_value(before), carry);
        }
        all = all && carry;
        i += 1;
    }
    all
}

/// Whether all digits are zero.
fn all_zero(v: &Vec<u8>) -> (b: bool)
    requires
        are_digits(v@),
    ensures
        b == (digits_value(v@) == 0),
{
    let mut i: usize = 0;
    while i < v.len()
        invariant
            0 <= i <= v.len(),
            are_digits(v@),
            digits_value(v@.take(i as int)) == 0,
        decreases v.len() - i,
    {
        proof {
            let next = v@.take(i + 1);
            assert(next.drop_last() =~= v@.take(i as int));
            assert(next.last() == v@[i as int]);
        }
        if v[i] != 0 {
            proof {
                lemma_digits_grow(v@, i + 1);
            }
            return false;
        }
        i += 1;
    }
    assert(v@.take(v.len() as int) =~= v@);
    true
}

proof fn lemma_digits_grow(v: Seq<u8>, n: int)
    requires
        0 <= n <= v.len(),
    ensures
        0 <= digits_value(v.take(n)) <= digits_value(v),
    decreases v.len(),
{
    if n == v.len() {
        assert(v.take(n) =~= v);
        if n > 0 {
            lemma_digits_grow(v.drop_last(), n - 1);
            assert(v.drop_last().take(n - 1) =~= v.drop_last());
        }
    } else {
        lemma_digits_grow(v.drop_last(), n);
        assert(v.drop_last().take(n) =~= v.take(n));
    }
}

/// Rounding `q + f / d` within `parts` parts to a unit reaches the next whole
/// number exactly if twice as fine a division would show ones alone.
proof fn lemma_round_small(q: int, d: int, f: int, parts: int)
    requires
        0 <= q,
        0 <= f < d,
        parts >= 2,
        parts % 2 == 0,
    ensures
        half_even((q * d + f) * parts, d) / parts == q + (if (f * (2 * parts)) / d == 2 * parts - 1 {
            1int
        } else {
            0int
        }),
{
    let x = f * parts;
    let t = x / d;
    let r = x % d;
    assert(x == d * t + r) by {
        vstd::arithmetic::div_mod::lemma_fundamental_div_mod(x, d);
    }
    assert(0 <= x < d * parts) by (nonlinear_arith)
        requires
            x == f * parts,
            0 <= f < d,
            parts >= 2,
    ;
    assert(0 <= t < parts) by (nonlinear_arith)
        requires
            x == d * t + r,
            0 <= x < d * parts,
            0 <= r < d,
            d > 0,
    ;
    assert((q * d + f) * parts == (q * parts + t) * d + r) by (nonlinear_arith)
        requires
            x == f * parts,
            x == d * t + r,
    ;
    vstd::arithmetic::div_mod::lemma_fundamental_div_mod_converse(
        (q * d + f) * parts,
        d,
        q * parts + t,
        r,
    );
    assert(f * (2 * parts) == 2 * x) by (nonlinear_arith)
        requires
            x == f * parts,
    ;
    lemma_double(x, d, t, r, 2 * r >= d);
    let h = half_even((q * d + f) * parts, d);
    let half = parts / 2;
    assert(q * parts == 2 * (q * half)) by (nonlinear_arith)
        requires
            parts == 2 * half,
    ;
    if t == parts - 1 && 2 * r >= d {
        assert((q * parts + t) % 2 == 1);
        assert(h == (q + 1) * parts) by (nonlinear_arith)
            requires
                h == q * parts + t + 1,
                t == parts - 1,
        ;
        vstd::arithmetic::div_mod::lemma_fundamental_div_mod_converse(h, parts, q + 1, 0);
    } else {
        let rest = h - q * parts;
        assert(0 <= rest < parts);
        vstd::arithmetic::div_mod::lemma_fundamental_div_mod_converse(h, parts, q, rest);
    }
}

/// Rounding `q + f / d` to a multiple of `s`.
proof fn lemma_round_large(q: int, d: int, f: int, s: int)
    requires
        0 <= q,
        0 <= f < d,
        1 <= s,
    ensures
        half_even(q * d + f, d * s) == q / s + (if 2 * ((q % s) * d + f) > d * s || (2 * ((q % s) * d
            + f) == d * s && (q / s) % 2 == 1) {
            1int
        } else {
            0int
        }),
{
    let t = q / s;
    let r = q % s;
    assert(q == s * t + r) by {
        vstd::arithmetic::div_mod::lemma_fundamental_div_mod(q, s);
    }
    let rest = r * d + f;
    assert(0 <= rest < d * s) by (nonlinear_arith)
        requires
            rest == r * d + f,
            0 <= r < s,
            0 <= f < d,
    ;
    assert(q * d + f == t * (d * s) + rest) by (nonlinear_arith)
        requires
            q == s * t + r,
            rest == r * d + f,
    ;
    vstd::arithmetic::div_mod::lemma_fundamental_div_mod_converse(q * d + f, d * s, t, rest);
}

proof fn lemma_fineness(q: int)
    requires
        q < 0x10_0000_0000_0000,
    ensures
        fineness(q) >= 2,
        fineness(q) % 2 == 0,
    decreases
            if q <= 0 {
                0
            } else {
                0x10_0000_0000_0000 - q
            },
{
    if q > 0 {
        if 2 * q < 0x10_0000_0000_0000 {
            lemma_fineness(2 * q);
        } else {
            assert(fineness(2 * q) == 1);
        }
    }
}

/// The whole part of the double-precision number nearest to a whole number
/// and a fraction.
#[verifier::spinoff_prover]
fn round_fraction(q: u64, v: Vec<u8>) -> (r: u128)
    requires
        are_digits(v@),
    ensures
        r == truncated_double(q * pow10(v@.len()) + digits_value(v@), pow10(v@.len())),
{
    let ghost d = pow10(v@.len());
    let ghost f = digits_value(v@);
    let mut v = v;
    proof {
        lemma_digits_bound(v@);
        assert((q * d + f) / d == q) by {
            vstd::arithmetic::div_mod::lemma_fundamental_div_mod_converse(
                q * d + f,
                d,
                q as int,
                f,
            );
        }
    }
    if q < 0x10_0000_0000_0000 {
        let mut p: usize = 0;
        let mut t: u64 = q;
        if q == 0 {
            p = 53;
            proof {
                assert(pow2(53) == 0x20_0000_0000_0000) by {
                    reveal_with_fuel(pow2, 54);
                }
            }
        } else {
            while t < 0x10_0000_0000_0000
                invariant
                    1 <= t,
                    p <= 60,
                    t < 0x20_0000_0000_0000,
                    fineness(q as int) == pow2(p as nat) * fineness(t as int),
                    t >= pow2(p as nat),
                    pow2(p as nat) >= 1,
                decreases 0x20_0000_0000_0000 - t,
            {
                proof {
                    let a = pow2(p as nat);
                    let b = fineness(2 * t as int);
                    assert(a * (2 * b) == (2 * a) * b) by (nonlinear_arith);
                    assert(p < 60) by {
                        if p >= 60 {
                            lemma_pow2_grows(60, p as nat);
                            assert(pow2(60) > 0x10_0000_0000_0000) by {
                                reveal_with_fuel(pow2, 61);
                            }
                        }
                    }
                }
                t = 2 * t;
                p += 1;
            }
            assert(pow2(p as nat) * fineness(t as int) == pow2(p as nat));
        }
        assert(pow2(p as nat) == fineness(q as int));
        proof {
            lemma_fineness(q as int);
            lemma_round_small(q as int, d, f, fineness(q as int));
            assert(pow2((p + 1) as nat) == 2 * fineness(q as int));
        }
        if leading_ones(&mut v, p + 1) {
            q as u128 + 1
        } else {
            q as u128
        }
    } else {
        let s: u64 = spacing_of(q);
        let whole: u64 = q / s;
        let rest: u64 = q % s;
        proof {
            lemma_spacing(q as int);
            lemma_round_large(q as int, d, f, s as int);
            lemma_round_up_fits(q as int, s as int);
        }
        let up: bool;
        if s == 1 {
            let carry: bool = double_fraction(&mut v);
            let exact: bool = all_zero(&v);
            proof {
                lemma_digits_bound(v@);
                assert(d * s == d) by (nonlinear_arith)
                    requires
                        s == 1,
                ;
                assert(rest == 0);
                assert((rest as int) * d == 0) by (nonlinear_arith)
                    requires
                        rest == 0,
                ;
            }
            up = carry && (!exact || whole % 2 == 1);
        } else {
            let exact: bool = all_zero(&v);
            let ghost two = 2 * rest as int;
            proof {
                assert(s % 2 == 0);
                assert(2 * (rest * d + f) == two * d + 2 * f) by (nonlinear_arith)
                    requires
                        two == 2 * rest,
                ;
                if two > s {
                    assert(two * d > d * s) by (nonlinear_arith)
                        requires
                            two > s,
                            d > 0,
                    ;
                } else if two == s {
                    assert(two * d == d * s) by (nonlinear_arith)
                        requires
                            two == s,
                    ;
                } else {
                    assert(two <= s - 2);
                    assert(two * d + 2 * f < d * s) by (nonlinear_arith)
                        requires
                            two <= s - 2,
                            0 <= f < d,
                    ;
                }
            }
            up = rest > s / 2 || (rest == s / 2 && (!exact || whole % 2 == 1));
        }
        if up {
            (whole as u128 + 1) * s as u128
        } else {
            whole as u128 * s as u128
        }
    }
}

proof fn lemma_pow2_grows(a: nat, b: nat)
    requires
        a <= b,
    ensures
        pow2(a) <= pow2(b),
    decreases b,
{
    if a < b {
        lemma_pow2_grows(a, (b - 1) as nat);
        lemma_pow2_positive((b - 1) as nat);
    }
}

proof fn lemma_round_up_fits(q: int, s: int)
    requires
        0 <= q <= u64::MAX,
        1 <= s <= u64::MAX,
    ensures
        0 <= (q / s) * s <= q,
        0 <= (q / s + 1) * s <= 2 * u64::MAX,
{
    let t = q / s;
    assert(q == s * t + q % s) by {
        vstd::arithmetic::div_mod::lemma_fundamental_div_mod(q, s);
    }
    assert(0 <= t * s <= q && (t + 1) * s == t * s + s) by (nonlinear_arith)
        requires
            q == s * t + q % s,
            0 <= q % s,
            0 <= t,
            1 <= s,
    ;
}

/// The number that decimal digits stand for, if it fits.
pub fn whole_value(v: &Vec<u8>) -> (r: Option<u64>)
    requires
        are_digits(v@),
    ensures
        match r {
            Some(n) => n == digits_value(v@),
            None => digits_value(v@) > u64::MAX,
        },
{
    let mut n: u64 = 0;
    let mut i: usize = 0;
    while i < v.len()
        invariant
            0 <= i <= v.len(),
            are_digits(v@),
            n == digits_value(v@.take(i as int)),
        decreases v.len() - i,
    {
        proof {
            let next = v@.take(i + 1);
            assert(next.drop_last() =~= v@.take(i as int));
            assert(next.last() == v@[i as int]);
            assert(v@[i as int] < 10);
            lemma_digits_grow(v@, i + 1);
        }
        let wide: u128 = n as u128 * 10 + v[i] as u128;
        if wide > u64::MAX as u128 {
            return None;
        }
        n = wide as u64;
        i += 1;
    }
    assert(v@.take(v.len() as int) =~= v@);
    Some(n)
}

/// A whole number, or the largest one that fits where it does not.
pub open spec fn capped(n: int) -> int {
    if n > u64::MAX {
        u64::MAX as int
    } else {
        n
    }
}

/// The number `whole.frac` in units of one in the last decimal place.
pub open spec fn decimal_value(whole: Seq<u8>, frac: Seq<u8>) -> int {
    digits_value(whole) * pow10(frac.len()) + digits_value(frac)
}

/// The double-precision number nearest to the decimal number `whole.frac`,
/// times `2^m`, without its fraction, and no more than fits.
pub open spec fn scaled(whole: Seq<u8>, frac: Seq<u8>, m: nat) -> int {
    capped(truncated_double(decimal_value(whole, frac) * pow2(m), pow10(frac.len())))
}

proof fn lemma_spacing_grows(a: int, b: int)
    requires
        0 <= a <= b,
    ensures
        spacing(a) <= spacing(b),
    decreases b,
{
    lemma_spacing(b);
    if a >= 0x20_0000_0000_0000 {
        lemma_spacing_grows(a / 2, b / 2);
    }
}

proof fn lemma_large_stays_large(q: int, d: int, f: int)
    requires
        q > u64::MAX,
        0 <= f < d,
    ensures
        truncated_double(q * d + f, d) > u64::MAX,
{
    vstd::arithmetic::div_mod::lemma_fundamental_div_mod_converse(q * d + f, d, q, f);
    let s = spacing(q);
    lemma_spacing(q);
    lemma_spacing_grows(u64::MAX + 1, q);
    assert(spacing(u64::MAX + 1) == 0x1000) by {
        reveal_with_fuel(spacing, 13);
    }
    lemma_round_large(q, d, f, s);
    let t = q / s;
    assert(t >= 0x10_0000_0000_0000) by {
        vstd::arithmetic::div_mod::lemma_div_is_ordered(s * 0x10_0000_0000_0000, q, s);
        vstd::arithmetic::div_mod::lemma_div_multiples_vanish(0x10_0000_0000_0000, s);
    }
    let h = half_even(q * d + f, d * s);
    assert(h * s > u64::MAX) by (nonlinear_arith)
        requires
            h >= 0x10_0000_0000_0000,
            s >= 0x1000,
    ;
}

/// Computes a decimal number times `2^m` as double-precision arithmetic would,
/// and drops the fraction.
#[verifier::spinoff_prover]
pub fn scale(whole: &Vec<u8>, frac: &Vec<u8>, m: usize) -> (r: u64)
    requires
        are_digits(whole@),
        are_digits(frac@),
        m <= 40,
    ensures
        r == scaled(whole@, frac@, m as nat),
{
    let ghost d = pow10(frac@.len());
    let ghost w = digits_value(whole@);
    let ghost f = digits_value(frac@);
    let ghost p = pow2(m as nat);
    let mut rest: Vec<u8> = copy_digits(frac);
    let low: u64 = take_bits(&mut rest, m);
    let ghost q = w * p + low;
    let ghost left = digits_value(rest@);
    proof {
        lemma_digits_bound(rest@);
        lemma_digits_bound(whole@);
        lemma_pow2_positive(m as nat);
        lemma_pow2_grows(m as nat, 40);
        assert(pow2(40) == 0x100_0000_0000) by {
            reveal_with_fuel(pow2, 41);
        }
        let x = f * p;
        assert(x == d * low + left) by {
            vstd::arithmetic::div_mod::lemma_fundamental_div_mod(x, d);
        }
        assert((w * d + f) * p == q * d + left) by (nonlinear_arith)
            requires
                x == f * p,
                x == d * low + left,
                q == w * p + low,
        ;
        assert(q >= w) by (nonlinear_arith)
            requires
                q == w * p + low,
                p >= 1,
                w >= 0,
                low >= 0,
        ;
    }
    match whole_value(whole) {
        None => {
            proof {
                lemma_large_stays_large(q, d, left);
            }
            u64::MAX
        },
        Some(n) => {
            let unit: u128 = pow2_of(m);
            proof {
                assert(n * p <= u64::MAX * 0x100_0000_0000) by (nonlinear_arith)
                    requires
                        n <= u64::MAX,
                        1 <= p <= 0x100_0000_0000,
                ;
            }
            let wide: u128 = n as u128 * unit + low as u128;
            if wide > u64::MAX as u128 {
                proof {
                    lemma_large_stays_large(q, d, left);
                }
                u64::MAX
            } else {
                let rounded: u128 = round_fraction(wide as u64, rest);
                if rounded > u64::MAX as u128 {
                    u64::MAX
                } else {
                    rounded as u64
                }
            }
        },
    }
}

fn pow2_of(m: usize) -> (r: u128)
    requires
        m <= 40,
    ensures
        r == pow2(m as nat),
{
    let mut r: u128 = 1;
    let mut i: usize = 0;
    while i < m
        invariant
            0 <= i <= m <= 40,
            r == pow2(i as nat),
            r <= 0x100_0000_0000,
        decreases m - i,
    {
        proof {
            lemma_pow2_grows((i + 1) as nat, 40);
            assert(pow2(40) == 0x100_0000_0000) by {
                reveal_with_fuel(pow2, 41);
            }
        }
        r = 2 * r;
        i += 1;
    }
    r
}

fn copy_digits(v: &Vec<u8>) -> (r: Vec<u8>)
    ensures
        r@ == v@,
{
    let mut out: Vec<u8> = Vec::new();
    let mut i: usize = 0;
    while i < v.len()
        invariant
            0 <= i <= v.len(),
            out@ == v@.take(i as int),
        decreases v.len() - i,
    {
        out.push(v[i]);
        assert(out@ =~= v@.take(i + 1));
        i += 1;
    }
    assert(out@ =~= v@);
    out
}

/// The decimal number is so small that the double-precision number nearest to
/// it is zero: at most half of the smallest one, which is `2^-1074`.
pub open spec fn rounds_to_zero(whole: Seq<u8>, frac: Seq<u8>) -> bool {
    decimal_value(whole, frac) * pow2(1075) <= pow10(frac.len())
}

/// Whether the double-precision number nearest to a decimal number is zero.
#[verifier::spinoff_prover]
pub fn is_tiny(whole: &Vec<u8>, frac: &Vec<u8>) -> (b: bool)
    requires
        are_digits(whole@),
        are_digits(frac@),
    ensures
        b == rounds_to_zero(whole@, frac@),
{
    let ghost d = pow10(frac@.len());
    let ghost w = digits_value(whole@);
    let ghost f = digits_value(frac@);
    proof {
        lemma_digits_bound(frac@);
        lemma_digits_bound(whole@);
        lemma_pow2_grows(1, 1075);
        assert(pow2(1) == 2) by {
            reveal_with_fuel(pow2, 2);
        }
    }
    if !all_zero(whole) {
        proof {
            let p = pow2(1075);
            assert((w * d + f) * p > d) by (nonlinear_arith)
                requires
                    w >= 1,
                    d >= 1,
                    f >= 0,
                    p >= 2,
            ;
        }
        return false;
    }
    assert(w * d == 0) by (nonlinear_arith)
        requires
            w == 0,
    ;
    let mut v: Vec<u8> = copy_digits(frac);
    let mut i: usize = 0;
    assert(f * pow2(0) == f) by {
        reveal_with_fuel(pow2, 1);
        assert(pow2(0) == 1);
    }
    while i < 1074
        invariant
            0 <= i <= 1074,
            are_digits(v@),
            v@.len() == frac@.len(),
            d == pow10(frac@.len()),
            0 <= f < d,
            decimal_value(whole@, frac@) == f,
            digits_value(v@) == f * pow2(i as nat),
        decreases 1074 - i,
    {
        let ghost a = pow2(i as nat);
        let carry: bool = double_fraction(&mut v);
        proof {
            lemma_digits_bound(v@);
            assert(f * pow2((i + 1) as nat) == 2 * (f * a)) by (nonlinear_arith)
                requires
                    pow2((i + 1) as nat) == 2 * a,
            ;
        }
        if carry {
            proof {
                lemma_pow2_grows((i + 2) as nat, 1075);
                let b = pow2((i + 1) as nat);
                let c = pow2(1075);
                assert(pow2((i + 2) as nat) == 2 * b);
                assert(f * c > d) by (nonlinear_arith)
                    requires
                        f * b >= d,
                        c >= 2 * b,
                        d >= 1,
                        f >= 0,
                ;
            }
            return false;
        }
        i += 1;
    }
    let ghost a = pow2(1074);
    let carry: bool = double_fraction(&mut v);
    proof {
        lemma_digits_bound(v@);
        assert(pow2(1075) == 2 * a);
        assert(f * pow2(1075) == 2 * (f * a)) by (nonlinear_arith)
            requires
                pow2(1075) == 2 * a,
        ;
    }
    !carry || all_zero(&v)
}

/// Whole numbers below 2^53 come through exactly.
pub proof fn small_whole_numbers_are_exact(whole: Seq<u8>, m: nat)
    requires
        are_digits(whole),
        digits_value(whole) * pow2(m) < 0x20_0000_0000_0000,
    ensures
        scaled(whole, seq![], m) == digits_value(whole) * pow2(m),
{
    let n = digits_value(whole) * pow2(m);
    lemma_digits_bound(whole);
    lemma_pow2_positive(m);
    assert(0 <= n) by (nonlinear_arith)
        requires
            n == digits_value(whole) * pow2(m),
            digits_value(whole) >= 0,
            pow2(m) >= 1,
    ;
    let none = Seq::<u8>::empty();
    assert(pow10(none.len()) == 1);
    assert(decimal_value(whole, none) == digits_value(whole));
    assert(n / 1 == n && n % 1 == 0);
    if n < 0x10_0000_0000_0000 {
        lemma_fineness(n);
        lemma_round_small(n, 1, 0, fineness(n));
        let parts = fineness(n);
        assert((n * 1 + 0) * parts == n * parts);
        assert((0 * (2 * parts)) / 1 == 0);
    } else {
        lemma_spacing(n);
        lemma_round_large(n, 1, 0, 1);
        assert(n / 1 == n);
    }
}

proof fn lemma_fineness_grows(q: int)
    requires
        q > 0,
    ensures
        fineness(q) >= 1,
        fineness(q) * q >= 0x10_0000_0000_0000,
    decreases
            if q >= 0x10_0000_0000_0000 {
                0
            } else {
                0x10_0000_0000_0000 - q
            },
{
    if q < 0x10_0000_0000_0000 {
        lemma_fineness_grows(2 * q);
        let half = fineness(2 * q);
        assert((2 * half) * q == half * (2 * q)) by (nonlinear_arith);
    } else {
        assert(fineness(q) * q == q);
    }
}

/// What is less than one is dropped: a product below 2^32 comes out as the whole
/// number below it, unless less than a 2^21st is missing to the next one.
pub proof fn fractions_are_dropped(whole: Seq<u8>, frac: Seq<u8>, m: nat)
    requires
        are_digits(whole),
        are_digits(frac),
        (digits_value(whole) * pow10(frac.len()) + digits_value(frac)) * pow2(m) < 0x1_0000_0000
            * pow10(frac.len()),
    ensures
        ({
            let d = pow10(frac.len());
            let v = (digits_value(whole) * d + digits_value(frac)) * pow2(m);
            let r = scaled(whole, frac, m);
            &&& v / d <= r <= v / d + 1
            &&& 0x20_0000 * (d - v % d) > d ==> r == v / d
        }),
        pow10(0) == 1 && pow10(m + 1) == 10 * pow10(m),
        pow2(0) == 1 && pow2(m + 1) == 2 * pow2(m),
{
    let d = pow10(frac.len());
    let n = decimal_value(whole, frac);
    let v = n * pow2(m);
    let (q, f) = (v / d, v % d);
    lemma_digits_bound(whole);
    lemma_digits_bound(frac);
    lemma_pow2_positive(m);
    lemma_pow10_positive(frac.len());
    assert(n >= 0) by (nonlinear_arith)
        requires
            n == digits_value(whole) * d + digits_value(frac),
            digits_value(whole) >= 0,
            digits_value(frac) >= 0,
            d >= 1,
    ;
    assert(v >= 0) by (nonlinear_arith)
        requires
            v == n * pow2(m),
            n >= 0,
            pow2(m) >= 1,
    ;
    vstd::arithmetic::div_mod::lemma_fundamental_div_mod(v, d);
    assert(0 <= f < d);
    assert(0 <= q < 0x1_0000_0000) by (nonlinear_arith)
        requires
            v == d * q + f,
            0 <= v < 0x1_0000_0000 * d,
            0 <= f < d,
    ;
    assert(d * q == q * d) by (nonlinear_arith);
    let parts = fineness(q);
    lemma_fineness(q);
    if q > 0 {
        lemma_fineness_grows(q);
        assert(parts >= 0x10_0000) by (nonlinear_arith)
            requires
                parts * q >= 0x10_0000_0000_0000,
                0 < q < 0x1_0000_0000,
                parts >= 1,
        ;
    }
    lemma_round_small(q, d, f, parts);
    if (f * (2 * parts)) / d == 2 * parts - 1 {
        vstd::arithmetic::div_mod::lemma_fundamental_div_mod(f * (2 * parts), d);
        assert(0x20_0000 * (d - f) <= d) by (nonlinear_arith)
            requires
                f * (2 * parts) >= d * (2 * parts - 1),
                parts >= 0x10_0000,
                f < d,
        ;
    }
}

} // verus!
