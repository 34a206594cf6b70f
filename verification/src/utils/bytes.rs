//! IEC byte formatting.
use crate::utils::text::{decimal, decimal_string, digit_char, digit_to_char, push_char, push_decimal};
use vstd::prelude::*;

verus! {

/// `2^k`.
pub open spec fn two_pow(k: nat) -> nat
    decreases k,
{
    if k == 0 {
        1
    } else {
        2 * two_pow((k - 1) as nat)
    }
}

/// `1024^i`.
pub open spec fn pow1024(i: nat) -> nat
    decreases i,
{
    if i == 0 {
        1
    } else {
        1024 * pow1024((i - 1) as nat)
    }
}

/// `n / d` rounded to the nearest integer, ties to the even one.
pub open spec fn round_half_even(n: nat, d: nat) -> nat {
    let q = n / d;
    let r = n % d;
    if 2 * r > d || (2 * r == d && q % 2 == 1) {
        q + 1
    } else {
        q
    }
}

/// How many low bits of `n` a 53-bit significand cannot hold.
pub open spec fn dropped_bits(n: nat) -> nat
    decreases n,
{
    if n < 0x20_0000_0000_0000 {
        0
    } else {
        1 + dropped_bits(n / 2)
    }
}

/// The value of `n as f64`: the nearest number with a 53-bit significand,
/// ties to even.
pub open spec fn as_f64(n: nat) -> nat {
    let k = dropped_bits(n);
    round_half_even(n, two_pow(k)) * two_pow(k)
}

/// The largest unit (at most `P`) that `v` reaches.
pub open spec fn unit_floor(v: nat) -> nat {
    if v >= pow1024(5) {
        5
    } else if v >= pow1024(4) {
        4
    } else if v >= pow1024(3) {
        3
    } else if v >= pow1024(2) {
        2
    } else if v >= pow1024(1) {
        1
    } else {
        0
    }
}

/// The unit that `iec` shows `bytes` in: the largest that the value reaches,
/// or the next one up when the value would round to `1024.0` of it.
pub open spec fn iec_unit(bytes: nat) -> nat {
    let v = as_f64(bytes);
    let i = unit_floor(v);
    if i < 5 && 20 * v >= 20479 * pow1024(i) {
        i + 1
    } else {
        i
    }
}

/// The value in tenths of the unit, rounded as `{:.1}` rounds.
pub open spec fn iec_tenths(bytes: nat) -> nat {
    round_half_even(10 * as_f64(bytes), pow1024(iec_unit(bytes)))
}

/// The suffix of unit `i`.
pub open spec fn unit_char(i: nat) -> char {
    if i == 0 {
        'B'
    } else if i == 1 {
        'K'
    } else if i == 2 {
        'M'
    } else if i == 3 {
        'G'
    } else if i == 4 {
        'T'
    } else {
        'P'
    }
}

/// The text of `iec(bytes)`: plain bytes with a `B` below one KiB, else the
/// value in the unit with one decimal place and the unit's letter.
pub open spec fn iec_text(bytes: nat) -> Seq<char> {
    if iec_unit(bytes) == 0 {
        decimal(bytes).push('B')
    } else {
        let t = iec_tenths(bytes);
        decimal(t / 10).push('.').push(digit_char(t % 10)).push(unit_char(iec_unit(bytes)))
    }
}

proof fn lemma_powers()
    ensures
        two_pow(11) == 2048,
        two_pow(52) == 0x10_0000_0000_0000,
        two_pow(53) == 0x20_0000_0000_0000,
        two_pow(64) == 0x1_0000_0000_0000_0000,
        pow1024(1) == 1024,
        pow1024(2) == 1048576,
        pow1024(3) == 1073741824,
        pow1024(4) == 1099511627776,
        pow1024(5) == 1125899906842624,
{
    reveal_with_fuel(two_pow, 65);
    reveal_with_fuel(pow1024, 6);
}

pub proof fn lemma_two_pow_add(a: nat, b: nat)
    ensures
        two_pow(a + b) == two_pow(a) * two_pow(b),
    decreases a,
{
    if a > 0 {
        let a1 = (a - 1) as nat;
        lemma_two_pow_add(a1, b);
        assert(a1 + b + 1 == a + b);
        assert(two_pow(a1 + b + 1) == 2 * two_pow(a1 + b));
        assert(two_pow(a) == 2 * two_pow(a1));
        let x = two_pow(a1);
        let y = two_pow(b);
        assert((2 * x) * y == 2 * (x * y)) by (nonlinear_arith);
        assert(two_pow(a + b) == two_pow(a) * two_pow(b));
    } else {
        assert(a + b == b);
        assert(two_pow(a) == 1);
        assert(two_pow(a) * two_pow(b) == two_pow(b));
    }
}

pub proof fn lemma_two_pow_pos(a: nat)
    ensures
        two_pow(a) >= 1,
    decreases a,
{
    if a > 0 {
        lemma_two_pow_pos((a - 1) as nat);
    }
}

pub proof fn lemma_two_pow_mono(a: nat, b: nat)
    requires
        a <= b,
    ensures
        two_pow(a) <= two_pow(b),
{
    lemma_two_pow_add(a, (b - a) as nat);
    lemma_two_pow_pos((b - a) as nat);
    lemma_two_pow_pos(a);
    assert(two_pow(a) * two_pow((b - a) as nat) >= two_pow(a)) by (nonlinear_arith)
        requires
            two_pow((b - a) as nat) >= 1,
            two_pow(a) >= 1,
    ;
    assert((a + (b - a)) as nat == b);
}

proof fn lemma_dropped_bits_bound(n: nat)
    ensures
        dropped_bits(n) > 0 ==> n >= two_pow(52 + dropped_bits(n)),
    decreases n,
{
    lemma_powers();
    if n >= 0x20_0000_0000_0000 {
        lemma_dropped_bits_bound(n / 2);
        let k = dropped_bits(n / 2);
        assert(dropped_bits(n) == 1 + k);
        if k > 0 {
            assert(two_pow(52 + k + 1) == 2 * two_pow(52 + k));
            assert((52 + dropped_bits(n)) as nat == (52 + k + 1) as nat);
        } else {
            assert(two_pow(53) == 0x20_0000_0000_0000);
        }
    }
}

/// A value that fits in 53 bits is its own double.
proof fn lemma_as_f64_exact(n: nat)
    requires
        n < 0x20_0000_0000_0000,
    ensures
        as_f64(n) == n,
{
    assert(dropped_bits(n) == 0);
    assert(two_pow(0) == 1);
}

/// A value of 53 bits or more stays at least `2^50` as a double.
proof fn lemma_as_f64_large(n: nat)
    requires
        n >= 0x20_0000_0000_0000,
    ensures
        as_f64(n) >= 0x4_0000_0000_0000,
{
    let k = dropped_bits(n);
    lemma_dropped_bits_bound(n);
    assert(k > 0);
    lemma_two_pow_add(52, k);
    lemma_powers();
    lemma_two_pow_pos(k);
    let d = two_pow(k);
    let q = n / d;
    assert(round_half_even(n, d) >= q);
    assert(q * d >= 0x4_0000_0000_0000) by (nonlinear_arith)
        requires
            q == n / d,
            d >= 1,
            n >= 0x10_0000_0000_0000 * d,
            n >= 0x20_0000_0000_0000,
    {
        vstd::arithmetic::div_mod::lemma_fundamental_div_mod(n as int, d as int);
        vstd::arithmetic::div_mod::lemma_mod_bound(n as int, d as int);
    }
    assert(round_half_even(n, d) * d >= q * d) by (nonlinear_arith)
        requires
            round_half_even(n, d) >= q,
    ;
}

/// `iec` never shows a value that rounds to `1024.0` in a unit below `P`,
/// and never less than `1.0` in a unit above `B`: the mantissa of every
/// result above `B` is between `1.0` and `1023.9` (or, in `P`, at least
/// `1.0`). Below one KiB the result is the plain byte count.
pub proof fn lemma_iec_mantissa_range(bytes: u64)
    ensures
        iec_unit(bytes as nat) == 0 <==> bytes < 1024,
        iec_unit(bytes as nat) > 0 ==> 10 <= iec_tenths(bytes as nat),
        0 < iec_unit(bytes as nat) < 5 ==> iec_tenths(bytes as nat) < 10240,
{
    lemma_powers();
    let b = bytes as nat;
    let v = as_f64(b);
    if b >= 0x20_0000_0000_0000 {
        lemma_as_f64_large(b);
    } else {
        lemma_as_f64_exact(b);
    }
    let i = unit_floor(v);
    let p = pow1024(i);
    let u = iec_unit(b);
    let t = iec_tenths(b);
    assert(i <= 5);
    assert(i >= 1 ==> v >= p);
    assert(i < 5 ==> v < 1024 * p) by {
        reveal_with_fuel(pow1024, 6);
    }
    assert(p >= 1);
    if u == i {
        if i > 0 {
            let n = 10 * v;
            assert(n / p >= 10) by (nonlinear_arith)
                requires
                    n == 10 * v,
                    v >= p,
                    p >= 1,
            ;
            if i < 5 {
                assert(20 * v < 20479 * p);
                let q = n / p;
                let r = n % p;
                assert(q <= 10239 && (q == 10239 ==> 2 * r < p)) by (nonlinear_arith)
                    requires
                        n == 10 * v,
                        20 * v < 20479 * p,
                        q == n / p,
                        r == n % p,
                        p >= 1,
                {
                    vstd::arithmetic::div_mod::lemma_fundamental_div_mod(n as int, p as int);
                }
            }
        }
    } else {
        assert(u == i + 1 && i < 5 && 20 * v >= 20479 * p);
        let p2 = pow1024(u);
        assert(p2 == 1024 * p) by {
            reveal_with_fuel(pow1024, 6);
        }
        let n = 10 * v;
        let q = n / p2;
        let r = n % p2;
        assert(q == 9 && 2 * r >= p2) by (nonlinear_arith)
            requires
                n == 10 * v,
                20 * v >= 20479 * p,
                v < 1024 * p,
                p2 == 1024 * p,
                q == n / p2,
                r == n % p2,
                p >= 1,
        {
            vstd::arithmetic::div_mod::lemma_fundamental_div_mod(n as int, p2 as int);
        }
        assert(t == 10);
    }
}

/// Whether the value `v` shown in unit `k` would round to at least `1024.0`
/// at one decimal (`(v / 1024^k * 10).round() / 10.0 >= 1024.0`).
pub open spec fn rounds_to_1024(v: nat, k: nat) -> bool {
    20 * v >= 20479 * pow1024(k)
}

/// From one KiB up, the unit `iec` shows is the least `k` in `1..=5` that
/// is `P` or in which the value does not round to `1024.0`.
pub proof fn lemma_iec_unit_is_least(bytes: u64)
    requires
        bytes >= 1024,
    ensures
        1 <= iec_unit(bytes as nat) <= 5,
        iec_unit(bytes as nat) == 5 || !rounds_to_1024(as_f64(bytes as nat), iec_unit(bytes as nat)),
        forall|j: nat|
            1 <= j < iec_unit(bytes as nat) ==> j < 5 && #[trigger] rounds_to_1024(
                as_f64(bytes as nat),
                j,
            ),
{
    lemma_powers();
    reveal_with_fuel(pow1024, 6);
    let b = bytes as nat;
    let v = as_f64(b);
    if b >= 0x20_0000_0000_0000 {
        lemma_as_f64_large(b);
    } else {
        lemma_as_f64_exact(b);
    }
    let i = unit_floor(v);
    let u = iec_unit(b);
    assert(i >= 1);
    assert forall|j: nat| 1 <= j < u implies j < 5 && #[trigger] rounds_to_1024(v, j) by {
        if j < i {
            assert(v >= pow1024(j + 1));
            assert(pow1024(j + 1) == 1024 * pow1024(j));
        } else {
            assert(j == i && u == i + 1);
        }
    }
    if u == i + 1 {
        assert(v < 1024 * pow1024(i));
        assert(pow1024(u) == 1024 * pow1024(i));
        assert(pow1024(i) >= 1);
    }
}

/// `n as f64`, as an exact integer.
fn nearest_f64(n: u64) -> (r: u128)
    ensures
        r == as_f64(n as nat),
        r <= 0x1_0000_0000_0000_0000,
{
    proof {
        lemma_powers();
    }
    let mut m: u64 = n;
    let mut k: u64 = 0;
    let mut d: u64 = 1;
    while m >= 0x20_0000_0000_0000
        invariant
            dropped_bits(n as nat) == k + dropped_bits(m as nat),
            d == two_pow(k as nat),
            d > 0,
            k <= 11,
            m == n / d,
            two_pow(11) == 2048,
        decreases m,
    {
        proof {
            vstd::arithmetic::div_mod::lemma_fundamental_div_mod(n as int, d as int);
            assert(d * m <= n);
            assert(d < 0x800) by (nonlinear_arith)
                requires
                    d * m <= n,
                    m >= 0x20_0000_0000_0000,
                    n <= 0xffff_ffff_ffff_ffff,
                    d > 0,
            ;
            if k >= 11 {
                lemma_two_pow_mono(11, k as nat);
            }
            vstd::arithmetic::div_mod::lemma_div_denominator(n as int, d as int, 2);
        }
        m = m / 2;
        k = k + 1;
        d = d * 2;
    }
    let q = n / d;
    let r = n % d;
    proof {
        lemma_two_pow_add(k as nat, (64 - k) as nat);
        assert((k + (64 - k)) as nat == 64);
        vstd::arithmetic::div_mod::lemma_fundamental_div_mod(n as int, d as int);
        assert(q < two_pow((64 - k) as nat)) by (nonlinear_arith)
            requires
                d * q <= n,
                n < 0x1_0000_0000_0000_0000,
                0x1_0000_0000_0000_0000 == d * two_pow((64 - k) as nat),
                d > 0,
        ;
    }
    let q2: u128 = if 2 * (r as u128) > d as u128 || (2 * (r as u128) == d as u128 && q % 2 == 1) {
        q as u128 + 1
    } else {
        q as u128
    };
    proof {
        assert(q2 as nat == round_half_even(n as nat, d as nat));
        assert(q2 * (d as u128) <= 0x1_0000_0000_0000_0000) by (nonlinear_arith)
            requires
                q2 <= two_pow((64 - k) as nat),
                0x1_0000_0000_0000_0000 == d * two_pow((64 - k) as nat),
                d > 0,
        ;
    }
    q2 * (d as u128)
}


fn unit_letter(i: u64) -> (c: char)
    ensures
        c == unit_char(i as nat),
{
    if i == 0 {
        'B'
    } else if i == 1 {
        'K'
    } else if i == 2 {
        'M'
    } else if i == 3 {
        'G'
    } else if i == 4 {
        'T'
    } else {
        'P'
    }
}

/// `1024^i` for a unit index.
fn unit_size(i: u64) -> (p: u128)
    requires
        i <= 5,
    ensures
        p == pow1024(i as nat),
        p >= 1,
        i >= 1 ==> p >= 1024,
{
    proof {
        lemma_powers();
        reveal_with_fuel(pow1024, 1);
    }
    if i == 0 {
        1
    } else if i == 1 {
        1024
    } else if i == 2 {
        1048576
    } else if i == 3 {
        1073741824
    } else if i == 4 {
        1099511627776
    } else {
        1125899906842624
    }
}

/// Format bytes with IEC units, always to one decimal place above `B` (`1.5K`,
/// `4.0G`). Deliberately fixed-width — unlike `numfmt --to=iec`, which uses
/// three significant digits and prints `340K` where this prints `340.0K` — so
/// columns do not jump around under `watch`.
///
/// The value is that of `bytes` as a double, divided by the unit, rounded to
/// tenths with ties to even; a value that would round to `1024.0` of a unit
/// below `P` is shown in the next unit up instead.
pub fn iec(bytes: u64) -> (r: String)
    ensures
        r@ == iec_text(bytes as nat),
{
    proof {
        lemma_powers();
    }
    let v = nearest_f64(bytes);
    let floor: u64 = if v >= 1125899906842624 {
        5
    } else if v >= 1099511627776 {
        4
    } else if v >= 1073741824 {
        3
    } else if v >= 1048576 {
        2
    } else if v >= 1024 {
        1
    } else {
        0
    };
    assert(floor as nat == unit_floor(v as nat));
    let p0 = unit_size(floor);
    let i: u64 = if floor < 5 && 20 * v >= 20479 * p0 {
        floor + 1
    } else {
        floor
    };
    assert(i as nat == iec_unit(bytes as nat));
    if i == 0 {
        let mut s = decimal_string(bytes);
        push_char(&mut s, 'B');
        s
    } else {
        let p = unit_size(i);
        let n = 10 * v;
        let q = n / p;
        let rem = n % p;
        assert(q <= 0x4_0000_0000_0000_0000u128) by (nonlinear_arith)
            requires
                q == n / p,
                n == 10 * v,
                v <= 0x1_0000_0000_0000_0000,
                p >= 1024,
        ;
        let t = if 2 * rem > p || (2 * rem == p && q % 2 == 1) {
            q + 1
        } else {
            q
        };
        assert(t as nat == iec_tenths(bytes as nat));
        let mut s = String::new();
        push_decimal(&mut s, (t / 10) as u64);
        push_char(&mut s, '.');
        push_char(&mut s, digit_to_char((t % 10) as u64));
        push_char(&mut s, unit_letter(i));
        proof {
            assert(s@ =~= iec_text(bytes as nat));
        }
        s
    }
}

} // verus!
