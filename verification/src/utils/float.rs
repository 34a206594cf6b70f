//! IEEE-754 double values held by their bit pattern, and the three things the
//! renderers do with one: print it with two decimals (`{:.2}`), convert it to
//! an integer (`as u64`) and test it against zero (`> 0.0`).
use crate::utils::bytes::{lemma_two_pow_mono, round_half_even, two_pow};
use crate::utils::text::{decimal, digit_char, digit_to_char, push_char, push_decimal};
use vstd::prelude::*;

verus! {

/// A double-precision value, carried as its IEEE-754 bit pattern
/// (`f64::to_bits`).
#[derive(Clone, Copy, Debug)]
pub struct F64Bits {
    pub bits: u64,
}

/// IEEE-754 equality of two doubles given by their bits: a NaN equals
/// nothing, `0.0` equals `-0.0`, and otherwise equal values have equal bits.
pub open spec fn ieee_equal(a: u64, b: u64) -> bool {
    &&& !is_nan(a)
    &&& !is_nan(b)
    &&& (a == b || (a | b) << 1u64 == 0)
}

/// `==` compares the values as doubles do, not the bit patterns.
impl PartialEq for F64Bits {
    fn eq(&self, other: &Self) -> (r: bool) {
        let a = self.bits;
        let b = other.bits;
        let a_nan = (a >> 52u64) & 0x7ff == 0x7ff && a & 0xf_ffff_ffff_ffff != 0;
        let b_nan = (b >> 52u64) & 0x7ff == 0x7ff && b & 0xf_ffff_ffff_ffff != 0;
        !a_nan && !b_nan && (a == b || (a | b) << 1u64 == 0)
    }
}

impl vstd::std_specs::cmp::PartialEqSpecImpl for F64Bits {
    open spec fn obeys_eq_spec() -> bool {
        true
    }

    open spec fn eq_spec(&self, other: &F64Bits) -> bool {
        ieee_equal(self.bits, other.bits)
    }
}

/// The sign bit.
pub open spec fn sign_bit(b: u64) -> bool {
    (b >> 63u64) == 1
}

/// The biased exponent field.
pub open spec fn exp_field(b: u64) -> u64 {
    (b >> 52u64) & 0x7ff
}

/// The fraction field.
pub open spec fn frac_field(b: u64) -> u64 {
    b & 0xf_ffff_ffff_ffff
}

pub open spec fn is_nan(b: u64) -> bool {
    exp_field(b) == 0x7ff && frac_field(b) != 0
}

pub open spec fn is_infinite(b: u64) -> bool {
    exp_field(b) == 0x7ff && frac_field(b) == 0
}

/// The significand of a finite value: its magnitude is
/// `significand(b) * 2^exponent(b)`.
pub open spec fn significand(b: u64) -> nat {
    if exp_field(b) == 0 {
        frac_field(b) as nat
    } else {
        frac_field(b) as nat + two_pow(52)
    }
}

pub open spec fn exponent(b: u64) -> int {
    if exp_field(b) == 0 {
        -1074
    } else {
        exp_field(b) - 1075
    }
}

/// The magnitude of a finite value in hundredths, rounded to the nearest,
/// ties to even, as `{:.2}` rounds the exact binary value.
pub open spec fn hundredths(b: u64) -> nat {
    let e = exponent(b);
    if e >= 0 {
        significand(b) * two_pow(e as nat) * 100
    } else {
        round_half_even(significand(b) * 100, two_pow((-e) as nat))
    }
}

/// What `format!("{:.2}", x)` prints for the double with bits `b`.
pub open spec fn fixed2_text(b: u64) -> Seq<char> {
    if is_nan(b) {
        seq!['N', 'a', 'N']
    } else {
        let sign = if sign_bit(b) {
            seq!['-']
        } else {
            seq![]
        };
        if is_infinite(b) {
            sign + seq!['i', 'n', 'f']
        } else {
            let h = hundredths(b);
            sign + decimal(h / 100) + seq!['.', digit_char((h % 100) / 10), digit_char(h % 10)]
        }
    }
}

/// Whether the value is greater than zero (`x > 0.0`).
pub open spec fn is_positive(b: u64) -> bool {
    !is_nan(b) && !sign_bit(b) && (is_infinite(b) || significand(b) > 0)
}

/// A double is greater than zero exactly when its bit pattern lies in
/// `1 ..= 0x7ff0_0000_0000_0000`: the positive subnormals and normals up to
/// positive infinity; zero, NaNs and every value with the sign bit set are
/// not.
pub proof fn lemma_positive_bit_patterns(b: u64)
    ensures
        is_positive(b) <==> 0 < b <= 0x7ff0_0000_0000_0000,
{
    assert(two_pow(52) > 0) by {
        crate::utils::bytes::lemma_two_pow_pos(52);
    }
    assert(significand(b) > 0 <==> exp_field(b) != 0 || frac_field(b) != 0);
    assert(
        (!((b >> 52u64) & 0x7ff == 0x7ff && b & 0xf_ffff_ffff_ffff != 0) && (b >> 63u64) != 1 && (
        ((b >> 52u64) & 0x7ff == 0x7ff && b & 0xf_ffff_ffff_ffff == 0) || (b >> 52u64) & 0x7ff
            != 0 || b & 0xf_ffff_ffff_ffff != 0)) <==> (0 < b && b <= 0x7ff0_0000_0000_0000)
    ) by (bit_vector);
}

/// What `x as u64` gives: NaN and negative values go to zero, values too
/// large go to `u64::MAX`, and others are truncated toward zero.
pub open spec fn saturating_u64(b: u64) -> nat {
    if is_nan(b) || sign_bit(b) {
        0
    } else if is_infinite(b) {
        0xffff_ffff_ffff_ffff
    } else {
        let e = exponent(b);
        let whole = if e >= 0 {
            significand(b) * two_pow(e as nat)
        } else {
            significand(b) / two_pow((-e) as nat)
        };
        if whole > 0xffff_ffff_ffff_ffff {
            0xffff_ffff_ffff_ffff
        } else {
            whole
        }
    }
}

/// `10^k`.
pub open spec fn pow10(k: nat) -> nat
    decreases k,
{
    if k == 0 {
        1
    } else {
        10 * pow10((k - 1) as nat)
    }
}

/// The value of decimal digits, most significant first.
pub open spec fn dec_value(ds: Seq<u8>) -> nat
    decreases ds.len(),
{
    if ds.len() == 0 {
        0
    } else {
        dec_value(ds.drop_last()) * 10 + ds.last() as nat
    }
}

/// The characters of decimal digits.
pub open spec fn digit_text(ds: Seq<u8>) -> Seq<char> {
    ds.map_values(|d: u8| digit_char(d as nat))
}

/// Digits below ten, the first one not zero.
pub open spec fn canonical(ds: Seq<u8>) -> bool {
    &&& ds.len() >= 1
    &&& ds[0] != 0
    &&& forall|i: int| 0 <= i < ds.len() ==> #[trigger] ds[i] < 10
}

proof fn lemma_dec_value_prepend(x: u8, t: Seq<u8>)
    ensures
        dec_value(seq![x] + t) == x as nat * pow10(t.len()) + dec_value(t),
    decreases t.len(),
{
    if t.len() == 0 {
        assert(seq![x] + t =~= seq![x]);
        assert(seq![x].drop_last() =~= Seq::<u8>::empty());
        assert(dec_value(Seq::<u8>::empty()) == 0);
        assert(dec_value(seq![x]) == x as nat);
        assert(pow10(0) == 1);
        assert(dec_value(t) == 0);
    } else {
        lemma_dec_value_prepend(x, t.drop_last());
        assert((seq![x] + t).drop_last() =~= seq![x] + t.drop_last());
        assert((seq![x] + t).last() == t.last());
        assert(dec_value(seq![x] + t) == dec_value(seq![x] + t.drop_last()) * 10 + t.last() as nat);
        assert(dec_value(t) == dec_value(t.drop_last()) * 10 + t.last() as nat);
        let p = pow10((t.len() - 1) as nat);
        assert(pow10(t.len()) == 10 * p);
        assert((x as nat * p + dec_value(t.drop_last())) * 10 + t.last() as nat == x as nat * (10
            * p) + (dec_value(t.drop_last()) * 10 + t.last() as nat)) by (nonlinear_arith);
    }
}

proof fn lemma_canonical_text(ds: Seq<u8>)
    requires
        canonical(ds),
    ensures
        dec_value(ds) >= 1,
        decimal(dec_value(ds)) == digit_text(ds),
    decreases ds.len(),
{
    if ds.len() == 1 {
        assert(ds.drop_last() =~= Seq::<u8>::empty());
        assert(ds.last() == ds[0]);
        assert(digit_text(ds) =~= seq![digit_char(ds[0] as nat)]);
        assert(dec_value(Seq::<u8>::empty()) == 0);
        assert(dec_value(ds) == ds[0] as nat);
        assert(ds[0] < 10);
        assert(decimal(ds[0] as nat) == seq![digit_char(ds[0] as nat)]);
    } else {
        let init = ds.drop_last();
        assert(init[0] == ds[0]);
        assert forall|i: int| 0 <= i < init.len() implies #[trigger] init[i] < 10 by {
            assert(init[i] == ds[i]);
        }
        lemma_canonical_text(init);
        let v = dec_value(ds);
        assert(ds.last() == ds[ds.len() - 1]);
        assert(v == dec_value(init) * 10 + ds.last() as nat);
        assert(v / 10 == dec_value(init));
        assert(v % 10 == ds.last() as nat);
        assert(digit_text(ds) =~= digit_text(init).push(digit_char(ds.last() as nat)));
        assert(v >= 10);
        assert(decimal(v) == decimal(v / 10).push(digit_char(v % 10)));
    }
}

/// The digits of a positive number.
fn digits_from(n: u64) -> (r: Vec<u8>)
    requires
        n > 0,
    ensures
        canonical(r@),
        dec_value(r@) == n,
    decreases n,
{
    if n < 10 {
        let mut v: Vec<u8> = Vec::new();
        v.push(n as u8);
        proof {
            assert(v@.drop_last() =~= Seq::<u8>::empty());
            assert(dec_value(Seq::<u8>::empty()) == 0);
            assert(dec_value(v@) == dec_value(v@.drop_last()) * 10 + v@.last() as nat);
        }
        v
    } else {
        let mut v = digits_from(n / 10);
        let ghost old_v = v@;
        v.push((n % 10) as u8);
        proof {
            assert(v@.drop_last() =~= old_v);
            assert(dec_value(v@) == dec_value(old_v) * 10 + (n % 10) as nat);
            assert(v@[0] == old_v[0]);
            assert forall|i: int| 0 <= i < v@.len() implies #[trigger] v@[i] < 10 by {
                if i < old_v.len() {
                    assert(v@[i] == old_v[i]);
                }
            }
        }
        v
    }
}

/// Doubles a number held as decimal digits.
fn double_digits(ds: &mut Vec<u8>)
    requires
        canonical(old(ds)@),
    ensures
        canonical(final(ds)@),
        dec_value(final(ds)@) == 2 * dec_value(old(ds)@),
{
    let ghost orig = ds@;
    let n = ds.len();
    let mut j: usize = n;
    let mut carry: u8 = 0;
    proof {
        assert(ds@.skip(n as int) =~= Seq::<u8>::empty());
        assert(pow10(0) == 1);
    }
    while j > 0
        invariant
            j <= n,
            n == orig.len(),
            ds@.len() == n,
            canonical(orig),
            carry <= 1,
            ds@.take(j as int) == orig.take(j as int),
            forall|i: int| 0 <= i < n ==> #[trigger] ds@[i] < 10,
            dec_value(ds@.skip(j as int)) + carry as nat * pow10((n - j) as nat) == 2 * dec_value(
                orig.skip(j as int),
            ),
            j == 0 ==> (ds@[0] != 0 || carry == 1),
        decreases j,
    {
        let ghost prev = ds@;
        let ghost c = carry;
        j -= 1;
        let d = 2 * ds[j] + carry;
        proof {
            assert(prev[j as int] == prev.take(j + 1)[j as int]);
            assert(prev[j as int] == orig[j as int]);
        }
        ds.set(j, d % 10);
        carry = d / 10;
        proof {
            let k = (n - j - 1) as nat;
            assert(prev.skip(j as int) =~= seq![orig[j as int]] + prev.skip(j + 1));
            assert(orig.skip(j as int) =~= seq![orig[j as int]] + orig.skip(j + 1));
            assert(ds@.skip(j as int) =~= seq![(d % 10) as u8] + prev.skip(j + 1));
            assert(ds@.take(j as int) =~= prev.take(j as int));
            assert(prev.take(j as int) =~= prev.take(j + 1).take(j as int));
            assert(orig.take(j as int) =~= orig.take(j + 1).take(j as int));
            lemma_dec_value_prepend(orig[j as int], prev.skip(j + 1));
            lemma_dec_value_prepend(orig[j as int], orig.skip(j + 1));
            lemma_dec_value_prepend((d % 10) as u8, prev.skip(j + 1));
            assert(prev.skip(j + 1).len() == k);
            assert(pow10((n - j) as nat) == 10 * pow10(k));
            let a = dec_value(prev.skip(j + 1));
            let b = dec_value(orig.skip(j + 1));
            let p = pow10(k);
            assert(a + c as nat * p == 2 * b);
            assert(((d % 10) as nat) * p + a + (d / 10) as nat * (10 * p) == 2 * (orig[j as int]
                as nat * p + b)) by (nonlinear_arith)
                requires
                    a + c as nat * p == 2 * b,
                    d == 2 * orig[j as int] + c,
                    d < 20,
            ;
            if j == 0 {
                assert(orig[0] != 0);
            }
        }
    }
    proof {
        assert(ds@.skip(0) =~= ds@);
        assert(orig.skip(0) =~= orig);
    }
    if carry == 1 {
        let ghost before = ds@;
        ds.insert(0, 1);
        proof {
            assert(ds@ =~= seq![1u8] + before);
            lemma_dec_value_prepend(1, before);
            assert forall|i: int| 0 <= i < ds@.len() implies #[trigger] ds@[i] < 10 by {
                if i > 0 {
                    assert(ds@[i] == before[i - 1]);
                }
            }
        }
    }
}

/// Appends the decimal text of a number held as digits.
fn push_digits(s: &mut String, ds: &Vec<u8>)
    requires
        canonical(ds@),
    ensures
        final(s)@ == old(s)@ + decimal(dec_value(ds@)),
{
    let mut i: usize = 0;
    while i < ds.len()
        invariant
            i <= ds.len(),
            canonical(ds@),
            s@ == old(s)@ + digit_text(ds@.take(i as int)),
        decreases ds.len() - i,
    {
        let ghost before = s@;
        let c = digit_to_char(ds[i] as u64);
        push_char(s, c);
        proof {
            assert(ds@[i as int] < 10);
            assert(c == digit_char(ds@[i as int] as nat));
            assert(s@ == before.push(c));
            assert(digit_text(ds@.take(i + 1)) =~= digit_text(ds@.take(i as int)).push(c));
            assert(s@ =~= old(s)@ + digit_text(ds@.take(i + 1)));
        }
        i += 1;
    }
    proof {
        assert(ds@.take(i as int) =~= ds@);
        lemma_canonical_text(ds@);
    }
}


proof fn lemma_float_powers()
    ensures
        two_pow(12) == 0x1000,
        two_pow(52) == 0x10_0000_0000_0000,
        two_pow(53) == 0x20_0000_0000_0000,
        two_pow(62) == 0x4000_0000_0000_0000,
        two_pow(63) == 0x8000_0000_0000_0000,
        two_pow(64) == 0x1_0000_0000_0000_0000,
{
    reveal_with_fuel(two_pow, 65);
}

/// `2^k` for `k <= 64`.
fn pow2_u128(k: u64) -> (d: u128)
    requires
        k <= 64,
    ensures
        d == two_pow(k as nat),
        d >= 1,
        d <= 0x1_0000_0000_0000_0000,
{
    proof {
        lemma_float_powers();
    }
    let mut d: u128 = 1;
    let mut i: u64 = 0;
    while i < k
        invariant
            i <= k <= 64,
            d == two_pow(i as nat),
            two_pow(64) == 0x1_0000_0000_0000_0000,
        decreases k - i,
    {
        proof {
            lemma_two_pow_mono(i as nat, 63);
            lemma_float_powers();
        }
        d = d * 2;
        i += 1;
    }
    proof {
        crate::utils::bytes::lemma_two_pow_pos(k as nat);
        lemma_two_pow_mono(k as nat, 64);
    }
    d
}

/// The exponent and fraction fields, and facts about them.
fn fields(b: u64) -> (r: (u64, u64))
    ensures
        r.0 == exp_field(b),
        r.1 == frac_field(b),
        r.0 <= 0x7ff,
        r.1 <= 0xf_ffff_ffff_ffff,
{
    let e = (b >> 52u64) & 0x7ff;
    let f = b & 0xf_ffff_ffff_ffff;
    assert(e <= 0x7ff) by (bit_vector)
        requires
            e == (b >> 52u64) & 0x7ff,
    ;
    assert(f <= 0xf_ffff_ffff_ffff) by (bit_vector)
        requires
            f == b & 0xf_ffff_ffff_ffff,
    ;
    (e, f)
}

/// The double printed with two decimals, as `format!("{:.2}", x)` does:
/// `NaN`, `inf` or `-inf` for the special values, otherwise a `-` for a set
/// sign bit (so `-0.00` too), the integer part and two rounded decimals.
pub fn format_fixed2(x: F64Bits) -> (r: String)
    ensures
        r@ == fixed2_text(x.bits),
{
    proof {
        lemma_float_powers();
    }
    let b = x.bits;
    let (e, f) = fields(b);
    let mut s = String::new();
    if e == 0x7ff && f != 0 {
        push_char(&mut s, 'N');
        push_char(&mut s, 'a');
        push_char(&mut s, 'N');
        proof {
            assert(s@ =~= fixed2_text(b));
        }
        return s;
    }
    let negative = (b >> 63u64) == 1;
    if negative {
        push_char(&mut s, '-');
    }
    let ghost sign: Seq<char> = if negative {
        seq!['-']
    } else {
        seq![]
    };
    proof {
        assert(s@ =~= sign);
    }
    if e == 0x7ff {
        push_char(&mut s, 'i');
        push_char(&mut s, 'n');
        push_char(&mut s, 'f');
        proof {
            assert(s@ =~= fixed2_text(b));
        }
        return s;
    }
    let m: u64 = if e == 0 {
        f
    } else {
        f + 0x10_0000_0000_0000
    };
    assert(m as nat == significand(b));
    if e >= 1075 {
        let ep: u64 = e - 1075;
        let mut ds = digits_from(m);
        let mut i: u64 = 0;
        assert(two_pow(0) == 1);
        while i < ep
            invariant
                i <= ep,
                canonical(ds@),
                dec_value(ds@) == m as nat * two_pow(i as nat),
            decreases ep - i,
        {
            double_digits(&mut ds);
            proof {
                assert(two_pow((i + 1) as nat) == 2 * two_pow(i as nat));
                assert(2 * (m as nat * two_pow(i as nat)) == m as nat * (2 * two_pow(i as nat)))
                    by (nonlinear_arith);
            }
            i += 1;
        }
        push_digits(&mut s, &ds);
        push_char(&mut s, '.');
        push_char(&mut s, '0');
        push_char(&mut s, '0');
        proof {
            let v = m as nat * two_pow(ep as nat);
            assert(exponent(b) == ep as int);
            assert(hundredths(b) == v * 100);
            assert((v * 100) / 100 == v) by (nonlinear_arith);
            assert((v * 100) % 100 == 0) by (nonlinear_arith);
            assert(digit_char(0) == '0');
            assert(s@ =~= fixed2_text(b));
        }
        s
    } else {
        let k: u64 = if e == 0 {
            1074
        } else {
            1075 - e
        };
        assert(exponent(b) == -(k as int));
        let n: u128 = m as u128 * 100;
        let h: u128 = if k >= 62 {
            proof {
                lemma_two_pow_mono(62, k as nat);
                let d = two_pow(k as nat);
                assert((n as nat) / d == 0 && (n as nat) % d == n as nat) by (nonlinear_arith)
                    requires
                        n < 0x4000_0000_0000_0000,
                        d >= 0x4000_0000_0000_0000,
                ;
            }
            0
        } else {
            let d = pow2_u128(k);
            let q = n / d;
            let rem = n % d;
            if 2 * rem > d || (2 * rem == d && q % 2 == 1) {
                q + 1
            } else {
                q
            }
        };
        assert(h == hundredths(b));
        assert(h <= 0x4000_0000_0000_0000) by (nonlinear_arith)
            requires
                h == round_half_even(n as nat, two_pow(k as nat)),
                two_pow(k as nat) >= 1,
                n < 0x4000_0000_0000_0000,
        ;
        push_decimal(&mut s, (h / 100) as u64);
        push_char(&mut s, '.');
        push_char(&mut s, digit_to_char(((h % 100) / 10) as u64));
        push_char(&mut s, digit_to_char((h % 10) as u64));
        proof {
            assert(s@ =~= fixed2_text(b));
        }
        s
    }
}

/// Whether the double is greater than zero, as `x > 0.0` is.
pub fn is_positive_value(x: F64Bits) -> (r: bool)
    ensures
        r == is_positive(x.bits),
{
    proof {
        lemma_float_powers();
    }
    let b = x.bits;
    let (e, f) = fields(b);
    let negative = (b >> 63u64) == 1;
    !(e == 0x7ff && f != 0) && !negative && (e == 0x7ff || e != 0 || f != 0)
}

/// The double converted as `x as u64` converts it.
pub fn saturating_to_u64(x: F64Bits) -> (r: u64)
    ensures
        r == saturating_u64(x.bits),
{
    proof {
        lemma_float_powers();
    }
    let b = x.bits;
    let (e, f) = fields(b);
    if (e == 0x7ff && f != 0) || (b >> 63u64) == 1 {
        return 0;
    }
    if e == 0x7ff {
        return 0xffff_ffff_ffff_ffff;
    }
    let m: u64 = if e == 0 {
        f
    } else {
        f + 0x10_0000_0000_0000
    };
    assert(m as nat == significand(b));
    if e >= 1075 {
        let ep: u64 = e - 1075;
        assert(exponent(b) == ep as int);
        if ep >= 12 {
            proof {
                lemma_two_pow_mono(12, ep as nat);
                assert(m as nat * two_pow(ep as nat) > 0xffff_ffff_ffff_ffff) by (nonlinear_arith)
                    requires
                        m >= 0x10_0000_0000_0000,
                        two_pow(ep as nat) >= 0x1000,
                ;
            }
            0xffff_ffff_ffff_ffff
        } else {
            let d = pow2_u128(ep);
            proof {
                lemma_two_pow_mono(ep as nat, 12);
                assert(m as u128 * d < 0x1_0000_0000_0000_0000_0000) by (nonlinear_arith)
                    requires
                        m < 0x20_0000_0000_0000,
                        d <= 0x1000,
                ;
            }
            let v = m as u128 * d;
            if v > 0xffff_ffff_ffff_ffff {
                0xffff_ffff_ffff_ffff
            } else {
                v as u64
            }
        }
    } else {
        let k: u64 = if e == 0 {
            1074
        } else {
            1075 - e
        };
        assert(exponent(b) == -(k as int));
        if k >= 64 {
            proof {
                lemma_two_pow_mono(64, k as nat);
                let d = two_pow(k as nat);
                assert(m as nat / d == 0) by (nonlinear_arith)
                    requires
                        m < 0x20_0000_0000_0000,
                        d >= 0x1_0000_0000_0000_0000,
                ;
            }
            0
        } else {
            let d = pow2_u128(k);
            proof {
                assert(m as u128 / d <= m) by (nonlinear_arith)
                    requires
                        d >= 1,
                ;
            }
            (m as u128 / d) as u64
        }
    }
}

} // verus!
