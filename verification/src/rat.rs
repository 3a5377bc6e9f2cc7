//! Exact rational numbers in sign-magnitude form, with the arithmetic and the
//! decimal formatting that the interpreter uses.
//!
//! A value is a fraction in lowest terms whose numerator magnitude and
//! denominator both fit below [`MAX_MAG`]. Arithmetic is exact; an operation
//! whose reduced result would not fit reports that instead of wrapping.

use vstd::arithmetic::div_mod::{
    lemma_div_decreases, lemma_div_non_zero, lemma_div_nonincreasing, lemma_multiply_divide_lt,
    lemma_small_mod,
};
use vstd::prelude::*;

verus! {

/// Largest numerator magnitude and largest denominator a `Rat` may hold.
pub const MAX_MAG: u64 = 0x7fff_ffff_ffff_ffff;

/// Greatest common divisor, by Euclid's recursion.
pub open spec fn gcd(a: nat, b: nat) -> nat
    decreases b,
{
    if b == 0 {
        a
    } else {
        gcd(b, a % b)
    }
}

/// Magnitude of an integer.
pub open spec fn mag(n: int) -> nat {
    if n >= 0 {
        n as nat
    } else {
        (-n) as nat
    }
}

/// A rational number at the specification level: numerator and denominator,
/// the denominator positive when the value came from [`norm`].
pub struct RatS {
    pub n: int,
    pub d: int,
}

/// The fraction `n / d` brought to lowest terms with a positive denominator.
/// The zero denominator case never arises from this crate's calls; it is
/// mapped to zero only so that the function is total.
pub open spec fn norm(n: int, d: int) -> RatS {
    if d == 0 {
        RatS { n: 0, d: 1 }
    } else {
        let nn = if d < 0 {
            -n
        } else {
            n
        };
        let dd = mag(d);
        if nn == 0 {
            RatS { n: 0, d: 1 }
        } else {
            let m = mag(nn);
            let g = gcd(m, dd);
            let m2 = m / g;
            let d2 = dd / g;
            if nn > 0 {
                RatS { n: m2 as int, d: d2 as int }
            } else {
                RatS { n: -(m2 as int), d: d2 as int }
            }
        }
    }
}

/// Whether a normalized rational fits the executable representation.
pub open spec fn rat_fits(r: RatS) -> bool {
    &&& -(MAX_MAG as int) <= r.n <= MAX_MAG as int
    &&& 1 <= r.d <= MAX_MAG as int
}

/// Exact sum of two rationals, in lowest terms.
pub open spec fn rat_add(a: RatS, b: RatS) -> RatS {
    norm(a.n * b.d + b.n * a.d, a.d * b.d)
}

/// Exact difference of two rationals, in lowest terms.
pub open spec fn rat_sub(a: RatS, b: RatS) -> RatS {
    norm(a.n * b.d - b.n * a.d, a.d * b.d)
}

/// Exact product of two rationals, in lowest terms.
pub open spec fn rat_mul(a: RatS, b: RatS) -> RatS {
    norm(a.n * b.n, a.d * b.d)
}

/// Exact quotient of two rationals, in lowest terms. Meaningful only when
/// `b.n != 0`; callers reject a zero divisor first.
pub open spec fn rat_div(a: RatS, b: RatS) -> RatS {
    norm(a.n * b.d, a.d * b.n)
}

/// Remainder with the dividend's sign: `a - t*b` where `t` is the integral
/// quotient `a/b` truncated toward zero. Meaningful only when `b.n != 0`.
pub open spec fn rat_rem(a: RatS, b: RatS) -> RatS {
    let mx = mag(a.n) * b.d;
    let my = a.d * mag(b.n);
    let rm = mx % my;
    if a.n >= 0 {
        norm(rm, a.d * b.d)
    } else {
        norm(-rm, a.d * b.d)
    }
}

/// A rational number: `num / den`, negated when `neg` holds. Kept in lowest
/// terms with both parts bounded by [`MAX_MAG`], so that every arithmetic
/// step fits in 128-bit intermediates.
#[derive(Clone, Copy, Debug, PartialEq, Eq)]
pub struct Rat {
    neg: bool,
    num: u64,
    den: u64,
}

impl View for Rat {
    type V = RatS;

    closed spec fn view(&self) -> RatS {
        RatS {
            n: if self.neg {
                -(self.num as int)
            } else {
                self.num as int
            },
            d: self.den as int,
        }
    }
}

impl Rat {
    #[verifier::type_invariant]
    spec fn type_inv(self) -> bool {
        &&& 1 <= self.den <= MAX_MAG
        &&& self.num <= MAX_MAG
    }

    /// The whole number `n`.
    pub fn from_u64(n: u64) -> (r: Rat)
        requires
            n <= MAX_MAG,
        ensures
            r@ == (RatS { n: n as int, d: 1 }),
    {
        Rat { neg: false, num: n, den: 1 }
    }

    /// The nonnegative fraction `num / den` in lowest terms, or `None` when
    /// the reduced fraction does not fit.
    pub fn from_fraction(num: u64, den: u64) -> (r: Option<Rat>)
        requires
            1 <= den,
        ensures
            match r {
                Some(c) => c@ == norm(num as int, den as int) && rat_fits(
                    norm(num as int, den as int),
                ),
                None => !rat_fits(norm(num as int, den as int)),
            },
    {
        norm_exec(false, num as u128, den as u128)
    }

    /// Whether the value is zero.
    pub fn is_zero(&self) -> (z: bool)
        ensures
            z == (self@.n == 0),
    {
        proof {
            use_type_invariant(self);
        }
        self.num == 0
    }
}

/// Euclid's algorithm.
fn gcd_exec(a0: u128, b0: u128) -> (g: u128)
    requires
        a0 >= 1,
    ensures
        g as nat == gcd(a0 as nat, b0 as nat),
        g >= 1,
{
    let mut a: u128 = a0;
    let mut b: u128 = b0;
    while b != 0
        invariant
            gcd(a as nat, b as nat) == gcd(a0 as nat, b0 as nat),
            a >= 1 || b >= 1,
        decreases b,
    {
        let t: u128 = a % b;
        a = b;
        b = t;
    }
    a
}

/// A divisor's gcd is at least one and at most the divisor.
proof fn lemma_gcd_le(a: nat, b: nat)
    requires
        b >= 1,
    ensures
        1 <= gcd(a, b) <= b,
    decreases b,
{
    if a % b == 0 {
        assert(gcd(a, b) == gcd(b, 0));
    } else {
        lemma_gcd_le(b, a % b);
    }
}

/// Bringing a fraction with bounded parts to lowest terms keeps it bounded.
pub proof fn lemma_norm_fits(n: int, d: int)
    requires
        mag(n) <= MAX_MAG,
        1 <= d <= MAX_MAG,
    ensures
        rat_fits(norm(n, d)),
{
    if n != 0 {
        let m = mag(n);
        let g = gcd(m, d as nat);
        lemma_gcd_le(m, d as nat);
        lemma_div_nonincreasing(m as int, g as int);
        lemma_div_nonincreasing(d, g as int);
        lemma_div_non_zero(d, g as int);
    }
}

/// Largest product of two magnitudes below `MAX_MAG`.
const MAX_PROD: u128 = 0x3fff_ffff_ffff_ffff_0000_0000_0000_0001;

/// Exact widening product of two bounded magnitudes.
fn mul_wide(x: u64, y: u64) -> (r: u128)
    requires
        x <= MAX_MAG,
        y <= MAX_MAG,
    ensures
        r == (x as int) * (y as int),
        r <= MAX_PROD,
{
    proof {
        assert((x as int) * (y as int) <= (MAX_MAG as int) * (MAX_MAG as int))
            by (nonlinear_arith)
            requires
                0 <= x <= MAX_MAG,
                0 <= y <= MAX_MAG,
        ;
    }
    (x as u128) * (y as u128)
}

/// Builds the bounded rational `(-1)^neg * m / d` in lowest terms, or reports
/// that the reduced fraction does not fit.
fn norm_exec(neg: bool, m: u128, d: u128) -> (r: Option<Rat>)
    requires
        1 <= d,
    ensures
        ({
            let v = norm(
                if neg {
                    -(m as int)
                } else {
                    m as int
                },
                d as int,
            );
            match r {
                Some(c) => c@ == v && rat_fits(v),
                None => !rat_fits(v),
            }
        }),
{
    if m == 0 {
        return Some(Rat { neg: false, num: 0, den: 1 });
    }
    let g = gcd_exec(m, d);
    proof {
        lemma_gcd_le(m as nat, d as nat);
    }
    let m2: u128 = m / g;
    let d2: u128 = d / g;
    proof {
        lemma_div_non_zero(d as int, g as int);
    }
    if m2 <= MAX_MAG as u128 && d2 <= MAX_MAG as u128 {
        Some(Rat { neg, num: m2 as u64, den: d2 as u64 })
    } else {
        None
    }
}

impl Rat {
    /// Exact sum; `None` when the reduced result does not fit.
    pub fn add(&self, other: &Rat) -> (r: Option<Rat>)
        ensures
            match r {
                Some(c) => c@ == rat_add(self@, other@) && rat_fits(rat_add(self@, other@)),
                None => !rat_fits(rat_add(self@, other@)),
            },
    {
        proof {
            use_type_invariant(self);
            use_type_invariant(other);
        }
        let t1: u128 = mul_wide(self.num, other.den);
        let t2: u128 = mul_wide(other.num, self.den);
        let dd: u128 = mul_wide(self.den, other.den);
        let (neg, m): (bool, u128) = if self.neg == other.neg {
            (self.neg, t1 + t2)
        } else if t1 >= t2 {
            (self.neg, t1 - t2)
        } else {
            (other.neg, t2 - t1)
        };
        proof {
            assert(self@.n * other@.d + other@.n * self@.d == (if neg {
                -(m as int)
            } else {
                m as int
            })) by (nonlinear_arith)
                requires
                    t1 == (self.num as int) * (other.den as int),
                    t2 == (other.num as int) * (self.den as int),
                    self@.n == (if self.neg { -(self.num as int) } else { self.num as int }),
                    self@.d == self.den as int,
                    other@.n == (if other.neg { -(other.num as int) } else { other.num as int }),
                    other@.d == other.den as int,
                    (if self.neg == other.neg {
                        neg == self.neg && m == t1 + t2
                    } else if t1 >= t2 {
                        neg == self.neg && m == t1 - t2
                    } else {
                        neg == other.neg && m == t2 - t1
                    }),
            ;
            assert(self@.d * other@.d == dd as int && dd >= 1) by (nonlinear_arith)
                requires
                    dd == (self.den as int) * (other.den as int),
                    self@.d == self.den as int,
                    other@.d == other.den as int,
                    self.den >= 1,
                    other.den >= 1,
            ;
        }
        norm_exec(neg, m, dd)
    }

    /// Exact difference; `None` when the reduced result does not fit.
    pub fn sub(&self, other: &Rat) -> (r: Option<Rat>)
        ensures
            match r {
                Some(c) => c@ == rat_sub(self@, other@) && rat_fits(rat_sub(self@, other@)),
                None => !rat_fits(rat_sub(self@, other@)),
            },
    {
        proof {
            use_type_invariant(other);
        }
        let flipped = Rat { neg: !other.neg, num: other.num, den: other.den };
        proof {
            assert(rat_sub(self@, other@) == rat_add(self@, flipped@)) by {
                assert(flipped@.n == -other@.n && flipped@.d == other@.d);
                assert(self@.n * flipped@.d + flipped@.n * self@.d
                    == self@.n * other@.d - other@.n * self@.d) by (nonlinear_arith)
                    requires
                        flipped@.n == -other@.n,
                        flipped@.d == other@.d,
                ;
            }
        }
        self.add(&flipped)
    }

    /// Exact product; `None` when the reduced result does not fit.
    pub fn mul(&self, other: &Rat) -> (r: Option<Rat>)
        ensures
            match r {
                Some(c) => c@ == rat_mul(self@, other@) && rat_fits(rat_mul(self@, other@)),
                None => !rat_fits(rat_mul(self@, other@)),
            },
    {
        proof {
            use_type_invariant(self);
            use_type_invariant(other);
        }
        let t: u128 = mul_wide(self.num, other.num);
        let dd: u128 = mul_wide(self.den, other.den);
        let neg = self.neg != other.neg;
        proof {
            assert(self@.n * other@.n == (if neg {
                -(t as int)
            } else {
                t as int
            })) by (nonlinear_arith)
                requires
                    t == (self.num as int) * (other.num as int),
                    self@.n == (if self.neg { -(self.num as int) } else { self.num as int }),
                    other@.n == (if other.neg { -(other.num as int) } else { other.num as int }),
                    neg == (self.neg != other.neg),
            ;
            assert(self@.d * other@.d == dd as int && dd >= 1) by (nonlinear_arith)
                requires
                    dd == (self.den as int) * (other.den as int),
                    self@.d == self.den as int,
                    other@.d == other.den as int,
                    self.den >= 1,
                    other.den >= 1,
            ;
        }
        norm_exec(neg, t, dd)
    }

    /// Exact quotient; `None` when the reduced result does not fit.
    pub fn div(&self, other: &Rat) -> (r: Option<Rat>)
        requires
            other@.n != 0,
        ensures
            match r {
                Some(c) => c@ == rat_div(self@, other@) && rat_fits(rat_div(self@, other@)),
                None => !rat_fits(rat_div(self@, other@)),
            },
    {
        proof {
            use_type_invariant(self);
            use_type_invariant(other);
        }
        let t: u128 = mul_wide(self.num, other.den);
        let dd: u128 = mul_wide(self.den, other.num);
        let neg = self.neg != other.neg;
        proof {
            assert(self@.n * other@.d == (if self.neg {
                -(t as int)
            } else {
                t as int
            })) by (nonlinear_arith)
                requires
                    t == (self.num as int) * (other.den as int),
                    self@.n == (if self.neg { -(self.num as int) } else { self.num as int }),
                    other@.d == other.den as int,
            ;
            assert(self@.d * other@.n == (if other.neg {
                -(dd as int)
            } else {
                dd as int
            })) by (nonlinear_arith)
                requires
                    dd == (self.den as int) * (other.num as int),
                    other@.n == (if other.neg { -(other.num as int) } else { other.num as int }),
                    self@.d == self.den as int,
            ;
            assert(dd >= 1) by (nonlinear_arith)
                requires
                    dd == (self.den as int) * (other.num as int),
                    self.den >= 1,
                    other.num >= 1,
            ;
            assert(rat_div(self@, other@) == norm(
                if neg {
                    -(t as int)
                } else {
                    t as int
                },
                dd as int,
            ));
        }
        norm_exec(neg, t, dd)
    }

    /// Remainder with the dividend's sign; `None` when the reduced result
    /// does not fit.
    pub fn rem(&self, other: &Rat) -> (r: Option<Rat>)
        requires
            other@.n != 0,
        ensures
            match r {
                Some(c) => c@ == rat_rem(self@, other@) && rat_fits(rat_rem(self@, other@)),
                None => !rat_fits(rat_rem(self@, other@)),
            },
    {
        proof {
            use_type_invariant(self);
            use_type_invariant(other);
        }
        let mx: u128 = mul_wide(self.num, other.den);
        let my: u128 = mul_wide(self.den, other.num);
        let dd: u128 = mul_wide(self.den, other.den);
        proof {
            assert(my >= 1) by (nonlinear_arith)
                requires
                    my == (self.den as int) * (other.num as int),
                    self.den >= 1,
                    other.num >= 1,
            ;
        }
        let rm: u128 = mx % my;
        proof {
            assert(mag(self@.n) * other@.d == mx as int);
            assert(self@.d * mag(other@.n) == my as int);
            assert(self@.d * other@.d == dd as int && dd >= 1) by (nonlinear_arith)
                requires
                    dd == (self.den as int) * (other.den as int),
                    self@.d == self.den as int,
                    other@.d == other.den as int,
                    self.den >= 1,
                    other.den >= 1,
            ;
            assert(rm as int == (mx as int) % (my as int));
            if self.num == 0 {
                assert(mx as int == 0) by (nonlinear_arith)
                    requires
                        mx == (self.num as int) * (other.den as int),
                        self.num == 0,
                ;
                lemma_small_mod(0, my as nat);
                assert(rm == 0);
            }
            assert(rat_rem(self@, other@) == norm(
                if self.neg {
                    -(rm as int)
                } else {
                    rm as int
                },
                dd as int,
            ));
        }
        norm_exec(self.neg, rm, dd)
    }
}

/// Ten to the `k`.
pub open spec fn pow10(k: nat) -> nat
    decreases k,
{
    if k == 0 {
        1
    } else {
        10 * pow10((k - 1) as nat)
    }
}

/// Powers of ten do not shrink as the exponent grows.
pub(crate) proof fn lemma_pow10_mono(i: nat, j: nat)
    requires
        i <= j,
    ensures
        1 <= pow10(i) <= pow10(j),
    decreases j,
{
    if j == 0 {
    } else if i == j {
        lemma_pow10_mono(0, (j - 1) as nat);
    } else {
        lemma_pow10_mono(i, (j - 1) as nat);
    }
}

/// The concrete small powers of ten that the bounds below need.
pub(crate) proof fn lemma_pow10_vals()
    ensures
        pow10(1) == 10,
        pow10(15) == 1000000000000000,
        pow10(16) == 10000000000000000,
        pow10(18) == 1000000000000000000,
{
    reveal_with_fuel(pow10, 20);
}

/// Ten to the `k`, executable.
pub(crate) fn pow10_exec(k: usize) -> (r: u64)
    requires
        k <= 19,
    ensures
        r == pow10(k as nat),
{
    let mut i: usize = 0;
    let mut r: u64 = 1;
    while i < k
        invariant
            i <= k <= 19,
            r == pow10(i as nat),
        decreases k - i,
    {
        proof {
            lemma_pow10_mono(i as nat, 18);
            lemma_pow10_vals();
        }
        r = r * 10;
        i = i + 1;
    }
    r
}

/// The character of a decimal digit.
pub open spec fn digit_char(d: nat) -> char {
    ((48 + d) as u8) as char
}

/// The decimal text of a whole number, without sign.
pub open spec fn uint_text(n: nat) -> Seq<char>
    decreases n,
{
    if n < 10 {
        seq![digit_char(n)]
    } else {
        uint_text(n / 10).push(digit_char(n % 10))
    }
}

/// The last `k` decimal digits of `f`, zero-padded to width `k`.
pub open spec fn pad_text(f: nat, k: nat) -> Seq<char>
    decreases k,
{
    if k == 0 {
        Seq::empty()
    } else {
        pad_text(f / 10, (k - 1) as nat).push(digit_char(f % 10))
    }
}

/// The text with its trailing `'0'` characters removed.
pub open spec fn trim_zeros(s: Seq<char>) -> Seq<char>
    decreases s.len(),
{
    if s.len() > 0 && s.last() == '0' {
        trim_zeros(s.drop_last())
    } else {
        s
    }
}

/// Zero-padded digits of zero trim away entirely.
proof fn lemma_trim_pad_zero(k: nat)
    ensures
        trim_zeros(pad_text(0, k)).len() == 0,
    decreases k,
{
    if k > 0 {
        lemma_small_mod(0, 10);
        assert(pad_text(0, k).last() == digit_char(0));
        assert(pad_text(0, k).drop_last() =~= pad_text(0, (k - 1) as nat));
        lemma_trim_pad_zero((k - 1) as nat);
    }
}

/// Zero-padded digits have exactly the asked width.
proof fn lemma_pad_len(f: nat, k: nat)
    ensures
        pad_text(f, k).len() == k,
    decreases k,
{
    if k > 0 {
        lemma_pad_len(f / 10, (k - 1) as nat);
    }
}

/// A leading minus sign for negative values.
pub open spec fn sign_text(n: int) -> Seq<char> {
    if n < 0 {
        seq!['-']
    } else {
        Seq::empty()
    }
}

/// The smallest exponent `j` in `k..=16` with `d` dividing ten to the `j`,
/// or 16 when there is none.
pub open spec fn term_exp(d: nat, k: nat) -> nat
    decreases 16 - k,
{
    if k >= 16 {
        16
    } else if pow10(k) % d == 0 {
        k
    } else {
        term_exp(d, k + 1)
    }
}

/// How many fractional digits the truncating rendering keeps.
pub const TRUNC_DIGITS: usize = 16;

/// The decimal rendering of a rational in lowest terms.
///
/// A whole number renders without a point. When the denominator divides a
/// power of ten, the exact fractional digits follow the point, as few as
/// write the value exactly. Any other value renders truncated to
/// [`TRUNC_DIGITS`] fractional digits, trailing zeros dropped.
pub open spec fn rat_text(r: RatS) -> Seq<char> {
    let m = mag(r.n);
    if r.d < 1 {
        Seq::empty()
    } else if r.d == 1 {
        sign_text(r.n) + uint_text(m)
    } else if pow10(16) % (r.d as nat) == 0 {
        let k = term_exp(r.d as nat, 0);
        let digits = m * pow10(k) / (r.d as nat);
        sign_text(r.n) + uint_text(digits / pow10(k)) + seq!['.'] + pad_text(
            digits % pow10(k),
            k,
        )
    } else {
        let digits = m * pow10(16) / (r.d as nat);
        if digits == 0 {
            seq!['0']
        } else {
            let q = digits / pow10(16);
            let f = trim_zeros(pad_text(digits % pow10(16), 16));
            if f.len() == 0 {
                sign_text(r.n) + uint_text(q)
            } else {
                sign_text(r.n) + uint_text(q) + seq!['.'] + f
            }
        }
    }
}

/// Appends the decimal digits of `n`.
pub(crate) fn push_uint(s: &mut String, n: u128)
    ensures
        final (s)@ == old(s)@ + uint_text(n as nat),
    decreases n,
{
    if n < 10 {
        s.push(((48 + n as u8) as char));
        assert(s@ =~= old(s)@ + uint_text(n as nat));
    } else {
        proof {
            lemma_div_decreases(n as int, 10);
        }
        push_uint(s, n / 10);
        s.push((48 + (n % 10) as u8) as char);
        assert(s@ =~= old(s)@ + uint_text(n as nat));
    }
}

/// Appends the last `k` decimal digits of `f`, zero-padded to width `k`.
fn push_pad(s: &mut String, f: u128, k: usize)
    ensures
        final (s)@ == old(s)@ + pad_text(f as nat, k as nat),
    decreases k,
{
    if k == 0 {
        assert(s@ =~= old(s)@ + pad_text(f as nat, 0));
    } else {
        push_pad(s, f / 10, k - 1);
        s.push((48 + (f % 10) as u8) as char);
        assert(s@ =~= old(s)@ + pad_text(f as nat, k as nat));
    }
}

impl Rat {
    /// The decimal text of the value, as [`rat_text`] states it.
    pub fn to_text(&self) -> (out: String)
        ensures
            out@ == rat_text(self@),
    {
        proof {
            use_type_invariant(self);
        }
        let mut s = String::new();
        if self.den == 1 {
            if self.neg && self.num > 0 {
                s.push('-');
            }
            push_uint(&mut s, self.num as u128);
            assert(s@ =~= rat_text(self@));
            return s;
        }
        let p16: u64 = pow10_exec(16);
        if p16 % self.den == 0 {
            let mut k: usize = 0;
            let mut pk: u64 = 1;
            while pk % self.den != 0
                invariant
                    self.type_inv(),
                    self.den > 1,
                    k <= 16,
                    pk == pow10(k as nat),
                    pow10(16) % (self.den as nat) == 0,
                    term_exp(self.den as nat, 0) == term_exp(self.den as nat, k as nat),
                decreases 16 - k,
            {
                proof {
                    if k >= 16 {
                        assert(pk == pow10(16));
                        assert(false);
                    }
                    lemma_pow10_mono(k as nat, 15);
                    lemma_pow10_vals();
                }
                k = k + 1;
                pk = pk * 10;
            }
            proof {
                assert(term_exp(self.den as nat, k as nat) == k as nat);
            }
            if self.neg && self.num > 0 {
                s.push('-');
            }
            proof {
                lemma_pow10_mono(k as nat, 16);
                lemma_pow10_vals();
            }
            let digits: u128 = mul_wide(self.num, pk) / (self.den as u128);
            let pkz: u128 = pk as u128;
            push_uint(&mut s, digits / pkz);
            s.push('.');
            push_pad(&mut s, digits % pkz, k);
            assert(s@ =~= rat_text(self@));
            s
        } else {
            proof {
                lemma_pow10_vals();
            }
            let digits: u128 = mul_wide(self.num, p16) / (self.den as u128);
            if digits == 0 {
                s.push('0');
                assert(s@ =~= rat_text(self@));
                s
            } else {
                if self.neg && self.num > 0 {
                    s.push('-');
                }
                let p16z: u128 = p16 as u128;
                let q: u128 = digits / p16z;
                let mut f: u128 = digits % p16z;
                push_uint(&mut s, q);
                if f != 0 {
                    let mut k: usize = 16;
                    while f % 10 == 0
                        invariant
                            1 <= k <= 16,
                            0 < f < pow10(k as nat),
                            trim_zeros(pad_text((digits % p16z) as nat, 16))
                                == trim_zeros(pad_text(f as nat, k as nat)),
                        decreases k,
                    {
                        proof {
                            if k == 1 {
                                lemma_pow10_vals();
                                assert(f % 10 == f) by {
                                    lemma_small_mod(f as nat, 10);
                                };
                                assert(false);
                            }
                            if f < 10 {
                                lemma_small_mod(f as nat, 10);
                            }
                            lemma_div_non_zero(f as int, 10);
                            lemma_multiply_divide_lt(f as int, 10, pow10((k - 1) as nat) as int);
                            assert(pad_text(f as nat, k as nat).drop_last() =~= pad_text(
                                (f / 10) as nat,
                                (k - 1) as nat,
                            ));
                        }
                        f = f / 10;
                        k = k - 1;
                    }
                    proof {
                        lemma_pad_len(f as nat, k as nat);
                        assert(pad_text(f as nat, k as nat).last() == digit_char((f % 10) as nat));
                        assert(trim_zeros(pad_text(f as nat, k as nat)) == pad_text(
                            f as nat,
                            k as nat,
                        ));
                    }
                    s.push('.');
                    push_pad(&mut s, f, k);
                } else {
                    proof {
                        lemma_trim_pad_zero(16);
                    }
                }
                assert(s@ =~= rat_text(self@));
                s
            }
        }
    }
}

} // verus!
