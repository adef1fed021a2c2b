//! Double-precision values held as decimal significand and exponent, and
//! their RESP text.
use vstd::prelude::*;

use crate::bytes::{push_range, push_zeros, zeros, ZERO};
use crate::decode::double_decodable;
use crate::decimal::{
    decimal, lemma_decimal_nonempty, lemma_pow10_monotonic, lemma_pow10_positive, plain_decimal,
    pow10, push_decimal, push_plain_decimal, MINUS, PLUS,
};

verus! {

/// `.`
pub const DOT: u8 = 46;

/// `e`
pub const EXP_MARK: u8 = 101;

/// The mathematical content of a `RespDouble`: the value
/// `(-1)^negative * digits * 10^exponent`, with `digits` free of trailing zeros.
pub struct DoubleModel {
    pub negative: bool,
    pub digits: nat,
    pub exponent: int,
}

/// A finite double, as the shortest decimal digits that name it and a power
/// of ten. `negative` records the sign bit, so negative zero is kept.
#[derive(Debug)]
pub struct RespDouble {
    negative: bool,
    digits: u64,
    exponent: i64,
}

/// Whether `digits * 10^exponent` is above `10^8`.
pub open spec fn above_1e8(digits: nat, exponent: int) -> bool {
    if exponent >= 0 {
        digits * pow10(exponent as nat) > pow10(8)
    } else {
        digits > pow10((8 - exponent) as nat)
    }
}

/// Exponential notation without sign: the first digit, then `.` and the
/// others if there are any, then `e` and the power of ten of the first digit.
pub open spec fn exponential_text(digits: nat, exponent: int) -> Seq<u8> {
    let ds = decimal(digits);
    let mantissa = if ds.len() > 1 {
        seq![ds[0], DOT] + ds.subrange(1, ds.len() as int)
    } else {
        ds
    };
    mantissa + seq![EXP_MARK] + plain_decimal(ds.len() - 1 + exponent)
}

/// Fixed-point notation without sign: the digits with the decimal point put
/// in place, padded with zeros; no point where the value is whole.
pub open spec fn fixed_text(digits: nat, exponent: int) -> Seq<u8> {
    let ds = decimal(digits);
    let point = ds.len() + exponent;
    if exponent >= 0 {
        ds + zeros(exponent as nat)
    } else if point > 0 {
        ds.subrange(0, point) + seq![DOT] + ds.subrange(point, ds.len() as int)
    } else {
        seq![ZERO, DOT] + zeros((-point) as nat) + ds
    }
}

/// The RESP text of a double: an explicit sign, then exponential notation
/// when the magnitude is above `1e8`, else fixed-point notation.
pub open spec fn double_text(d: DoubleModel) -> Seq<u8> {
    seq![if d.negative { MINUS } else { PLUS }] + if above_1e8(d.digits, d.exponent) {
        exponential_text(d.digits, d.exponent)
    } else {
        fixed_text(d.digits, d.exponent)
    }
}

pub proof fn lemma_decimal_len(n: nat, k: nat)
    requires
        n < pow10(k),
        k >= 1,
    ensures
        decimal(n).len() <= k,
    decreases k,
{
    if n >= 10 {
        lemma_decimal_len(n / 10, (k - 1) as nat);
    }
}

/// A number without trailing zeros, times a power of ten, is written so in
/// only one way.
pub proof fn lemma_normal_unique(a: nat, i: nat, b: nat, j: nat)
    requires
        a % 10 != 0,
        b % 10 != 0,
        a * pow10(i) == b * pow10(j),
    ensures
        a == b,
        i == j,
    decreases i + j,
{
    if i > 0 && j > 0 {
        let pi = pow10((i - 1) as nat);
        let pj = pow10((j - 1) as nat);
        assert(a * (10 * pi) == b * (10 * pj));
        assert(a * pi == b * pj) by (nonlinear_arith)
            requires
                a * (10 * pi) == b * (10 * pj),
        ;
        lemma_normal_unique(a, (i - 1) as nat, b, (j - 1) as nat);
    } else if i > 0 {
        let pi = pow10((i - 1) as nat);
        assert(pow10(0) == 1);
        assert(b * 1 == b);
        assert(a * (10 * pi) == (a * pi) * 10) by (nonlinear_arith);
        vstd::arithmetic::div_mod::lemma_mod_multiples_basic((a * pi) as int, 10);
    } else if j > 0 {
        let pj = pow10((j - 1) as nat);
        assert(pow10(0) == 1);
        assert(a * 1 == a);
        assert(b * (10 * pj) == (b * pj) * 10) by (nonlinear_arith);
        vstd::arithmetic::div_mod::lemma_mod_multiples_basic((b * pj) as int, 10);
    }
}

/// `10^n` for the small powers that the magnitude test needs.
fn pow10_small(n: u32) -> (r: u128)
    requires
        n <= 20,
    ensures
        r == pow10(n as nat),
{
    let mut r: u128 = 1;
    let mut i: u32 = 0;
    while i < n
        invariant
            i <= n <= 20,
            r == pow10(i as nat),
        decreases n - i,
    {
        proof {
            lemma_pow10_monotonic((i + 1) as nat, 20);
            reveal_with_fuel(pow10, 21);
        }
        r = r * 10;
        i = i + 1;
    }
    r
}

/// Whether `digits * 10^exponent` is above `10^8`.
fn exceeds_1e8(digits: u64, exponent: i64) -> (r: bool)
    ensures
        r == above_1e8(digits as nat, exponent as int),
{
    if exponent >= 9 {
        proof {
            let p = pow10(exponent as nat);
            lemma_pow10_monotonic(9, exponent as nat);
            reveal_with_fuel(pow10, 10);
            assert(p >= 1_000_000_000);
            assert(pow10(8) == 100_000_000);
            if digits > 0 {
                assert(digits * p >= p) by (nonlinear_arith)
                    requires
                        digits >= 1,
                        p >= 1,
                ;
            } else {
                assert(digits * p == 0) by (nonlinear_arith)
                    requires
                        digits == 0,
                ;
            }
        }
        digits > 0
    } else if exponent >= 0 {
        let p = pow10_small(exponent as u32);
        proof {
            lemma_pow10_monotonic(exponent as nat, 8);
            reveal_with_fuel(pow10, 9);
            assert(digits * p <= 0xffff_ffff_ffff_ffff * 100_000_000) by (nonlinear_arith)
                requires
                    digits <= 0xffff_ffff_ffff_ffff,
                    p <= 100_000_000,
            ;
        }
        reveal_with_fuel(pow10, 9);
        (digits as u128) * p > 100_000_000
    } else if exponent <= -12 {
        proof {
            lemma_pow10_monotonic(20, (8 - exponent) as nat);
            reveal_with_fuel(pow10, 21);
        }
        false
    } else {
        digits as u128 > pow10_small((8 - exponent) as u32)
    }
}

impl View for RespDouble {
    type V = DoubleModel;

    closed spec fn view(&self) -> DoubleModel {
        DoubleModel {
            negative: self.negative,
            digits: self.digits as nat,
            exponent: self.exponent as int,
        }
    }
}

impl RespDouble {
    #[verifier::type_invariant]
    spec fn normalized(self) -> bool {
        &&& self.digits == 0 ==> self.exponent == 0 && !self.negative
        &&& self.digits != 0 ==> self.digits % 10 != 0
        &&& i32::MIN <= self.exponent <= i32::MAX + 20
    }

    /// The double `(-1)^negative * digits * 10^exponent`, with trailing zeros
    /// of `digits` moved into the exponent. Zero carries no sign: it is never
    /// negative.
    pub fn new(negative: bool, digits: u64, exponent: i32) -> (r: Self)
        ensures
            r@.negative == (negative && digits != 0),
            digits == 0 ==> r@.digits == 0 && r@.exponent == 0,
            digits != 0 ==> {
                &&& r@.digits % 10 != 0
                &&& r@.exponent >= exponent
                &&& digits == r@.digits * pow10((r@.exponent - exponent) as nat)
            },
    {
        match Self::from_parts(negative, digits, exponent as i64) {
            Some(d) => d,
            None => RespDouble { negative: false, digits: 0, exponent: 0 },
        }
    }

    /// As `new`, for an exponent a little past the range of `i32`; `None`
    /// where the exponent, once the trailing zeros are moved into it, is
    /// above `i32::MAX + 20`.
    pub(crate) fn from_parts(negative: bool, digits: u64, exponent: i64) -> (r: Option<Self>)
        requires
            i32::MIN <= exponent <= i32::MAX + 20,
        ensures
            r matches Some(x) ==> {
                &&& x@.negative == (negative && digits != 0)
                &&& digits == 0 ==> x@.digits == 0 && x@.exponent == 0
                &&& digits != 0 ==> {
                    &&& x@.digits % 10 != 0
                    &&& x@.exponent >= exponent
                    &&& digits == x@.digits * pow10((x@.exponent - exponent) as nat)
                }
            },
            exponent <= i32::MAX ==> r is Some,
            digits == 0 ==> r is Some,
            forall|m: nat, k: nat|
                m % 10 != 0 && digits == #[trigger] (m * pow10(k)) && exponent + k <= i32::MAX + 20
                    ==> r is Some,
    {
        if digits == 0 {
            return Some(RespDouble { negative: false, digits: 0, exponent: 0 });
        }
        let mut d: u64 = digits;
        let mut e: i64 = exponent;
        assert((e - exponent) as nat == 0);
        assert(pow10(0) == 1);
        assert(d * pow10((e - exponent) as nat) == d * 1);
        while d % 10 == 0
            invariant
                d != 0,
                exponent <= e <= exponent + 19,
                i32::MIN <= exponent <= i32::MAX + 20,
                digits == d * pow10((e - exponent) as nat),
            decreases d,
        {
            proof {
                lemma_pow10_positive((e - exponent) as nat);
                assert(d >= 10);
                assert(d * pow10((e - exponent) as nat) == (d / 10) * (10 * pow10(
                    (e - exponent) as nat,
                ))) by (nonlinear_arith)
                    requires
                        d % 10 == 0,
                ;
                if e - exponent >= 19 {
                    lemma_pow10_monotonic(19, (e - exponent) as nat);
                    reveal_with_fuel(pow10, 21);
                    assert(d * pow10((e - exponent) as nat) >= 10 * pow10(19)) by (nonlinear_arith)
                        requires
                            d >= 10,
                            pow10((e - exponent) as nat) >= pow10(19),
                    ;
                }
            }
            d = d / 10;
            e = e + 1;
        }
        if e > i32::MAX as i64 + 20 {
            proof {
                assert forall|m: nat, k: nat|
                    m % 10 != 0 && digits == #[trigger] (m * pow10(k)) && exponent + k
                        <= i32::MAX + 20 implies false by {
                    lemma_normal_unique(m, k, d as nat, (e - exponent) as nat);
                }
            }
            return None;
        }
        Some(RespDouble { negative, digits: d, exponent: e })
    }

    /// Appends the RESP text of this double (no type sigil, no terminator).
    #[verifier::rlimit(40)]
    pub fn write_text(&self, buf: &mut Vec<u8>)
        ensures
            final(buf)@ == old(buf)@ + double_text(self@),
    {
        proof {
            use_type_invariant(self);
        }
        buf.push(if self.negative { MINUS } else { PLUS });
        let ghost signed = buf@;
        let mut ds: Vec<u8> = Vec::new();
        push_decimal(&mut ds, self.digits);
        assert(ds@ =~= decimal(self.digits as nat));
        proof {
            lemma_decimal_nonempty(self.digits as nat);
            reveal_with_fuel(pow10, 21);
            lemma_decimal_len(self.digits as nat, 20);
        }
        let n: usize = ds.len();
        if exceeds_1e8(self.digits, self.exponent) {
            buf.push(ds[0]);
            if n > 1 {
                buf.push(DOT);
                push_range(buf, ds.as_slice(), 1, n);
            }
            buf.push(EXP_MARK);
            push_plain_decimal(buf, (n as i64) - 1 + self.exponent);
            assert(buf@ =~= signed + exponential_text(self.digits as nat, self.exponent as int));
        } else if self.exponent >= 0 {
            push_range(buf, ds.as_slice(), 0, n);
            push_zeros(buf, self.exponent as u64);
            assert(ds@.subrange(0, n as int) =~= ds@);
            assert(buf@ =~= signed + fixed_text(self.digits as nat, self.exponent as int));
        } else {
            let point: i64 = n as i64 + self.exponent;
            if point > 0 {
                push_range(buf, ds.as_slice(), 0, point as usize);
                buf.push(DOT);
                push_range(buf, ds.as_slice(), point as usize, n);
            } else {
                buf.push(ZERO);
                buf.push(DOT);
                push_zeros(buf, (-point) as u64);
                push_range(buf, ds.as_slice(), 0, n);
                assert(ds@.subrange(0, n as int) =~= ds@);
            }
            assert(buf@ =~= signed + fixed_text(self.digits as nat, self.exponent as int));
        }
        assert(buf@ =~= old(buf)@ + double_text(self@));
    }

    /// Whether `self` and `other` are the same double.
    pub fn same_as(&self, other: &RespDouble) -> (r: bool)
        ensures
            r == (self@ == other@),
    {
        self.negative == other.negative && self.digits == other.digits && self.exponent
            == other.exponent
    }

    /// The significand; every double is in the normal form that decoding
    /// gives back.
    pub fn digits(&self) -> (r: u64)
        ensures
            r == self@.digits,
            double_decodable(self@),
    {
        proof {
            use_type_invariant(self);
        }
        self.digits
    }

    pub fn is_negative(&self) -> (r: bool)
        ensures
            r == self@.negative,
    {
        self.negative
    }
}

} // verus!
