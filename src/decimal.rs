//! Decimal text of integers, as ASCII bytes.
use vstd::prelude::*;

verus! {

/// `+`
pub const PLUS: u8 = 43;

/// `-`
pub const MINUS: u8 = 45;

/// `10` raised to `n`.
pub open spec fn pow10(n: nat) -> nat
    decreases n,
{
    if n == 0 {
        1
    } else {
        10 * pow10((n - 1) as nat)
    }
}

/// The ASCII digit for a value below ten.
pub open spec fn digit_byte(d: nat) -> u8 {
    (48 + d) as u8
}

/// Decimal digits of `n`, most significant first, with no leading zeros
/// (zero itself is the single digit `0`).
pub open spec fn decimal(n: nat) -> Seq<u8>
    decreases n,
{
    if n < 10 {
        seq![digit_byte(n)]
    } else {
        decimal(n / 10).push(digit_byte(n % 10))
    }
}

/// Decimal text of `i` that always carries a sign: `+` for zero and positive values.
pub open spec fn signed_decimal(i: int) -> Seq<u8> {
    if i < 0 {
        seq![MINUS] + decimal((-i) as nat)
    } else {
        seq![PLUS] + decimal(i as nat)
    }
}

/// Decimal text of `i` with a `-` on negative values and no sign otherwise.
pub open spec fn plain_decimal(i: int) -> Seq<u8> {
    if i < 0 {
        seq![MINUS] + decimal((-i) as nat)
    } else {
        decimal(i as nat)
    }
}

pub proof fn lemma_decimal_nonempty(n: nat)
    ensures
        decimal(n).len() >= 1,
    decreases n,
{
    if n >= 10 {
        lemma_decimal_nonempty(n / 10);
    }
}

pub proof fn lemma_pow10_positive(n: nat)
    ensures
        pow10(n) >= 1,
    decreases n,
{
    if n > 0 {
        lemma_pow10_positive((n - 1) as nat);
    }
}

pub proof fn lemma_pow10_monotonic(a: nat, b: nat)
    requires
        a <= b,
    ensures
        pow10(a) <= pow10(b),
    decreases b,
{
    if a < b {
        lemma_pow10_monotonic(a, (b - 1) as nat);
        lemma_pow10_positive((b - 1) as nat);
    }
}

/// Appends the decimal digits of `n` to `buf`.
pub fn push_decimal(buf: &mut Vec<u8>, n: u64)
    ensures
        final(buf)@ == old(buf)@ + decimal(n as nat),
    decreases n,
{
    if n >= 10 {
        push_decimal(buf, n / 10);
    }
    let d: u8 = (n % 10) as u8;
    buf.push(48 + d);
    proof {
        if n >= 10 {
            assert(buf@ =~= old(buf)@ + decimal(n as nat));
        } else {
            assert(buf@ =~= old(buf)@ + decimal(n as nat));
        }
    }
}

/// Appends the decimal text of `i`, with an explicit sign, to `buf`.
pub fn push_signed_decimal(buf: &mut Vec<u8>, i: i64)
    ensures
        final(buf)@ == old(buf)@ + signed_decimal(i as int),
{
    let magnitude: u64;
    if i < 0 {
        buf.push(MINUS);
        magnitude = if i == i64::MIN {
            9223372036854775808u64
        } else {
            (-i) as u64
        };
    } else {
        buf.push(PLUS);
        magnitude = i as u64;
    }
    push_decimal(buf, magnitude);
    assert(buf@ =~= old(buf)@ + signed_decimal(i as int));
}

/// Appends the decimal text of `i`, signed only when negative, to `buf`.
pub fn push_plain_decimal(buf: &mut Vec<u8>, i: i64)
    ensures
        final(buf)@ == old(buf)@ + plain_decimal(i as int),
{
    let magnitude: u64;
    if i < 0 {
        buf.push(MINUS);
        magnitude = if i == i64::MIN {
            9223372036854775808u64
        } else {
            (-i) as u64
        };
    } else {
        magnitude = i as u64;
    }
    push_decimal(buf, magnitude);
    assert(buf@ =~= old(buf)@ + plain_decimal(i as int));
}

/// Whether `b` is an ASCII decimal digit.
pub open spec fn is_digit(b: u8) -> bool {
    48 <= b <= 57
}

/// The number that a string of ASCII digits spells, most significant first.
pub open spec fn digits_value(s: Seq<u8>) -> nat
    decreases s.len(),
{
    if s.len() == 0 {
        0
    } else {
        digits_value(s.subrange(0, s.len() - 1)) * 10 + (s[s.len() - 1] - 48) as nat
    }
}

/// A digit string as `decimal` writes one: digits only, at least one, and no
/// leading zero unless it is the single digit `0`.
pub open spec fn canonical_digits(s: Seq<u8>) -> bool {
    &&& s.len() >= 1
    &&& forall|i: int| 0 <= i < s.len() ==> is_digit(#[trigger] s[i])
    &&& (s[0] == 48 ==> s.len() == 1)
}

pub proof fn lemma_decimal_canonical(n: nat)
    ensures
        canonical_digits(decimal(n)),
        digits_value(decimal(n)) == n,
        n > 0 ==> decimal(n)[0] != 48,
    decreases n,
{
    lemma_decimal_nonempty(n);
    if n >= 10 {
        lemma_decimal_canonical(n / 10);
        let d = decimal(n);
        assert(d.subrange(0, d.len() - 1) =~= decimal(n / 10));
        assert(d[0] == decimal(n / 10)[0]);
        assert(d[d.len() - 1] == digit_byte(n % 10));
        assert(n == (n / 10) * 10 + n % 10);
    } else {
        let d = decimal(n);
        assert(d.subrange(0, 0) =~= Seq::<u8>::empty());
        assert(digits_value(Seq::<u8>::empty()) == 0);
    }
}

proof fn lemma_leading_digit_positive(s: Seq<u8>)
    requires
        canonical_digits(s),
        s[0] != 48,
    ensures
        digits_value(s) >= 1,
    decreases s.len(),
{
    if s.len() > 1 {
        let init = s.subrange(0, s.len() - 1);
        assert(init[0] == s[0]);
        assert(is_digit(s[s.len() - 1]));
        lemma_leading_digit_positive(init);
    }
}

pub proof fn lemma_canonical_decimal(s: Seq<u8>)
    requires
        canonical_digits(s),
    ensures
        decimal(digits_value(s)) == s,
    decreases s.len(),
{
    let last = s[s.len() - 1];
    assert(is_digit(last));
    if s.len() == 1 {
        assert(s.subrange(0, 0) =~= Seq::<u8>::empty());
        assert(digits_value(s.subrange(0, 0)) == 0);
        assert(digits_value(s) == (last - 48) as nat);
        assert(digit_byte((last - 48) as nat) == last);
        assert(decimal(digits_value(s)) =~= s);
    } else {
        let init = s.subrange(0, s.len() - 1);
        assert(init[0] == s[0]);
        assert(canonical_digits(init));
        lemma_canonical_decimal(init);
        lemma_leading_digit_positive(init);
        let v = digits_value(init);
        let n = digits_value(s);
        assert(n == v * 10 + (last - 48) as nat);
        assert(n / 10 == v && n % 10 == (last - 48) as nat) by (nonlinear_arith)
            requires
                n == v * 10 + (last - 48) as nat,
                0 <= (last - 48) < 10,
        ;
        assert(decimal(n) =~= s);
    }
}

/// `decimal(n)` stands at `pos` in `data`, and no digit follows it.
pub open spec fn decimal_at(data: Seq<u8>, pos: int, n: nat) -> bool {
    let end = pos + decimal(n).len();
    &&& end <= data.len()
    &&& data.subrange(pos, end) == decimal(n)
    &&& (end == data.len() || !is_digit(data[end]))
}

proof fn lemma_prefix_value(s: Seq<u8>, k: int)
    requires
        0 <= k <= s.len(),
        forall|i: int| 0 <= i < s.len() ==> is_digit(#[trigger] s[i]),
    ensures
        digits_value(s.subrange(0, k)) <= digits_value(s),
    decreases s.len(),
{
    if k < s.len() {
        let init = s.subrange(0, s.len() - 1);
        assert forall|i: int| 0 <= i < init.len() implies is_digit(#[trigger] init[i]) by {
            assert(init[i] == s[i]);
        }
        lemma_prefix_value(init, k);
        assert(init.subrange(0, k) =~= s.subrange(0, k));
    } else {
        assert(s.subrange(0, k) =~= s);
    }
}

/// A run of digits that starts at `pos` cannot run past a `decimal(n)` that
/// stands there, and agrees with it as far as it goes.
proof fn lemma_run_within(data: Seq<u8>, pos: int, i: int, n: nat)
    requires
        decimal_at(data, pos, n),
        0 <= pos <= i <= data.len(),
        forall|j: int| pos <= j < i ==> is_digit(#[trigger] data[j]),
    ensures
        i <= pos + decimal(n).len(),
        data.subrange(pos, i) == decimal(n).subrange(0, i - pos),
{
    let end = pos + decimal(n).len();
    if i > end {
        assert(end < data.len());
        assert(is_digit(data[end]));
    }
    assert(data.subrange(pos, i) =~= data.subrange(pos, end).subrange(0, i - pos));
}

/// Reads the canonical decimal number that starts at `pos`: its value and
/// the position after its last digit. `None` where no digit stands there,
/// where the digits have a leading zero, or where the number does not fit.
pub fn parse_decimal(data: &[u8], pos: usize) -> (r: Option<(u64, usize)>)
    requires
        pos <= data@.len(),
    ensures
        r matches Some((v, end)) ==> {
            &&& pos < end <= data@.len()
            &&& data@.subrange(pos as int, end as int) == decimal(v as nat)
            &&& (end == data@.len() || !is_digit(data@[end as int]))
        },
        forall|n: nat|
            n <= u64::MAX && #[trigger] decimal_at(data@, pos as int, n) ==> r == Some(
                (n as u64, (pos + decimal(n).len()) as usize),
            ),
{
    let mut i: usize = pos;
    let mut v: u64 = 0;
    assert(data@.subrange(pos as int, pos as int) =~= Seq::<u8>::empty());
    while i < data.len() && 48 <= data[i] && data[i] <= 57
        invariant
            pos <= i <= data@.len(),
            forall|j: int| pos <= j < i ==> is_digit(#[trigger] data@[j]),
            digits_value(data@.subrange(pos as int, i as int)) == v,
        decreases data@.len() - i,
    {
        let d: u64 = (data[i] - 48) as u64;
        let ghost next = data@.subrange(pos as int, i + 1);
        assert(next.subrange(0, next.len() - 1) =~= data@.subrange(pos as int, i as int));
        if v > (u64::MAX - d) / 10 {
            proof {
                assert(v * 10 + d > u64::MAX) by (nonlinear_arith)
                    requires
                        v > (u64::MAX - d) / 10,
                        d <= 9,
                ;
                assert forall|n: nat|
                    n <= u64::MAX && #[trigger] decimal_at(data@, pos as int, n) implies false by {
                    lemma_run_within(data@, pos as int, i + 1, n);
                    lemma_decimal_canonical(n);
                    lemma_prefix_value(decimal(n), i + 1 - pos);
                };
            }
            return None;
        }
        v = v * 10 + d;
        i = i + 1;
    }
    proof {
        assert forall|n: nat|
            n <= u64::MAX && #[trigger] decimal_at(data@, pos as int, n) implies i == pos
                + decimal(n).len() && v == n by {
            lemma_run_within(data@, pos as int, i as int, n);
            lemma_decimal_canonical(n);
            if i < pos + decimal(n).len() {
                assert(data@[i as int] == decimal(n)[i - pos]);
            }
            assert(data@.subrange(pos as int, i as int) =~= decimal(n));
        };
    }
    if i == pos || (data[pos] == 48 && i > pos + 1) {
        proof {
            assert forall|n: nat|
                n <= u64::MAX && #[trigger] decimal_at(data@, pos as int, n) implies false by {
                lemma_decimal_canonical(n);
                lemma_decimal_nonempty(n);
                assert(data@[pos as int] == decimal(n)[0]);
            };
        }
        return None;
    }
    proof {
        let s = data@.subrange(pos as int, i as int);
        assert(canonical_digits(s));
        lemma_canonical_decimal(s);
    }
    Some((v, i))
}

/// `data[pos..end]` is a whole run of digits: no digit follows it.
pub open spec fn digit_run(data: Seq<u8>, pos: int, end: int) -> bool {
    &&& 0 <= pos <= end <= data.len()
    &&& forall|j: int| pos <= j < end ==> is_digit(#[trigger] data[j])
    &&& (end == data.len() || !is_digit(data[end]))
}

/// `acc` followed by the digits of `data[pos..end]`.
pub open spec fn run_value(data: Seq<u8>, pos: int, end: int, acc: nat) -> nat {
    acc * pow10((end - pos) as nat) + digits_value(data.subrange(pos, end))
}

proof fn lemma_run_value_step(data: Seq<u8>, pos: int, i: int, acc: nat)
    requires
        0 <= pos <= i < data.len(),
        is_digit(data[i]),
    ensures
        run_value(data, pos, i + 1, acc) == 10 * run_value(data, pos, i, acc) + (data[i] - 48),
{
    let s = data.subrange(pos, i + 1);
    assert(s.subrange(0, s.len() - 1) =~= data.subrange(pos, i));
    let p = pow10((i - pos) as nat);
    assert(pow10((i + 1 - pos) as nat) == 10 * p);
    assert(acc * (10 * p) == 10 * (acc * p)) by (nonlinear_arith);
}

proof fn lemma_run_value_monotonic(data: Seq<u8>, pos: int, i: int, k: int, acc: nat)
    requires
        0 <= pos <= i <= k <= data.len(),
        forall|j: int| pos <= j < k ==> is_digit(#[trigger] data[j]),
    ensures
        run_value(data, pos, i, acc) <= run_value(data, pos, k, acc),
    decreases k - i,
{
    if i < k {
        lemma_run_value_step(data, pos, k - 1, acc);
        lemma_run_value_monotonic(data, pos, i, k - 1, acc);
    }
}

/// Reads the run of digits from `pos` onto `acc`, one decimal place per
/// digit: the value and the position after the run. `None` where the value
/// does not fit.
pub fn scan_digits(data: &[u8], pos: usize, acc: u64) -> (r: Option<(u64, usize)>)
    requires
        pos <= data@.len(),
    ensures
        r matches Some((v, end)) ==> {
            &&& digit_run(data@, pos as int, end as int)
            &&& v == run_value(data@, pos as int, end as int, acc as nat)
        },
        forall|end: int|
            #![trigger run_value(data@, pos as int, end, acc as nat)]
            digit_run(data@, pos as int, end) && run_value(data@, pos as int, end, acc as nat)
                <= u64::MAX ==> r == Some((run_value(data@, pos as int, end, acc as nat) as u64, end as usize)),
{
    let mut i: usize = pos;
    let mut v: u64 = acc;
    assert(data@.subrange(pos as int, pos as int) =~= Seq::<u8>::empty());
    assert(pow10(0) == 1);
    assert(acc * 1 == acc);
    while i < data.len() && 48 <= data[i] && data[i] <= 57
        invariant
            pos <= i <= data@.len(),
            forall|j: int| pos <= j < i ==> is_digit(#[trigger] data@[j]),
            v == run_value(data@, pos as int, i as int, acc as nat),
        decreases data@.len() - i,
    {
        let d: u64 = (data[i] - 48) as u64;
        proof {
            lemma_run_value_step(data@, pos as int, i as int, acc as nat);
        }
        if v > (u64::MAX - d) / 10 {
            proof {
                assert(v * 10 + d > u64::MAX) by (nonlinear_arith)
                    requires
                        v > (u64::MAX - d) / 10,
                        d <= 9,
                ;
                assert forall|end: int|
                    digit_run(data@, pos as int, end) && #[trigger] run_value(
                        data@,
                        pos as int,
                        end,
                        acc as nat,
                    ) <= u64::MAX implies false by {
                    if end <= i {
                        if end < data@.len() {
                            assert(is_digit(data@[end]));
                        }
                    } else {
                        lemma_run_value_monotonic(data@, pos as int, i + 1, end, acc as nat);
                    }
                }
            }
            return None;
        }
        v = v * 10 + d;
        i = i + 1;
    }
    proof {
        assert forall|end: int|
            digit_run(data@, pos as int, end) && #[trigger] run_value(data@, pos as int, end, acc as nat)
                <= u64::MAX implies end == i by {
            if end < i {
                if end < data@.len() {
                    assert(is_digit(data@[end]));
                }
            }
            if end > i {
                assert(is_digit(data@[i as int]));
            }
        }
    }
    Some((v, i))
}

pub proof fn lemma_digits_value_concat(a: Seq<u8>, b: Seq<u8>)
    ensures
        digits_value(a + b) == digits_value(a) * pow10(b.len()) + digits_value(b),
    decreases b.len(),
{
    if b.len() == 0 {
        assert(a + b =~= a);
        assert(digits_value(a) * 1 == digits_value(a));
    } else {
        let init = b.subrange(0, b.len() - 1);
        lemma_digits_value_concat(a, init);
        assert((a + b).subrange(0, (a + b).len() - 1) =~= a + init);
        assert((a + b)[(a + b).len() - 1] == b[b.len() - 1]);
        let va = digits_value(a);
        let p = pow10(init.len());
        assert(pow10(b.len()) == 10 * p);
        assert((va * p + digits_value(init)) * 10 == va * (10 * p) + digits_value(init) * 10)
            by (nonlinear_arith);
    }
}

pub proof fn lemma_digits_value_zeros(s: Seq<u8>)
    requires
        forall|i: int| 0 <= i < s.len() ==> #[trigger] s[i] == 48,
    ensures
        digits_value(s) == 0,
    decreases s.len(),
{
    if s.len() > 0 {
        let init = s.subrange(0, s.len() - 1);
        lemma_digits_value_zeros(init);
    }
}

} // verus!
