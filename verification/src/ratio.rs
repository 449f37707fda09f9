//! Thresholds as exact fractions, and the comparisons of a count ratio
//! against them.

use vstd::prelude::*;
use vstd::string::StringSliceAdditionalSpecFns;

use crate::text::{find_byte, first_byte};

verus! {

/// A non-negative threshold `num / den`.
#[derive(Clone, Copy, Debug, PartialEq, Eq, Structural)]
pub struct Threshold {
    num: u64,
    den: u64,
}

impl Threshold {
    /// The numerator.
    pub closed spec fn numerator(self) -> int {
        self.num as int
    }

    /// The denominator, which is never zero.
    pub closed spec fn denominator(self) -> int {
        self.den as int
    }

    #[verifier::type_invariant]
    spec fn positive_denominator(self) -> bool {
        self.den > 0
    }

    /// `part / whole > num / den`, for a non-empty whole.
    pub open spec fn is_exceeded(self, part: int, whole: int) -> bool {
        whole > 0 && part * self.denominator() > self.numerator() * whole
    }

    /// `part / whole >= num / den`, for a non-empty whole.
    pub open spec fn is_reached(self, part: int, whole: int) -> bool {
        whole > 0 && part * self.denominator() >= self.numerator() * whole
    }

    /// `part >= (num / den) * whole`, also for an empty whole.
    pub open spec fn is_reached_scaled(self, part: int, whole: int) -> bool {
        part * self.denominator() >= self.numerator() * whole
    }

    /// The threshold is less than one.
    pub open spec fn is_fraction(self) -> bool {
        self.numerator() < self.denominator()
    }

    /// The threshold `num / den`, or nothing when `den` is zero.
    pub fn new(num: u64, den: u64) -> (t: Option<Threshold>)
        ensures
            den == 0 <==> t is None,
            t matches Some(t) ==> t.numerator() == num && t.denominator() == den,
    {
        if den == 0 {
            None
        } else {
            Some(Threshold { num, den })
        }
    }

    /// The threshold `percent / 100`.
    pub fn from_percent(percent: u64) -> (t: Threshold)
        ensures
            t.numerator() == percent,
            t.denominator() == 100,
    {
        Threshold { num: percent, den: 100 }
    }

    /// Whether `part / whole` is strictly above the threshold. An empty
    /// whole is above nothing.
    pub fn exceeded_by(&self, part: usize, whole: usize) -> (b: bool)
        ensures
            b == self.is_exceeded(part as int, whole as int),
    {
        if whole == 0 {
            return false;
        }
        let lhs: u128 = wide_product(part as u64, self.den);
        let rhs: u128 = wide_product(self.num, whole as u64);
        lhs > rhs
    }

    /// Whether `part / whole` is at or above the threshold. An empty whole
    /// reaches nothing.
    pub fn reached_by(&self, part: usize, whole: usize) -> (b: bool)
        ensures
            b == self.is_reached(part as int, whole as int),
    {
        if whole == 0 {
            return false;
        }
        let lhs: u128 = wide_product(part as u64, self.den);
        let rhs: u128 = wide_product(self.num, whole as u64);
        lhs >= rhs
    }

    /// Whether `part` is at least the threshold times `whole`.
    pub fn scaled_reached_by(&self, part: usize, whole: usize) -> (b: bool)
        ensures
            b == self.is_reached_scaled(part as int, whole as int),
    {
        let lhs: u128 = wide_product(part as u64, self.den);
        let rhs: u128 = wide_product(self.num, whole as u64);
        lhs >= rhs
    }

    /// Whether the threshold is less than one.
    pub fn less_than_one(&self) -> (b: bool)
        ensures
            b == self.is_fraction(),
    {
        self.num < self.den
    }
}

/// The product of two 64-bit numbers, which always fits in 128 bits.
pub fn wide_product(a: u64, b: u64) -> (p: u128)
    ensures
        p == a * b,
{
    assert(a * b <= 0xffff_ffff_ffff_ffff * 0xffff_ffff_ffff_ffff) by (nonlinear_arith)
        requires
            0 <= a <= 0xffff_ffff_ffff_ffff,
            0 <= b <= 0xffff_ffff_ffff_ffff,
    ;
    (a as u128) * (b as u128)
}

/// `value`, or the largest machine word if it is larger than that.
pub open spec fn clamped(value: nat) -> usize {
    if value > usize::MAX {
        usize::MAX
    } else {
        value as usize
    }
}

/// `value` brought into the range of a machine word.
pub fn clamp(value: u128) -> (r: usize)
    ensures
        r == clamped(value as nat),
{
    if value > usize::MAX as u128 {
        usize::MAX
    } else {
        value as usize
    }
}

/// The byte of a decimal point.
pub const POINT: u8 = 46;

/// The most digits that a decimal number may have.
pub const MAX_DIGITS: usize = 18;

/// Whether a byte is a decimal digit.
pub open spec fn is_digit(b: u8) -> bool {
    48 <= b <= 57
}

/// Whether all bytes are decimal digits.
pub open spec fn all_digits(s: Seq<u8>) -> bool {
    forall|i: int| 0 <= i < s.len() ==> is_digit(#[trigger] s[i])
}

/// The number that decimal digits write.
pub open spec fn digits_value(s: Seq<u8>) -> nat
    decreases s.len(),
{
    if s.len() == 0 {
        0
    } else {
        digits_value(s.drop_last()) * 10 + (s.last() - 48) as nat
    }
}

/// Ten to the power of `n`.
pub open spec fn pow10(n: nat) -> nat
    decreases n,
{
    if n == 0 {
        1
    } else {
        10 * pow10((n - 1) as nat)
    }
}

/// The digits before and behind the point of a decimal number such as
/// `0.80`, `1` or `.5`: nothing but digits and at most one point, at least
/// one digit and no more than `MAX_DIGITS`.
pub open spec fn decimal_digits(s: Seq<u8>) -> Option<(Seq<u8>, Seq<u8>)> {
    let point = first_byte(s, POINT, 0);
    let whole = if point < 0 {
        s
    } else {
        s.subrange(0, point)
    };
    let fraction = if point < 0 {
        Seq::empty()
    } else {
        s.subrange(point + 1, s.len() as int)
    };
    if all_digits(whole) && all_digits(fraction) && 1 <= whole.len() + fraction.len()
        <= MAX_DIGITS {
        Some((whole, fraction))
    } else {
        None
    }
}

/// Powers of ten grow, and eighteen digits stay below two to the power of
/// sixty.
pub proof fn lemma_pow10(a: nat, b: nat)
    requires
        a <= b <= 18,
    ensures
        1 <= pow10(a) <= pow10(b) <= 1_000_000_000_000_000_000,
    decreases b,
{
    reveal_with_fuel(pow10, 20);
    if a < b {
        lemma_pow10(a, (b - 1) as nat);
    }
}

/// Reads digits into a number, on top of the digits read before.
fn read_digits(bytes: &[u8], from: usize, to: usize, before: u64, Ghost(read): Ghost<Seq<u8>>) -> (r:
    Option<u64>)
    requires
        from <= to <= bytes@.len(),
        read.len() + (to - from) <= MAX_DIGITS,
        before == digits_value(read),
        before < pow10(read.len()),
    ensures
        r is Some <==> all_digits(bytes@.subrange(from as int, to as int)),
        r matches Some(v) ==> v == digits_value(read + bytes@.subrange(from as int, to as int))
            && v < pow10((read.len() + (to - from)) as nat),
{
    let mut value: u64 = before;
    let mut i: usize = from;
    proof {
        assert(read + bytes@.subrange(from as int, from as int) =~= read);
    }
    while i < to
        invariant
            from <= i <= to <= bytes@.len(),
            read.len() + (to - from) <= MAX_DIGITS,
            all_digits(bytes@.subrange(from as int, i as int)),
            value == digits_value(read + bytes@.subrange(from as int, i as int)),
            value < pow10((read.len() + (i - from)) as nat),
        decreases to - i,
    {
        let b: u8 = bytes[i];
        if b < 48 || b > 57 {
            proof {
                assert(bytes@.subrange(from as int, to as int)[i - from] == b);
            }
            return None;
        }
        proof {
            let grown = read + bytes@.subrange(from as int, i + 1);
            assert(grown.drop_last() =~= read + bytes@.subrange(from as int, i as int));
            assert(grown.last() == b);
            lemma_pow10((read.len() + (i - from)) as nat, 17);
            lemma_pow10((read.len() + (i + 1 - from)) as nat, 18);
            assert forall|j: int| 0 <= j < i + 1 - from implies is_digit(
                #[trigger] bytes@.subrange(from as int, i + 1)[j],
            ) by {
                if j < i - from {
                    assert(bytes@.subrange(from as int, i as int)[j] == bytes@.subrange(
                        from as int,
                        i + 1,
                    )[j]);
                }
            }
        }
        value = value * 10 + (b - 48) as u64;
        i += 1;
    }
    Some(value)
}

impl Threshold {
    /// The threshold that a decimal number writes, such as `0.80` for
    /// eighty hundredths; nothing for anything that is no decimal number of
    /// at most `MAX_DIGITS` digits.
    pub fn from_decimal(text: &str) -> (t: Option<Threshold>)
        ensures
            match decimal_digits(text.spec_bytes()) {
                Some((whole, fraction)) => t matches Some(t) && t.numerator() == digits_value(
                    whole + fraction,
                ) && t.denominator() == pow10(fraction.len()),
                None => t is None,
            },
    {
        let bytes = text.as_bytes();
        let n: usize = bytes.len();
        let (whole_end, fraction_start): (usize, usize) = match find_byte(bytes, POINT, 0) {
            Some(point) => (point, point + 1),
            None => (n, n),
        };
        let digits: usize = whole_end + (n - fraction_start);
        if digits < 1 || digits > MAX_DIGITS {
            return None;
        }
        let ghost whole = bytes@.subrange(0, whole_end as int);
        let ghost fraction = bytes@.subrange(fraction_start as int, n as int);
        proof {
            if whole_end == n {
                assert(whole =~= bytes@);
                assert(fraction =~= Seq::empty());
            }
            reveal_with_fuel(pow10, 2);
        }
        let first = match read_digits(bytes, 0, whole_end, 0, Ghost(Seq::empty())) {
            Some(v) => v,
            None => {
                return None;
            },
        };
        proof {
            assert(Seq::<u8>::empty() + whole =~= whole);
        }
        let num = match read_digits(bytes, fraction_start, n, first, Ghost(whole)) {
            Some(v) => v,
            None => {
                return None;
            },
        };
        let mut den: u64 = 1;
        let mut k: usize = 0;
        while k < n - fraction_start
            invariant
                k <= n - fraction_start <= MAX_DIGITS,
                den == pow10(k as nat),
            decreases n - fraction_start - k,
        {
            proof {
                lemma_pow10(k as nat, 17);
                lemma_pow10((k + 1) as nat, 18);
            }
            den = den * 10;
            k += 1;
        }
        proof {
            lemma_pow10(0, k as nat);
        }
        Some(Threshold { num, den })
    }
}

} // verus!
