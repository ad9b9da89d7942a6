//! The exact fixed-point decimal value type that all balances are computed
//! in. An [`Amount`] stores an integer mantissa together with a decimal
//! scale (the count of fractional digits), so `mantissa / 10^scale` is the
//! represented value. Arithmetic is exact: operations state in `requires`
//! that the mathematical result is representable, and never round.

use vstd::prelude::*;

verus! {

/// Largest mantissa magnitude an `Amount` may carry: `2^96 - 1`, the width
/// of the fixed-size integer that backs the decimal representation used for
/// parsing and display.
pub const MANTISSA_LIMIT: i128 = 79228162514264337593543950335;

/// Largest scale (count of fractional digits) an `Amount` may carry.
pub const MAX_SCALE: u32 = 28;

/// `10^n` as a mathematical integer.
pub open spec fn pow10(n: nat) -> int
    decreases n,
{
    if n == 0 {
        1
    } else {
        10 * pow10((n - 1) as nat)
    }
}

pub proof fn lemma_pow10_pos(n: nat)
    ensures
        pow10(n) >= 1,
    decreases n,
{
    if n > 0 {
        lemma_pow10_pos((n - 1) as nat);
    }
}

pub proof fn lemma_pow10_adds(a: nat, b: nat)
    ensures
        pow10(a + b) == pow10(a) * pow10(b),
    decreases a,
{
    if a == 0 {
    } else {
        lemma_pow10_adds((a - 1) as nat, b);
        assert(pow10(a + b) == 10 * pow10((a - 1 + b) as nat));
        assert(10 * (pow10((a - 1) as nat) * pow10(b)) == (10 * pow10((a - 1) as nat)) * pow10(
            b,
        )) by (nonlinear_arith);
    }
}

pub proof fn lemma_pow10_mono(a: nat, b: nat)
    requires
        a <= b,
    ensures
        pow10(a) <= pow10(b),
    decreases b,
{
    if a < b {
        lemma_pow10_mono(a, (b - 1) as nat);
        lemma_pow10_pos((b - 1) as nat);
    }
}

/// `10^28` written out, so concrete bounds are available without unfolding.
pub proof fn lemma_pow10_28()
    ensures
        pow10(28) == 10000000000000000000000000000int,
{
    reveal_with_fuel(pow10, 29);
}

/// `10^n` as an `i128`, for rescaling mantissas.
pub fn pow10_i128(n: u32) -> (r: i128)
    requires
        n <= 28,
    ensures
        r == pow10(n as nat),
        r >= 1,
{
    let mut r: i128 = 1;
    let mut i: u32 = 0;
    while i < n
        invariant
            i <= n <= 28,
            r == pow10(i as nat),
        decreases n - i,
    {
        proof {
            lemma_pow10_pos(i as nat);
            lemma_pow10_mono(i as nat, 27);
            lemma_pow10_mono(27, 28);
            lemma_pow10_28();
        }
        r = r * 10;
        i = i + 1;
    }
    proof {
        lemma_pow10_pos(n as nat);
    }
    r
}

/// `10^n` as a `u128`, for comparisons over magnitudes.
pub fn pow10_u128(n: u32) -> (r: u128)
    requires
        n <= 28,
    ensures
        r == pow10(n as nat),
        r >= 1,
{
    let p = pow10_i128(n);
    p as u128
}

/// A currency amount as used in ledgers: the exact value
/// `mantissa / 10^scale`. Displays with at most four places past the
/// decimal point; the stored value itself is never rounded.
#[derive(Clone, Copy, Debug)]
pub struct Amount {
    pub mantissa: i128,
    pub scale: u32,
}

impl Amount {
    /// Representation invariant: the scale and the mantissa magnitude stay
    /// within the fixed decimal width.
    pub open spec fn inv(self) -> bool {
        &&& self.scale <= MAX_SCALE
        &&& -MANTISSA_LIMIT <= self.mantissa <= MANTISSA_LIMIT
    }

    /// The represented value, expressed exactly as an integer count of
    /// `10^-28` units.
    pub open spec fn value(self) -> int {
        self.mantissa * pow10((MAX_SCALE - self.scale) as nat)
    }

    pub open spec fn zero_spec() -> Amount {
        Amount { mantissa: 0, scale: 0 }
    }

    pub open spec fn neg_spec(self) -> Amount {
        Amount { mantissa: (-self.mantissa) as i128, scale: self.scale }
    }

    pub fn new(mantissa: i128, scale: u32) -> (r: Amount)
        requires
            scale <= MAX_SCALE,
            -MANTISSA_LIMIT <= mantissa <= MANTISSA_LIMIT,
        ensures
            r == (Amount { mantissa, scale }),
            r.inv(),
    {
        Amount { mantissa, scale }
    }

    pub fn zero() -> (r: Amount)
        ensures
            r == Amount::zero_spec(),
            r.inv(),
            r.value() == 0,
    {
        Amount { mantissa: 0, scale: 0 }
    }

    /// Whether the representation invariant holds of this value.
    pub fn check(&self) -> (r: bool)
        ensures
            r == self.inv(),
    {
        self.scale <= MAX_SCALE && -MANTISSA_LIMIT <= self.mantissa && self.mantissa
            <= MANTISSA_LIMIT
    }

    /// Unary negation; always representable.
    pub fn neg(self) -> (r: Amount)
        requires
            self.inv(),
        ensures
            r == self.neg_spec(),
            r.inv(),
            r.value() == -self.value(),
    {
        proof {
            lemma_neg_value(self);
        }
        Amount { mantissa: -self.mantissa, scale: self.scale }
    }
}

pub proof fn lemma_neg_value(a: Amount)
    requires
        a.inv(),
    ensures
        a.neg_spec().value() == -a.value(),
{
    assert((-a.mantissa) * pow10((MAX_SCALE - a.scale) as nat) == -(a.mantissa * pow10((MAX_SCALE
        - a.scale) as nat))) by (nonlinear_arith);
}

/// The scale both operands of an addition are brought to: the larger of
/// the two.
pub open spec fn common_scale(a: Amount, b: Amount) -> u32 {
    if a.scale >= b.scale {
        a.scale
    } else {
        b.scale
    }
}

/// `a`'s mantissa rescaled to scale `s` (meaningful for `s >= a.scale`).
pub open spec fn rescaled(a: Amount, s: u32) -> int {
    a.mantissa * pow10((s - a.scale) as nat)
}

/// The exact sum of `a` and `b` is representable at their common scale.
pub open spec fn can_add(a: Amount, b: Amount) -> bool {
    let s = common_scale(a, b);
    &&& -MANTISSA_LIMIT <= rescaled(a, s) <= MANTISSA_LIMIT
    &&& -MANTISSA_LIMIT <= rescaled(b, s) <= MANTISSA_LIMIT
    &&& -MANTISSA_LIMIT <= rescaled(a, s) + rescaled(b, s) <= MANTISSA_LIMIT
}

/// The exact sum of `a` and `b`, at their common scale.
pub open spec fn add_spec(a: Amount, b: Amount) -> Amount {
    let s = common_scale(a, b);
    Amount { mantissa: (rescaled(a, s) + rescaled(b, s)) as i128, scale: s }
}

pub open spec fn can_sub(a: Amount, b: Amount) -> bool {
    can_add(a, b.neg_spec())
}

pub open spec fn sub_spec(a: Amount, b: Amount) -> Amount {
    add_spec(a, b.neg_spec())
}

/// Rescaling to a common scale `s <= MAX_SCALE` does not change the value.
pub proof fn lemma_rescaled_value(a: Amount, s: u32)
    requires
        a.scale <= s <= MAX_SCALE,
    ensures
        rescaled(a, s) * pow10((MAX_SCALE - s) as nat) == a.value(),
{
    let d = (s - a.scale) as nat;
    let e = (MAX_SCALE - s) as nat;
    lemma_pow10_adds(d, e);
    assert((a.mantissa * pow10(d)) * pow10(e) == a.mantissa * (pow10(d) * pow10(e)))
        by (nonlinear_arith);
}

/// The sum of two amounts at their common scale represents the sum of
/// their values.
pub proof fn lemma_add_value(a: Amount, b: Amount)
    requires
        a.inv(),
        b.inv(),
        can_add(a, b),
    ensures
        add_spec(a, b).inv(),
        add_spec(a, b).value() == a.value() + b.value(),
{
    let s = common_scale(a, b);
    let e = (MAX_SCALE - s) as nat;
    let ra = rescaled(a, s);
    let rb = rescaled(b, s);
    lemma_rescaled_value(a, s);
    lemma_rescaled_value(b, s);
    assert((ra + rb) * pow10(e) == ra * pow10(e) + rb * pow10(e)) by (nonlinear_arith);
}

impl Amount {
    /// In-place addition; the exact result must be representable.
    pub fn add_assign(&mut self, other: Amount)
        requires
            old(self).inv(),
            other.inv(),
            can_add(*old(self), other),
        ensures
            *final(self) == add_spec(*old(self), other),
            final(self).inv(),
            final(self).value() == old(self).value() + other.value(),
    {
        proof {
            lemma_add_value(*self, other);
        }
        let s = if self.scale >= other.scale {
            self.scale
        } else {
            other.scale
        };
        let p1 = pow10_i128(s - self.scale);
        let p2 = pow10_i128(s - other.scale);
        let m = self.mantissa * p1 + other.mantissa * p2;
        self.mantissa = m;
        self.scale = s;
    }

    /// In-place subtraction; the exact result must be representable.
    pub fn sub_assign(&mut self, other: Amount)
        requires
            old(self).inv(),
            other.inv(),
            can_sub(*old(self), other),
        ensures
            *final(self) == sub_spec(*old(self), other),
            final(self).inv(),
            final(self).value() == old(self).value() - other.value(),
    {
        let n = other.neg();
        self.add_assign(n);
    }

    /// Strict value comparison; total on all well-formed amounts.
    pub fn lt(&self, other: &Amount) -> (r: bool)
        requires
            self.inv(),
            other.inv(),
        ensures
            r == (self.value() < other.value()),
    {
        proof {
            lemma_value_sign(*self);
            lemma_value_sign(*other);
        }
        if self.mantissa < 0 && other.mantissa >= 0 {
            true
        } else if self.mantissa >= 0 && other.mantissa < 0 {
            false
        } else if self.mantissa >= 0 && other.mantissa >= 0 {
            mag_lt(self.mantissa as u128, self.scale, other.mantissa as u128, other.scale)
        } else {
            proof {
                lemma_neg_value(*self);
                lemma_neg_value(*other);
            }
            mag_lt((-other.mantissa) as u128, other.scale, (-self.mantissa) as u128, self.scale)
        }
    }
}

/// Decides `can_add` at run time, without overflowing.
pub fn can_add_exec(a: &Amount, b: &Amount) -> (r: bool)
    requires
        a.inv(),
        b.inv(),
    ensures
        r == can_add(*a, *b),
{
    let s = if a.scale >= b.scale {
        a.scale
    } else {
        b.scale
    };
    let p1 = pow10_i128(s - a.scale);
    let p2 = pow10_i128(s - b.scale);
    match a.mantissa.checked_mul(p1) {
        Some(ra) => {
            if ra < -MANTISSA_LIMIT || ra > MANTISSA_LIMIT {
                return false;
            }
            match b.mantissa.checked_mul(p2) {
                Some(rb) => {
                    if rb < -MANTISSA_LIMIT || rb > MANTISSA_LIMIT {
                        return false;
                    }
                    let m = ra + rb;
                    -MANTISSA_LIMIT <= m && m <= MANTISSA_LIMIT
                },
                None => false,
            }
        },
        None => false,
    }
}

/// Decides `can_sub` at run time.
pub fn can_sub_exec(a: &Amount, b: &Amount) -> (r: bool)
    requires
        a.inv(),
        b.inv(),
    ensures
        r == can_sub(*a, *b),
{
    let n = b.neg();
    can_add_exec(a, &n)
}

/// Failure to parse a piece of ledger input text.
#[derive(Clone, Copy, Debug, PartialEq, Eq, Structural)]
pub enum ParseError {
    /// A row does not have the expected four fields.
    BadRow,
    /// The client column is not a 16-bit unsigned integer.
    BadClient,
    /// The transaction column is not a 32-bit unsigned integer.
    BadTx,
    /// The record kind is not one of the five known kinds.
    UnknownKind,
    /// The amount column is not decimal numeric text.
    BadAmount,
}

/// What decimal text parses to: the mantissa and scale for text the
/// parser accepts, `None` for text it rejects.
pub uninterp spec fn parsed_decimal(s: Seq<char>) -> Option<(i128, u32)>;

/// How a nonzero amount is displayed: its decimal digits, rounded to at
/// most four fractional places.
pub uninterp spec fn formatted_decimal(mantissa: i128, scale: u32) -> Seq<char>;

/// How an amount is displayed: a zero amount always renders as `0.0000`,
/// any other amount keeps its own digits, rounded to at most four
/// fractional places.
pub open spec fn display_spec(a: Amount) -> Seq<char> {
    if a.mantissa == 0 {
        "0.0000"@
    } else {
        formatted_decimal(a.mantissa, a.scale)
    }
}

impl Amount {
    /// Parse-from-text. Relies on `rust_decimal::Decimal::from_str` and
    /// its `mantissa` and `scale` accessors: accepted text yields a
    /// mantissa within 96 bits and a scale of at most 28; rejected text
    /// is the only failure.
    #[verifier::external_body]
    pub fn from_str(s: &str) -> (r: Result<Amount, ParseError>)
        ensures
            match r {
                Result::Ok(a) => parsed_decimal(s@) == Option::Some((a.mantissa, a.scale))
                    && a.inv(),
                Result::Err(e) => parsed_decimal(s@) is None && e == ParseError::BadAmount,
            },
    {
        match <rust_decimal::Decimal as core::str::FromStr>::from_str(s) {
            Ok(d) => Ok(Amount { mantissa: d.mantissa(), scale: d.scale() }),
            Err(_) => Err(ParseError::BadAmount),
        }
    }

    /// Format-to-text, rounding to four fractional digits for display
    /// only; the stored value is not rounded.
    pub fn serialize(&self) -> (r: String)
        requires
            self.inv(),
        ensures
            r@ == display_spec(*self),
    {
        if self.mantissa == 0 {
            "0.0000".to_owned()
        } else {
            self.format_nonzero()
        }
    }

    /// Relies on `rust_decimal::Decimal::from_i128_with_scale`,
    /// `round_dp` (bankers rounding to four places) and the `Display`
    /// impl: the rendered digits are a function of mantissa and scale
    /// alone.
    #[verifier::external_body]
    fn format_nonzero(&self) -> (r: String)
        requires
            self.inv(),
        ensures
            r@ == formatted_decimal(self.mantissa, self.scale),
    {
        let d = rust_decimal::Decimal::from_i128_with_scale(self.mantissa, self.scale);
        format!("{}", d.round_dp(4))
    }
}

/// The sign of the value is the sign of the mantissa.
pub proof fn lemma_value_sign(a: Amount)
    requires
        a.inv(),
    ensures
        a.mantissa > 0 ==> a.value() > 0,
        a.mantissa == 0 ==> a.value() == 0,
        a.mantissa < 0 ==> a.value() < 0,
{
    let p = pow10((MAX_SCALE - a.scale) as nat);
    lemma_pow10_pos((MAX_SCALE - a.scale) as nat);
    assert(a.mantissa > 0 && p >= 1 ==> a.mantissa * p > 0) by (nonlinear_arith);
    assert(a.mantissa < 0 && p >= 1 ==> a.mantissa * p < 0) by (nonlinear_arith);
    assert(a.mantissa == 0 ==> a.mantissa * p == 0) by (nonlinear_arith);
}

/// Comparison of `q1*b + f1` with `q2*b + f2` is lexicographic when the
/// fractional parts lie below `b`.
proof fn lemma_lex_cmp(q1: int, f1: int, q2: int, f2: int, b: int)
    requires
        b >= 1,
        0 <= f1 < b,
        0 <= f2 < b,
    ensures
        (q1 * b + f1 < q2 * b + f2) <==> (q1 < q2 || (q1 == q2 && f1 < f2)),
{
    if q1 < q2 {
        assert(q1 * b + b <= q2 * b) by (nonlinear_arith)
            requires
                q1 < q2,
                b >= 1,
        ;
    } else if q2 < q1 {
        assert(q2 * b + b <= q1 * b) by (nonlinear_arith)
            requires
                q2 < q1,
                b >= 1,
        ;
    }
}

/// Splits `m * 10^(28 - s)` into an integral part `q * 10^28` and a
/// fractional part below `10^28`.
proof fn lemma_mag_split(m: u128, s: u32)
    requires
        s <= 28,
    ensures
        m as int * pow10((28 - s) as nat) == (m as int / pow10(s as nat)) * pow10(28) + (
        m as int % pow10(s as nat)) * pow10((28 - s) as nat),
        0 <= (m as int % pow10(s as nat)) * pow10((28 - s) as nat) < pow10(28),
{
    let p = pow10(s as nat);
    let e = pow10((28 - s) as nat);
    let q = m as int / p;
    let r = m as int % p;
    lemma_pow10_pos(s as nat);
    lemma_pow10_pos((28 - s) as nat);
    vstd::arithmetic::div_mod::lemma_fundamental_div_mod(m as int, p);
    lemma_pow10_adds(s as nat, (28 - s) as nat);
    assert((q * p + r) * e == q * (p * e) + r * e) by (nonlinear_arith);
    assert(r * e < p * e) by (nonlinear_arith)
        requires
            r < p,
            e >= 1,
    ;
    assert(r * e >= 0) by (nonlinear_arith)
        requires
            r >= 0,
            e >= 1,
    ;
}

/// Compares `m1 / 10^s1` with `m2 / 10^s2` over nonnegative magnitudes,
/// without overflowing 128-bit arithmetic.
fn mag_lt(m1: u128, s1: u32, m2: u128, s2: u32) -> (r: bool)
    requires
        s1 <= 28,
        s2 <= 28,
    ensures
        r == (m1 as int * pow10((28 - s1) as nat) < m2 as int * pow10((28 - s2) as nat)),
{
    let p1 = pow10_u128(s1);
    let p2 = pow10_u128(s2);
    let q1 = m1 / p1;
    let r1 = m1 % p1;
    let q2 = m2 / p2;
    let r2 = m2 % p2;
    proof {
        lemma_mag_split(m1, s1);
        lemma_mag_split(m2, s2);
        lemma_pow10_28();
        lemma_pow10_mono((28 - s1) as nat, 28);
        lemma_pow10_mono((28 - s2) as nat, 28);
    }
    let e1 = pow10_u128(28 - s1);
    let e2 = pow10_u128(28 - s2);
    let f1 = r1 * e1;
    let f2 = r2 * e2;
    proof {
        lemma_lex_cmp(q1 as int, f1 as int, q2 as int, f2 as int, pow10(28));
    }
    q1 < q2 || (q1 == q2 && f1 < f2)
}

} // verus!
