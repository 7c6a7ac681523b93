//! Exact decimal numbers: every numeric field of the annotation and
//! calibration formats is held as `mantissa / 10^scale`, so that the
//! arithmetic done while building boxes is exact.
use vstd::prelude::*;

verus! {

/// Largest digit value a number token may carry before its exponent is applied.
pub const DIGITS_MAX: i128 = 1000000000000000000000000000000000000;

/// Largest magnitude of a written exponent.
pub const EXPONENT_MAX: i128 = 100000;

/// Largest magnitude a mantissa may have (the range is kept symmetric).
pub const MANTISSA_MAX: i128 = 170141183460469231731687303715884105727;

/// `10^n`.
pub open spec fn pow10(n: nat) -> int
    decreases n,
{
    if n == 0 {
        1
    } else {
        10 * pow10((n - 1) as nat)
    }
}

/// Whether an integer can be a mantissa.
pub open spec fn fits(x: int) -> bool {
    -MANTISSA_MAX <= x <= MANTISSA_MAX
}

pub proof fn lemma_pow10_positive(n: nat)
    ensures
        pow10(n) >= 1,
    decreases n,
{
    if n > 0 {
        lemma_pow10_positive((n - 1) as nat);
    }
}

pub proof fn lemma_pow10_add(a: nat, b: nat)
    ensures
        pow10(a + b) == pow10(a) * pow10(b),
    decreases b,
{
    if b > 0 {
        lemma_pow10_add(a, (b - 1) as nat);
        assert(pow10(a + b) == 10 * pow10((a + b - 1) as nat));
        assert(pow10(a) * pow10(b) == pow10(a) * (10 * pow10((b - 1) as nat)));
        assert(pow10(a) * (10 * pow10((b - 1) as nat)) == 10 * (pow10(a) * pow10(
            (b - 1) as nat,
        ))) by (nonlinear_arith);
    }
}

pub proof fn lemma_pow10_monotone(a: nat, b: nat)
    requires
        a <= b,
    ensures
        pow10(a) <= pow10(b),
    decreases b,
{
    if a < b {
        lemma_pow10_monotone(a, (b - 1) as nat);
        lemma_pow10_positive((b - 1) as nat);
    }
}

proof fn lemma_scaled_grows(m: int, j: nat, k: nat)
    requires
        j <= k,
    ensures
        m >= 0 ==> m * pow10(j) <= m * pow10(k),
        m < 0 ==> m * pow10(k) <= m * pow10(j),
{
    lemma_pow10_monotone(j, k);
    let pj = pow10(j);
    let pk = pow10(k);
    if m >= 0 {
        assert(m * pj <= m * pk) by (nonlinear_arith)
            requires
                m >= 0,
                pj <= pk,
        ;
    } else {
        assert(m * pk <= m * pj) by (nonlinear_arith)
            requires
                m < 0,
                pj <= pk,
        ;
    }
}

/// A decimal number `mantissa / 10^scale`.
///
/// A well-formed value is normalised (no trailing zero in the mantissa
/// while the scale is positive), so two well-formed values are equal
/// exactly when they denote the same number.
#[derive(Debug, Clone, Copy, PartialEq, Eq, Structural)]
pub struct Decimal {
    pub mantissa: i128,
    pub scale: u32,
}

impl Decimal {
    pub open spec fn wf(self) -> bool {
        &&& fits(self.mantissa as int)
        &&& (self.scale == 0 || self.mantissa % 10 != 0)
    }

    /// The mantissa that denotes this number at scale `s` (for `s >= scale`).
    pub open spec fn at_scale(self, s: nat) -> int {
        self.mantissa * pow10((s - self.scale) as nat)
    }

    /// This well-formed number equals `m / 10^s`.
    pub open spec fn denotes(self, m: int, s: nat) -> bool {
        &&& self.wf()
        &&& self.scale <= s
        &&& self.at_scale(s) == m
    }

    /// Whether this value is well formed.
    pub fn is_wf(&self) -> (r: bool)
        ensures
            r == self.wf(),
    {
        self.mantissa != i128::MIN && (self.scale == 0 || self.mantissa % 10 != 0)
    }

    /// Whether `self / 2` can be computed.
    pub fn is_halvable(&self) -> (r: bool)
        ensures
            r == halvable(*self),
    {
        self.scale < u32::MAX && self.mantissa <= MANTISSA_MAX / 5 && self.mantissa >= -(MANTISSA_MAX / 5)
    }

    /// The number zero.
    pub fn zero() -> (r: Decimal)
        ensures
            r.wf(),
            r.mantissa == 0,
            r.scale == 0,
    {
        Decimal { mantissa: 0, scale: 0 }
    }

    /// The normalised form of `mantissa / 10^scale`.
    pub fn new(mantissa: i128, scale: u32) -> (r: Decimal)
        requires
            fits(mantissa as int),
        ensures
            r.denotes(mantissa as int, scale as nat),
    {
        let mut m: i128 = mantissa;
        let mut s: u32 = scale;
        while s > 0 && m % 10 == 0
            invariant
                s <= scale,
                fits(m as int),
                m * pow10((scale - s) as nat) == mantissa,
            decreases s,
        {
            let q: i128 = m / 10;
            proof {
                let k = (scale - s) as nat;
                assert(m == 10 * q);
                assert(pow10(k + 1) == 10 * pow10(k));
                assert(q * (10 * pow10(k)) == (10 * q) * pow10(k)) by (nonlinear_arith);
                assert(fits(q as int));
            }
            m = q;
            s = s - 1;
        }
        Decimal { mantissa: m, scale: s }
    }

    /// The mantissa of this number at scale `s`, if it fits.
    fn align(self, s: u32) -> (r: Option<i128>)
        requires
            self.wf(),
            self.scale <= s,
        ensures
            r is Some <==> fits(self.at_scale(s as nat)),
            r is Some ==> r.unwrap() == self.at_scale(s as nat),
    {
        let mut m: i128 = self.mantissa;
        let mut i: u32 = self.scale;
        proof {
            assert(pow10(0) == 1);
        }
        while i < s
            invariant
                self.scale <= i <= s,
                fits(m as int),
                m == self.mantissa * pow10((i - self.scale) as nat),
            decreases s - i,
        {
            let k = Ghost((i - self.scale) as nat);
            proof {
                assert(pow10(k@ + 1) == 10 * pow10(k@));
                assert(self.mantissa * (10 * pow10(k@)) == 10 * (self.mantissa * pow10(k@)))
                    by (nonlinear_arith);
            }
            if m > MANTISSA_MAX / 10 || m < -(MANTISSA_MAX / 10) {
                proof {
                    lemma_scaled_grows(self.mantissa as int, k@ + 1, (s - self.scale) as nat);
                    assert(self.mantissa * pow10(k@ + 1) == 10 * m);
                    lemma_pow10_positive(k@);
                    let mm = self.mantissa as int;
                    let pk = pow10(k@);
                    assert(mm >= 0 ==> mm * pk >= 0) by (nonlinear_arith)
                        requires
                            pk >= 1,
                    ;
                    assert(mm < 0 ==> mm * pk < 0) by (nonlinear_arith)
                        requires
                            pk >= 1,
                    ;
                }
                return None;
            }
            m = m * 10;
            i = i + 1;
        }
        Some(m)
    }

    /// Whether `a + b` can be computed at their common scale.
    pub open spec fn sum_fits(a: Decimal, b: Decimal) -> bool {
        let s = if a.scale >= b.scale { a.scale as nat } else { b.scale as nat };
        &&& fits(a.at_scale(s))
        &&& fits(b.at_scale(s))
        &&& fits(a.at_scale(s) + b.at_scale(s))
    }

    /// Whether `a - b` can be computed at their common scale.
    pub open spec fn difference_fits(a: Decimal, b: Decimal) -> bool {
        let s = if a.scale >= b.scale { a.scale as nat } else { b.scale as nat };
        &&& fits(a.at_scale(s))
        &&& fits(b.at_scale(s))
        &&& fits(a.at_scale(s) - b.at_scale(s))
    }

    /// The larger of two scales.
    pub open spec fn common_scale(a: Decimal, b: Decimal) -> nat {
        if a.scale >= b.scale { a.scale as nat } else { b.scale as nat }
    }

    /// `self + other`, or `None` when it does not fit.
    pub fn checked_add(&self, other: &Decimal) -> (r: Option<Decimal>)
        requires
            self.wf(),
            other.wf(),
        ensures
            r is Some <==> Decimal::sum_fits(*self, *other),
            r is Some ==> r.unwrap().denotes(
                self.at_scale(Decimal::common_scale(*self, *other)) + other.at_scale(
                    Decimal::common_scale(*self, *other),
                ),
                Decimal::common_scale(*self, *other),
            ),
            r is Some ==> r.unwrap() == sum_of(*self, *other),
    {
        let s: u32 = if self.scale >= other.scale { self.scale } else { other.scale };
        let a = match self.align(s) {
            Some(a) => a,
            None => return None,
        };
        let b = match other.align(s) {
            Some(b) => b,
            None => return None,
        };
        if (b > 0 && a > MANTISSA_MAX - b) || (b < 0 && a < -MANTISSA_MAX - b) {
            return None;
        }
        let r = Decimal::new(a + b, s);
        proof {
            lemma_denotes_unique(r, sum_of(*self, *other), a + b, s as nat);
        }
        Some(r)
    }

    /// `self - other`, or `None` when it does not fit.
    pub fn checked_sub(&self, other: &Decimal) -> (r: Option<Decimal>)
        requires
            self.wf(),
            other.wf(),
        ensures
            r is Some <==> Decimal::difference_fits(*self, *other),
            r is Some ==> r.unwrap().denotes(
                self.at_scale(Decimal::common_scale(*self, *other)) - other.at_scale(
                    Decimal::common_scale(*self, *other),
                ),
                Decimal::common_scale(*self, *other),
            ),
            r is Some ==> r.unwrap() == difference_of(*self, *other),
    {
        let s: u32 = if self.scale >= other.scale { self.scale } else { other.scale };
        let a = match self.align(s) {
            Some(a) => a,
            None => return None,
        };
        let b = match other.align(s) {
            Some(b) => b,
            None => return None,
        };
        if (b < 0 && a > MANTISSA_MAX + b) || (b > 0 && a < -MANTISSA_MAX + b) {
            return None;
        }
        let r = Decimal::new(a - b, s);
        proof {
            lemma_denotes_unique(r, difference_of(*self, *other), a - b, s as nat);
        }
        Some(r)
    }

    /// `-self`.
    pub fn neg(&self) -> (r: Decimal)
        requires
            self.wf(),
        ensures
            r.wf(),
            r == negated(*self),
            r.mantissa == -self.mantissa,
            r.scale == self.scale,
    {
        proof {
            let m = self.mantissa as int;
            if m % 10 != 0 {
                assert((-m) % 10 != 0) by (nonlinear_arith)
                    requires
                        m % 10 != 0,
                ;
            }
        }
        Decimal { mantissa: -self.mantissa, scale: self.scale }
    }

    /// `self / 2`, or `None` when it does not fit.
    pub fn checked_half(&self) -> (r: Option<Decimal>)
        requires
            self.wf(),
        ensures
            r is Some <==> fits(5 * self.mantissa) && self.scale < u32::MAX,
            r is Some ==> r.unwrap().denotes(5 * self.mantissa, (self.scale + 1) as nat),
            r is Some ==> r.unwrap() == half_of(*self),
    {
        if self.scale == u32::MAX || self.mantissa > MANTISSA_MAX / 5 || self.mantissa < -(
        MANTISSA_MAX / 5) {
            return None;
        }
        let r = Decimal::new(self.mantissa * 5, self.scale + 1);
        proof {
            lemma_denotes_unique(r, half_of(*self), 5 * self.mantissa, (self.scale + 1) as nat);
        }
        Some(r)
    }
}

/// Two well-formed decimals that denote the same number are the same value.
pub proof fn lemma_denotes_unique(a: Decimal, b: Decimal, m: int, s: nat)
    requires
        a.denotes(m, s),
        b.denotes(m, s),
    ensures
        a == b,
{
    if a.scale <= b.scale {
        lemma_denotes_unique_ordered(a, b, m, s);
    } else {
        lemma_denotes_unique_ordered(b, a, m, s);
    }
}

proof fn lemma_denotes_unique_ordered(a: Decimal, b: Decimal, m: int, s: nat)
    requires
        a.denotes(m, s),
        b.denotes(m, s),
        a.scale <= b.scale,
    ensures
        a == b,
{
    let d = (b.scale - a.scale) as nat;
    let rest = (s - b.scale) as nat;
    lemma_pow10_add(d, rest);
    assert((s - a.scale) as nat == d + rest);
    let pd = pow10(d);
    let pr = pow10(rest);
    lemma_pow10_positive(rest);
    let am = a.mantissa as int;
    let bm = b.mantissa as int;
    assert(am * (pd * pr) == bm * pr);
    assert(am * pd == bm) by (nonlinear_arith)
        requires
            am * (pd * pr) == bm * pr,
            pr >= 1,
    ;
    if d > 0 {
        let q = am * pow10((d - 1) as nat);
        assert(am * pd == 10 * q) by (nonlinear_arith)
            requires
                pd == 10 * pow10((d - 1) as nat),
                q == am * pow10((d - 1) as nat),
        ;
        assert(bm % 10 == 0);
        assert(false);
    }
    assert(pd == 1);
}

/// A decimal that denotes `m / 10^s1` also denotes the same number at any larger scale.
pub proof fn lemma_denotes_rescale(d: Decimal, m: int, s1: nat, s2: nat)
    requires
        d.denotes(m, s1),
        s1 <= s2,
    ensures
        d.denotes(m * pow10((s2 - s1) as nat), s2),
{
    let a = (s1 - d.scale) as nat;
    let b = (s2 - s1) as nat;
    lemma_pow10_add(a, b);
    assert((s2 - d.scale) as nat == a + b);
    let dm = d.mantissa as int;
    assert(dm * (pow10(a) * pow10(b)) == (dm * pow10(a)) * pow10(b)) by (nonlinear_arith);
}

/// A decimal's mantissa at a larger scale is its mantissa at a smaller one, shifted.
pub proof fn lemma_at_scale_shift(d: Decimal, s1: nat, s2: nat)
    requires
        d.scale <= s1 <= s2,
    ensures
        d.at_scale(s2) == d.at_scale(s1) * pow10((s2 - s1) as nat),
{
    let a = (s1 - d.scale) as nat;
    let b = (s2 - s1) as nat;
    lemma_pow10_add(a, b);
    assert((s2 - d.scale) as nat == a + b);
    let dm = d.mantissa as int;
    assert(dm * (pow10(a) * pow10(b)) == (dm * pow10(a)) * pow10(b)) by (nonlinear_arith);
}

/// A number that fits stays within bounds when shifted to a smaller scale.
pub proof fn lemma_fits_unshift(x: int, k: nat)
    requires
        fits(x * pow10(k)),
    ensures
        fits(x),
{
    lemma_pow10_positive(k);
    let p = pow10(k);
    if x >= 0 {
        assert(x <= x * p) by (nonlinear_arith)
            requires
                x >= 0,
                p >= 1,
        ;
    } else {
        assert(x * p <= x) by (nonlinear_arith)
            requires
                x < 0,
                p >= 1,
        ;
    }
}

/// Every number that fits has a well-formed decimal.
pub proof fn lemma_normal_form_exists(m: int, s: nat)
    requires
        fits(m),
        s <= u32::MAX,
    ensures
        exists|d: Decimal| #[trigger] d.denotes(m, s),
    decreases s,
{
    if s == 0 || m % 10 != 0 {
        let d = Decimal { mantissa: m as i128, scale: s as u32 };
        assert(d.at_scale(s) == m);
        assert(d.denotes(m, s));
    } else {
        let q = m / 10;
        assert(m == 10 * q);
        assert(fits(q));
        lemma_normal_form_exists(q, (s - 1) as nat);
        let d = choose|d: Decimal| #[trigger] d.denotes(q, (s - 1) as nat);
        lemma_denotes_rescale(d, q, (s - 1) as nat, s);
        assert(pow10(0) == 1);
        assert(pow10(1) == 10);
        assert(q * pow10(1) == m);
        assert(d.denotes(m, s));
    }
}

/// `-a`.
pub open spec fn negated(a: Decimal) -> Decimal {
    Decimal { mantissa: (-a.mantissa) as i128, scale: a.scale }
}

/// Whether `a / 2` can be computed.
pub open spec fn halvable(a: Decimal) -> bool {
    fits(5 * a.mantissa) && a.scale < u32::MAX
}

/// `a + b`, where it fits.
pub open spec fn sum_of(a: Decimal, b: Decimal) -> Decimal {
    let s = Decimal::common_scale(a, b);
    choose|d: Decimal| #[trigger] d.denotes(a.at_scale(s) + b.at_scale(s), s)
}

/// `a - b`, where it fits.
pub open spec fn difference_of(a: Decimal, b: Decimal) -> Decimal {
    let s = Decimal::common_scale(a, b);
    choose|d: Decimal| #[trigger] d.denotes(a.at_scale(s) - b.at_scale(s), s)
}

/// `a / 2`, where it fits.
pub open spec fn half_of(a: Decimal) -> Decimal {
    choose|d: Decimal| #[trigger] d.denotes(5 * a.mantissa, (a.scale + 1) as nat)
}

/// The well-formed decimal that a number token denotes.
pub open spec fn decimal_of(s: Seq<u8>) -> Decimal {
    choose|d: Decimal| #[trigger] d.denotes(number_value(s).unwrap().0, number_value(s).unwrap().1)
}

/// Where a left-to-right reading of a number token stands.
#[derive(Debug, Clone, Copy, PartialEq, Eq, Structural)]
pub enum Phase {
    Start,
    Whole,
    Fraction,
    ExponentStart,
    Exponent,
    Rejected,
}

/// What has been read of a number token so far: `[+-]digits[.digits][(e|E)[+-]digits]`.
pub struct NumberScan {
    pub phase: Phase,
    pub negative: bool,
    pub digits: int,
    pub digit_count: nat,
    pub fraction_len: nat,
    pub exponent_negative: bool,
    pub exponent: int,
    pub exponent_digit_count: nat,
}

pub open spec fn is_digit(c: u8) -> bool {
    48 <= c <= 57
}

pub open spec fn is_exponent_mark(c: u8) -> bool {
    c == 101 || c == 69
}

pub open spec fn rejected(st: NumberScan) -> NumberScan {
    NumberScan { phase: Phase::Rejected, ..st }
}

/// Appends a digit of the mantissa (counting it as a fraction digit when `fraction`).
pub open spec fn push_digit(st: NumberScan, c: u8, phase: Phase, fraction: bool) -> NumberScan {
    let d = st.digits * 10 + (c - 48);
    if d > DIGITS_MAX {
        rejected(st)
    } else {
        NumberScan {
            phase,
            digits: d,
            digit_count: st.digit_count + 1,
            fraction_len: if fraction { st.fraction_len + 1 } else { st.fraction_len },
            ..st
        }
    }
}

/// Appends a digit of the exponent.
pub open spec fn push_exponent_digit(st: NumberScan, c: u8) -> NumberScan {
    let e = st.exponent * 10 + (c - 48);
    if e > EXPONENT_MAX {
        rejected(st)
    } else {
        NumberScan {
            phase: Phase::Exponent,
            exponent: e,
            exponent_digit_count: st.exponent_digit_count + 1,
            ..st
        }
    }
}

/// Reads one more byte of a number token.
pub open spec fn scan_step(st: NumberScan, c: u8) -> NumberScan {
    match st.phase {
        Phase::Start => {
            if c == 45 {
                NumberScan { phase: Phase::Whole, negative: true, ..st }
            } else if c == 43 {
                NumberScan { phase: Phase::Whole, ..st }
            } else if is_digit(c) {
                push_digit(st, c, Phase::Whole, false)
            } else if c == 46 {
                NumberScan { phase: Phase::Fraction, ..st }
            } else {
                rejected(st)
            }
        },
        Phase::Whole => {
            if is_digit(c) {
                push_digit(st, c, Phase::Whole, false)
            } else if c == 46 {
                NumberScan { phase: Phase::Fraction, ..st }
            } else if is_exponent_mark(c) && st.digit_count > 0 {
                NumberScan { phase: Phase::ExponentStart, ..st }
            } else {
                rejected(st)
            }
        },
        Phase::Fraction => {
            if is_digit(c) {
                push_digit(st, c, Phase::Fraction, true)
            } else if is_exponent_mark(c) && st.digit_count > 0 {
                NumberScan { phase: Phase::ExponentStart, ..st }
            } else {
                rejected(st)
            }
        },
        Phase::ExponentStart => {
            if c == 45 {
                NumberScan { phase: Phase::Exponent, exponent_negative: true, ..st }
            } else if c == 43 {
                NumberScan { phase: Phase::Exponent, ..st }
            } else if is_digit(c) {
                push_exponent_digit(st, c)
            } else {
                rejected(st)
            }
        },
        Phase::Exponent => {
            if is_digit(c) {
                push_exponent_digit(st, c)
            } else {
                rejected(st)
            }
        },
        Phase::Rejected => st,
    }
}

/// The reading of a whole token.
pub open spec fn scan(s: Seq<u8>) -> NumberScan
    decreases s.len(),
{
    if s.len() == 0 {
        NumberScan {
            phase: Phase::Start,
            negative: false,
            digits: 0,
            digit_count: 0,
            fraction_len: 0,
            exponent_negative: false,
            exponent: 0,
            exponent_digit_count: 0,
        }
    } else {
        scan_step(scan(s.drop_last()), s.last())
    }
}

/// Whether a token is a well-formed number within the digit and exponent bounds.
pub open spec fn accepted(st: NumberScan) -> bool {
    ||| (st.phase == Phase::Whole || st.phase == Phase::Fraction) && st.digit_count > 0
    ||| st.phase == Phase::Exponent && st.exponent_digit_count > 0
}

/// The number a token denotes, as a mantissa and a scale (`mantissa / 10^scale`).
pub open spec fn number_value(s: Seq<u8>) -> Option<(int, nat)> {
    let st = scan(s);
    if accepted(st) {
        let m = if st.negative { -st.digits } else { st.digits };
        let e = if st.exponent_negative { -st.exponent } else { st.exponent };
        let k = e - st.fraction_len;
        if k >= 0 {
            Some((m * pow10(k as nat), 0nat))
        } else {
            Some((m, (-k) as nat))
        }
    } else {
        None
    }
}

/// Whether a token parses into a `Decimal`.
pub open spec fn parses(s: Seq<u8>) -> bool {
    &&& number_value(s) is Some
    &&& fits(number_value(s).unwrap().0)
    &&& number_value(s).unwrap().1 <= u32::MAX
}

/// Parses a number token such as `-12`, `1.57`, `.5` or `7.215377e+02`.
pub fn parse_decimal(s: &[u8]) -> (r: Option<Decimal>)
    ensures
        r is Some <==> parses(s@),
        r is Some ==> r.unwrap().denotes(number_value(s@).unwrap().0, number_value(s@).unwrap().1),
        r is Some ==> r.unwrap() == decimal_of(s@),
{
    let mut phase = Phase::Start;
    let mut negative = false;
    let mut digits: i128 = 0;
    let mut digit_count: usize = 0;
    let mut fraction_len: usize = 0;
    let mut exponent_negative = false;
    let mut exponent: i128 = 0;
    let mut exponent_digit_count: usize = 0;
    let mut i: usize = 0;
    while i < s.len()
        invariant
            i <= s.len(),
            0 <= digits <= DIGITS_MAX,
            0 <= exponent <= EXPONENT_MAX,
            digit_count <= i,
            fraction_len <= i,
            exponent_digit_count <= i,
            ({
                let st = scan(s@.take(i as int));
                &&& st.phase == phase
                &&& st.negative == negative
                &&& st.digits == digits
                &&& st.digit_count == digit_count
                &&& st.fraction_len == fraction_len
                &&& st.exponent_negative == exponent_negative
                &&& st.exponent == exponent
                &&& st.exponent_digit_count == exponent_digit_count
            }),
        decreases s.len() - i,
    {
        let c = s[i];
        proof {
            assert(s@.take(i + 1).drop_last() == s@.take(i as int));
        }
        let digit = 48 <= c && c <= 57;
        match phase {
            Phase::Start => {
                if c == 45 {
                    phase = Phase::Whole;
                    negative = true;
                } else if c == 43 {
                    phase = Phase::Whole;
                } else if digit {
                    let d = digits * 10 + (c - 48) as i128;
                    if d > DIGITS_MAX {
                        phase = Phase::Rejected;
                    } else {
                        phase = Phase::Whole;
                        digits = d;
                        digit_count = digit_count + 1;
                    }
                } else if c == 46 {
                    phase = Phase::Fraction;
                } else {
                    phase = Phase::Rejected;
                }
            },
            Phase::Whole => {
                if digit {
                    let d = digits * 10 + (c - 48) as i128;
                    if d > DIGITS_MAX {
                        phase = Phase::Rejected;
                    } else {
                        digits = d;
                        digit_count = digit_count + 1;
                    }
                } else if c == 46 {
                    phase = Phase::Fraction;
                } else if (c == 101 || c == 69) && digit_count > 0 {
                    phase = Phase::ExponentStart;
                } else {
                    phase = Phase::Rejected;
                }
            },
            Phase::Fraction => {
                if digit {
                    let d = digits * 10 + (c - 48) as i128;
                    if d > DIGITS_MAX {
                        phase = Phase::Rejected;
                    } else {
                        digits = d;
                        digit_count = digit_count + 1;
                        fraction_len = fraction_len + 1;
                    }
                } else if (c == 101 || c == 69) && digit_count > 0 {
                    phase = Phase::ExponentStart;
                } else {
                    phase = Phase::Rejected;
                }
            },
            Phase::ExponentStart => {
                if c == 45 {
                    phase = Phase::Exponent;
                    exponent_negative = true;
                } else if c == 43 {
                    phase = Phase::Exponent;
                } else if digit {
                    let e = exponent * 10 + (c - 48) as i128;
                    if e > EXPONENT_MAX {
                        phase = Phase::Rejected;
                    } else {
                        phase = Phase::Exponent;
                        exponent = e;
                        exponent_digit_count = exponent_digit_count + 1;
                    }
                } else {
                    phase = Phase::Rejected;
                }
            },
            Phase::Exponent => {
                if digit {
                    let e = exponent * 10 + (c - 48) as i128;
                    if e > EXPONENT_MAX {
                        phase = Phase::Rejected;
                    } else {
                        exponent = e;
                        exponent_digit_count = exponent_digit_count + 1;
                    }
                } else {
                    phase = Phase::Rejected;
                }
            },
            Phase::Rejected => {},
        }
        i = i + 1;
    }
    proof {
        assert(s@.take(s@.len() as int) == s@);
    }
    let whole_ok = (phase == Phase::Whole || phase == Phase::Fraction) && digit_count > 0;
    let exp_ok = phase == Phase::Exponent && exponent_digit_count > 0;
    if !whole_ok && !exp_ok {
        return None;
    }
    let m: i128 = if negative { -digits } else { digits };
    let e: i128 = if exponent_negative { -exponent } else { exponent };
    let k: i128 = e - fraction_len as i128;
    let r = if k >= 0 {
        let unit = Decimal { mantissa: m, scale: 0 };
        match unit.align(k as u32) {
            Some(v) => Some(Decimal::new(v, 0)),
            None => None,
        }
    } else if -k > u32::MAX as i128 {
        None
    } else {
        Some(Decimal::new(m, (-k) as u32))
    };
    proof {
        if r is Some {
            let v = number_value(s@).unwrap();
            let d = decimal_of(s@);
            assert(r.unwrap().denotes(v.0, v.1));
            assert(d.denotes(v.0, v.1));
            lemma_denotes_unique(r.unwrap(), d, v.0, v.1);
        }
    }
    r
}

} // verus!
