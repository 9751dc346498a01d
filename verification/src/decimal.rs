//! Exact decimal numbers in `rust_decimal`'s representation: a sign, a
//! 96-bit magnitude and a power-of-ten scale of at most 28. Arithmetic and
//! parsing are done by `rust_decimal`; formatting and normalization, whose
//! behaviour is short to state, are written and proved here.

use vstd::prelude::*;

use crate::text::{dec_string, pad_zero, u64_to_chars, pad_zero_chars, slice_chars, string_of};

verus! {

/// The largest magnitude `rust_decimal` represents (2^96 - 1).
pub open spec fn max_magnitude() -> int {
    0xffff_ffff_ffff_ffff_ffff_ffff
}

/// `10^n`.
pub open spec fn pow10(n: nat) -> int
    decreases n,
{
    if n == 0 {
        1
    } else {
        10 * pow10((n - 1) as nat)
    }
}

/// A power of ten is positive.
pub proof fn lemma_pow10_pos(n: nat)
    ensures
        pow10(n) > 0,
    decreases n,
{
    if n > 0 {
        lemma_pow10_pos((n - 1) as nat);
    }
}

/// Dropping trailing fractional zeros keeps the value
/// (`m / 10^s == m' / 10^s'`), shrinks neither bound, and keeps the sign of
/// a nonzero value.
pub proof fn lemma_normalize_value(negative: bool, magnitude: nat, scale: nat)
    ensures
        ({
            let r = normalize_parts(negative, magnitude, scale);
            &&& magnitude * pow10(r.2) == r.1 * pow10(scale)
            &&& r.1 <= magnitude
            &&& r.2 <= scale
            &&& r.1 == 0 ==> !r.0
            &&& r.1 != 0 ==> r.0 == negative
        }),
    decreases scale,
{
    if magnitude != 0 && scale > 0 && magnitude % 10 == 0 {
        let m = magnitude / 10;
        let s = (scale - 1) as nat;
        lemma_normalize_value(negative, m, s);
        let r = normalize_parts(negative, m, s);
        let p = pow10(r.2);
        let q = pow10(s);
        assert(pow10(scale) == 10 * q);
        assert(magnitude == 10 * m);
        assert(magnitude * p == 10 * (m * p)) by (nonlinear_arith)
            requires
                magnitude == 10 * m,
        ;
        assert(r.1 * pow10(scale) == 10 * (r.1 * q)) by (nonlinear_arith)
            requires
                pow10(scale) == 10 * q,
        ;
    }
}

/// Denoting the same number is transitive.
pub proof fn lemma_same_parts_trans(a: (bool, int, int), b: (bool, int, int), c: (bool, int, int))
    requires
        same_parts(a, b),
        same_parts(b, c),
        0 <= a.2,
        0 <= b.2,
        0 <= c.2,
    ensures
        same_parts(a, c),
{
    let pa = pow10(a.2 as nat);
    let pb = pow10(b.2 as nat);
    let pc = pow10(c.2 as nat);
    lemma_pow10_pos(b.2 as nat);
    assert(a.1 * pc * pb == c.1 * pa * pb) by (nonlinear_arith)
        requires
            a.1 * pb == b.1 * pa,
            b.1 * pc == c.1 * pb,
    ;
    assert(a.1 * pc == c.1 * pa) by (nonlinear_arith)
        requires
            a.1 * pc * pb == c.1 * pa * pb,
            pb > 0,
    ;
}

/// A well-formed number and its normalized form denote the same number.
pub proof fn lemma_normalized_same(p: (bool, int, int))
    requires
        well_formed_parts(p),
    ensures
        ({
            let r = normalize_parts(p.0, if p.1 < 0 { (-p.1) as nat } else { p.1 as nat }, p.2 as nat);
            &&& same_parts(signed_parts(r.0, r.1, r.2), p)
            &&& r.1 <= max_magnitude()
            &&& r.2 <= 28
        }),
{
    let m: nat = if p.1 < 0 { (-p.1) as nat } else { p.1 as nat };
    lemma_normalize_value(p.0, m, p.2 as nat);
    let r = normalize_parts(p.0, m, p.2 as nat);
    let pr = pow10(r.2);
    let ps = pow10(p.2 as nat);
    if r.0 {
        assert(p.1 == -m);
        assert(-(r.1 as int) * ps == p.1 * pr) by (nonlinear_arith)
            requires
                m * pr == r.1 * ps,
                p.1 == -m,
        ;
    } else if r.1 != 0 {
        assert(p.1 == m);
    } else {
        assert(m * pr == 0);
        lemma_pow10_pos(r.2);
        assert(m == 0) by (nonlinear_arith)
            requires
                m * pr == 0,
                pr > 0,
        ;
    }
}

/// A decimal number `(-1)^negative * magnitude / 10^scale`.
#[derive(Clone, Copy, Debug)]
pub struct Decimal {
    negative: bool,
    magnitude: u128,
    scale: u32,
}

/// A decimal as `rust_decimal` reports it: sign flag, signed mantissa, scale.
pub open spec fn well_formed_parts(p: (bool, int, int)) -> bool {
    &&& -max_magnitude() <= p.1 <= max_magnitude()
    &&& 0 <= p.2 <= 28
    &&& p.1 < 0 ==> p.0
    &&& p.1 > 0 ==> !p.0
}

/// The number `(-1)^negative * magnitude / 10^scale` as (sign, signed
/// mantissa, scale).
pub open spec fn signed_parts(negative: bool, magnitude: nat, scale: nat) -> (bool, int, int) {
    (negative, if negative {
        -magnitude
    } else {
        magnitude as int
    }, scale as int)
}

/// Two (sign, signed mantissa, scale) triples denote the same number.
pub open spec fn same_parts(p: (bool, int, int), q: (bool, int, int)) -> bool {
    p.1 * pow10(q.2 as nat) == q.1 * pow10(p.2 as nat)
}

/// When `t` is the text `display` gives for a number with a magnitude
/// below 2^96 and at most 28 fractional digits, `r` is that number.
pub open spec fn reads_as_displayed(t: Seq<char>, r: Option<(bool, i128, u32)>) -> bool {
    forall|q: (bool, nat, nat)|
        #[trigger] display(q.0, q.1, q.2) == t && q.1 <= max_magnitude() && q.2 <= 28 ==> (r matches Some(p)
            && same_parts((p.0, p.1 as int, p.2 as int), signed_parts(q.0, q.1, q.2)))
}

/// `str::parse::<rust_decimal::Decimal>` on the given characters.
pub uninterp spec fn decimal_from_str(s: Seq<char>) -> Option<(bool, int, int)>;

/// `rust_decimal::Decimal::checked_mul`.
pub uninterp spec fn decimal_mul(a: (bool, int, int), b: (bool, int, int)) -> Option<(bool, int, int)>;

/// `rust_decimal::Decimal::checked_div`.
pub uninterp spec fn decimal_div(a: (bool, int, int), b: (bool, int, int)) -> Option<(bool, int, int)>;

/// `rust_decimal::Decimal::checked_sub`.
pub uninterp spec fn decimal_sub(a: (bool, int, int), b: (bool, int, int)) -> Option<(bool, int, int)>;

/// `rust_decimal::Decimal::round_dp_with_strategy` with `MidpointAwayFromZero`.
pub uninterp spec fn decimal_round_dp(a: (bool, int, int), dp: int) -> (bool, int, int);

impl Decimal {
    /// The magnitude fits in 96 bits and the scale is at most 28.
    #[verifier::type_invariant]
    pub open spec fn inv(self) -> bool {
        self.magnitude() <= max_magnitude() && self.scale() <= 28
    }

    /// Whether the sign flag is set (a negative zero has it too).
    pub closed spec fn is_negative(self) -> bool {
        self.negative
    }

    /// The magnitude of the mantissa.
    pub closed spec fn magnitude(self) -> nat {
        self.magnitude as nat
    }

    /// The power of ten the mantissa is divided by.
    pub closed spec fn scale(self) -> nat {
        self.scale as nat
    }

    /// The signed mantissa.
    pub open spec fn signed(self) -> int {
        if self.is_negative() {
            -self.magnitude()
        } else {
            self.magnitude() as int
        }
    }

    /// The representation as (sign flag, signed mantissa, scale).
    pub open spec fn parts(self) -> (bool, int, int) {
        (self.is_negative(), self.signed(), self.scale() as int)
    }

    /// Numeric equality: `a / 10^sa == b / 10^sb`.
    pub open spec fn same_value(self, other: Decimal) -> bool {
        self.signed() * pow10(other.scale()) == other.signed() * pow10(self.scale())
    }

    /// `num / 10^scale` (`rust_decimal::Decimal::new`).
    pub fn new(num: i64, scale: u32) -> (d: Decimal)
        requires
            scale <= 28,
        ensures
            d.signed() == num,
            d.is_negative() == (num < 0),
            d.scale() == scale,
    {
        let negative = num < 0;
        let magnitude: u128 = if negative {
            (0i128 - (num as i128)) as u128
        } else {
            num as u128
        };
        Decimal { negative, magnitude, scale }
    }

    /// Builds a decimal from `rust_decimal` parts.
    pub fn from_parts(negative: bool, mantissa: i128, scale: u32) -> (d: Decimal)
        requires
            well_formed_parts((negative, mantissa as int, scale as int)),
        ensures
            d.parts() == (negative, mantissa as int, scale as int),
    {
        let magnitude: u128 = if mantissa < 0 {
            (0i128 - mantissa) as u128
        } else {
            mantissa as u128
        };
        Decimal { negative, magnitude, scale }
    }

    /// The `rust_decimal` parts (sign flag, signed mantissa, scale).
    pub fn to_parts(&self) -> (r: (bool, i128, u32))
        ensures
            r.0 == self.parts().0,
            r.1 as int == self.parts().1,
            r.2 as int == self.parts().2,
            well_formed_parts(self.parts()),
            -max_magnitude() <= r.1 <= max_magnitude(),
            r.2 <= 28,
    {
        proof {
            use_type_invariant(self);
        }
        let m: i128 = if self.negative {
            0i128 - (self.magnitude as i128)
        } else {
            self.magnitude as i128
        };
        (self.negative, m, self.scale)
    }

    /// Whether the value is zero.
    pub fn is_zero(&self) -> (r: bool)
        ensures
            r == (self.magnitude() == 0),
    {
        self.magnitude == 0
    }

    /// The absolute value (`rust_decimal::Decimal::abs`: clears the sign flag).
    pub fn abs(&self) -> (r: Decimal)
        ensures
            r.is_negative() == false,
            r.magnitude() == self.magnitude(),
            r.scale() == self.scale(),
    {
        proof {
            use_type_invariant(self);
        }
        Decimal { negative: false, magnitude: self.magnitude, scale: self.scale }
    }
}

/// `rust_decimal::Decimal::normalize`: trailing zeros stripped, `-0` made `0`.
pub open spec fn normalize_parts(negative: bool, magnitude: nat, scale: nat) -> (bool, nat, nat)
    decreases scale,
{
    if magnitude == 0 {
        (false, 0, 0)
    } else if scale > 0 && magnitude % 10 == 0 {
        normalize_parts(negative, magnitude / 10, (scale - 1) as nat)
    } else {
        (negative, magnitude, scale)
    }
}

impl Decimal {
    /// The same value without trailing fractional zeros (`normalize`).
    pub fn normalize(&self) -> (r: Decimal)
        ensures
            (r.is_negative(), r.magnitude(), r.scale()) == normalize_parts(
                self.is_negative(),
                self.magnitude(),
                self.scale(),
            ),
    {
        proof {
            use_type_invariant(self);
        }
        if self.magnitude == 0 {
            return Decimal { negative: false, magnitude: 0, scale: 0 };
        }
        let mut m = self.magnitude;
        let mut s = self.scale;
        while s > 0 && m % 10 == 0
            invariant
                m > 0,
                m <= self.magnitude,
                s <= self.scale,
                normalize_parts(self.negative, self.magnitude as nat, self.scale as nat)
                    == normalize_parts(self.negative, m as nat, s as nat),
            decreases s,
        {
            m = m / 10;
            s = s - 1;
        }
        Decimal { negative: self.negative, magnitude: m, scale: s }
    }
}

/// `rust_decimal::Decimal`'s `Display` output (no precision requested).
pub open spec fn display(negative: bool, magnitude: nat, scale: nat) -> Seq<char> {
    let digits = if magnitude == 0 {
        Seq::<char>::empty()
    } else {
        dec_string(magnitude)
    };
    let padded = pad_zero(digits, scale);
    let split = padded.len() - scale;
    let whole = padded.take(split);
    let body = if scale == 0 {
        if padded.len() == 0 {
            seq!['0']
        } else {
            padded
        }
    } else {
        (if whole.len() == 0 {
            seq!['0']
        } else {
            whole
        }) + seq!['.'] + padded.skip(split)
    };
    if negative {
        seq!['-'] + body
    } else {
        body
    }
}

impl Decimal {
    /// The decimal text of the value, as `rust_decimal` displays it.
    pub open spec fn display_view(self) -> Seq<char> {
        display(self.is_negative(), self.magnitude(), self.scale())
    }

    /// Formats the value like `rust_decimal::Decimal`'s `Display`.
    pub fn to_string(&self) -> (s: String)
        ensures
            s@ == self.display_view(),
    {
        proof {
            use_type_invariant(self);
        }
        let digits: Vec<char> = if self.magnitude == 0 {
            Vec::new()
        } else {
            u128_to_chars(self.magnitude)
        };
        let padded = pad_zero_chars(digits.as_slice(), self.scale as usize);
        let split = padded.len() - self.scale as usize;
        let mut out: Vec<char> = Vec::new();
        if self.negative {
            out.push('-');
        }
        let ghost pre = out@;
        if self.scale == 0 {
            if padded.len() == 0 {
                out.push('0');
            } else {
                let mut i: usize = 0;
                while i < padded.len()
                    invariant
                        i <= padded@.len(),
                        out@ == pre + padded@.take(i as int),
                    decreases padded@.len() - i,
                {
                    out.push(padded[i]);
                    i += 1;
                    assert(pre + padded@.take(i as int) == (pre + padded@.take((i - 1) as int)).push(
                        padded@[i - 1],
                    ));
                }
                assert(padded@.take(i as int) == padded@);
            }
        } else {
            if split == 0 {
                out.push('0');
            } else {
                let mut i: usize = 0;
                while i < split
                    invariant
                        split <= padded@.len(),
                        i <= split,
                        out@ == pre + padded@.take(i as int),
                    decreases split - i,
                {
                    out.push(padded[i]);
                    i += 1;
                    assert(pre + padded@.take(i as int) == (pre + padded@.take((i - 1) as int)).push(
                        padded@[i - 1],
                    ));
                }
            }
            let ghost pre2 = out@;
            out.push('.');
            let mut j: usize = split;
            while j < padded.len()
                invariant
                    split <= j <= padded@.len(),
                    out@ == pre2.push('.') + padded@.subrange(split as int, j as int),
                decreases padded@.len() - j,
            {
                out.push(padded[j]);
                j += 1;
                assert(pre2.push('.') + padded@.subrange(split as int, j as int) == (pre2.push('.')
                    + padded@.subrange(split as int, (j - 1) as int)).push(padded@[j - 1]));
            }
            proof {
                assert(padded@.subrange(split as int, j as int) == padded@.skip(split as int));
                if split == 0 {
                    assert(padded@.take(0).len() == 0);
                }
            }
        }
        proof {
            let whole = padded@.take(split as int);
            let body = if self.scale == 0 {
                if padded@.len() == 0 {
                    seq!['0']
                } else {
                    padded@
                }
            } else {
                (if whole.len() == 0 {
                    seq!['0']
                } else {
                    whole
                }) + seq!['.'] + padded@.skip(split as int)
            };
            assert(out@ =~= pre + body);
            if self.negative {
                assert(pre == seq!['-']);
            } else {
                assert(pre =~= Seq::<char>::empty());
            }
        }
        string_of(out.as_slice())
    }
}

/// The decimal numeral of a `u128`.
pub fn u128_to_chars(n: u128) -> (r: Vec<char>)
    ensures
        r@ == dec_string(n as nat),
{
    let mut out: Vec<char> = Vec::new();
    let mut x: u128 = n;
    assert(dec_string(n as nat) == dec_string(x as nat) + out@);
    while x >= 10
        invariant
            dec_string(n as nat) == dec_string(x as nat) + out@,
        decreases x,
    {
        let d: u8 = (x % 10) as u8;
        let ch: char = (48u8 + d) as char;
        let ghost old_out = out@;
        out.insert(0, ch);
        proof {
            assert(out@ == seq![ch] + old_out);
            assert(dec_string(x as nat) == dec_string((x / 10) as nat).push(ch));
            assert(dec_string((x / 10) as nat).push(ch) + old_out == dec_string((x / 10) as nat)
                + (seq![ch] + old_out));
        }
        x = x / 10;
    }
    let ghost old_out = out@;
    let ch: char = (48u8 + (x as u8)) as char;
    out.insert(0, ch);
    assert(out@ == seq![ch] + old_out);
    assert(dec_string(x as nat) == seq![ch]);
    out
}

// ---------------------------------------------------------------------------
// Calls into rust_decimal
// ---------------------------------------------------------------------------

/// Calls `rust_decimal::Decimal::from_str`. The result is the named
/// `decimal_from_str` of the text; its representation is well formed. Text
/// in the form `display` gives, for a magnitude below 2^96 and at most 28
/// fractional digits, reads as that number: the parser accumulates the
/// digits into a 96-bit mantissa and counts the fractional ones as the
/// scale, and only rounds or fails beyond those bounds.
#[verifier::external_body]
fn rd_from_str(s: &str) -> (r: Option<(bool, i128, u32)>)
    ensures
        match r {
            Some(p) => decimal_from_str(s@) == Some((p.0, p.1 as int, p.2 as int)) && well_formed_parts(
                (p.0, p.1 as int, p.2 as int),
            ),
            None => decimal_from_str(s@) is None,
        },
        reads_as_displayed(s@, r),
{
    match <rust_decimal::Decimal as core::str::FromStr>::from_str(s) {
        Ok(d) => Some((d.is_sign_negative(), d.mantissa(), d.scale())),
        Err(_) => None,
    }
}

/// Calls `rust_decimal::Decimal::checked_mul` on the two values.
#[verifier::external_body]
fn rd_checked_mul(a: (bool, i128, u32), b: (bool, i128, u32)) -> (r: Option<(bool, i128, u32)>)
    requires
        well_formed_parts((a.0, a.1 as int, a.2 as int)),
        well_formed_parts((b.0, b.1 as int, b.2 as int)),
    ensures
        match r {
            Some(p) => decimal_mul((a.0, a.1 as int, a.2 as int), (b.0, b.1 as int, b.2 as int))
                == Some((p.0, p.1 as int, p.2 as int)) && well_formed_parts(
                (p.0, p.1 as int, p.2 as int),
            ),
            None => decimal_mul((a.0, a.1 as int, a.2 as int), (b.0, b.1 as int, b.2 as int)) is None,
        },
{
    let mut x = rust_decimal::Decimal::from_i128_with_scale(a.1, a.2);
    x.set_sign_negative(a.0);
    let mut y = rust_decimal::Decimal::from_i128_with_scale(b.1, b.2);
    y.set_sign_negative(b.0);
    match x.checked_mul(y) {
        Some(d) => Some((d.is_sign_negative(), d.mantissa(), d.scale())),
        None => None,
    }
}


/// Calls `rust_decimal::Decimal::checked_div` on the two values.
#[verifier::external_body]
fn rd_checked_div(a: (bool, i128, u32), b: (bool, i128, u32)) -> (r: Option<(bool, i128, u32)>)
    requires
        well_formed_parts((a.0, a.1 as int, a.2 as int)),
        well_formed_parts((b.0, b.1 as int, b.2 as int)),
    ensures
        match r {
            Some(p) => decimal_div((a.0, a.1 as int, a.2 as int), (b.0, b.1 as int, b.2 as int))
                == Some((p.0, p.1 as int, p.2 as int)) && well_formed_parts(
                (p.0, p.1 as int, p.2 as int),
            ),
            None => decimal_div((a.0, a.1 as int, a.2 as int), (b.0, b.1 as int, b.2 as int)) is None,
        },
{
    let mut x = rust_decimal::Decimal::from_i128_with_scale(a.1, a.2);
    x.set_sign_negative(a.0);
    let mut y = rust_decimal::Decimal::from_i128_with_scale(b.1, b.2);
    y.set_sign_negative(b.0);
    match x.checked_div(y) {
        Some(d) => Some((d.is_sign_negative(), d.mantissa(), d.scale())),
        None => None,
    }
}

/// Calls `rust_decimal::Decimal::checked_sub` on the two values.
#[verifier::external_body]
fn rd_checked_sub(a: (bool, i128, u32), b: (bool, i128, u32)) -> (r: Option<(bool, i128, u32)>)
    requires
        well_formed_parts((a.0, a.1 as int, a.2 as int)),
        well_formed_parts((b.0, b.1 as int, b.2 as int)),
    ensures
        match r {
            Some(p) => decimal_sub((a.0, a.1 as int, a.2 as int), (b.0, b.1 as int, b.2 as int))
                == Some((p.0, p.1 as int, p.2 as int)) && well_formed_parts(
                (p.0, p.1 as int, p.2 as int),
            ),
            None => decimal_sub((a.0, a.1 as int, a.2 as int), (b.0, b.1 as int, b.2 as int)) is None,
        },
{
    let mut x = rust_decimal::Decimal::from_i128_with_scale(a.1, a.2);
    x.set_sign_negative(a.0);
    let mut y = rust_decimal::Decimal::from_i128_with_scale(b.1, b.2);
    y.set_sign_negative(b.0);
    match x.checked_sub(y) {
        Some(d) => Some((d.is_sign_negative(), d.mantissa(), d.scale())),
        None => None,
    }
}

/// Calls `rust_decimal::Decimal::round_dp_with_strategy` with
/// `RoundingStrategy::MidpointAwayFromZero`.
#[verifier::external_body]
fn rd_round_dp(a: (bool, i128, u32), dp: u32) -> (r: (bool, i128, u32))
    requires
        well_formed_parts((a.0, a.1 as int, a.2 as int)),
    ensures
        decimal_round_dp((a.0, a.1 as int, a.2 as int), dp as int) == (r.0, r.1 as int, r.2 as int),
        well_formed_parts((r.0, r.1 as int, r.2 as int)),
{
    let mut x = rust_decimal::Decimal::from_i128_with_scale(a.1, a.2);
    x.set_sign_negative(a.0);
    let d = x.round_dp_with_strategy(dp, rust_decimal::RoundingStrategy::MidpointAwayFromZero);
    (d.is_sign_negative(), d.mantissa(), d.scale())
}

/// Calls `PartialEq` of `rust_decimal::Decimal`, which compares numeric values.
#[verifier::external_body]
fn rd_eq(a: (bool, i128, u32), b: (bool, i128, u32)) -> (r: bool)
    requires
        well_formed_parts((a.0, a.1 as int, a.2 as int)),
        well_formed_parts((b.0, b.1 as int, b.2 as int)),
    ensures
        r == (a.1 * pow10(b.2 as nat) == b.1 * pow10(a.2 as nat)),
{
    let mut x = rust_decimal::Decimal::from_i128_with_scale(a.1, a.2);
    x.set_sign_negative(a.0);
    let mut y = rust_decimal::Decimal::from_i128_with_scale(b.1, b.2);
    y.set_sign_negative(b.0);
    x == y
}

/// The message `rust_decimal` gives when it cannot parse `s` (empty when it can).
#[verifier::external_body]
pub(crate) fn parse_error_message(s: &str) -> String {
    match <rust_decimal::Decimal as core::str::FromStr>::from_str(s) {
        Ok(_) => String::new(),
        Err(e) => e.to_string(),
    }
}

impl Decimal {
    /// Parses decimal text with `rust_decimal`'s `FromStr`.
    pub fn parse(s: &str) -> (r: Option<Decimal>)
        ensures
            match r {
                Some(d) => decimal_from_str(s@) == Some(d.parts()),
                None => decimal_from_str(s@) is None,
            },
            forall|q: (bool, nat, nat)|
                #[trigger] display(q.0, q.1, q.2) == s@ && q.1 <= max_magnitude() && q.2 <= 28 ==> (r matches Some(d)
                    && same_parts(d.parts(), signed_parts(q.0, q.1, q.2))),
    {
        match rd_from_str(s) {
            Some(p) => Some(Decimal::from_parts(p.0, p.1, p.2)),
            None => None,
        }
    }

    /// `self * other`, or `None` on overflow.
    pub fn checked_mul(&self, other: &Decimal) -> (r: Option<Decimal>)
        ensures
            match r {
                Some(d) => decimal_mul(self.parts(), other.parts()) == Some(d.parts()),
                None => decimal_mul(self.parts(), other.parts()) is None,
            },
    {
        match rd_checked_mul(self.to_parts(), other.to_parts()) {
            Some(p) => Some(Decimal::from_parts(p.0, p.1, p.2)),
            None => None,
        }
    }

    /// `self / other`, or `None` on overflow or division by zero.
    pub fn checked_div(&self, other: &Decimal) -> (r: Option<Decimal>)
        ensures
            match r {
                Some(d) => decimal_div(self.parts(), other.parts()) == Some(d.parts()),
                None => decimal_div(self.parts(), other.parts()) is None,
            },
    {
        match rd_checked_div(self.to_parts(), other.to_parts()) {
            Some(p) => Some(Decimal::from_parts(p.0, p.1, p.2)),
            None => None,
        }
    }

    /// `self - other`, or `None` on overflow.
    pub fn checked_sub(&self, other: &Decimal) -> (r: Option<Decimal>)
        ensures
            match r {
                Some(d) => decimal_sub(self.parts(), other.parts()) == Some(d.parts()),
                None => decimal_sub(self.parts(), other.parts()) is None,
            },
    {
        match rd_checked_sub(self.to_parts(), other.to_parts()) {
            Some(p) => Some(Decimal::from_parts(p.0, p.1, p.2)),
            None => None,
        }
    }

    /// Rounds to `dp` fractional digits, halves away from zero.
    pub fn round_dp_away(&self, dp: u32) -> (r: Decimal)
        ensures
            r.parts() == decimal_round_dp(self.parts(), dp as int),
    {
        let p = rd_round_dp(self.to_parts(), dp);
        Decimal::from_parts(p.0, p.1, p.2)
    }

    /// Numeric equality.
    pub fn value_eq(&self, other: &Decimal) -> (r: bool)
        ensures
            r == self.same_value(*other),
    {
        rd_eq(self.to_parts(), other.to_parts())
    }
}

impl PartialEq for Decimal {
    fn eq(&self, other: &Decimal) -> (r: bool) {
        self.value_eq(other)
    }
}

impl vstd::std_specs::cmp::PartialEqSpecImpl for Decimal {
    open spec fn obeys_eq_spec() -> bool {
        true
    }

    open spec fn eq_spec(&self, other: &Decimal) -> bool {
        self.same_value(*other)
    }
}

} // verus!
