//! Tick arithmetic and time signatures.
use vstd::prelude::*;
use vstd::string::StrSliceExecFns;

use crate::error::OrdiseqError;
use crate::util::{push_char, push_decimal};

verus! {

/// A point in time or a duration, counted in ticks.
#[derive(Debug, Clone, Copy, PartialEq, Eq, PartialOrd, Ord)]
pub struct Time {
    pub ticks: u32,
}

/// `x * num / den`, rounded to the nearest integer (halves round up).
pub open spec fn scaled_round(x: int, num: int, den: int) -> int
    recommends
        den > 0,
{
    (2 * x * num + den) / (2 * den)
}

impl Time {
    /// The sum of two tick counts.
    pub fn add(self, rhs: u32) -> (r: Time)
        requires
            self.ticks + rhs <= u32::MAX,
        ensures
            r.ticks == self.ticks + rhs,
    {
        Time { ticks: self.ticks + rhs }
    }

    /// The difference of two tick counts; it stops at zero.
    pub fn sub(self, rhs: u32) -> (r: Time)
        ensures
            r.ticks == if self.ticks >= rhs { self.ticks - rhs } else { 0 },
    {
        Time { ticks: self.ticks.saturating_sub(rhs) }
    }

    /// The tick count multiplied by a factor.
    pub fn mul(self, rhs: u32) -> (r: Time)
        requires
            self.ticks * rhs <= u32::MAX,
        ensures
            r.ticks == self.ticks * rhs,
    {
        Time { ticks: self.ticks * rhs }
    }

    /// The tick count divided by a non-zero divisor, rounded down.
    pub fn div(self, rhs: u32) -> (r: Time)
        requires
            rhs != 0,
        ensures
            r.ticks == self.ticks / rhs,
    {
        Time { ticks: self.ticks / rhs }
    }

    /// Adds to the tick count in place.
    pub fn add_assign(&mut self, rhs: u32)
        requires
            old(self).ticks + rhs <= u32::MAX,
        ensures
            final(self).ticks == old(self).ticks + rhs,
    {
        self.ticks = self.ticks + rhs;
    }

    /// Subtracts from the tick count in place, stopping at zero.
    pub fn sub_assign(&mut self, rhs: u32)
        ensures
            final(self).ticks == if old(self).ticks >= rhs { old(self).ticks - rhs } else { 0 },
    {
        self.ticks = self.ticks.saturating_sub(rhs);
    }

    /// Multiplies the tick count in place.
    pub fn mul_assign(&mut self, rhs: u32)
        requires
            old(self).ticks * rhs <= u32::MAX,
        ensures
            final(self).ticks == old(self).ticks * rhs,
    {
        self.ticks = self.ticks * rhs;
    }

    /// Divides the tick count in place by a non-zero divisor, rounding down.
    pub fn div_assign(&mut self, rhs: u32)
        requires
            rhs != 0,
        ensures
            final(self).ticks == old(self).ticks / rhs,
    {
        self.ticks = self.ticks / rhs;
    }

    /// The tick count scaled by the fraction `num / den`, rounded to the
    /// nearest tick.
    pub fn scale(self, num: u32, den: u32) -> (r: Time)
        requires
            den > 0,
            scaled_round(self.ticks as int, num as int, den as int) <= u32::MAX,
        ensures
            r.ticks == scaled_round(self.ticks as int, num as int, den as int),
    {
        proof {
            lemma_mul_bounded(self.ticks as int, num as int, u32::MAX as int, u32::MAX as int);
        }
        let p: u128 = (self.ticks as u128) * (num as u128);
        let n: u128 = 2 * p + (den as u128);
        let d: u128 = 2 * (den as u128);
        assert(2 * (self.ticks as int) * (num as int) == 2 * (p as int)) by (nonlinear_arith)
            requires
                p == (self.ticks as int) * (num as int),
        ;
        Time { ticks: (n / d) as u32 }
    }
}

/// A musical time signature together with the tick resolution of a quarter
/// note.
///
/// `beats_per_bar` is the numerator, `beat_unit` the note value of one beat
/// (1 = whole, 2 = half, 4 = quarter, 8 = eighth, ...).
#[derive(Debug, PartialEq, Eq, Clone, Copy)]
pub struct TimeSignature {
    pub beats_per_bar: u8,
    pub beat_unit: u8,
    pub ticks_per_quarter_note: u32,
}

/// Whether `n` is a power of two.
pub open spec fn is_pow2(n: int) -> bool {
    n == 1 || n == 2 || n == 4 || n == 8 || n == 16 || n == 32 || n == 64 || n == 128
}

/// Whether `c` is an ASCII decimal digit.
pub open spec fn is_digit(c: char) -> bool {
    '0' <= c && c <= '9'
}

pub open spec fn digit_value(c: char) -> nat {
    (c as nat - '0' as nat) as nat
}

pub open spec fn all_digits(s: Seq<char>) -> bool {
    forall|i: int| 0 <= i < s.len() ==> is_digit(#[trigger] s[i])
}

/// The number written by a string of decimal digits.
pub open spec fn decimal_value(s: Seq<char>) -> nat
    decreases s.len(),
{
    if s.len() == 0 {
        0
    } else {
        decimal_value(s.drop_last()) * 10 + digit_value(s.last())
    }
}

/// The `u8` that a string of digits writes, if it is one.
pub open spec fn digits_u8(s: Seq<char>) -> Option<u8> {
    if s.len() > 0 && all_digits(s) && decimal_value(s) <= 255 {
        Some(decimal_value(s) as u8)
    } else {
        None
    }
}

/// The `u8` that a string writes in decimal, with an optional leading `+`.
pub open spec fn parse_u8_spec(s: Seq<char>) -> Option<u8> {
    if s.len() > 0 && s[0] == '+' {
        digits_u8(s.drop_first())
    } else {
        digits_u8(s)
    }
}

/// Whether `s` holds exactly one `/`, at index `i`.
pub open spec fn single_slash_at(s: Seq<char>, i: int) -> bool {
    &&& 0 <= i < s.len()
    &&& s[i] == '/'
    &&& forall|j: int| 0 <= j < s.len() && j != i ==> s[j] != '/'
}

pub open spec fn has_single_slash(s: Seq<char>) -> bool {
    exists|i: int| single_slash_at(s, i)
}

pub open spec fn slash_index(s: Seq<char>) -> int {
    choose|i: int| single_slash_at(s, i)
}

/// The text before the single `/` of a signature.
pub open spec fn numerator_text(s: Seq<char>) -> Seq<char> {
    s.subrange(0, slash_index(s))
}

/// The text after the single `/` of a signature.
pub open spec fn denominator_text(s: Seq<char>) -> Seq<char> {
    s.subrange(slash_index(s) + 1, s.len() as int)
}

pub open spec fn format_reason() -> Seq<char> {
    "Input must be in the format 'numerator/denominator'"@
}

pub open spec fn numerator_reason() -> Seq<char> {
    "Numerator must be a valid number"@
}

pub open spec fn denominator_reason() -> Seq<char> {
    "Denominator must be a valid number"@
}

pub open spec fn power_of_two_reason() -> Seq<char> {
    "Denominator must be a power of two"@
}

/// Why the text `s` is not a time signature, or `None` when it is one.
pub open spec fn signature_rejection(s: Seq<char>) -> Option<Seq<char>> {
    if !has_single_slash(s) {
        Some(format_reason())
    } else if parse_u8_spec(numerator_text(s)) is None {
        Some(numerator_reason())
    } else if parse_u8_spec(denominator_text(s)) is None {
        Some(denominator_reason())
    } else if !is_pow2(parse_u8_spec(denominator_text(s))->0 as int) {
        Some(power_of_two_reason())
    } else {
        None
    }
}

/// Ticks of `beats_num / beats_den` beats of unit `unit` at `tpqn` ticks per
/// quarter note, before rounding: `beats * 4 / unit * tpqn`.
pub open spec fn beat_ticks_exact(ts: TimeSignature, beats_num: int, beats_den: int) -> int {
    scaled_round(beats_num * 4 * ts.ticks_per_quarter_note, 1, beats_den * ts.beat_unit)
}

pub open spec fn saturate_u32(x: int) -> u32 {
    if x > u32::MAX {
        u32::MAX
    } else {
        x as u32
    }
}

/// Ticks in one bar: `beats_per_bar * 4 / beat_unit * tpqn`, rounded down.
pub open spec fn bar_ticks(ts: TimeSignature) -> int
    recommends
        ts.beat_unit > 0,
{
    (ts.beats_per_bar * 4 * ts.ticks_per_quarter_note) / (ts.beat_unit as int)
}

/// Whether `n` is a power of two.
pub fn is_power_of_two_u8(n: u8) -> (r: bool)
    ensures
        r == is_pow2(n as int),
{
    n == 1 || n == 2 || n == 4 || n == 8 || n == 16 || n == 32 || n == 64 || n == 128
}

proof fn lemma_mul_bounded(a: int, b: int, x: int, y: int)
    requires
        0 <= a <= x,
        0 <= b <= y,
    ensures
        0 <= a * b <= x * y,
{
    assert(0 <= a * b <= x * y) by (nonlinear_arith)
        requires
            0 <= a <= x,
            0 <= b <= y,
    ;
}

proof fn lemma_decimal_step(s: Seq<char>, i: int)
    requires
        0 <= i < s.len(),
    ensures
        decimal_value(s.subrange(0, i + 1)) == decimal_value(s.subrange(0, i)) * 10
            + digit_value(s[i]),
{
    assert(s.subrange(0, i + 1).drop_last() =~= s.subrange(0, i));
}

/// Reads a `u8` written in decimal, with an optional leading `+`.
pub fn parse_u8(s: &str) -> (r: Option<u8>)
    ensures
        r == parse_u8_spec(s@),
{
    let n = s.unicode_len();
    let mut start: usize = 0;
    if n > 0 && s.get_char(0) == '+' {
        start = 1;
    }
    let ghost digits = s@.subrange(start as int, n as int);
    assert(start == 1 ==> digits =~= s@.drop_first());
    assert(start == 0 ==> digits =~= s@);
    if start >= n {
        return None;
    }
    let mut i: usize = start;
    let mut value: u32 = 0;
    let mut ok = true;
    while i < n
        invariant
            start <= i <= n,
            n == s@.len(),
            digits == s@.subrange(start as int, n as int),
            ok == all_digits(digits.subrange(0, i - start)),
            ok ==> value == if decimal_value(digits.subrange(0, i - start)) > 256 {
                256
            } else {
                decimal_value(digits.subrange(0, i - start))
            },
            value <= 256,
        decreases n - i,
    {
        let c = s.get_char(i);
        proof {
            let k = i - start;
            assert(digits[k] == c);
            lemma_decimal_step(digits, k);
            if ok && is_digit(c) {
                assert forall|j: int| 0 <= j < k + 1 implies is_digit(
                    #[trigger] digits.subrange(0, k + 1)[j],
                ) by {
                    if j < k {
                        assert(digits.subrange(0, k + 1)[j] == digits.subrange(0, k)[j]);
                    }
                }
            }
            if !is_digit(c) {
                assert(digits.subrange(0, k + 1)[k] == c);
            }
            if !ok {
                let w = choose|j: int| 0 <= j < k && !is_digit(digits.subrange(0, k)[j]);
                assert(digits.subrange(0, k + 1)[w] == digits.subrange(0, k)[w]);
            }
        }
        if ok && '0' <= c && c <= '9' {
            let d = (c as u32) - ('0' as u32);
            let next = value * 10 + d;
            value = if next > 256 { 256 } else { next };
        } else {
            ok = false;
        }
        i = i + 1;
    }
    assert(digits.subrange(0, n - start) =~= digits);
    if ok && value <= 255 {
        Some(value as u8)
    } else {
        None
    }
}

impl TimeSignature {
    /// A time signature's denominator is a power of two.
    pub open spec fn wf(&self) -> bool {
        is_pow2(self.beat_unit as int)
    }

    /// Parses a time signature written "numerator/denominator".
    ///
    /// Fails with `InvalidTimeSignature` when the text does not hold exactly
    /// one `/`, when either side is not a `u8` in decimal, or when the
    /// denominator is not a power of two.
    pub fn new(ts_str: &str, ticks_per_quarter_note: u32) -> (r: Result<Self, OrdiseqError>)
        ensures
            match r {
                Ok(ts) => {
                    &&& signature_rejection(ts_str@) is None
                    &&& ts.beats_per_bar == parse_u8_spec(numerator_text(ts_str@))->0
                    &&& ts.beat_unit == parse_u8_spec(denominator_text(ts_str@))->0
                    &&& ts.ticks_per_quarter_note == ticks_per_quarter_note
                    &&& ts.wf()
                },
                Err(e) => {
                    &&& signature_rejection(ts_str@) is Some
                    &&& e is InvalidTimeSignature
                    &&& e->InvalidTimeSignature_0@ == signature_rejection(ts_str@)->0
                },
            },
    {
        let n = ts_str.unicode_len();
        let mut first: Option<usize> = None;
        let mut many = false;
        let mut i: usize = 0;
        while i < n
            invariant
                i <= n,
                n == ts_str@.len(),
                first is None ==> forall|j: int| 0 <= j < i ==> ts_str@[j] != '/',
                first is Some ==> {
                    let f = first->0 as int;
                    &&& 0 <= f < i
                    &&& ts_str@[f] == '/'
                    &&& forall|j: int| 0 <= j < f ==> ts_str@[j] != '/'
                    &&& !many ==> forall|j: int| f < j < i ==> ts_str@[j] != '/'
                    &&& many ==> exists|j: int| f < j < i && ts_str@[j] == '/'
                },
                many ==> first is Some,
            decreases n - i,
        {
            if ts_str.get_char(i) == '/' {
                if first.is_none() {
                    first = Some(i);
                } else {
                    many = true;
                }
            }
            i = i + 1;
        }
        let ghost s = ts_str@;
        match first {
            Some(f) if !many => {
                assert(single_slash_at(s, f as int));
                assert(slash_index(s) == f) by {
                    let k = slash_index(s);
                    assert(single_slash_at(s, k));
                }
                let num_str = ts_str.substring_char(0, f);
                let den_str = ts_str.substring_char(f + 1, n);
                let beats_per_bar = match parse_u8(num_str) {
                    Some(v) => v,
                    None => {
                        return Err(
                            OrdiseqError::InvalidTimeSignature(
                                "Numerator must be a valid number".to_string(),
                            ),
                        );
                    },
                };
                let beat_unit = match parse_u8(den_str) {
                    Some(v) => v,
                    None => {
                        return Err(
                            OrdiseqError::InvalidTimeSignature(
                                "Denominator must be a valid number".to_string(),
                            ),
                        );
                    },
                };
                if !is_power_of_two_u8(beat_unit) {
                    return Err(
                        OrdiseqError::InvalidTimeSignature(
                            "Denominator must be a power of two".to_string(),
                        ),
                    );
                }
                Ok(TimeSignature { beats_per_bar, beat_unit, ticks_per_quarter_note })
            },
            _ => {
                assert(!has_single_slash(s)) by {
                    if has_single_slash(s) {
                        let k = choose|k: int| single_slash_at(s, k);
                        if first is Some {
                            let f = first->0 as int;
                            let j = choose|j: int| f < j < n && s[j] == '/';
                            assert(k != f || k != j);
                        }
                    }
                }
                Err(
                    OrdiseqError::InvalidTimeSignature(
                        "Input must be in the format 'numerator/denominator'".to_string(),
                    ),
                )
            },
        }
    }

    /// The signature written "numerator/denominator".
    pub fn to_string(&self) -> (r: String)
        ensures
            r@ == signature_text(self.beats_per_bar as nat, self.beat_unit as nat),
    {
        let mut text = String::new();
        push_decimal(&mut text, self.beats_per_bar as usize);
        push_char(&mut text, '/');
        push_decimal(&mut text, self.beat_unit as usize);
        text
    }

    /// The length of one bar in ticks, `beats_per_bar * 4 / beat_unit *
    /// ticks_per_quarter_note`, rounded down and capped at `u32::MAX`.
    pub fn bar_time(&self) -> (r: Time)
        requires
            self.wf(),
        ensures
            r.ticks == saturate_u32(bar_ticks(*self)),
    {
        proof {
            lemma_mul_bounded(
                self.beats_per_bar as int * 4,
                self.ticks_per_quarter_note as int,
                1020int,
                u32::MAX as int,
            );
        }
        let total: u64 = (self.beats_per_bar as u64) * 4 * (self.ticks_per_quarter_note as u64);
        let ticks = total / (self.beat_unit as u64);
        if ticks > 0xffff_ffffu64 {
            Time { ticks: u32::MAX }
        } else {
            Time { ticks: ticks as u32 }
        }
    }

    /// The length of `beats_num / beats_den` beats in ticks, rounded to the
    /// nearest tick and capped at `u32::MAX`.
    pub fn beat_time(&self, beats_num: u32, beats_den: u32) -> (r: Time)
        requires
            self.wf(),
            beats_den > 0,
        ensures
            r.ticks == saturate_u32(beat_ticks_exact(*self, beats_num as int, beats_den as int)),
    {
        proof {
            lemma_mul_bounded(
                beats_num as int * 4,
                self.ticks_per_quarter_note as int,
                u32::MAX as int * 4,
                u32::MAX as int,
            );
            lemma_mul_bounded(beats_den as int, self.beat_unit as int, u32::MAX as int, 255int);
        }
        let whole: u128 = (beats_num as u128) * 4 * (self.ticks_per_quarter_note as u128);
        let d: u128 = (beats_den as u128) * (self.beat_unit as u128);
        assert(d > 0) by (nonlinear_arith)
            requires
                beats_den > 0,
                self.beat_unit > 0,
                d == (beats_den as u128) * (self.beat_unit as u128),
        ;
        let ticks: u128 = (2 * whole + d) / (2 * d);
        if ticks > 0xffff_ffffu128 {
            Time { ticks: u32::MAX }
        } else {
            Time { ticks: ticks as u32 }
        }
    }
}

/// The recommended ticks per quarter note for a signature: 96 for a quarter
/// note beat, doubled for each step to longer beat units and halved for each
/// step to shorter ones, times the beats per bar.
pub open spec fn recommended_tpqn(ts: TimeSignature) -> Option<int> {
    if ts.beats_per_bar == 0 {
        None
    } else {
        let base: int = if ts.beat_unit == 1 {
            384
        } else if ts.beat_unit == 2 {
            192
        } else if ts.beat_unit == 4 {
            96
        } else if ts.beat_unit == 8 {
            48
        } else if ts.beat_unit == 16 {
            24
        } else {
            0
        };
        if base == 0 {
            None
        } else {
            Some(base * ts.beats_per_bar)
        }
    }
}

/// Calculates a recommended ticks per quarter note for a time signature.
///
/// Returns `None` for a zero numerator, for a beat unit outside
/// {1, 2, 4, 8, 16}, and when the recommendation does not fit in a `u16`.
pub fn calculate_tpqn(time_signature: TimeSignature) -> (r: Option<u16>)
    ensures
        match recommended_tpqn(time_signature) {
            Some(v) => if v <= u16::MAX {
                r == Some(v as u16)
            } else {
                r is None
            },
            None => r is None,
        },
{
    if time_signature.beats_per_bar == 0 || time_signature.beat_unit == 0 || (
    time_signature.beat_unit & (time_signature.beat_unit - 1)) != 0 {
        proof {
            if time_signature.beat_unit != 0 {
                let u = time_signature.beat_unit;
                assert(u == 1 || u == 2 || u == 4 || u == 8 || u == 16 ==> u & ((u - 1) as u8) == 0)
                    by (bit_vector);
            }
        }
        return None;
    }
    let base_tpqn: u32 = 96;
    let adjusted_tpqn: u32 = match time_signature.beat_unit {
        1 => base_tpqn * 4,
        2 => base_tpqn * 2,
        4 => base_tpqn,
        8 => base_tpqn / 2,
        16 => base_tpqn / 4,
        _ => {
            return None;
        },
    };
    proof {
        lemma_mul_bounded(adjusted_tpqn as int, time_signature.beats_per_bar as int, 384int, 255int);
    }
    let total: u32 = adjusted_tpqn * (time_signature.beats_per_bar as u32);
    if total > 0xffff {
        None
    } else {
        Some(total as u16)
    }
}

/// Common time: 4/4 at 96 ticks per quarter note.
pub fn common_time() -> (r: TimeSignature)
    ensures
        r == (TimeSignature { beats_per_bar: 4, beat_unit: 4, ticks_per_quarter_note: 96 }),
{
    TimeSignature { beats_per_bar: 4, beat_unit: 4, ticks_per_quarter_note: 96 }
}

/// The decimal digits of `n`.
pub open spec fn decimal_text(n: nat) -> Seq<char>
    decreases n,
{
    if n < 10 {
        seq![(n + '0' as nat) as char]
    } else {
        decimal_text(n / 10).push(((n % 10) + '0' as nat) as char)
    }
}

/// The signature `n/d` written in decimal.
pub open spec fn signature_text(n: nat, d: nat) -> Seq<char> {
    decimal_text(n) + seq!['/'] + decimal_text(d)
}

proof fn lemma_decimal_text(n: nat)
    ensures
        decimal_text(n).len() > 0,
        all_digits(decimal_text(n)),
        decimal_value(decimal_text(n)) == n,
    decreases n,
{
    let t = decimal_text(n);
    if n < 10 {
        assert(t.drop_last() =~= Seq::<char>::empty());
        assert(decimal_value(t.drop_last()) == 0);
    } else {
        lemma_decimal_text(n / 10);
        assert(t.drop_last() =~= decimal_text(n / 10));
        assert(digit_value(t.last()) == n % 10);
        assert((n / 10) * 10 + n % 10 == n) by (nonlinear_arith);
        assert forall|i: int| 0 <= i < t.len() implies is_digit(#[trigger] t[i]) by {
            if i < t.len() - 1 {
                assert(t[i] == decimal_text(n / 10)[i]);
            }
        }
    }
}

proof fn lemma_parse_decimal(n: u8)
    ensures
        parse_u8_spec(decimal_text(n as nat)) == Some(n),
{
    lemma_decimal_text(n as nat);
    assert(is_digit(decimal_text(n as nat)[0]));
}

proof fn lemma_signature_parts(n: u8, d: u8)
    ensures
        has_single_slash(signature_text(n as nat, d as nat)),
        numerator_text(signature_text(n as nat, d as nat)) == decimal_text(n as nat),
        denominator_text(signature_text(n as nat, d as nat)) == decimal_text(d as nat),
{
    let a = decimal_text(n as nat);
    let b = decimal_text(d as nat);
    let s = signature_text(n as nat, d as nat);
    lemma_decimal_text(n as nat);
    lemma_decimal_text(d as nat);
    let k = a.len() as int;
    assert forall|j: int| 0 <= j < s.len() && j != k implies s[j] != '/' by {
        if j < k {
            assert(s[j] == a[j]);
            assert(is_digit(a[j]));
        } else {
            assert(s[j] == b[j - k - 1]);
            assert(is_digit(b[j - k - 1]));
        }
    }
    assert(single_slash_at(s, k));
    let c = slash_index(s);
    assert(single_slash_at(s, c));
    assert(c == k);
    assert(s.subrange(0, k) =~= a);
    assert(s.subrange(k + 1, s.len() as int) =~= b);
}

/// A signature `n/d` with a numerator above zero and a power of two as its
/// denominator is accepted, and parses back to `n` and `d`: by the contract
/// of `TimeSignature::new`, it then returns `beats_per_bar == n` and
/// `beat_unit == d`.
pub proof fn lemma_valid_signature_round_trip(n: u8, d: u8)
    requires
        n > 0,
        is_pow2(d as int),
    ensures
        signature_rejection(signature_text(n as nat, d as nat)) is None,
        parse_u8_spec(numerator_text(signature_text(n as nat, d as nat))) == Some(n),
        parse_u8_spec(denominator_text(signature_text(n as nat, d as nat))) == Some(d),
{
    lemma_signature_parts(n, d);
    lemma_parse_decimal(n);
    lemma_parse_decimal(d);
}

/// A signature whose denominator is not a power of two is rejected, with
/// the reason that says so.
pub proof fn lemma_non_power_of_two_rejected(n: u8, d: u8)
    requires
        !is_pow2(d as int),
    ensures
        signature_rejection(signature_text(n as nat, d as nat)) == Some(power_of_two_reason()),
{
    lemma_signature_parts(n, d);
    lemma_parse_decimal(n);
    lemma_parse_decimal(d);
}

} // verus!
