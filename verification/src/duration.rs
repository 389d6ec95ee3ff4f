//! Spans of time as they stand in the configuration.
use crate::text::{cat, cat3, ends_with, strip_suffix, trim, trimmed, Str};
use vstd::prelude::*;

verus! {

/// A span of time in whole milliseconds.
#[derive(Debug, Clone, Copy, PartialEq, Eq, Structural)]
pub struct Duration {
    pub millis: u128,
}

impl Duration {
    /// A span of no time.
    pub fn zero() -> (d: Self)
        ensures
            d.millis == 0,
    {
        Duration { millis: 0 }
    }

    /// A span of `n` milliseconds.
    pub fn from_millis(n: u64) -> (d: Self)
        ensures
            d.millis == n,
    {
        Duration { millis: n as u128 }
    }

    /// A span of `n` seconds.
    pub fn from_secs(n: u64) -> (d: Self)
        ensures
            d.millis == n * 1000,
    {
        Duration { millis: n as u128 * 1000 }
    }

    /// The shorter of two spans.
    pub fn min(self, other: Self) -> (d: Self)
        ensures
            d == (if self.millis <= other.millis {
                self
            } else {
                other
            }),
    {
        if self.millis <= other.millis {
            self
        } else {
            other
        }
    }

    /// Whether the span is empty.
    pub fn is_zero(&self) -> (r: bool)
        ensures
            r == (self.millis == 0),
    {
        self.millis == 0
    }

    /// What is left of a span after `other` has passed.
    pub fn saturating_sub(self, other: Self) -> (d: Self)
        ensures
            d.millis == (if self.millis >= other.millis {
                self.millis - other.millis
            } else {
                0
            }),
    {
        if self.millis >= other.millis {
            Duration { millis: self.millis - other.millis }
        } else {
            Duration { millis: 0 }
        }
    }
}

impl DeepView for Duration {
    type V = Duration;

    open spec fn deep_view(&self) -> Duration {
        *self
    }
}

/// Whether `c` is a decimal digit.
pub open spec fn is_digit(c: char) -> bool {
    '0' <= c <= '9'
}

/// The number that a row of decimal digits writes.
pub open spec fn digits_value(s: Str) -> nat
    decreases s.len(),
{
    if s.len() == 0 {
        0
    } else {
        digits_value(s.drop_last()) * 10 + ((s.last() as u32) - ('0' as u32)) as nat
    }
}

/// Whether `s` is made of decimal digits.
pub open spec fn all_digits(s: Str) -> bool {
    forall|i: int| 0 <= i < s.len() ==> is_digit(#[trigger] s[i])
}

/// A text without its plus sign.
pub open spec fn without_plus(s: Str) -> Str {
    if s.len() > 0 && s[0] == '+' {
        s.drop_first()
    } else {
        s
    }
}

/// The number that `s` writes as an optional plus sign and one or more digits, where it
/// fits in 64 bits.
pub open spec fn number_of(s: Str) -> Option<u64> {
    let digits = without_plus(s);
    if digits.len() > 0 && all_digits(digits) && digits_value(digits) <= u64::MAX {
        Some(digits_value(digits) as u64)
    } else {
        None
    }
}

/// What the error of `str::parse::<u64>` on `s` displays.
pub uninterp spec fn number_error(s: Str) -> Str;

/// `str::parse::<u64>` reads an optional plus sign followed by digits. Anything else, and
/// a number over 64 bits, is an error, whose display depends on the text alone.
#[verifier::external_body]
fn parse_number(s: &str) -> (r: Result<u64, String>)
    ensures
        match r {
            Ok(n) => number_of(s@) == Some(n),
            Err(e) => number_of(s@) is None && e@ == number_error(s@),
        },
{
    s.parse::<u64>().map_err(|e| e.to_string())
}

/// The unit that a duration is written in, and the number before it.
pub open spec fn duration_unit(s: Str) -> Option<(Str, int)> {
    if ends_with(s, "ms"@) {
        Some((s.subrange(0, s.len() - 2), 1))
    } else if ends_with(s, "s"@) {
        Some((s.subrange(0, s.len() - 1), 1000))
    } else if ends_with(s, "m"@) {
        Some((s.subrange(0, s.len() - 1), 60000))
    } else {
        None
    }
}

/// Whether `s` writes a number of minutes whose seconds do not fit in 64 bits.
pub open spec fn too_many_minutes(s: Str) -> bool {
    match duration_unit(trimmed(s)) {
        Some((number, unit)) => unit == 60000 && number_of(trimmed(number)) is Some && number_of(
            trimmed(number),
        )->0 * 60 > u64::MAX,
        None => false,
    }
}

/// What a duration text means: a number of milliseconds, or the text of the error.
pub open spec fn duration_of(s: Str) -> Result<int, Str> {
    match duration_unit(trimmed(s)) {
        Some((number, unit)) => match number_of(trimmed(number)) {
            Some(n) => Ok(n * unit),
            None => Err("invalid duration: "@ + number_error(trimmed(number))),
        },
        None => Err(
            "invalid duration format: "@ + trimmed(s) + " (expected e.g. 100ms, 10s, 2m)"@,
        ),
    }
}

fn parse_part(s: &str) -> (r: Result<u64, String>)
    ensures
        match r {
            Ok(n) => number_of(trimmed(s@)) == Some(n),
            Err(e) => number_of(trimmed(s@)) is None && e@ == "invalid duration: "@ + number_error(
                trimmed(s@),
            ),
        },
{
    match parse_number(trim(s)) {
        Ok(n) => Ok(n),
        Err(e) => Err(cat("invalid duration: ", e.as_str())),
    }
}

/// Whether [`parse_duration`] can take `s`: a number of minutes must fit in 64 bits when
/// counted in seconds.
pub fn duration_in_range(s: &str) -> (r: bool)
    ensures
        r == !too_many_minutes(s@),
{
    proof {
        reveal_strlit("ms");
        reveal_strlit("s");
        reveal_strlit("m");
    }
    let t = trim(s);
    if strip_suffix(t, "ms").is_some() || strip_suffix(t, "s").is_some() {
        true
    } else {
        match strip_suffix(t, "m") {
            Some(mins) => match parse_part(mins) {
                Ok(n) => n <= u64::MAX / 60,
                Err(_) => true,
            },
            None => true,
        }
    }
}

/// Reads a duration such as `100ms`, `10s` or `2m`.
pub fn parse_duration(s: &str) -> (r: Result<Duration, String>)
    requires
        !too_many_minutes(s@),
    ensures
        match r {
            Ok(d) => duration_of(s@) == Ok::<int, Str>(d.millis as int),
            Err(e) => duration_of(s@) == Err::<int, Str>(e@),
        },
{
    proof {
        reveal_strlit("ms");
        reveal_strlit("s");
        reveal_strlit("m");
    }
    let t = trim(s);
    if let Some(ms) = strip_suffix(t, "ms") {
        match parse_part(ms) {
            Ok(n) => {
                assert(n * 1 == n);
                Ok(Duration::from_millis(n))
            },
            Err(e) => Err(e),
        }
    } else if let Some(secs) = strip_suffix(t, "s") {
        match parse_part(secs) {
            Ok(n) => Ok(Duration::from_secs(n)),
            Err(e) => Err(e),
        }
    } else if let Some(mins) = strip_suffix(t, "m") {
        match parse_part(mins) {
            Ok(n) => {
                assert((n * 60) * 1000 == n * 60000);
                Ok(Duration::from_secs(n * 60))
            },
            Err(e) => Err(e),
        }
    } else {
        Err(cat3("invalid duration format: ", t, " (expected e.g. 100ms, 10s, 2m)"))
    }
}

} // verus!
