//! Millisecond timestamps and their `HH:MM:SS,mmm` text form.
use vstd::prelude::*;

use crate::error::SubError;
use crate::text::{chars_of, string_of};

verus! {

/// The largest millisecond count a `Time` can hold.
pub const MAX_MILLIS: u64 = 18446744073709551615;

/// A point on a track's timeline, in milliseconds from the track's start.
#[derive(Debug, Clone, Copy, PartialEq, Eq, Structural, PartialOrd, Ord, Hash)]
pub struct Time {
    pub ms: u64,
}

pub open spec fn is_digit(c: char) -> bool {
    '0' <= c && c <= '9'
}

pub open spec fn digit_value(c: char) -> nat {
    (c as u32 - '0' as u32) as nat
}

/// The decimal digit for `d` (taken modulo ten).
pub open spec fn digit_char(d: nat) -> char {
    let d = d % 10;
    if d == 0 { '0' } else if d == 1 { '1' } else if d == 2 { '2' } else if d == 3 { '3' }
    else if d == 4 { '4' } else if d == 5 { '5' } else if d == 6 { '6' } else if d == 7 { '7' }
    else if d == 8 { '8' } else { '9' }
}

/// The number written by the decimal digits `s`.
pub open spec fn digits_value(s: Seq<char>) -> nat
    decreases s.len(),
{
    if s.len() == 0 {
        0
    } else {
        digits_value(s.drop_last()) * 10 + digit_value(s.last())
    }
}

pub open spec fn all_digits(s: Seq<char>) -> bool {
    forall|i: int| 0 <= i < s.len() ==> is_digit(#[trigger] s[i])
}

/// `n` in decimal, zero-padded on the left to at least `w` digits.
pub open spec fn padded(n: nat, w: nat) -> Seq<char>
    decreases n + w,
{
    if n == 0 && w == 0 {
        seq![]
    } else {
        padded(n / 10, if w > 0 { (w - 1) as nat } else { 0 }).push(digit_char(n))
    }
}

/// The text of a timestamp: hours (at least two digits), minutes, seconds, millis.
pub open spec fn timestamp_text(ms: nat) -> Seq<char> {
    padded(ms / 1000 / 60 / 60, 2) + seq![':'] + padded(ms / 1000 / 60 % 60, 2) + seq![':']
        + padded(ms / 1000 % 60, 2) + seq![','] + padded(ms % 1000, 3)
}

/// `s` has the shape `H+:MM:SS,mmm`, with each field made of decimal digits.
pub open spec fn timestamp_shape(s: Seq<char>) -> bool {
    let n = s.len() as int;
    n >= 11 && s[n - 10] == ':' && s[n - 7] == ':' && s[n - 4] == ','
        && all_digits(s.subrange(0, n - 10)) && all_digits(s.subrange(n - 9, n - 7))
        && all_digits(s.subrange(n - 6, n - 4)) && all_digits(s.subrange(n - 3, n))
}

pub open spec fn ts_hours(s: Seq<char>) -> nat {
    digits_value(s.subrange(0, s.len() - 10))
}

pub open spec fn ts_minutes(s: Seq<char>) -> nat {
    digits_value(s.subrange(s.len() - 9, s.len() - 7))
}

pub open spec fn ts_seconds(s: Seq<char>) -> nat {
    digits_value(s.subrange(s.len() - 6, s.len() - 4))
}

pub open spec fn ts_millis(s: Seq<char>) -> nat {
    digits_value(s.subrange(s.len() - 3, s.len() as int))
}

/// The millisecond count that a well-shaped timestamp denotes.
pub open spec fn timestamp_value(s: Seq<char>) -> nat {
    ts_hours(s) * 3600000 + ts_minutes(s) * 60000 + ts_seconds(s) * 1000 + ts_millis(s)
}

/// `s` is a timestamp with minutes and seconds below sixty whose value fits a `Time`.
pub open spec fn valid_timestamp(s: Seq<char>) -> bool {
    timestamp_shape(s) && ts_minutes(s) < 60 && ts_seconds(s) < 60
        && timestamp_value(s) <= MAX_MILLIS
}

/// What parsing `s` as a timestamp yields.
pub open spec fn parse_timestamp(s: Seq<char>) -> Result<Time, SubError> {
    if valid_timestamp(s) {
        Ok(Time { ms: timestamp_value(s) as u64 })
    } else {
        Err(SubError::MalformedTimestamp)
    }
}

proof fn lemma_digit_char(d: nat)
    ensures
        is_digit(digit_char(d)),
        digit_value(digit_char(d)) == d % 10,
{
}

pub proof fn lemma_padded(n: nat, w: nat)
    ensures
        all_digits(padded(n, w)),
        digits_value(padded(n, w)) == n,
        padded(n, w).len() >= w,
        n < pow10(w) ==> padded(n, w).len() == w,
    decreases n + w,
{
    if !(n == 0 && w == 0) {
        let w2: nat = if w > 0 { (w - 1) as nat } else { 0 };
        lemma_padded(n / 10, w2);
        lemma_digit_char(n);
        let p = padded(n, w);
        assert(p.drop_last() =~= padded(n / 10, w2));
        if n < pow10(w) && w > 0 {
            assert(pow10(w) == 10 * pow10(w2));
        }
        if w == 0 {
            assert(pow10(0) == 1);
        }
    }
}

pub open spec fn pow10(w: nat) -> nat
    decreases w,
{
    if w == 0 { 1 } else { 10 * pow10((w - 1) as nat) }
}

/// Formatting a time and parsing the text gives the time back.
pub proof fn lemma_timestamp_round_trip(t: Time)
    ensures
        parse_timestamp(timestamp_text(t.ms as nat)) == Ok::<Time, SubError>(t),
{
    let ms = t.ms as nat;
    let h = ms / 1000 / 60 / 60;
    let m = ms / 1000 / 60 % 60;
    let sec = ms / 1000 % 60;
    let mm = ms % 1000;
    lemma_padded(h, 2);
    lemma_padded(m, 2);
    lemma_padded(sec, 2);
    lemma_padded(mm, 3);
    assert(pow10(2) == 100) by { reveal_with_fuel(pow10, 3); }
    assert(pow10(3) == 1000) by { reveal_with_fuel(pow10, 4); }
    let a = padded(h, 2);
    let b = padded(m, 2);
    let c = padded(sec, 2);
    let d = padded(mm, 3);
    let s = timestamp_text(ms);
    let n = s.len() as int;
    assert(n == a.len() + 10);
    assert(s.subrange(0, n - 10) =~= a);
    assert(s.subrange(n - 9, n - 7) =~= b);
    assert(s.subrange(n - 6, n - 4) =~= c);
    assert(s.subrange(n - 3, n) =~= d);
    assert(s[n - 10] == ':');
    assert(s[n - 7] == ':');
    assert(s[n - 4] == ',');
    assert(timestamp_value(s) == ms);
}

/// Reads the decimal field `s[lo..hi]`: `None` when a char is not a digit or
/// the number does not fit a `u64`.
fn read_digits(s: &[char], lo: usize, hi: usize) -> (r: Option<u64>)
    requires
        lo <= hi <= s@.len(),
    ensures
        match r {
            Some(v) => all_digits(s@.subrange(lo as int, hi as int))
                && v as nat == digits_value(s@.subrange(lo as int, hi as int)),
            None => !all_digits(s@.subrange(lo as int, hi as int))
                || digits_value(s@.subrange(lo as int, hi as int)) > MAX_MILLIS,
        },
{
    let mut acc: u64 = 0;
    let mut i: usize = lo;
    while i < hi
        invariant
            lo <= i <= hi <= s@.len(),
            all_digits(s@.subrange(lo as int, i as int)),
            acc as nat == digits_value(s@.subrange(lo as int, i as int)),
        decreases hi - i,
    {
        let c = s[i];
        let ghost next = s@.subrange(lo as int, i + 1);
        assert(next.drop_last() =~= s@.subrange(lo as int, i as int));
        if !('0' <= c && c <= '9') {
            assert(!is_digit(s@.subrange(lo as int, hi as int)[i - lo]));
            return None;
        }
        let d = (c as u32 - '0' as u32) as u64;
        if acc > (MAX_MILLIS - d) / 10 {
            proof {
                lemma_digits_grow(s@, lo as int, i + 1, hi as int);
            }
            return None;
        }
        acc = acc * 10 + d;
        i = i + 1;
    }
    Some(acc)
}

proof fn lemma_digits_grow(s: Seq<char>, lo: int, i: int, hi: int)
    requires
        0 <= lo <= i <= hi <= s.len(),
    ensures
        all_digits(s.subrange(lo, hi)) ==> digits_value(s.subrange(lo, i)) <= digits_value(
            s.subrange(lo, hi),
        ),
    decreases hi - i,
{
    if i < hi && all_digits(s.subrange(lo, hi)) {
        lemma_digits_grow(s, lo, i, hi - 1);
        assert(s.subrange(lo, hi).drop_last() =~= s.subrange(lo, hi - 1));
        assert(all_digits(s.subrange(lo, hi - 1)));
    }
}

/// Appends `padded(n, w)` to `out`.
pub(crate) fn push_padded(out: &mut Vec<char>, n: u64, w: usize)
    ensures
        final(out)@ == old(out)@ + padded(n as nat, w as nat),
    decreases n as int + w as int,
{
    if n == 0 && w == 0 {
        assert(old(out)@ + padded(0, 0) =~= old(out)@);
        return;
    }
    let w2: usize = if w > 0 { w - 1 } else { 0 };
    push_padded(out, n / 10, w2);
    out.push(digit(n % 10));
    assert(padded(n as nat, w as nat) == padded((n / 10) as nat, w2 as nat).push(digit_char(n as nat)));
    assert(final(out)@ =~= old(out)@ + padded(n as nat, w as nat));
}

/// The decimal digit char for `d`.
fn digit(d: u64) -> (r: char)
    requires
        d < 10,
    ensures
        r == digit_char(d as nat),
{
    if d == 0 { '0' } else if d == 1 { '1' } else if d == 2 { '2' } else if d == 3 { '3' }
    else if d == 4 { '4' } else if d == 5 { '5' } else if d == 6 { '6' } else if d == 7 { '7' }
    else if d == 8 { '8' } else { '9' }
}

impl Time {
    /// The time `ms` milliseconds after the track's start.
    pub fn from_millis(ms: u64) -> (r: Time)
        ensures
            r.ms == ms,
    {
        Time { ms }
    }

    /// The number of milliseconds since the track's start.
    pub fn millis(&self) -> (r: u64)
        ensures
            r == self.ms,
    {
        self.ms
    }

    /// The sum of two times, or `None` when it does not fit.
    pub fn checked_add(self, other: Time) -> (r: Option<Time>)
        ensures
            r == (if self.ms + other.ms <= MAX_MILLIS {
                Some(Time { ms: (self.ms + other.ms) as u64 })
            } else {
                None::<Time>
            }),
    {
        if self.ms <= MAX_MILLIS - other.ms {
            Some(Time { ms: self.ms + other.ms })
        } else {
            None
        }
    }

    /// The difference of two times, or zero when `other` is later.
    pub fn saturating_sub(self, other: Time) -> (r: Time)
        ensures
            r.ms == (if self.ms >= other.ms { self.ms - other.ms } else { 0 }),
    {
        if self.ms >= other.ms {
            Time { ms: self.ms - other.ms }
        } else {
            Time { ms: 0 }
        }
    }

    /// Parses `HH:MM:SS,mmm` (hours take one or more digits).
    pub fn parse(text: &str) -> (r: Result<Time, SubError>)
        ensures
            r == parse_timestamp(text@),
    {
        let chars = chars_of(text);
        Time::parse_chars(chars.as_slice())
    }

    /// Parses a timestamp given as chars.
    pub fn parse_chars(s: &[char]) -> (r: Result<Time, SubError>)
        ensures
            r == parse_timestamp(s@),
    {
        let n = s.len();
        if n < 11 || s[n - 10] != ':' || s[n - 7] != ':' || s[n - 4] != ',' {
            return Err(SubError::MalformedTimestamp);
        }
        let h = read_digits(s, 0, n - 10);
        let m = read_digits(s, n - 9, n - 7);
        let sec = read_digits(s, n - 6, n - 4);
        let ms = read_digits(s, n - 3, n);
        match (h, m, sec, ms) {
            (Some(h), Some(m), Some(sec), Some(ms)) => {
                if m >= 60 || sec >= 60 {
                    return Err(SubError::MalformedTimestamp);
                }
                proof {
                    lemma_digits_bound(s@.subrange(n - 3, n as int));
                    assert(pow10(3) == 1000) by { reveal_with_fuel(pow10, 4); }
                }
                let rest = m * 60000 + sec * 1000 + ms;
                if h > (MAX_MILLIS - rest) / 3600000 {
                    return Err(SubError::MalformedTimestamp);
                }
                Ok(Time { ms: h * 3600000 + rest })
            },
            _ => {
                Err(SubError::MalformedTimestamp)
            },
        }
    }

    /// The `HH:MM:SS,mmm` text of this time.
    pub fn format(&self) -> (r: String)
        ensures
            r@ == timestamp_text(self.ms as nat),
    {
        let mut out: Vec<char> = Vec::new();
        self.push_text(&mut out);
        string_of(out.as_slice())
    }

    /// Appends the `HH:MM:SS,mmm` text of this time to `out`.
    pub fn push_text(&self, out: &mut Vec<char>)
        ensures
            final(out)@ == old(out)@ + timestamp_text(self.ms as nat),
    {
        let secs = self.ms / 1000;
        push_padded(out, secs / 60 / 60, 2);
        out.push(':');
        push_padded(out, secs / 60 % 60, 2);
        out.push(':');
        push_padded(out, secs % 60, 2);
        out.push(',');
        push_padded(out, self.ms % 1000, 3);
        assert(final(out)@ =~= old(out)@ + timestamp_text(self.ms as nat));
    }
}

/// A field of `s.len()` digits is below `10^len`.
proof fn lemma_digits_bound(s: Seq<char>)
    requires
        all_digits(s),
    ensures
        digits_value(s) < pow10(s.len()),
    decreases s.len(),
{
    if s.len() > 0 {
        assert(all_digits(s.drop_last()));
        lemma_digits_bound(s.drop_last());
        assert(is_digit(s[s.len() - 1]));
    }
}

} // verus!
