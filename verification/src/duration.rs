//! Compact duration strings such as `1h30m10s`.
//!
//! A string is read left to right as a run of segments. A segment is a
//! (possibly empty) run of ASCII digits closed by one other character, the
//! unit. The units `h`, `m` and `s` stand for 3600, 60 and 1 seconds; a
//! segment with another unit, without digits, or with a magnitude above
//! `i64::MAX` counts for nothing. Digits that no unit closes are ignored.

use vstd::prelude::*;

verus! {

/// Whether `c` is one of the ASCII digits `0` to `9`.
pub open spec fn is_digit(c: char) -> bool {
    '0' <= c && c <= '9'
}

/// The number that the ASCII digit `c` stands for.
pub open spec fn digit_value(c: char) -> int {
    c as int - '0' as int
}

/// Seconds in one unit: 3600 for `h`, 60 for `m`, 1 for `s`, and 0 for every
/// other character.
pub open spec fn unit_seconds(unit: char) -> int {
    if unit == 'h' {
        3600
    } else if unit == 'm' {
        60
    } else if unit == 's' {
        1
    } else {
        0
    }
}

/// What a scan has seen so far: the seconds of the closed segments, and the
/// magnitude of the digits read since the last unit (`None` when there are
/// none).
pub struct Scan {
    pub total: int,
    pub pending: Option<int>,
}

/// Seconds that a segment adds: its magnitude times its unit, provided that
/// it has digits and that the magnitude fits in an `i64`.
pub open spec fn segment_seconds(pending: Option<int>, unit: char) -> int {
    match pending {
        Some(magnitude) => if magnitude <= i64::MAX {
            magnitude * unit_seconds(unit)
        } else {
            0
        },
        None => 0,
    }
}

/// The scan after one more character.
pub open spec fn scan_step(before: Scan, c: char) -> Scan {
    if is_digit(c) {
        let sofar = match before.pending {
            Some(magnitude) => magnitude,
            None => 0,
        };
        Scan { total: before.total, pending: Some(10 * sofar + digit_value(c)) }
    } else {
        Scan { total: before.total + segment_seconds(before.pending, c), pending: None }
    }
}

/// The scan of a whole text, from an empty scan at its start.
pub open spec fn scan(text: Seq<char>) -> Scan
    decreases text.len(),
{
    if text.len() == 0 {
        Scan { total: 0, pending: None }
    } else {
        scan_step(scan(text.drop_last()), text.last())
    }
}

/// The seconds named by a text: the sum over its closed segments.
pub open spec fn total_seconds(text: Seq<char>) -> int {
    scan(text).total
}

/// The span named by a text, if it is strictly positive and fits in an `i64`.
pub open spec fn duration_of(text: Seq<char>) -> Option<i64> {
    let total = total_seconds(text);
    if 0 < total && total <= i64::MAX {
        Some(total as i64)
    } else {
        None
    }
}

/// A segment with a magnitude that is not negative adds no negative seconds.
proof fn lemma_segment_nonnegative(pending: Option<int>, unit: char)
    requires
        pending matches Some(magnitude) ==> magnitude >= 0,
    ensures
        segment_seconds(pending, unit) >= 0,
{
    match pending {
        Some(magnitude) => {
            assert(magnitude * unit_seconds(unit) >= 0) by (nonlinear_arith)
                requires
                    magnitude >= 0,
                    unit_seconds(unit) >= 0,
            ;
        },
        None => {},
    }
}

/// A scan never holds a negative total or a negative magnitude.
pub proof fn lemma_scan_nonnegative(text: Seq<char>)
    ensures
        scan(text).total >= 0,
        scan(text).pending matches Some(magnitude) ==> magnitude >= 0,
    decreases text.len(),
{
    if text.len() > 0 {
        lemma_scan_nonnegative(text.drop_last());
        let before = scan(text.drop_last());
        let c = text.last();
        lemma_segment_nonnegative(before.pending, c);
    }
}

/// Reading on never lowers the total: the total of a prefix is at most the
/// total of the whole text.
pub proof fn lemma_total_monotonic(text: Seq<char>, n: int)
    requires
        0 <= n <= text.len(),
    ensures
        total_seconds(text.take(n)) <= total_seconds(text),
    decreases text.len() - n,
{
    if n == text.len() {
        assert(text.take(n) =~= text);
    } else {
        lemma_total_monotonic(text, n + 1);
        let longer = text.take(n + 1);
        assert(longer.drop_last() =~= text.take(n));
        lemma_scan_nonnegative(text.take(n));
        let before = scan(text.take(n));
        let c = longer.last();
        lemma_segment_nonnegative(before.pending, c);
    }
}

/// One segment of a duration text: a run of digits and the unit that closes it.
pub struct Segment {
    pub digits: Seq<char>,
    pub unit: char,
}

/// Whether every character of `text` is an ASCII digit.
pub open spec fn all_digits(text: Seq<char>) -> bool {
    forall|i: int| 0 <= i < text.len() ==> is_digit(#[trigger] text[i])
}

/// The number written by a run of decimal digits; 0 for the empty run.
pub open spec fn decimal_value(digits: Seq<char>) -> int
    decreases digits.len(),
{
    if digits.len() == 0 {
        0
    } else {
        10 * decimal_value(digits.drop_last()) + digit_value(digits.last())
    }
}

/// The magnitude that a run of digits leaves pending: none for the empty run.
pub open spec fn magnitude_of(digits: Seq<char>) -> Option<int> {
    if digits.len() == 0 {
        None
    } else {
        Some(decimal_value(digits))
    }
}

impl Segment {
    /// The digits are digits and the unit is not one.
    pub open spec fn well_formed(self) -> bool {
        all_digits(self.digits) && !is_digit(self.unit)
    }

    /// The segment as text: its digits, then its unit.
    pub open spec fn text(self) -> Seq<char> {
        self.digits.push(self.unit)
    }

    /// The seconds that the segment stands for.
    pub open spec fn seconds(self) -> int {
        segment_seconds(magnitude_of(self.digits), self.unit)
    }
}

/// The text of a run of segments, one after the other.
pub open spec fn segments_text(segments: Seq<Segment>) -> Seq<char>
    decreases segments.len(),
{
    if segments.len() == 0 {
        Seq::empty()
    } else {
        segments_text(segments.drop_last()) + segments.last().text()
    }
}

/// The sum of the seconds of a run of segments.
pub open spec fn segments_seconds(segments: Seq<Segment>) -> int
    decreases segments.len(),
{
    if segments.len() == 0 {
        0
    } else {
        segments_seconds(segments.drop_last()) + segments.last().seconds()
    }
}

/// Digits read after a unit (or at the start) leave the total as it was and
/// hold their decimal value pending.
pub proof fn lemma_scan_digits(prefix: Seq<char>, digits: Seq<char>)
    requires
        all_digits(digits),
        scan(prefix).pending is None,
    ensures
        scan(prefix + digits).total == scan(prefix).total,
        scan(prefix + digits).pending == magnitude_of(digits),
    decreases digits.len(),
{
    if digits.len() == 0 {
        assert(prefix + digits =~= prefix);
    } else {
        let shorter = digits.drop_last();
        lemma_scan_digits(prefix, shorter);
        assert((prefix + digits).drop_last() =~= prefix + shorter);
        assert((prefix + digits).last() == digits.last());
        assert(is_digit(digits[digits.len() - 1]));
        if shorter.len() == 0 {
            assert(decimal_value(shorter) == 0);
        }
    }
}

/// A well-formed segment read after a unit (or at the start) adds its seconds
/// to the total and leaves nothing pending.
pub proof fn lemma_scan_segment(prefix: Seq<char>, segment: Segment)
    requires
        segment.well_formed(),
        scan(prefix).pending is None,
    ensures
        scan(prefix + segment.text()).total == scan(prefix).total + segment.seconds(),
        scan(prefix + segment.text()).pending is None,
{
    lemma_scan_digits(prefix, segment.digits);
    let whole = prefix + segment.text();
    assert(whole.drop_last() =~= prefix + segment.digits);
    assert(whole.last() == segment.unit);
}

/// The total of a text is the sum of its segments: for every run of
/// well-formed segments, whatever their units and their order, followed by
/// digits that no unit closes, the text names the sum of the segments'
/// seconds. Units other than `h`, `m` and `s`, and segments without digits,
/// add nothing.
pub proof fn lemma_total_is_sum_of_segments(segments: Seq<Segment>, trailing: Seq<char>)
    requires
        forall|i: int| 0 <= i < segments.len() ==> (#[trigger] segments[i]).well_formed(),
        all_digits(trailing),
    ensures
        scan(segments_text(segments)).pending is None,
        total_seconds(segments_text(segments)) == segments_seconds(segments),
        total_seconds(segments_text(segments) + trailing) == segments_seconds(segments),
        duration_of(segments_text(segments) + trailing) == (if 0 < segments_seconds(segments)
            <= i64::MAX {
            Some(segments_seconds(segments) as i64)
        } else {
            None
        }),
    decreases segments.len(),
{
    if segments.len() > 0 {
        let earlier = segments.drop_last();
        assert forall|i: int| 0 <= i < earlier.len() implies (
        #[trigger] earlier[i]).well_formed() by {
            assert(earlier[i] == segments[i]);
        }
        lemma_total_is_sum_of_segments(earlier, Seq::empty());
        lemma_scan_segment(segments_text(earlier), segments.last());
    }
    lemma_scan_digits(segments_text(segments), trailing);
}

/// Parses a compact duration string into a span of whole seconds.
///
/// Returns the sum of the segments' seconds when that sum is strictly
/// positive and fits in an `i64`, and `None` otherwise: for the empty string,
/// for a text without a counted segment, for a total of zero, and for a total
/// too large to represent.
pub fn parse_duration(s: &str) -> (span: Option<i64>)
    ensures
        span == duration_of(s@),
{
    let mut total: i64 = 0;
    let mut has_digits = false;
    let mut magnitude: i64 = 0;
    let mut too_large = false;
    let chars = s.chars();
    for c in it: chars
        invariant
            it.seq() == s@,
            total as int == scan(s@.take(it.index() as int)).total,
            has_digits == scan(s@.take(it.index() as int)).pending.is_some(),
            !has_digits ==> magnitude == 0 && !too_large,
            has_digits && !too_large ==> scan(s@.take(it.index() as int)).pending == Some(
                magnitude as int,
            ),
            has_digits && too_large ==> scan(s@.take(it.index() as int)).pending->0 > i64::MAX,
            0 <= magnitude,
            0 <= total,
    {
        proof {
            let seen = s@.take(it.index() as int);
            let next = s@.take(it.index() as int + 1);
            assert(next.drop_last() =~= seen);
            assert(next.last() == c);
        }
        if '0' <= c && c <= '9' {
            let digit: i64 = digit_of(c);
            if !too_large {
                match magnitude.checked_mul(10) {
                    Some(scaled) => match scaled.checked_add(digit) {
                        Some(value) => {
                            magnitude = value;
                        },
                        None => {
                            too_large = true;
                        },
                    },
                    None => {
                        too_large = true;
                    },
                }
            }
            has_digits = true;
        } else {
            if has_digits && !too_large {
                let unit: i64 = seconds_per_unit(c);
                let added = match magnitude.checked_mul(unit) {
                    Some(seconds) => total.checked_add(seconds),
                    None => None,
                };
                match added {
                    Some(sum) => {
                        total = sum;
                    },
                    None => {
                        proof {
                            lemma_total_monotonic(s@, it.index() as int + 1);
                        }
                        return None;
                    },
                }
            }
            has_digits = false;
            magnitude = 0;
            too_large = false;
        }
    }
    proof {
        assert(s@.take(s@.len() as int) =~= s@);
    }
    if total > 0 {
        Some(total)
    } else {
        None
    }
}

/// The value of an ASCII digit.
fn digit_of(c: char) -> (value: i64)
    requires
        is_digit(c),
    ensures
        value == digit_value(c),
        0 <= value <= 9,
{
    (c as u32 - 48) as i64
}

/// Seconds in one unit character.
fn seconds_per_unit(unit: char) -> (seconds: i64)
    ensures
        seconds == unit_seconds(unit),
{
    if unit == 'h' {
        3600
    } else if unit == 'm' {
        60
    } else if unit == 's' {
        1
    } else {
        0
    }
}

} // verus!
