use vstd::prelude::*;
use vstd::slice::slice_subrange;

use crate::numeral::{
    all_digits, is_digit, digits_value, parse_digits, parse_unsigned_decimal, unsigned_decimal_of, Decimal,
};

verus! {

/// A time of day, UTC, to the nanosecond.
#[derive(Clone, Copy, Debug, PartialEq, Eq, Structural)]
pub struct FixTime {
    pub hour: u32,
    pub minute: u32,
    pub second: u32,
    pub nano: u32,
}

impl FixTime {
    pub open spec fn wf(&self) -> bool {
        self.hour < 24 && self.minute < 60 && self.second < 60 && self.nano < 1_000_000_000
    }
}

/// A calendar date of the proleptic Gregorian calendar.
#[derive(Clone, Copy, Debug, PartialEq, Eq, Structural)]
pub struct FixDate {
    pub year: i32,
    pub month: u32,
    pub day: u32,
}

impl FixDate {
    pub open spec fn wf(&self) -> bool {
        is_calendar_date(self.year as int, self.month as int, self.day as int)
    }
}

/// One coordinate in degrees and minutes of arc: `degrees + minutes / 60`,
/// negated when `negative` holds (southern or western hemisphere).
#[derive(Clone, Copy, Debug, PartialEq, Eq, Structural)]
pub struct Coordinate {
    pub negative: bool,
    pub degrees: u32,
    pub minutes: Decimal,
}

/// The number spelt by the two digits of `t` at `at`.
pub open spec fn two_digits(t: Seq<u8>, at: int) -> nat {
    digits_value(t.subrange(at, at + 2))
}

/// Ten to the power `n`.
pub open spec fn pow10(n: nat) -> nat
    decreases n,
{
    if n == 0 {
        1
    } else {
        pow10((n - 1) as nat) * 10
    }
}

/// The first `n` digits of `f`, padded on the right with zeros where `f` is
/// shorter, read as one number.
pub open spec fn padded_value(f: Seq<u8>, n: nat) -> nat
    decreases n,
{
    if n == 0 {
        0
    } else {
        padded_value(f, (n - 1) as nat) * 10 + if n - 1 < f.len() {
            (f[n - 1] - 48) as nat
        } else {
            0
        }
    }
}

/// A time of day written `hhmmss` or `hhmmss.f...`: hours below 24, minutes
/// and seconds below 60. The fraction of a second is kept to nine digits; any
/// further digits are dropped.
pub open spec fn time_of(t: Seq<u8>) -> Option<FixTime> {
    if t.len() >= 6 && all_digits(t.take(6)) && two_digits(t, 0) < 24 && two_digits(t, 2) < 60
        && two_digits(t, 4) < 60 && (t.len() == 6 || (t[6] == 46 && all_digits(
        t.skip(7),
    ))) {
        Some(
            FixTime {
                hour: two_digits(t, 0) as u32,
                minute: two_digits(t, 2) as u32,
                second: two_digits(t, 4) as u32,
                nano: if t.len() == 6 {
                    0
                } else {
                    padded_value(t.skip(7), 9) as u32
                },
            },
        )
    } else {
        None
    }
}

pub open spec fn is_leap_year(y: int) -> bool {
    y % 4 == 0 && (y % 100 != 0 || y % 400 == 0)
}

pub open spec fn days_in_month(y: int, m: int) -> int {
    if m == 2 {
        if is_leap_year(y) {
            29
        } else {
            28
        }
    } else if m == 4 || m == 6 || m == 9 || m == 11 {
        30
    } else {
        31
    }
}

/// `d` is a day of month `m` of year `y` in the proleptic Gregorian calendar.
pub open spec fn is_calendar_date(y: int, m: int, d: int) -> bool {
    1 <= m <= 12 && 1 <= d <= days_in_month(y, m)
}

/// The year that a two-digit year stands for: 69 to 99 are 1969 to 1999, 00 to
/// 68 are 2000 to 2068.
pub open spec fn full_year(yy: nat) -> int {
    if yy >= 69 {
        1900 + yy as int
    } else {
        2000 + yy as int
    }
}

/// A date written `ddmmyy`, which must name a day of the calendar.
pub open spec fn date_of(t: Seq<u8>) -> Option<FixDate> {
    if t.len() == 6 && all_digits(t) && is_calendar_date(
        full_year(two_digits(t, 4)),
        two_digits(t, 2) as int,
        two_digits(t, 0) as int,
    ) {
        Some(
            FixDate {
                year: full_year(two_digits(t, 4)) as i32,
                month: two_digits(t, 2) as u32,
                day: two_digits(t, 0) as u32,
            },
        )
    } else {
        None
    }
}

/// A magnitude written as `width` digits of whole degrees followed by the
/// minutes as an unsigned numeral (`4916.45`: 49 degrees, 16.45 minutes).
pub open spec fn angle_of(t: Seq<u8>, width: nat, negative: bool) -> Option<Coordinate> {
    if t.len() > width && all_digits(t.take(width as int)) && unsigned_decimal_of(
        t.skip(width as int),
    ) is Some {
        Some(
            Coordinate {
                negative,
                degrees: digits_value(t.take(width as int)) as u32,
                minutes: unsigned_decimal_of(t.skip(width as int))->0,
            },
        )
    } else {
        None
    }
}

/// The one-byte field `[c]`.
pub open spec fn is_letter_field(t: Seq<u8>, c: u8) -> bool {
    t.len() == 1 && t[0] == c
}

/// A latitude/longitude pair spread over four fields: latitude (two digits of
/// degrees), `N` or `S`, longitude (three digits of degrees), `E` or `W`.
/// Four empty fields are a pair that is absent (`Some(None)`); otherwise all
/// four must be well formed. `None` is a malformed pair.
pub open spec fn position_of(lat: Seq<u8>, ns: Seq<u8>, lon: Seq<u8>, ew: Seq<u8>) -> Option<
    Option<(Coordinate, Coordinate)>,
> {
    if lat.len() == 0 && ns.len() == 0 && lon.len() == 0 && ew.len() == 0 {
        Some(None)
    } else if (is_letter_field(ns, 78) || is_letter_field(ns, 83)) && (is_letter_field(ew, 69)
        || is_letter_field(ew, 87)) && angle_of(lat, 2, is_letter_field(ns, 83)) is Some
        && angle_of(lon, 3, is_letter_field(ew, 87)) is Some {
        Some(
            Some(
                (
                    angle_of(lat, 2, is_letter_field(ns, 83))->0,
                    angle_of(lon, 3, is_letter_field(ew, 87))->0,
                ),
            ),
        )
    } else {
        None
    }
}

/// Relies on chrono::NaiveDate::from_ymd_opt, which gives `None` exactly when
/// the month or day is out of range, the day does not exist in that month of
/// the proleptic Gregorian calendar, or the year is out of chrono's range
/// (which holds every year from 1 to 9999).
#[verifier::external_body]
fn calendar_date_exists(year: i32, month: u32, day: u32) -> (r: bool)
    requires
        1 <= year <= 9999,
    ensures
        r == is_calendar_date(year as int, month as int, day as int),
{
    chrono::NaiveDate::from_ymd_opt(year, month, day).is_some()
}

proof fn lemma_digits_value_bound(t: Seq<u8>)
    requires
        all_digits(t),
    ensures
        digits_value(t) < pow10(t.len()),
    decreases t.len(),
{
    if t.len() > 0 {
        let p = t.drop_last();
        assert(all_digits(p)) by {
            assert forall|i: int| 0 <= i < p.len() implies is_digit(#[trigger] p[i]) by {
                assert(p[i] == t[i]);
            }
        }
        lemma_digits_value_bound(p);
        assert(is_digit(t[t.len() - 1]));
    }
}

proof fn lemma_pow10_mono(a: nat, b: nat)
    requires
        a <= b,
    ensures
        pow10(a) <= pow10(b),
    decreases b,
{
    if a < b {
        lemma_pow10_mono(a, (b - 1) as nat);
    }
}

proof fn lemma_all_digits_subrange(t: Seq<u8>, a: int, b: int)
    requires
        0 <= a <= b <= t.len(),
        all_digits(t),
    ensures
        all_digits(t.subrange(a, b)),
{
    assert forall|i: int| 0 <= i < b - a implies is_digit(#[trigger] t.subrange(a, b)[i]) by {
        assert(t.subrange(a, b)[i] == t[a + i]);
    }
}

proof fn lemma_all_digits_join(t: Seq<u8>, a: int, b: int, c: int)
    requires
        0 <= a <= b <= c <= t.len(),
        all_digits(t.subrange(a, b)),
        all_digits(t.subrange(b, c)),
    ensures
        all_digits(t.subrange(a, c)),
{
    assert forall|i: int| 0 <= i < c - a implies is_digit(#[trigger] t.subrange(a, c)[i]) by {
        if i < b - a {
            assert(t.subrange(a, c)[i] == t.subrange(a, b)[i]);
        } else {
            assert(t.subrange(a, c)[i] == t.subrange(b, c)[i - (b - a)]);
        }
    }
}

/// Facts on the three two-digit groups of `t.take(6)`.
proof fn lemma_three_pairs(t: Seq<u8>)
    requires
        t.len() >= 6,
    ensures
        all_digits(t.take(6)) <==> (all_digits(t.subrange(0, 2)) && all_digits(t.subrange(2, 4))
            && all_digits(t.subrange(4, 6))),
        all_digits(t.take(6)) ==> two_digits(t, 0) < 100 && two_digits(t, 2) < 100
            && two_digits(t, 4) < 100,
{
    assert(t.take(6) =~= t.subrange(0, 6));
    if all_digits(t.take(6)) {
        lemma_all_digits_subrange(t.take(6), 0, 2);
        lemma_all_digits_subrange(t.take(6), 2, 4);
        lemma_all_digits_subrange(t.take(6), 4, 6);
        assert(t.take(6).subrange(0, 2) =~= t.subrange(0, 2));
        assert(t.take(6).subrange(2, 4) =~= t.subrange(2, 4));
        assert(t.take(6).subrange(4, 6) =~= t.subrange(4, 6));
        lemma_digits_value_bound(t.subrange(0, 2));
        lemma_digits_value_bound(t.subrange(2, 4));
        lemma_digits_value_bound(t.subrange(4, 6));
        reveal_with_fuel(pow10, 3);
    }
    if all_digits(t.subrange(0, 2)) && all_digits(t.subrange(2, 4)) && all_digits(
        t.subrange(4, 6),
    ) {
        lemma_all_digits_join(t, 0, 2, 4);
        lemma_all_digits_join(t, 0, 4, 6);
    }
}

/// Decodes a non-empty time-of-day field (see `time_of`).
pub fn parse_time(t: &[u8]) -> (r: Option<FixTime>)
    ensures
        r == time_of(t@),
        r is Some ==> r->0.wf(),
{
    if t.len() < 6 {
        return None;
    }
    let hh = parse_digits(slice_subrange(t, 0, 2));
    let mm = parse_digits(slice_subrange(t, 2, 4));
    let ss = parse_digits(slice_subrange(t, 4, 6));
    proof {
        lemma_three_pairs(t@);
    }
    let (hour, minute, second) = match (hh, mm, ss) {
        (Some(h), Some(m), Some(s)) => (h, m, s),
        _ => {
            return None;
        },
    };
    if hour >= 24 || minute >= 60 || second >= 60 {
        return None;
    }
    let mut nano: u32 = 0;
    if t.len() > 6 {
        if t[6] != 46 {
            return None;
        }
        let f = slice_subrange(t, 7, t.len());
        assert(f@ =~= t@.skip(7));
        let mut i: usize = 0;
        while i < f.len()
            invariant
                0 <= i <= f@.len(),
                t@.len() > 6,
                f@ == t@.skip(7),
                all_digits(f@.take(i as int)),
            decreases f@.len() - i,
        {
            if !(48 <= f[i] && f[i] <= 57) {
                assert(!is_digit(t@.skip(7)[i as int]));
                return None;
            }
            assert(f@.take(i + 1) =~= f@.take(i as int).push(f@[i as int]));
            i = i + 1;
        }
        assert(f@.take(i as int) =~= f@);
        proof {
            reveal_with_fuel(pow10, 10);
        }
        let mut j: usize = 0;
        let mut v: u32 = 0;
        while j < 9
            invariant
                0 <= j <= 9,
                v == padded_value(f@, j as nat),
                v < pow10(j as nat),
                pow10(9) == 1_000_000_000,
                all_digits(f@),
            decreases 9 - j,
        {
            proof {
                lemma_pow10_mono((j + 1) as nat, 9);
            }
            let d: u32 = if j < f.len() {
                (f[j] - 48) as u32
            } else {
                0
            };
            assert(d <= 9) by {
                if j < f.len() {
                    assert(is_digit(f@[j as int]));
                }
            }
            v = v * 10 + d;
            j = j + 1;
        }
        nano = v;
    }
    Some(FixTime { hour, minute, second, nano })
}

/// Decodes a non-empty date field (see `date_of`).
pub fn parse_date(t: &[u8]) -> (r: Option<FixDate>)
    ensures
        r == date_of(t@),
        r is Some ==> r->0.wf(),
{
    if t.len() != 6 {
        return None;
    }
    let dd = parse_digits(slice_subrange(t, 0, 2));
    let mm = parse_digits(slice_subrange(t, 2, 4));
    let yy = parse_digits(slice_subrange(t, 4, 6));
    proof {
        lemma_three_pairs(t@);
        assert(t@.take(6) =~= t@);
    }
    let (day, month, yy) = match (dd, mm, yy) {
        (Some(d), Some(m), Some(y)) => (d, m, y),
        _ => {
            return None;
        },
    };
    let year: i32 = if yy >= 69 {
        1900 + yy as i32
    } else {
        2000 + yy as i32
    };
    if calendar_date_exists(year, month, day) {
        Some(FixDate { year, month, day })
    } else {
        None
    }
}

/// Decodes one magnitude of a position (see `angle_of`).
fn parse_angle(t: &[u8], width: usize, negative: bool) -> (r: Option<Coordinate>)
    requires
        width == 2 || width == 3,
    ensures
        r == angle_of(t@, width as nat, negative),
{
    if t.len() <= width {
        return None;
    }
    let degrees = parse_digits(slice_subrange(t, 0, width));
    let minutes = parse_unsigned_decimal(slice_subrange(t, width, t.len()));
    proof {
        let w = t@.take(width as int);
        if all_digits(w) {
            lemma_digits_value_bound(w);
            reveal_with_fuel(pow10, 4);
        }
    }
    match (degrees, minutes) {
        (Some(d), Some(m)) => Some(Coordinate { negative, degrees: d, minutes: m }),
        _ => None,
    }
}

/// Decodes the four fields of a latitude/longitude pair (see `position_of`).
pub fn parse_position(lat: &[u8], ns: &[u8], lon: &[u8], ew: &[u8]) -> (r: Option<
    Option<(Coordinate, Coordinate)>,
>)
    ensures
        r == position_of(lat@, ns@, lon@, ew@),
{
    if lat.len() == 0 && ns.len() == 0 && lon.len() == 0 && ew.len() == 0 {
        return Some(None);
    }
    if ns.len() != 1 || ew.len() != 1 {
        return None;
    }
    let south = ns[0] == 83;
    let west = ew[0] == 87;
    if !(ns[0] == 78 || south) || !(ew[0] == 69 || west) {
        return None;
    }
    match (parse_angle(lat, 2, south), parse_angle(lon, 3, west)) {
        (Some(a), Some(b)) => Some(Some((a, b))),
        _ => None,
    }
}

} // verus!
