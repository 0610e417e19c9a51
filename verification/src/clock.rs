//! Times of day: what a moment is called in file names, in metadata and in the log.
//! A moment is nanoseconds since the start of 1970, in UTC.

use vstd::arithmetic::div_mod::*;
use vstd::prelude::*;

use crate::text;
use crate::text_laws;

verus! {

/// A moment in UTC.
#[derive(Clone, Copy, Debug, PartialEq, Eq, Structural)]
pub struct Utc {
    pub year: i32,
    pub month: u8,
    pub day: u8,
    pub hour: u8,
    pub minute: u8,
    pub second: u8,
}

/// The first second of the year -9999, and the last of the year 9999.
pub const FIRST_SECOND: i64 = -377_705_116_800;

pub const LAST_SECOND: i64 = 253_402_300_799;

/// The whole seconds of a moment.
pub open spec fn seconds(nanos: i128) -> int {
    nanos as int / 1_000_000_000
}

/// The moment lies in one of the years that are known.
pub open spec fn is_known(nanos: i128) -> bool {
    FIRST_SECOND <= seconds(nanos) <= LAST_SECOND
}

pub open spec fn is_leap(year: int) -> bool {
    year % 4 == 0 && (year % 100 != 0 || year % 400 == 0)
}

pub open spec fn days_in_month(year: int, month: int) -> int {
    if month == 2 {
        if is_leap(year) {
            29
        } else {
            28
        }
    } else if month == 4 || month == 6 || month == 9 || month == 11 {
        30
    } else {
        31
    }
}

/// The days of a year before a month of it.
pub open spec fn days_before_month(year: int, month: int) -> int
    decreases month,
{
    if month <= 1 {
        0
    } else {
        days_before_month(year, month - 1) + days_in_month(year, month - 1)
    }
}

/// The days from the start of the year 1 to that of another.
pub open spec fn days_before_year(year: int) -> int {
    365 * (year - 1) + (year - 1) / 4 - (year - 1) / 100 + (year - 1) / 400
}

/// The days from the start of 1970 to a date.
pub open spec fn days_to(year: int, month: int, day: int) -> int {
    days_before_year(year) - days_before_year(1970) + days_before_month(year, month) + day - 1
}

pub open spec fn is_date(year: int, month: int, day: int) -> bool {
    1 <= month <= 12 && 1 <= day <= days_in_month(year, month)
}

/// `u` is the date, by the Gregorian calendar, and the time of day of a moment.
pub open spec fn is_moment(u: Utc, nanos: i128) -> bool {
    &&& is_date(u.year as int, u.month as int, u.day as int)
    &&& days_to(u.year as int, u.month as int, u.day as int) == seconds(nanos) / 86_400
    &&& u.hour == seconds(nanos) % 86_400 / 3_600
    &&& u.minute == seconds(nanos) % 3_600 / 60
    &&& u.second == seconds(nanos) % 60
}

/// The date and the time of day of a moment.
pub open spec fn utc_of(nanos: i128) -> Utc {
    choose|u: Utc| is_moment(u, nanos)
}

/// `OffsetDateTime::from_unix_timestamp_nanos` of the crate `time` gives the moment
/// in UTC, by the Gregorian calendar, for years from -9999 to 9999.
#[verifier::external_body]
pub(crate) fn utc(nanos: i128) -> (r: Option<Utc>)
    ensures
        (r is Some) == is_known(nanos),
        r matches Some(u) ==> is_moment(u, nanos),
{
    let t = time::OffsetDateTime::from_unix_timestamp_nanos(nanos).ok()?;
    Some(
        Utc {
            year: t.year(),
            month: u8::from(t.month()),
            day: t.day(),
            hour: t.hour(),
            minute: t.minute(),
            second: t.second(),
        },
    )
}

/// A date as it stands in a time in RFC 3339.
pub open spec fn date_text(year: int, month: int, day: int) -> Seq<char> {
    text::zero_padded(year as nat, 4) + "-"@ + text::zero_padded(month as nat, 2) + "-"@
        + text::zero_padded(day as nat, 2)
}

/// A time of day as it stands there: seconds, and what is left of one.
pub open spec fn time_text(seconds: int, rest: int) -> Seq<char> {
    text::zero_padded((seconds % 86_400 / 3_600) as nat, 2) + ":"@ + text::zero_padded(
        (seconds % 3_600 / 60) as nat,
        2,
    ) + ":"@ + text::zero_padded((seconds % 60) as nat, 2) + if rest == 0 {
        Seq::empty()
    } else {
        "."@ + text::without_trailing(text::zero_padded(rest as nat, 9), '0')
    }
}

/// A moment in RFC 3339, such as `2026-09-21T14:13:20Z`; nothing before the year 0.
pub open spec fn moment_text(nanos: i128) -> Seq<char> {
    let u = utc_of(nanos);
    if u.year < 0 {
        Seq::empty()
    } else {
        date_text(u.year as int, u.month as int, u.day as int) + "T"@ + time_text(
            seconds(nanos),
            nanos as int % 1_000_000_000,
        ) + "Z"@
    }
}

/// `OffsetDateTime::format` of the crate `time`, with its `Rfc3339`, writes a moment
/// in UTC: date, `T`, time, the fraction of a second without trailing zeros, `Z`. It
/// fails for years before 0, which have no such form.
#[verifier::external_body]
pub(crate) fn rfc3339(nanos: i128) -> (r: Option<String>)
    requires
        is_known(nanos),
    ensures
        (r is Some) == (utc_of(nanos).year >= 0),
        r matches Some(t) ==> t@ == moment_text(nanos),
{
    let t = time::OffsetDateTime::from_unix_timestamp_nanos(nanos).ok()?;
    t.format(&time::format_description::well_known::Rfc3339).ok()
}

/// A year with at least four characters, its sign included.
pub open spec fn year_text(year: int) -> Seq<char> {
    if year < 0 {
        "-"@ + text::zero_padded((-year) as nat, 3)
    } else {
        text::zero_padded(year as nat, 4)
    }
}

fn year_of(year: i32) -> (t: String)
    requires
        -9999 <= year <= 9999,
    ensures
        t@ == year_text(year as int),
{
    if year < 0 {
        String::from_str("-").concat(&text::padded_number((-year) as u64, 3))
    } else {
        text::padded_number(year as u64, 4)
    }
}

/// A moment as a recording is named by it, such as `20260921-141320`.
pub open spec fn compact(u: Utc) -> Seq<char> {
    year_text(u.year as int) + text::zero_padded(u.month as nat, 2) + text::zero_padded(
        u.day as nat,
        2,
    ) + "-"@ + text::zero_padded(u.hour as nat, 2) + text::zero_padded(u.minute as nat, 2)
        + text::zero_padded(u.second as nat, 2)
}

/// A moment as a recording is named by it.
pub fn compact_of(u: Utc) -> (t: String)
    requires
        -9999 <= u.year <= 9999,
    ensures
        t@ == compact(u),
{
    let mut t = year_of(u.year);
    t.append(&text::padded_number(u.month as u64, 2));
    t.append(&text::padded_number(u.day as u64, 2));
    t.append("-");
    t.append(&text::padded_number(u.hour as u64, 2));
    t.append(&text::padded_number(u.minute as u64, 2));
    t.append(&text::padded_number(u.second as u64, 2));
    t
}

/// A moment as it stands in the log, such as `2026-09-21 14:13:20Z`.
pub open spec fn spelled(u: Utc) -> Seq<char> {
    year_text(u.year as int) + "-"@ + text::zero_padded(u.month as nat, 2) + "-"@
        + text::zero_padded(u.day as nat, 2) + " "@ + text::zero_padded(u.hour as nat, 2) + ":"@
        + text::zero_padded(u.minute as nat, 2) + ":"@ + text::zero_padded(u.second as nat, 2)
        + "Z"@
}

/// A moment as it stands in the log.
pub fn spelled_of(u: Utc) -> (t: String)
    requires
        -9999 <= u.year <= 9999,
    ensures
        t@ == spelled(u),
{
    let mut t = year_of(u.year);
    t.append("-");
    t.append(&text::padded_number(u.month as u64, 2));
    t.append("-");
    t.append(&text::padded_number(u.day as u64, 2));
    t.append(" ");
    t.append(&text::padded_number(u.hour as u64, 2));
    t.append(":");
    t.append(&text::padded_number(u.minute as u64, 2));
    t.append(":");
    t.append(&text::padded_number(u.second as u64, 2));
    t.append("Z");
    t
}

// ---- the calendar -----------------------------------------------------------

/// The days of a year.
spec fn days_in_year(year: int) -> int {
    if is_leap(year) {
        366
    } else {
        365
    }
}

/// The months of a year follow one another, and fill it.
proof fn lemma_months(year: int, a: int, b: int)
    requires
        1 <= a < b <= 13,
    ensures
        days_before_month(year, a) >= 0,
        days_before_month(year, a) + days_in_month(year, a) <= days_before_month(year, b),
        days_before_month(year, 13) == days_in_year(year),
{
    reveal_with_fuel(days_before_month, 14);
}

/// A quotient grows by one at each multiple of its divisor.
proof fn lemma_quotient_grows(x: int, d: int)
    requires
        d > 1,
    ensures
        (x + 1) / d == x / d + if (x + 1) % d == 0 {
            1int
        } else {
            0int
        },
{
    let q = x / d;
    let r = x % d;
    lemma_fundamental_div_mod(x, d);
    if r + 1 < d {
        lemma_fundamental_div_mod_converse(x + 1, d, q, r + 1);
    } else {
        assert((q + 1) * d == q * d + d) by (nonlinear_arith);
        assert(d * q == q * d) by (nonlinear_arith);
        lemma_fundamental_div_mod_converse(x + 1, d, q + 1, 0);
    }
}

/// A year ends where the next one starts.
proof fn lemma_next_year(year: int)
    ensures
        days_before_year(year + 1) == days_before_year(year) + days_in_year(year),
{
    lemma_quotient_grows(year - 1, 4);
    lemma_quotient_grows(year - 1, 100);
    lemma_quotient_grows(year - 1, 400);
    lemma_mod_mod(year, 4, 25);
    lemma_mod_mod(year, 100, 4);
}

/// The years follow one another.
proof fn lemma_years(a: int, b: int)
    requires
        a < b,
    ensures
        days_before_year(a) + days_in_year(a) <= days_before_year(b),
    decreases b - a,
{
    lemma_next_year(b - 1);
    if a < b - 1 {
        lemma_years(a, b - 1);
    }
}

/// A date lies in its year.
proof fn lemma_in_year(year: int, month: int, day: int)
    requires
        is_date(year, month, day),
    ensures
        0 <= days_before_month(year, month) + day - 1 < days_in_year(year),
{
    lemma_months(year, month, 13);
}

/// One date is before another.
pub open spec fn is_earlier_date(y1: int, m1: int, d1: int, y2: int, m2: int, d2: int) -> bool {
    y1 < y2 || (y1 == y2 && (m1 < m2 || (m1 == m2 && d1 < d2)))
}

/// Of two dates the one with fewer days before it is the earlier one; no two dates
/// have as many.
pub proof fn law_dates_follow_the_days(y1: int, m1: int, d1: int, y2: int, m2: int, d2: int)
    requires
        is_date(y1, m1, d1),
        is_date(y2, m2, d2),
    ensures
        is_earlier_date(y1, m1, d1, y2, m2, d2) == (days_to(y1, m1, d1) < days_to(y2, m2, d2)),
        days_to(y1, m1, d1) == days_to(y2, m2, d2) ==> y1 == y2 && m1 == m2 && d1 == d2,
{
    lemma_in_year(y1, m1, d1);
    lemma_in_year(y2, m2, d2);
    if y1 < y2 {
        lemma_years(y1, y2);
    } else if y2 < y1 {
        lemma_years(y2, y1);
    } else if m1 < m2 {
        lemma_months(y1, m1, m2);
    } else if m2 < m1 {
        lemma_months(y1, m2, m1);
    }
}

/// Every day has a date.
proof fn lemma_every_day_has_a_date(days: int) -> (r: (int, int, int))
    ensures
        is_date(r.0, r.1, r.2),
        days_to(r.0, r.1, r.2) == days,
    decreases if days < 0 { -days } else { days },
{
    if days == 0 {
        (1970, 1, 1)
    } else if days > 0 {
        let (y, m, d) = lemma_every_day_has_a_date(days - 1);
        if d < days_in_month(y, m) {
            (y, m, d + 1)
        } else if m < 12 {
            (y, m + 1, 1)
        } else {
            lemma_months(y, 12, 13);
            lemma_next_year(y);
            (y + 1, 1, 1)
        }
    } else {
        let (y, m, d) = lemma_every_day_has_a_date(days + 1);
        if d > 1 {
            (y, m, d - 1)
        } else if m > 1 {
            (y, m - 1, days_in_month(y, m - 1))
        } else {
            lemma_months(y - 1, 12, 13);
            lemma_next_year(y - 1);
            (y - 1, 12, 31)
        }
    }
}

/// A moment has one date and time of day.
pub proof fn law_a_moment_has_one_date(u: Utc, nanos: i128)
    requires
        is_moment(u, nanos),
    ensures
        utc_of(nanos) == u,
{
    let v = utc_of(nanos);
    assert(is_moment(v, nanos));
    law_dates_follow_the_days(
        u.year as int,
        u.month as int,
        u.day as int,
        v.year as int,
        v.month as int,
        v.day as int,
    );
}

/// Every moment of a known year has a date.
pub proof fn lemma_known_moments(nanos: i128)
    requires
        is_known(nanos),
    ensures
        is_moment(utc_of(nanos), nanos),
        -9999 <= utc_of(nanos).year <= 9999,
{
    let s = seconds(nanos);
    let (y, m, d) = lemma_every_day_has_a_date(s / 86_400);
    assert(days_to(-9999, 1, 1) * 86_400 == FIRST_SECOND);
    assert(days_to(10_000, 1, 1) * 86_400 == LAST_SECOND + 1);
    law_dates_follow_the_days(y, m, d, -9999, 1, 1);
    law_dates_follow_the_days(y, m, d, 10_000, 1, 1);
    let u = Utc {
        year: y as i32,
        month: m as u8,
        day: d as u8,
        hour: (s % 86_400 / 3_600) as u8,
        minute: (s % 3_600 / 60) as u8,
        second: (s % 60) as u8,
    };
    assert(is_moment(u, nanos));
    law_a_moment_has_one_date(u, nanos);
}

// ---- the order of moments ---------------------------------------------------

/// What stands of a second that is not over.
spec fn fraction_text(rest: int) -> Seq<char> {
    if rest == 0 {
        Seq::empty()
    } else {
        "."@ + text::without_trailing(text::zero_padded(rest as nat, 9), '0')
    }
}

proof fn lemma_pow10()
    ensures
        text::pow10(2) == 100,
        text::pow10(4) == 10_000,
        text::pow10(9) == 1_000_000_000,
{
    reveal_with_fuel(text::pow10, 10);
}

proof fn lemma_fractions(a: int, b: int)
    requires
        0 <= a < b < 1_000_000_000,
    ensures
        text::before(fraction_text(a), fraction_text(b)),
{
    lemma_pow10();
    let y = text::without_trailing(text::zero_padded(b as nat, 9), '0');
    reveal_strlit(".");
    if a > 0 {
        text::lemma_fraction_order(a as nat, b as nat, 9);
        text::lemma_before_behind(
            "."@,
            text::without_trailing(text::zero_padded(a as nat, 9), '0'),
            y,
        );
    }
}

/// The text of a moment without its `Z`, from the right.
#[verifier::opaque]
spec fn body(u: Utc, rest: int) -> Seq<char> {
    let t5 = text::zero_padded(u.second as nat, 2) + fraction_text(rest);
    let t4 = text::zero_padded(u.minute as nat, 2) + (":"@ + t5);
    let t3 = text::zero_padded(u.hour as nat, 2) + (":"@ + t4);
    let t2 = text::zero_padded(u.day as nat, 2) + ("T"@ + t3);
    let t1 = text::zero_padded(u.month as nat, 2) + ("-"@ + t2);
    text::zero_padded(u.year as nat, 4) + ("-"@ + t1)
}

proof fn lemma_regrouped(
    y: Seq<char>,
    m: Seq<char>,
    d: Seq<char>,
    h: Seq<char>,
    i: Seq<char>,
    s: Seq<char>,
    f: Seq<char>,
)
    ensures
        (y + "-"@ + m + "-"@ + d) + "T"@ + (h + ":"@ + i + ":"@ + s + f) + "Z"@ == (y + ("-"@ + (m
            + ("-"@ + (d + ("T"@ + (h + (":"@ + (i + (":"@ + (s + f))))))))))).push('Z'),
{
    reveal_strlit("Z");
    let time = h + ":"@ + i + ":"@ + s + f;
    assert(time =~= h + (":"@ + (i + (":"@ + (s + f)))));
    let r = h + (":"@ + (i + (":"@ + (s + f))));
    assert((y + "-"@ + m + "-"@ + d) + "T"@ + r =~= y + ("-"@ + (m + ("-"@ + (d + ("T"@ + r))))));
    let b = y + ("-"@ + (m + ("-"@ + (d + ("T"@ + r)))));
    assert(b + "Z"@ =~= b.push('Z'));
}

/// A time ends with a digit or a point.
proof fn lemma_body_end(u: Utc, rest: int)
    requires
        u.second < 60,
        0 <= rest < 1_000_000_000,
    ensures
        body(u, rest).len() > 0,
        body(u, rest).last() != 'Z',
{
    lemma_pow10();
    reveal_strlit(".");
    let sec = text::zero_padded(u.second as nat, 2);
    let f = fraction_text(rest);
    text::lemma_padded(u.second as nat, 2);
    let t5 = sec + f;
    assert(t5.last() != 'Z') by {
        if rest == 0 {
            assert(t5.last() == sec[1]);
        } else {
            let z = text::zero_padded(rest as nat, 9);
            text::lemma_padded(rest as nat, 9);
            text::lemma_without_trailing(z, '0');
            let s = text::without_trailing(z, '0');
            assert(t5.last() == f.last());
            if s.len() > 0 {
                assert(f.last() == z[s.len() - 1]);
            } else {
                assert(f.last() == '.');
            }
        }
    }
    assert(body(u, rest).last() == t5.last()) by {
        reveal(body);
    }
    assert(body(u, rest).len() > 0) by {
        reveal(body);
    }
}

proof fn lemma_body(nanos: i128)
    requires
        is_known(nanos),
        utc_of(nanos).year >= 0,
    ensures
        text::without_trailing(moment_text(nanos), 'Z') == body(
            utc_of(nanos),
            nanos as int % 1_000_000_000,
        ),
{
    lemma_known_moments(nanos);
    let u = utc_of(nanos);
    let rest = nanos as int % 1_000_000_000;
    let b = body(u, rest);
    assert(moment_text(nanos) == b.push('Z')) by {
        reveal(body);
        lemma_regrouped(
            text::zero_padded(u.year as nat, 4),
            text::zero_padded(u.month as nat, 2),
            text::zero_padded(u.day as nat, 2),
            text::zero_padded(u.hour as nat, 2),
            text::zero_padded(u.minute as nat, 2),
            text::zero_padded(u.second as nat, 2),
            fraction_text(rest),
        );
    }
    lemma_body_end(u, rest);
    assert(b.push('Z').drop_last() =~= b);
    assert(text::without_trailing(b, 'Z') == b);
}

/// One time of day is before another.
spec fn is_earlier_time(u: Utc, ra: int, v: Utc, rb: int) -> bool {
    u.hour < v.hour || (u.hour == v.hour && (u.minute < v.minute || (u.minute == v.minute && (
    u.second < v.second || (u.second == v.second && ra < rb)))))
}

proof fn lemma_body_order(u: Utc, ra: int, v: Utc, rb: int)
    requires
        0 <= u.year < 10_000,
        0 <= v.year < 10_000,
        u.month < 100 && u.day < 100 && u.hour < 100 && u.minute < 100 && u.second < 100,
        v.month < 100 && v.day < 100 && v.hour < 100 && v.minute < 100 && v.second < 100,
        0 <= ra < 1_000_000_000,
        0 <= rb < 1_000_000_000,
        is_earlier_date(
            u.year as int,
            u.month as int,
            u.day as int,
            v.year as int,
            v.month as int,
            v.day as int,
        ) || (u.year == v.year && u.month == v.month && u.day == v.day && is_earlier_time(
            u,
            ra,
            v,
            rb,
        )),
    ensures
        text::before(body(u, ra), body(v, rb)),
{
    lemma_pow10();
    reveal(body);
    let l5 = u.second < v.second || (u.second == v.second && ra < rb);
    let l4 = u.minute < v.minute || (u.minute == v.minute && l5);
    let l3 = u.hour < v.hour || (u.hour == v.hour && l4);
    let l2 = u.day < v.day || (u.day == v.day && l3);
    let l1 = u.month < v.month || (u.month == v.month && l2);
    let x5 = text::zero_padded(u.second as nat, 2) + fraction_text(ra);
    let y5 = text::zero_padded(v.second as nat, 2) + fraction_text(rb);
    let x4 = text::zero_padded(u.minute as nat, 2) + (":"@ + x5);
    let y4 = text::zero_padded(v.minute as nat, 2) + (":"@ + y5);
    let x3 = text::zero_padded(u.hour as nat, 2) + (":"@ + x4);
    let y3 = text::zero_padded(v.hour as nat, 2) + (":"@ + y4);
    let x2 = text::zero_padded(u.day as nat, 2) + ("T"@ + x3);
    let y2 = text::zero_padded(v.day as nat, 2) + ("T"@ + y3);
    let x1 = text::zero_padded(u.month as nat, 2) + ("-"@ + x2);
    let y1 = text::zero_padded(v.month as nat, 2) + ("-"@ + y2);
    assert(l5 ==> text::before(x5, y5)) by {
        if l5 {
            if ra < rb {
                lemma_fractions(ra, rb);
            }
            text::lemma_padded_order(
                u.second as nat,
                v.second as nat,
                2,
                fraction_text(ra),
                fraction_text(rb),
            );
        }
    }
    assert(l4 ==> text::before(x4, y4)) by {
        if l4 {
            text::lemma_before_behind(":"@, x5, y5);
            text::lemma_padded_order(u.minute as nat, v.minute as nat, 2, ":"@ + x5, ":"@ + y5);
        }
    }
    assert(l3 ==> text::before(x3, y3)) by {
        if l3 {
            text::lemma_before_behind(":"@, x4, y4);
            text::lemma_padded_order(u.hour as nat, v.hour as nat, 2, ":"@ + x4, ":"@ + y4);
        }
    }
    assert(l2 ==> text::before(x2, y2)) by {
        if l2 {
            text::lemma_before_behind("T"@, x3, y3);
            text::lemma_padded_order(u.day as nat, v.day as nat, 2, "T"@ + x3, "T"@ + y3);
        }
    }
    assert(l1 ==> text::before(x1, y1)) by {
        if l1 {
            text::lemma_before_behind("-"@, x2, y2);
            text::lemma_padded_order(u.month as nat, v.month as nat, 2, "-"@ + x2, "-"@ + y2);
        }
    }
    text::lemma_before_behind("-"@, x1, y1);
    text::lemma_padded_order(u.year as nat, v.year as nat, 4, "-"@ + x1, "-"@ + y1);
}

/// A second of the day is made up of its hour, its minute and its second.
proof fn lemma_time_of_day(s: int)
    ensures
        s % 86_400 == 3_600 * (s % 86_400 / 3_600) + 60 * (s % 3_600 / 60) + s % 60,
        0 <= s % 3_600 / 60 < 60,
        0 <= s % 60 < 60,
{
    lemma_mod_mod(s, 3_600, 24);
    lemma_mod_mod(s, 60, 60);
    lemma_fundamental_div_mod(s % 86_400, 3_600);
    lemma_fundamental_div_mod(s % 3_600, 60);
}

/// Hours come first, then minutes, then seconds.
proof fn lemma_hours_first(ha: int, ma: int, ca: int, hb: int, mb: int, cb: int)
    requires
        0 <= ma < 60 && 0 <= ca < 60,
        0 <= mb < 60 && 0 <= cb < 60,
        3_600 * ha + 60 * ma + ca <= 3_600 * hb + 60 * mb + cb,
    ensures
        ha < hb || (ha == hb && (ma < mb || (ma == mb && ca <= cb))),
{
}

/// Of two moments of one day the earlier has the earlier time of day.
proof fn lemma_times(sa: int, ra: int, sb: int, rb: int)
    requires
        sa / 86_400 == sb / 86_400,
        sa < sb || (sa == sb && ra < rb),
    ensures
        ({
            let (ha, hb) = (sa % 86_400 / 3_600, sb % 86_400 / 3_600);
            let (ma, mb) = (sa % 3_600 / 60, sb % 3_600 / 60);
            ha < hb || (ha == hb && (ma < mb || (ma == mb && (sa % 60 < sb % 60 || (sa % 60 == sb % 60
                && ra < rb)))))
        }),
{
    if sa < sb {
        assert(sa % 86_400 < sb % 86_400) by {
            lemma_fundamental_div_mod(sa, 86_400);
            lemma_fundamental_div_mod(sb, 86_400);
        }
        lemma_time_of_day(sa);
        lemma_time_of_day(sb);
        lemma_hours_first(
            sa % 86_400 / 3_600,
            sa % 3_600 / 60,
            sa % 60,
            sb % 86_400 / 3_600,
            sb % 3_600 / 60,
            sb % 60,
        );
    }
}

/// Times in RFC 3339 follow one another as their moments do, once the `Z` is cut
/// off: with it, a moment would come after the fractions of its second.
pub proof fn law_times_follow_the_moments(a: i128, b: i128)
    requires
        is_known(a),
        is_known(b),
        a < b,
        utc_of(a).year >= 0,
    ensures
        utc_of(b).year >= 0,
        text::before(
            text::without_trailing(moment_text(a), 'Z'),
            text::without_trailing(moment_text(b), 'Z'),
        ),
{
    lemma_known_moments(a);
    lemma_known_moments(b);
    let u = utc_of(a);
    let v = utc_of(b);
    let ra = a as int % 1_000_000_000;
    let rb = b as int % 1_000_000_000;
    let sa = seconds(a);
    let sb = seconds(b);
    law_dates_follow_the_days(
        u.year as int,
        u.month as int,
        u.day as int,
        v.year as int,
        v.month as int,
        v.day as int,
    );
    assert(sa < sb || (sa == sb && ra < rb));
    assert(sa / 86_400 <= sb / 86_400);
    if sa / 86_400 == sb / 86_400 {
        lemma_times(sa, ra, sb, rb);
        assert(is_earlier_time(u, ra, v, rb));
    }
    lemma_body(a);
    lemma_body(b);
    lemma_body_order(u, ra, v, rb);
}

// ---- what names and lines spell ---------------------------------------------

proof fn lemma_spelled(n: nat, width: nat)
    requires
        1 <= width,
        n < text::pow10(width),
    ensures
        text::zero_padded(n, width).len() == width,
        text_laws::spelled(text::zero_padded(n, width)) == n,
{
    text::lemma_padded(n, width);
    text_laws::law_numbers_are_written_in_decimal(n, width);
}

/// A recording is named by its moment: four digits of the year, then two each of the
/// month and the day, a hyphen, and two each of the hour, the minute and the second.
pub proof fn law_names_spell_the_moment(u: Utc)
    requires
        0 <= u.year <= 9_999,
        u.month < 100 && u.day < 100 && u.hour < 100 && u.minute < 100 && u.second < 100,
    ensures
        ({
            let s = compact(u);
            &&& s.len() == 15
            &&& text_laws::spelled(s.subrange(0, 4)) == u.year
            &&& text_laws::spelled(s.subrange(4, 6)) == u.month
            &&& text_laws::spelled(s.subrange(6, 8)) == u.day
            &&& s[8] == '-'
            &&& text_laws::spelled(s.subrange(9, 11)) == u.hour
            &&& text_laws::spelled(s.subrange(11, 13)) == u.minute
            &&& text_laws::spelled(s.subrange(13, 15)) == u.second
        }),
{
    lemma_pow10();
    reveal_strlit("-");
    let s = compact(u);
    lemma_spelled(u.year as nat, 4);
    lemma_spelled(u.month as nat, 2);
    lemma_spelled(u.day as nat, 2);
    lemma_spelled(u.hour as nat, 2);
    lemma_spelled(u.minute as nat, 2);
    lemma_spelled(u.second as nat, 2);
    assert(s.subrange(0, 4) =~= text::zero_padded(u.year as nat, 4));
    assert(s.subrange(4, 6) =~= text::zero_padded(u.month as nat, 2));
    assert(s.subrange(6, 8) =~= text::zero_padded(u.day as nat, 2));
    assert(s.subrange(9, 11) =~= text::zero_padded(u.hour as nat, 2));
    assert(s.subrange(11, 13) =~= text::zero_padded(u.minute as nat, 2));
    assert(s.subrange(13, 15) =~= text::zero_padded(u.second as nat, 2));
}

/// A line of the log begins with its moment: the date with hyphens, a space, the time
/// with colons, and a `Z`.
pub proof fn law_lines_spell_the_moment(u: Utc)
    requires
        0 <= u.year <= 9_999,
        u.month < 100 && u.day < 100 && u.hour < 100 && u.minute < 100 && u.second < 100,
    ensures
        ({
            let s = spelled(u);
            &&& s.len() == 20
            &&& text_laws::spelled(s.subrange(0, 4)) == u.year
            &&& s[4] == '-'
            &&& text_laws::spelled(s.subrange(5, 7)) == u.month
            &&& s[7] == '-'
            &&& text_laws::spelled(s.subrange(8, 10)) == u.day
            &&& s[10] == ' '
            &&& text_laws::spelled(s.subrange(11, 13)) == u.hour
            &&& s[13] == ':'
            &&& text_laws::spelled(s.subrange(14, 16)) == u.minute
            &&& s[16] == ':'
            &&& text_laws::spelled(s.subrange(17, 19)) == u.second
            &&& s[19] == 'Z'
        }),
{
    lemma_pow10();
    reveal_strlit("-");
    reveal_strlit(" ");
    reveal_strlit(":");
    reveal_strlit("Z");
    let s = spelled(u);
    lemma_spelled(u.year as nat, 4);
    lemma_spelled(u.month as nat, 2);
    lemma_spelled(u.day as nat, 2);
    lemma_spelled(u.hour as nat, 2);
    lemma_spelled(u.minute as nat, 2);
    lemma_spelled(u.second as nat, 2);
    assert(s.subrange(0, 4) =~= text::zero_padded(u.year as nat, 4));
    assert(s.subrange(5, 7) =~= text::zero_padded(u.month as nat, 2));
    assert(s.subrange(8, 10) =~= text::zero_padded(u.day as nat, 2));
    assert(s.subrange(11, 13) =~= text::zero_padded(u.hour as nat, 2));
    assert(s.subrange(14, 16) =~= text::zero_padded(u.minute as nat, 2));
    assert(s.subrange(17, 19) =~= text::zero_padded(u.second as nat, 2));
}

/// Years before 0 have a minus sign and at least three digits.
pub proof fn law_years_have_four_characters(year: int)
    requires
        -9_999 <= year <= 9_999,
    ensures
        year < 0 ==> year_text(year)[0] == '-' && year_text(year).len() >= 4 && text_laws::spelled(
            year_text(year).skip(1),
        ) == -year,
        year >= 0 ==> year_text(year).len() == 4 && text_laws::spelled(year_text(year)) == year,
{
    lemma_pow10();
    if year < 0 {
        reveal_strlit("-");
        let n = (-year) as nat;
        text_laws::law_numbers_are_written_in_decimal(n, 3);
        assert(year_text(year).skip(1) =~= text::zero_padded(n, 3));
    } else {
        lemma_spelled(year as nat, 4);
    }
}

proof fn lemma_leap_years(year: int)
    ensures
        (year % 4 == 0 && (year % 100 != 0 || year % 400 == 0)) == (year % 400 == 0 || (year % 4
            == 0 && year % 100 != 0)),
{
}

proof fn lemma_four_centuries(n: int)
    ensures
        (n + 400) / 4 == n / 4 + 100,
        (n + 400) / 100 == n / 100 + 4,
        (n + 400) / 400 == n / 400 + 1,
{
}

/// The calendar is the Gregorian one: every fourth year is a leap year but for the
/// full centuries that 400 does not divide, and 400 years have 146 097 days.
pub proof fn law_the_calendar_is_gregorian(year: int)
    ensures
        is_leap(year) == (year % 400 == 0 || (year % 4 == 0 && year % 100 != 0)),
        days_before_year(year + 1) - days_before_year(year) == if is_leap(year) {
            366int
        } else {
            365
        },
        days_before_year(year + 400) - days_before_year(year) == 146_097,
        days_to(1970, 1, 1) == 0,
{
    lemma_leap_years(year);
    lemma_four_centuries(year - 1);
    lemma_next_year(year);
}

/// February has 28 days and 29 in a leap year; April, June, September and November have
/// 30, and the others 31. The days before a month are those of the months before it.
pub proof fn law_months_have_their_days(year: int, m: int)
    ensures
        m == 2 ==> days_in_month(year, m) == if year % 400 == 0 || (year % 4 == 0 && year % 100
            != 0) {
            29int
        } else {
            28
        },
        m == 4 || m == 6 || m == 9 || m == 11 ==> days_in_month(year, m) == 30,
        m == 1 || m == 3 || m == 5 || m == 7 || m == 8 || m == 10 || m == 12 ==> days_in_month(
            year,
            m,
        ) == 31,
        days_before_month(year, 1) == 0,
        m >= 1 ==> days_before_month(year, m + 1) == days_before_month(year, m) + days_in_month(
            year,
            m,
        ),
{
    lemma_leap_years(year);
}

/// The moments that are known are those of the years from -9999 to 9999.
pub proof fn law_known_moments_have_four_digits_of_years(nanos: i128)
    ensures
        is_known(nanos) <==> -377_705_116_800_000_000_000 <= nanos < 253_402_300_800_000_000_000,
{
}

} // verus!
