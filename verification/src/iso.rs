//! Civil dates and ISO timestamps.

use crate::json;
use crate::text;
use vstd::prelude::*;

verus! {

/// A day of the Gregorian calendar.
pub ghost struct Date {
    pub year: int,
    pub month: int,
    pub day: int,
}

pub open spec fn leap(year: int) -> bool {
    year % 4 == 0 && (year % 100 != 0 || year % 400 == 0)
}

pub open spec fn month_days(year: int, month: int) -> int {
    if month == 2 {
        if leap(year) {
            29
        } else {
            28
        }
    } else if month == 4 || month == 6 || month == 9 || month == 11 {
        30
    } else {
        31
    }
}

/// Days from the start of year 1 to the start of `year`.
pub open spec fn year_start(year: int) -> int {
    365 * (year - 1) + (year - 1) / 4 - (year - 1) / 100 + (year - 1) / 400
}

/// Days from the start of the year to the start of `month`.
pub open spec fn month_start(year: int, month: int) -> int
    decreases month,
{
    if month <= 1 {
        0
    } else {
        month_start(year, month - 1) + month_days(year, month - 1)
    }
}

impl Date {
    pub open spec fn valid(self) -> bool {
        &&& self.year >= 1
        &&& 1 <= self.month <= 12
        &&& 1 <= self.day <= month_days(self.year, self.month)
    }

    /// Days from 1970-01-01 to this day.
    pub open spec fn number(self) -> int {
        year_start(self.year) + month_start(self.year, self.month) + self.day - 1 - 719_162
    }
}

/// `date` is the day that lies `days` after 1970-01-01.
pub open spec fn falls_on(date: Date, days: int) -> bool {
    date.valid() && date.number() == days
}

/// The day that lies `days` after 1970-01-01.
pub open spec fn date_of(days: int) -> Date {
    choose|date: Date| falls_on(date, days)
}

proof fn lemma_month_starts(year: int)
    ensures
        month_start(year, 1) == 0,
        month_start(year, 2) == 31,
        month_start(year, 3) == 31 + month_days(year, 2),
        month_start(year, 4) == month_start(year, 3) + 31,
        month_start(year, 5) == month_start(year, 3) + 61,
        month_start(year, 6) == month_start(year, 3) + 92,
        month_start(year, 7) == month_start(year, 3) + 122,
        month_start(year, 8) == month_start(year, 3) + 153,
        month_start(year, 9) == month_start(year, 3) + 184,
        month_start(year, 10) == month_start(year, 3) + 214,
        month_start(year, 11) == month_start(year, 3) + 245,
        month_start(year, 12) == month_start(year, 3) + 275,
{
    reveal_with_fuel(month_start, 13);
}

proof fn lemma_next_year(year: int)
    requires
        year >= 1,
    ensures
        year_start(year + 1) == year_start(year) + if leap(year) {
            366int
        } else {
            365int
        },
{
    let y = year - 1;
    assert((y + 1) / 4 == y / 4 + if (y + 1) % 4 == 0 {
        1int
    } else {
        0int
    });
    assert((y + 1) / 100 == y / 100 + if (y + 1) % 100 == 0 {
        1int
    } else {
        0int
    });
    assert((y + 1) / 400 == y / 400 + if (y + 1) % 400 == 0 {
        1int
    } else {
        0int
    });
}

/// A year is over before a later one starts.
proof fn lemma_years(a: int, b: int)
    requires
        1 <= a < b,
    ensures
        year_start(a) + if leap(a) {
            366int
        } else {
            365int
        } <= year_start(b),
    decreases b - a,
{
    lemma_next_year(b - 1);
    if a + 1 < b {
        lemma_years(a, b - 1);
    }
}

/// A month is over before a later one of its year starts, and the last ends the year.
proof fn lemma_months(year: int, a: int, b: int)
    requires
        1 <= a < b <= 13,
    ensures
        month_start(year, a) + month_days(year, a) <= month_start(year, b),
        month_start(year, 13) == if leap(year) {
            366int
        } else {
            365int
        },
    decreases b - a,
{
    lemma_month_starts(year);
    reveal_with_fuel(month_start, 2);
    assert(month_start(year, 13) == month_start(year, 12) + 31);
    if a + 1 < b {
        lemma_months(year, a, b - 1);
    }
}

/// A day is within its year.
proof fn lemma_within_year(d: Date)
    requires
        d.valid(),
    ensures
        year_start(d.year) <= d.number() + 719_162 < year_start(d.year) + if leap(d.year) {
            366int
        } else {
            365int
        },
{
    lemma_months(d.year, d.month, 13);
    lemma_month_starts(d.year);
}

/// No two days have the same number: a number names one day.
pub proof fn lemma_one_date(a: Date, b: Date)
    requires
        a.valid(),
        b.valid(),
        a.number() == b.number(),
    ensures
        a == b,
{
    lemma_within_year(a);
    lemma_within_year(b);
    if a.year < b.year {
        lemma_years(a.year, b.year);
    } else if b.year < a.year {
        lemma_years(b.year, a.year);
    } else if a.month < b.month {
        lemma_months(a.year, a.month, b.month);
    } else if b.month < a.month {
        lemma_months(a.year, b.month, a.month);
    }
}

/// Year and day of the year within an era of 400 years, for years that start in March.
proof fn lemma_march_year(doe: int) -> (r: (int, int))
    requires
        0 <= doe < 146_097,
    ensures
        r.0 == (doe - doe / 1460 + doe / 36524 - doe / 146_096) / 365,
        r.1 == doe - (365 * r.0 + r.0 / 4 - r.0 / 100),
        0 <= r.0 <= 399,
        0 <= r.1 <= 365,
        r.1 == 365 ==> (r.0 + 1) % 4 == 0 && ((r.0 + 1) % 100 != 0 || r.0 == 399),
{
    let yoe = (doe - doe / 1460 + doe / 36524 - doe / 146_096) / 365;
    let doy = doe - (365 * yoe + yoe / 4 - yoe / 100);
    let c = doe / 36524;
    assert(0 <= c <= 4);
    (yoe, doy)
}

/// The same day counted in years that start in March and in years that start in January.
proof fn lemma_civil(days: int, era: int, yoe: int, doy: int, date: Date)
    requires
        days >= 0,
        era >= 4,
        days + 719_468 == era * 146_097 + 365 * yoe + yoe / 4 - yoe / 100 + doy,
        0 <= yoe <= 399,
        0 <= doy <= 365,
        doy == 365 ==> (yoe + 1) % 4 == 0 && ((yoe + 1) % 100 != 0 || yoe == 399),
        ({
            let mp = (5 * doy + 2) / 153;
            &&& date.day == doy - (153 * mp + 2) / 5 + 1
            &&& date.month == if mp < 10 {
                mp + 3
            } else {
                mp - 9
            }
            &&& date.year == yoe + era * 400 + if mp < 10 {
                0int
            } else {
                1int
            }
        }),
    ensures
        falls_on(date, days),
{
    let mp = (5 * doy + 2) / 153;
    let y = yoe + era * 400;
    assert(y / 4 == yoe / 4 + era * 100);
    assert(y / 100 == yoe / 100 + era * 4);
    assert(y / 400 == era);
    assert((y + 1) % 4 == (yoe + 1) % 4);
    assert((y + 1) % 100 == (yoe + 1) % 100);
    assert((y + 1) % 400 == (yoe + 1) % 400);
    assert(0 <= mp <= 11);
    lemma_month_starts(date.year);
    lemma_next_year(y);
    lemma_next_year(y + 1);
    assert(year_start(y + 1) == 365 * y + y / 4 - y / 100 + y / 400);
}

/// Every day from 1970 on has a date.
pub proof fn lemma_every_day(days: int)
    requires
        days >= 0,
    ensures
        falls_on(date_of(days), days),
{
    let z = days + 719_468;
    let (yoe, doy) = lemma_march_year(z % 146_097);
    let era = z / 146_097;
    let mp = (5 * doy + 2) / 153;
    let date = Date {
        year: yoe + era * 400 + if mp < 10 {
            0int
        } else {
            1int
        },
        month: if mp < 10 {
            mp + 3
        } else {
            mp - 9
        },
        day: doy - (153 * mp + 2) / 5 + 1,
    };
    lemma_civil(days, era, yoe, doy, date);
}

/// A moment of a day as ISO text.
pub open spec fn iso_text(date: Date, second: int) -> Seq<char> {
    text::padded(date.year as nat, 4) + seq!['-'] + text::padded(date.month as nat, 2) + seq!['-']
        + text::padded(date.day as nat, 2) + seq!['T'] + text::padded((second / 3600) as nat, 2)
        + seq![':'] + text::padded((second % 3600 / 60) as nat, 2) + seq![':'] + text::padded(
        (second % 60) as nat,
        2,
    ) + ".000Z"@
}

/// Seconds since 1970 as ISO text.
pub open spec fn iso_of(secs: u64) -> Seq<char> {
    iso_text(date_of(secs as int / 86400), secs as int % 86400)
}

/// Civil-date ISO like 2026-08-13T08:04:12.000Z.
pub fn format_iso(secs: u64) -> (r: String)
    ensures
        r@ == iso_of(secs),
        falls_on(date_of(secs as int / 86400), secs as int / 86400),
{
    let days: u64 = secs / 86400;
    let sod: u64 = secs % 86400;
    let z: u64 = days + 719_468;
    let era: u64 = z / 146_097;
    let doe: u64 = z % 146_097;
    let ghost (yoe_g, doy_g) = lemma_march_year(doe as int);
    let yoe: u64 = (doe - doe / 1460 + doe / 36524 - doe / 146_096) / 365;
    let doy: u64 = doe - (365 * yoe + yoe / 4 - yoe / 100);
    let mp: u64 = (5 * doy + 2) / 153;
    let d: u64 = doy - (153 * mp + 2) / 5 + 1;
    let m: u64 = if mp < 10 {
        mp + 3
    } else {
        mp - 9
    };
    let y: u64 = if m <= 2 {
        yoe + era * 400 + 1
    } else {
        yoe + era * 400
    };
    let ghost date = Date { year: y as int, month: m as int, day: d as int };
    proof {
        lemma_civil(days as int, era as int, yoe as int, doy as int, date);
        lemma_one_date(date, date_of(days as int));
    }
    let mut r = text::to_padded(y, 4);
    r.push('-');
    let part = text::to_padded(m, 2);
    text::append(&mut r, part.as_str());
    r.push('-');
    let part = text::to_padded(d, 2);
    text::append(&mut r, part.as_str());
    r.push('T');
    let part = text::to_padded(sod / 3600, 2);
    text::append(&mut r, part.as_str());
    r.push(':');
    let part = text::to_padded(sod % 3600 / 60, 2);
    text::append(&mut r, part.as_str());
    r.push(':');
    let part = text::to_padded(sod % 60, 2);
    text::append(&mut r, part.as_str());
    text::append(&mut r, ".000Z");
    proof {
        assert(r@ =~= iso_text(date, sod as int));
    }
    r
}

/// A character of a timestamp.
pub open spec fn stamp_char(c: char) -> bool {
    ('0' <= c && c <= '9') || c == '-' || c == ':' || c == 'T' || c == '.' || c == 'Z'
}

proof fn lemma_padded(n: nat, width: nat)
    requires
        n <= u64::MAX,
        width <= 20,
    ensures
        width <= text::padded(n, width).len() <= 20,
        forall|i: int|
            0 <= i < text::padded(n, width).len() ==> stamp_char(
                #[trigger] text::padded(n, width)[i],
            ),
{
    text::lemma_decimal_u64(n);
}

/// A timestamp is short and made of digits and a few signs.
pub proof fn lemma_iso_shape(secs: u64)
    ensures
        24 <= iso_of(secs).len() <= 130,
        forall|i: int| 0 <= i < iso_of(secs).len() ==> stamp_char(#[trigger] iso_of(secs)[i]),
{
    let days = secs as int / 86400;
    let second = secs as int % 86400;
    let date = date_of(days);
    lemma_every_day(days);
    lemma_within_year(date);
    assert(date.year <= u64::MAX);
    lemma_padded(date.year as nat, 4);
    lemma_padded(date.month as nat, 2);
    lemma_padded(date.day as nat, 2);
    lemma_padded((second / 3600) as nat, 2);
    lemma_padded((second % 3600 / 60) as nat, 2);
    lemma_padded((second % 60) as nat, 2);
    reveal_strlit(".000Z");
}

/// Text in front decides the order.
proof fn lemma_before_front(x: Seq<char>, y: Seq<char>, u: Seq<char>, v: Seq<char>)
    requires
        x.len() == y.len(),
        json::key_before(x, y),
    ensures
        json::key_before(x + u, y + v),
    decreases x.len(),
{
    if x.len() > 0 {
        assert((x + u)[0] == x[0]);
        assert((y + v)[0] == y[0]);
        if x[0] == y[0] {
            lemma_before_front(x.drop_first(), y.drop_first(), u, v);
            assert((x + u).drop_first() =~= x.drop_first() + u);
            assert((y + v).drop_first() =~= y.drop_first() + v);
        }
    }
}

/// The same text in front does not change the order.
proof fn lemma_before_back(x: Seq<char>, u: Seq<char>, v: Seq<char>)
    requires
        json::key_before(u, v),
    ensures
        json::key_before(x + u, x + v),
    decreases x.len(),
{
    if x.len() == 0 {
        assert(x + u =~= u);
        assert(x + v =~= v);
    } else {
        assert((x + u)[0] == x[0]);
        assert((x + v)[0] == x[0]);
        lemma_before_back(x.drop_first(), u, v);
        assert((x + u).drop_first() =~= x.drop_first() + u);
        assert((x + v).drop_first() =~= x.drop_first() + v);
    }
}

/// A padded number ends with its last digit.
proof fn lemma_padded_step(n: nat, width: nat)
    requires
        n < text::pow10(width),
        width >= 2,
    ensures
        text::padded(n, width) == text::padded(n / 10, (width - 1) as nat).push(
            text::digit(n % 10),
        ),
        n / 10 < text::pow10((width - 1) as nat),
{
    reveal_with_fuel(text::pow10, 2);
    text::lemma_decimal(n, width);
    text::lemma_decimal(n / 10, (width - 1) as nat);
    assert(text::padded(n, width) =~= text::padded(n / 10, (width - 1) as nat).push(
        text::digit(n % 10),
    ));
}

/// Padded numbers are ordered as the numbers are.
proof fn lemma_padded_order(n: nat, m: nat, width: nat)
    requires
        n < text::pow10(width),
        m < text::pow10(width),
        width >= 1,
    ensures
        text::padded(n, width).len() == width,
        n < m ==> json::key_before(text::padded(n, width), text::padded(m, width)),
    decreases width,
{
    text::lemma_decimal(n, width);
    text::lemma_decimal(m, width);
    if width == 1 {
        reveal_with_fuel(text::pow10, 2);
        assert(text::padded(n, 1) =~= seq![text::digit(n)]);
        assert(text::padded(m, 1) =~= seq![text::digit(m)]);
    } else {
        let less = (width - 1) as nat;
        lemma_padded_step(n, width);
        lemma_padded_step(m, width);
        lemma_padded_order(n / 10, m / 10, less);
        lemma_padded_order(m / 10, n / 10, less);
        let x = text::padded(n / 10, less);
        let y = text::padded(m / 10, less);
        let u = seq![text::digit(n % 10)];
        let v = seq![text::digit(m % 10)];
        assert(x.push(text::digit(n % 10)) =~= x + u);
        assert(y.push(text::digit(m % 10)) =~= y + v);
        if n / 10 < m / 10 {
            lemma_before_front(x, y, u, v);
        } else if n < m {
            assert(n % 10 < m % 10);
            assert(json::key_before(u, v));
            lemma_before_back(x, u, v);
        }
    }
}

/// A field of a timestamp and what follows it, after a sign.
spec fn then_field(sign: char, n: int, rest: Seq<char>) -> Seq<char> {
    seq![sign] + (text::padded(n as nat, 2) + rest)
}

/// Timestamps that agree up to a field are ordered by the field, and then by what follows.
proof fn lemma_field_order(sign: char, n: int, m: int, u: Seq<char>, v: Seq<char>)
    requires
        0 <= n < 100,
        0 <= m < 100,
        n < m || (n == m && json::key_before(u, v)),
    ensures
        json::key_before(then_field(sign, n, u), then_field(sign, m, v)),
{
    reveal_with_fuel(text::pow10, 3);
    lemma_padded_order(n as nat, m as nat, 2);
    lemma_padded_order(m as nat, n as nat, 2);
    let x = text::padded(n as nat, 2);
    let y = text::padded(m as nat, 2);
    if n < m {
        lemma_before_front(x, y, u, v);
    } else {
        lemma_before_back(x, u, v);
    }
    lemma_before_back(seq![sign], x + u, y + v);
}

/// A later day has a later date.
proof fn lemma_date_order(a: Date, b: Date)
    requires
        a.valid(),
        b.valid(),
        a.number() < b.number(),
    ensures
        a.year < b.year || (a.year == b.year && (a.month < b.month || (a.month == b.month && a.day
            < b.day))),
{
    lemma_within_year(a);
    lemma_within_year(b);
    if b.year < a.year {
        lemma_years(b.year, a.year);
    } else if a.year == b.year && b.month < a.month {
        lemma_months(a.year, b.month, a.month);
    }
}

/// Days before the year 10000 have a year of four digits.
proof fn lemma_four_digits(days: int)
    requires
        0 <= days < 2_932_897,
    ensures
        date_of(days).valid(),
        date_of(days).number() == days,
        date_of(days).year < 10_000,
{
    let d = date_of(days);
    lemma_every_day(days);
    lemma_within_year(d);
    if d.year >= 10_000 {
        if d.year > 10_000 {
            lemma_years(10_000, d.year);
        }
        assert(year_start(10_000) == 3_652_059);
    }
}

spec fn clock_text(second: int) -> Seq<char> {
    then_field(
        'T',
        second / 3600,
        then_field(':', second % 3600 / 60, then_field(':', second % 60, ".000Z"@)),
    )
}

spec fn day_text(date: Date, rest: Seq<char>) -> Seq<char> {
    text::padded(date.year as nat, 4) + then_field('-', date.month, then_field('-', date.day, rest))
}

/// Before the year 10000 a timestamp has the shape YYYY-MM-DDTHH:MM:SS.000Z: its signs stand in
/// their places, and its fields are those of a valid day and of a clock.
pub proof fn lemma_iso_fields(secs: u64)
    requires
        secs < 253_402_300_800,
    ensures
        ({
            let t = iso_of(secs);
            let date = date_of(secs as int / 86400);
            let second = secs as int % 86400;
            &&& t.len() == 24
            &&& t[4] == '-' && t[7] == '-' && t[10] == 'T' && t[13] == ':' && t[16] == ':'
            &&& t.skip(19) == ".000Z"@
            &&& date.valid() && date.year < 10_000
            &&& t.subrange(0, 4) == text::padded(date.year as nat, 4)
            &&& t.subrange(5, 7) == text::padded(date.month as nat, 2)
            &&& t.subrange(8, 10) == text::padded(date.day as nat, 2)
            &&& t.subrange(11, 13) == text::padded((second / 3600) as nat, 2)
            &&& t.subrange(14, 16) == text::padded((second % 3600 / 60) as nat, 2)
            &&& t.subrange(17, 19) == text::padded((second % 60) as nat, 2)
        }),
{
    let date = date_of(secs as int / 86400);
    let second = secs as int % 86400;
    let t = iso_of(secs);
    lemma_four_digits(secs as int / 86400);
    reveal_with_fuel(text::pow10, 5);
    reveal_strlit(".000Z");
    lemma_padded_order(date.year as nat, date.year as nat, 4);
    lemma_padded_order(date.month as nat, date.day as nat, 2);
    lemma_padded_order(date.day as nat, date.day as nat, 2);
    lemma_padded_order((second / 3600) as nat, 0, 2);
    lemma_padded_order((second % 3600 / 60) as nat, 0, 2);
    lemma_padded_order((second % 60) as nat, 0, 2);
    assert(t.skip(19) =~= ".000Z"@);
    assert(t.subrange(0, 4) =~= text::padded(date.year as nat, 4));
    assert(t.subrange(5, 7) =~= text::padded(date.month as nat, 2));
    assert(t.subrange(8, 10) =~= text::padded(date.day as nat, 2));
    assert(t.subrange(11, 13) =~= text::padded((second / 3600) as nat, 2));
    assert(t.subrange(14, 16) =~= text::padded((second % 3600 / 60) as nat, 2));
    assert(t.subrange(17, 19) =~= text::padded((second % 60) as nat, 2));
}

/// Before the year 10000 later moments have later timestamps.
pub proof fn lemma_iso_order(a: u64, b: u64)
    requires
        a < b < 253_402_300_800,
    ensures
        json::key_before(iso_of(a), iso_of(b)),
        iso_of(a).len() == 24,
        iso_of(b).len() == 24,
{
    let da = date_of(a as int / 86400);
    let db = date_of(b as int / 86400);
    let sa = a as int % 86400;
    let sb = b as int % 86400;
    lemma_four_digits(a as int / 86400);
    lemma_four_digits(b as int / 86400);
    lemma_iso_parts(da, sa);
    lemma_iso_parts(db, sb);
    let u = clock_text(sa);
    let v = clock_text(sb);
    if a as int / 86400 == b as int / 86400 {
        lemma_clock_order(sa, sb);
        lemma_field_order('-', da.day, db.day, u, v);
        lemma_field_order(
            '-',
            da.month,
            db.month,
            then_field('-', da.day, u),
            then_field('-', db.day, v),
        );
        lemma_before_back(
            text::padded(da.year as nat, 4),
            then_field('-', da.month, then_field('-', da.day, u)),
            then_field('-', db.month, then_field('-', db.day, v)),
        );
    } else {
        lemma_date_order(da, db);
        let x = then_field('-', da.month, then_field('-', da.day, u));
        let y = then_field('-', db.month, then_field('-', db.day, v));
        reveal_with_fuel(text::pow10, 5);
        lemma_padded_order(da.year as nat, db.year as nat, 4);
        lemma_padded_order(db.year as nat, da.year as nat, 4);
        if da.year < db.year {
            lemma_before_front(
                text::padded(da.year as nat, 4),
                text::padded(db.year as nat, 4),
                x,
                y,
            );
        } else {
            if da.month == db.month {
                lemma_field_order('-', da.day, db.day, u, v);
            }
            lemma_field_order(
                '-',
                da.month,
                db.month,
                then_field('-', da.day, u),
                then_field('-', db.day, v),
            );
            lemma_before_back(text::padded(da.year as nat, 4), x, y);
        }
    }
}

/// Within a day, later seconds have later clock times.
proof fn lemma_clock_order(a: int, b: int)
    requires
        0 <= a < b < 86400,
    ensures
        json::key_before(clock_text(a), clock_text(b)),
{
    let z = ".000Z"@;
    let (ha, ma, ca) = (a / 3600, a % 3600 / 60, a % 60);
    let (hb, mb, cb) = (b / 3600, b % 3600 / 60, b % 60);
    if ha == hb && ma == mb {
        lemma_field_order(':', ca, cb, z, z);
    }
    if ha == hb {
        lemma_field_order(':', ma, mb, then_field(':', ca, z), then_field(':', cb, z));
    }
    lemma_field_order(
        'T',
        ha,
        hb,
        then_field(':', ma, then_field(':', ca, z)),
        then_field(':', mb, then_field(':', cb, z)),
    );
}

/// A timestamp taken apart.
proof fn lemma_iso_parts(date: Date, second: int)
    requires
        date.valid(),
        date.year < 10_000,
        0 <= second < 86400,
    ensures
        iso_text(date, second) == day_text(date, clock_text(second)),
        iso_text(date, second).len() == 24,
{
    reveal_with_fuel(text::pow10, 5);
    reveal_strlit(".000Z");
    lemma_padded_order(date.year as nat, date.year as nat, 4);
    lemma_padded_order(date.month as nat, date.day as nat, 2);
    lemma_padded_order(date.day as nat, date.day as nat, 2);
    lemma_padded_order((second / 3600) as nat, 0, 2);
    lemma_padded_order((second % 3600 / 60) as nat, 0, 2);
    lemma_padded_order((second % 60) as nat, 0, 2);
    assert(iso_text(date, second) =~= day_text(date, clock_text(second)));
}

/// The calendar goes on from the first of January 1970 day by day: months have 31 or 30 days,
/// February 28, or 29 in years that four divides, unless a hundred does and four hundred does not.
pub proof fn lemma_next_day(days: int)
    requires
        days >= 0,
    ensures
        ({
            let a = date_of(days);
            let b = date_of(days + 1);
            let m = a.month;
            let last: int = if m == 4 || m == 6 || m == 9 || m == 11 {
                30
            } else if m != 2 {
                31
            } else if a.year % 400 == 0 || (a.year % 4 == 0 && a.year % 100 != 0) {
                29
            } else {
                28
            };
            &&& 1 <= a.month <= 12 && 1 <= a.day <= last
            &&& a.day < last ==> b == (Date { year: a.year, month: m, day: a.day + 1 })
            &&& a.day == last && m < 12 ==> b == (Date { year: a.year, month: m + 1, day: 1 })
            &&& a.day == last && m == 12 ==> b == (Date { year: a.year + 1, month: 1, day: 1 })
        }),
        date_of(0) == (Date { year: 1970, month: 1, day: 1 }),
{
    let a = date_of(days);
    let b = date_of(days + 1);
    lemma_every_day(days);
    lemma_every_day(days + 1);
    lemma_every_day(0);
    let next = if a.day < month_days(a.year, a.month) {
        Date { year: a.year, month: a.month, day: a.day + 1 }
    } else if a.month < 12 {
        Date { year: a.year, month: a.month + 1, day: 1 }
    } else {
        Date { year: a.year + 1, month: 1, day: 1 }
    };
    lemma_next_year(a.year);
    lemma_month_starts(a.year);
    lemma_month_starts(a.year + 1);
    lemma_months(a.year, a.month, 13);
    assert(month_start(a.year, a.month + 1) == month_start(a.year, a.month) + month_days(
        a.year,
        a.month,
    ));
    lemma_one_date(b, next);
    let first = Date { year: 1970, month: 1, day: 1 };
    lemma_month_starts(1970);
    assert(first.number() == 0);
    lemma_one_date(date_of(0), first);
}

} // verus!
