//! UTC timestamps of the form `YYYY-MM-DDTHH:MM:SSZ`, whose order as text is their order in
//! time.
use vstd::prelude::*;

use crate::number::{decimal, digit, in_base, padded, padded_chars};
use crate::text::{lex_less, string_of};

verus! {

// ---- the calendar -------------------------------------------------------------------------

/// Whether `y` has a 29th of February.
pub open spec fn is_leap(y: int) -> bool {
    y % 4 == 0 && (y % 100 != 0 || y % 400 == 0)
}

/// How many days `y` has.
pub open spec fn days_in_year(y: int) -> int {
    if is_leap(y) {
        366
    } else {
        365
    }
}

/// How many days month `m` of `y` has.
pub open spec fn days_in_month(y: int, m: int) -> int {
    if m == 2 {
        if is_leap(y) {
            29
        } else {
            28
        }
    } else if m == 4 || m == 6 || m == 9 || m == 11 {
        30
    } else {
        31
    }
}

/// How many days of `y` lie before its month `m`.
pub open spec fn days_before_month(y: int, m: int) -> int
    decreases m,
{
    if m <= 1 {
        0
    } else {
        days_before_month(y, m - 1) + days_in_month(y, m - 1)
    }
}

/// How many days lie between the first of January 1970 and the first of January of `y`.
pub open spec fn days_before_year(y: int) -> int
    decreases y - 1970,
{
    if y <= 1970 {
        0
    } else {
        days_before_year(y - 1) + days_in_year(y - 1)
    }
}

/// `y`, `m`, `d` is a date of the calendar, in 1970 or later.
pub open spec fn is_date(y: int, m: int, d: int) -> bool {
    1970 <= y && 1 <= m <= 12 && 1 <= d <= days_in_month(y, m)
}

/// The number of days from the first of January 1970 to that date.
pub open spec fn day_number(y: int, m: int, d: int) -> int {
    days_before_year(y) + days_before_month(y, m) + (d - 1)
}

/// How many days lie before the first of January of `y`, in closed form.
spec fn closed_year(y: int) -> int {
    365 * (y - 1970) + ((y - 1) / 4 - 492) - ((y - 1) / 100 - 19) + ((y - 1) / 400 - 4)
}

proof fn lemma_closed_year(y: int)
    requires
        1970 <= y,
    ensures
        days_before_year(y) == closed_year(y),
    decreases y,
{
    if y > 1970 {
        lemma_closed_year(y - 1);
        let p = y - 1;
        assert(p / 4 == (p - 1) / 4 + (if p % 4 == 0 {
            1int
        } else {
            0int
        }));
        assert(p / 100 == (p - 1) / 100 + (if p % 100 == 0 {
            1int
        } else {
            0int
        }));
        assert(p / 400 == (p - 1) / 400 + (if p % 400 == 0 {
            1int
        } else {
            0int
        }));
        assert(p % 400 == 0 ==> p % 100 == 0);
        assert(p % 100 == 0 ==> p % 4 == 0);
    }
}

/// How many days lie before month `m`, in closed form: with the year counted from March.
proof fn lemma_months(y: int)
    ensures
        days_before_month(y, 1) == 0,
        days_before_month(y, 2) == 31,
        days_before_month(y, 3) == 31 + days_in_month(y, 2),
        days_before_month(y, 4) == 62 + days_in_month(y, 2),
        days_before_month(y, 5) == 92 + days_in_month(y, 2),
        days_before_month(y, 6) == 123 + days_in_month(y, 2),
        days_before_month(y, 7) == 153 + days_in_month(y, 2),
        days_before_month(y, 8) == 184 + days_in_month(y, 2),
        days_before_month(y, 9) == 215 + days_in_month(y, 2),
        days_before_month(y, 10) == 245 + days_in_month(y, 2),
        days_before_month(y, 11) == 276 + days_in_month(y, 2),
        days_before_month(y, 12) == 306 + days_in_month(y, 2),
        days_before_month(y, 13) == 337 + days_in_month(y, 2),
{
    reveal_with_fuel(days_before_month, 14);
}

/// A date, as year, month and day.
#[derive(Clone, Copy, PartialEq, Eq, Structural)]
pub struct Date {
    pub year: u64,
    pub month: u64,
    pub day: u64,
}

/// The date that lies `days` days after the first of January 1970.
pub fn civil_date(days: u64) -> (r: Date)
    requires
        days <= 213503982334601,
    ensures
        is_date(r.year as int, r.month as int, r.day as int),
        day_number(r.year as int, r.month as int, r.day as int) == days,
{
    // The year is counted from the first of March, in eras of 400 years.
    let z: u64 = days + 719468;
    let era: u64 = z / 146097;
    let doe: u64 = z - era * 146097;
    let yoe: u64 = (doe - doe / 1460 + doe / 36524 - doe / 146096) / 365;
    proof {
        lemma_year_of_era(doe as int, yoe as int);
    }
    let y: u64 = yoe + era * 400;
    let doy: u64 = doe - (365 * yoe + yoe / 4 - yoe / 100);
    let mp: u64 = (5 * doy + 2) / 153;
    let day: u64 = doy - (153 * mp + 2) / 5 + 1;
    let month: u64 = if mp < 10 {
        mp + 3
    } else {
        mp - 9
    };
    let year: u64 = if month <= 2 {
        y + 1
    } else {
        y
    };
    proof {
        lemma_date(days as int, era as int, yoe as int, doy as int, mp as int);
    }
    Date { year, month, day }
}

/// The year of an era that day `doe` of it lies in, counted from March.
proof fn lemma_year_of_era(doe: int, yoe: int)
    requires
        0 <= doe < 146097,
        yoe == (doe - doe / 1460 + doe / 36524 - doe / 146096) / 365,
    ensures
        0 <= yoe < 400,
        0 <= 365 * yoe + yoe / 4 - yoe / 100 <= doe,
        doe - (365 * yoe + yoe / 4 - yoe / 100) <= 365,
        doe - (365 * yoe + yoe / 4 - yoe / 100) == 365 ==> is_leap(yoe + 1),
{
}

/// How many days lie before month `k` of a year that begins in March.
spec fn march_start(k: int) -> int {
    if k <= 0 {
        0
    } else if k == 1 {
        31
    } else if k == 2 {
        61
    } else if k == 3 {
        92
    } else if k == 4 {
        122
    } else if k == 5 {
        153
    } else if k == 6 {
        184
    } else if k == 7 {
        214
    } else if k == 8 {
        245
    } else if k == 9 {
        275
    } else if k == 10 {
        306
    } else {
        337
    }
}

/// The month of a year that begins in March, by the number of the day.
proof fn lemma_march_month(doy: int, mp: int)
    requires
        0 <= doy <= 365,
        mp == (5 * doy + 2) / 153,
    ensures
        0 <= mp < 12,
        (153 * mp + 2) / 5 == march_start(mp),
        march_start(mp) <= doy,
        mp < 11 ==> doy < march_start(mp + 1),
{
    assert(mp == 0 || mp == 1 || mp == 2 || mp == 3 || mp == 4 || mp == 5 || mp == 6 || mp == 7
        || mp == 8 || mp == 9 || mp == 10 || mp == 11);
}

/// The days before the first of March of a year of an era, by the years before it.
proof fn lemma_march_first(era: int, yoe: int)
    requires
        0 <= era,
        0 <= yoe < 400,
        yoe + era * 400 >= 1969,
    ensures
        ({
            let y = yoe + era * 400;
            let m = era * 146097 + 365 * yoe + yoe / 4 - yoe / 100;
            &&& days_before_year(y + 1) + 719468 == m + 306
            &&& y >= 1970 ==> days_before_year(y) + 31 + days_in_month(y, 2) + 719468 == m
        }),
{
    let y = yoe + era * 400;
    assert(y / 4 == 100 * era + yoe / 4);
    assert(y / 100 == 4 * era + yoe / 100);
    assert(y / 400 == era);
    lemma_closed_year(y + 1);
    if y >= 1970 {
        assert(days_before_year(y + 1) == days_before_year(y) + days_in_year(y));
    }
}

proof fn lemma_date(days: int, era: int, yoe: int, doy: int, mp: int)
    requires
        0 <= days,
        0 <= era,
        0 <= yoe < 400,
        days + 719468 == era * 146097 + (365 * yoe + yoe / 4 - yoe / 100) + doy,
        0 <= doy <= 365,
        doy == 365 ==> is_leap(yoe + 1),
        mp == (5 * doy + 2) / 153,
    ensures
        ({
            let y0 = yoe + era * 400;
            let day = doy - (153 * mp + 2) / 5 + 1;
            let month = if mp < 10 {
                mp + 3
            } else {
                mp - 9
            };
            let year = if month <= 2 {
                y0 + 1
            } else {
                y0
            };
            &&& 0 <= mp < 12
            &&& is_date(year, month, day)
            &&& day_number(year, month, day) == days
        }),
{
    let y0 = yoe + era * 400;
    let m = era * 146097 + 365 * yoe + yoe / 4 - yoe / 100;
    lemma_march_month(doy, mp);
    assert(y0 >= 1969) by {
        if y0 <= 1968 {
            assert(m <= 365 * 1968 + 492);
        }
    }
    lemma_march_first(era, yoe);
    if mp < 10 {
        if y0 == 1969 {
            assert(era == 4 && yoe == 369);
        }
        lemma_months(y0);
    } else {
        lemma_months(y0 + 1);
        assert((y0 + 1) % 4 == (yoe + 1) % 4);
        assert((y0 + 1) % 100 == (yoe + 1) % 100);
        assert((y0 + 1) % 400 == (yoe + 1) % 400);
    }
}

proof fn lemma_month_order(y: int, m: int, n: int)
    requires
        1 <= m <= n <= 13,
    ensures
        days_before_month(y, m) <= days_before_month(y, n),
        m < n ==> days_before_month(y, m) + days_in_month(y, m) <= days_before_month(y, n),
    decreases n,
{
    if m < n {
        lemma_month_order(y, m, n - 1);
        if m == n - 1 {
            assert(days_before_month(y, n) == days_before_month(y, m) + days_in_month(y, m));
        }
    }
}

proof fn lemma_year_order(x: int, y: int)
    requires
        1970 <= x <= y,
    ensures
        days_before_year(x) <= days_before_year(y),
        x < y ==> days_before_year(x) + days_in_year(x) <= days_before_year(y),
    decreases y,
{
    if x < y {
        lemma_year_order(x, y - 1);
        if x == y - 1 {
            assert(days_before_year(y) == days_before_year(x) + days_in_year(x));
        }
    }
}

/// Whether one date lies before another, by year, then month, then day.
pub open spec fn earlier(a: (int, int, int), b: (int, int, int)) -> bool {
    a.0 < b.0 || (a.0 == b.0 && (a.1 < b.1 || (a.1 == b.1 && a.2 < b.2)))
}

/// Dates lie in the order of their day numbers.
pub proof fn law_dates_in_order(a: (int, int, int), b: (int, int, int))
    requires
        is_date(a.0, a.1, a.2),
        is_date(b.0, b.1, b.2),
    ensures
        earlier(a, b) <==> day_number(a.0, a.1, a.2) < day_number(b.0, b.1, b.2),
        day_number(a.0, a.1, a.2) == day_number(b.0, b.1, b.2) ==> a == b,
{
    if earlier(a, b) {
        lemma_earlier(a, b);
    } else if earlier(b, a) {
        lemma_earlier(b, a);
    }
}

proof fn lemma_earlier(a: (int, int, int), b: (int, int, int))
    requires
        is_date(a.0, a.1, a.2),
        is_date(b.0, b.1, b.2),
        earlier(a, b),
    ensures
        day_number(a.0, a.1, a.2) < day_number(b.0, b.1, b.2),
{
    lemma_months(a.0);
    if a.0 < b.0 {
        lemma_month_order(a.0, a.1, 13);
        lemma_month_order(b.0, 1, b.1);
        lemma_year_order(a.0, b.0);
        assert(a.1 < 13);
        assert(days_before_month(a.0, 13) == days_in_year(a.0));
        assert(days_before_month(b.0, 1) == 0);
    } else if a.1 < b.1 {
        lemma_month_order(a.0, a.1, b.1);
    }
}

// ---- stamps -------------------------------------------------------------------------------

/// `YYYY-MM-DDTHH:MM:SSZ`.
pub open spec fn stamp(y: nat, m: nat, d: nat, h: nat, mi: nat, s: nat) -> Seq<char> {
    padded(decimal(y), 4) + seq!['-'] + padded(decimal(m), 2) + seq!['-'] + padded(decimal(d), 2)
        + seq!['T'] + padded(decimal(h), 2) + seq![':'] + padded(decimal(mi), 2) + seq![':'] + padded(
        decimal(s),
        2,
    ) + seq!['Z']
}

/// The date with that day number.
pub open spec fn date_of(days: int) -> (int, int, int) {
    choose|t: (int, int, int)|
        is_date(t.0, t.1, t.2) && #[trigger] day_number(t.0, t.1, t.2) == days
}

/// The timestamp of a Unix time.
pub open spec fn iso_text(secs: u64) -> Seq<char> {
    let t = date_of((secs / 86400) as int);
    let r = secs % 86400;
    stamp(
        t.0 as nat,
        t.1 as nat,
        t.2 as nat,
        (r / 3600) as nat,
        ((r % 3600) / 60) as nat,
        (r % 60) as nat,
    )
}

fn put_padded(out: &mut Vec<char>, n: u64, w: usize)
    ensures
        final(out)@ == old(out)@ + padded(decimal(n as nat), w as nat),
{
    let mut d = padded_chars(n, w);
    out.append(&mut d);
}

/// The date of a Unix time is that of its day.
proof fn lemma_date_of(days: int, t: (int, int, int))
    requires
        is_date(t.0, t.1, t.2),
        day_number(t.0, t.1, t.2) == days,
    ensures
        date_of(days) == t,
{
    let c = date_of(days);
    assert(is_date(c.0, c.1, c.2) && day_number(c.0, c.1, c.2) == days);
    law_dates_in_order(c, t);
}

/// The timestamp of a Unix time.
pub fn iso_from_unix(secs: u64) -> (r: String)
    ensures
        r@ == iso_text(secs),
{
    let date = civil_date(secs / 86400);
    proof {
        lemma_date_of(
            (secs / 86400) as int,
            (date.year as int, date.month as int, date.day as int),
        );
    }
    let rem: u64 = secs % 86400;
    let mut out: Vec<char> = Vec::new();
    put_padded(&mut out, date.year, 4);
    out.push('-');
    put_padded(&mut out, date.month, 2);
    out.push('-');
    put_padded(&mut out, date.day, 2);
    out.push('T');
    put_padded(&mut out, rem / 3600, 2);
    out.push(':');
    put_padded(&mut out, (rem % 3600) / 60, 2);
    out.push(':');
    put_padded(&mut out, rem % 60, 2);
    out.push('Z');
    assert(out@ == iso_text(secs));
    string_of(&out)
}

/// The time now, as a timestamp of some Unix time.
pub fn now_iso() -> (r: String)
    ensures
        exists|now: u64| r@ == #[trigger] iso_text(now),
{
    let now = unix_now();
    iso_from_unix(now)
}

/// The Unix time `secs` before `now`, but not before the epoch.
pub open spec fn secs_before(now: u64, secs: u64) -> u64 {
    if secs > now {
        0
    } else {
        (now - secs) as u64
    }
}

/// The timestamp `secs` before `now`.
pub fn iso_before(now: u64, secs: u64) -> (r: String)
    ensures
        r@ == iso_text(secs_before(now, secs)),
{
    iso_from_unix(
        if secs > now {
            0
        } else {
            now - secs
        },
    )
}

/// The timestamp `secs` ago: that of a Unix time so long before some present time.
pub fn iso_secs_ago(secs: u64) -> (r: String)
    ensures
        exists|now: u64| r@ == iso_text(#[trigger] secs_before(now, secs)),
{
    let now = unix_now();
    iso_before(now, secs)
}

// ---- text order is order in time ------------------------------------------------------------

/// The first Unix time whose year has five digits.
pub const YEAR_10000: u64 = 253402300800;

/// Two texts of the same length are ordered by what follows their common beginning.
proof fn lemma_lex_prefix(p: Seq<char>, a: Seq<char>, b: Seq<char>)
    ensures
        lex_less(p + a, p + b) == lex_less(a, b),
    decreases p.len(),
{
    if p.len() == 0 {
        assert(p + a == a);
        assert(p + b == b);
    } else {
        lemma_lex_prefix(p.skip(1), a, b);
        assert((p + a).skip(1) == p.skip(1) + a);
        assert((p + b).skip(1) == p.skip(1) + b);
    }
}

/// A difference in the beginning decides.
proof fn lemma_lex_head(a: Seq<char>, x: Seq<char>, b: Seq<char>, y: Seq<char>)
    requires
        a.len() == b.len(),
        lex_less(a, b),
    ensures
        lex_less(a + x, b + y),
    decreases a.len(),
{
    if a.len() > 0 {
        assert((a + x)[0] == a[0] && (b + y)[0] == b[0]);
        if a[0] == b[0] {
            lemma_lex_head(a.skip(1), x, b.skip(1), y);
            assert((a + x).skip(1) == a.skip(1) + x);
            assert((b + y).skip(1) == b.skip(1) + y);
        }
    }
}

/// The two digits of a number below 100.
proof fn lemma_two_digits(n: nat)
    requires
        n < 100,
    ensures
        padded(decimal(n), 2) == seq![digit(n / 10), digit(n % 10)],
{
    reveal_with_fuel(in_base, 3);
    reveal_with_fuel(padded, 3);
    if n < 10 {
        assert(decimal(n) == seq![digit(n)]);
        assert(seq!['0'] + decimal(n) == seq![digit(0), digit(n)]);
    } else {
        assert(decimal(n) == seq![digit(n / 10)].push(digit(n % 10)));
        assert(decimal(n) == seq![digit(n / 10), digit(n % 10)]);
    }
}

/// The four digits of a number below 10000.
proof fn lemma_four_digits(n: nat)
    requires
        1000 <= n < 10000,
    ensures
        padded(decimal(n), 4) == seq![
            digit(n / 1000),
            digit(n / 100 % 10),
            digit(n / 10 % 10),
            digit(n % 10),
        ],
{
    reveal_with_fuel(in_base, 5);
    assert(n / 10 / 10 == n / 100);
    assert(n / 100 / 10 == n / 1000);
    assert(decimal(n) == in_base(n / 10, 10).push(digit(n % 10)));
    assert(in_base(n / 10, 10) == in_base(n / 100, 10).push(digit(n / 10 % 10)));
    assert(in_base(n / 100, 10) == in_base(n / 1000, 10).push(digit(n / 100 % 10)));
    assert(in_base(n / 1000, 10) == seq![digit(n / 1000)]);
    assert(decimal(n) == seq![
        digit(n / 1000),
        digit(n / 100 % 10),
        digit(n / 10 % 10),
        digit(n % 10),
    ]);
}

/// Of two digits, the greater has the greater character.
proof fn lemma_digit_order(a: nat, b: nat)
    requires
        a < 10,
        b < 10,
    ensures
        digit(a) as int == 48 + a,
        a != b ==> digit(a) != digit(b),
{
}

proof fn lemma_two_order(a: nat, b: nat)
    requires
        a < b < 100,
    ensures
        lex_less(padded(decimal(a), 2), padded(decimal(b), 2)),
        padded(decimal(a), 2).len() == 2,
        padded(decimal(b), 2).len() == 2,
{
    lemma_two_digits(a);
    lemma_two_digits(b);
    lemma_digit_order(a / 10, b / 10);
    lemma_digit_order(a % 10, b % 10);
    lemma_digit_order(b / 10, b % 10);
    let x = padded(decimal(a), 2);
    let y = padded(decimal(b), 2);
    assert(x.skip(1) == seq![digit(a % 10)]);
    assert(y.skip(1) == seq![digit(b % 10)]);
    reveal_with_fuel(lex_less, 3);
}

proof fn lemma_four_order(a: nat, b: nat)
    requires
        1000 <= a < b < 10000,
    ensures
        lex_less(padded(decimal(a), 4), padded(decimal(b), 4)),
{
    lemma_four_split(a);
    lemma_four_split(b);
    let x = padded(decimal(a / 100), 2);
    let y = padded(decimal(b / 100), 2);
    let u = padded(decimal(a % 100), 2);
    let v = padded(decimal(b % 100), 2);
    if a / 100 < b / 100 {
        lemma_two_order(a / 100, b / 100);
        lemma_lex_head(x, u, y, v);
    } else {
        lemma_two_order(a % 100, b % 100);
        lemma_lex_prefix(x, u, v);
    }
}

proof fn lemma_four_split(n: nat)
    requires
        1000 <= n < 10000,
    ensures
        padded(decimal(n), 4) == padded(decimal(n / 100), 2) + padded(decimal(n % 100), 2),
{
    lemma_four_digits(n);
    lemma_two_digits(n / 100);
    lemma_two_digits(n % 100);
    assert(n / 100 / 10 == n / 1000);
    assert(n % 100 / 10 == n / 10 % 10);
    assert(n % 100 % 10 == n % 10);
    assert(padded(decimal(n), 4) == padded(decimal(n / 100), 2) + padded(decimal(n % 100), 2));
}

/// A year before 10000 is the year of a time before `YEAR_10000`.
proof fn lemma_year_bound(t: (int, int, int))
    requires
        is_date(t.0, t.1, t.2),
        day_number(t.0, t.1, t.2) < 2932897,
    ensures
        t.0 < 10000,
{
    if t.0 >= 10000 {
        lemma_year_order(10000, t.0);
        lemma_closed_year(10000);
        lemma_month_order(t.0, 1, t.1);
        assert(days_before_month(t.0, 1) == 0);
    }
}

/// The parts of the timestamp of a time before the year 10000.
proof fn lemma_parts(secs: u64)
    requires
        secs < YEAR_10000,
    ensures
        ({
            let t = date_of((secs / 86400) as int);
            is_date(t.0, t.1, t.2) && day_number(t.0, t.1, t.2) == secs / 86400 && t.0 < 10000
        }),
{
    let days = (secs / 86400) as int;
    lemma_some_date(days as nat);
    let c = choose|t: (int, int, int)|
        is_date(t.0, t.1, t.2) && #[trigger] day_number(t.0, t.1, t.2) == days;
    lemma_date_of(days, c);
    lemma_year_bound(c);
}

/// Every day has a date.
proof fn lemma_some_date(days: nat)
    ensures
        exists|t: (int, int, int)|
            is_date(t.0, t.1, t.2) && #[trigger] day_number(t.0, t.1, t.2) == days,
    decreases days,
{
    if days == 0 {
        assert(is_date(1970, 1, 1) && day_number(1970, 1, 1) == 0);
        let t = (1970int, 1int, 1int);
        assert(is_date(t.0, t.1, t.2) && day_number(t.0, t.1, t.2) == days);
    } else {
        lemma_some_date((days - 1) as nat);
        let t = choose|t: (int, int, int)|
            is_date(t.0, t.1, t.2) && #[trigger] day_number(t.0, t.1, t.2) == days - 1;
        let n = if t.2 < days_in_month(t.0, t.1) {
            (t.0, t.1, t.2 + 1)
        } else if t.1 < 12 {
            (t.0, t.1 + 1, 1int)
        } else {
            (t.0 + 1, 1int, 1int)
        };
        lemma_months(t.0);
        assert(days_before_month(t.0 + 1, 1) == 0);
        assert(days_before_year(t.0 + 1) == days_before_year(t.0) + days_in_year(t.0));
        assert(is_date(n.0, n.1, n.2) && day_number(n.0, n.1, n.2) == days);
    }
}

/// Timestamps of times before the year 10000 have twenty characters.
pub proof fn law_stamp_width(secs: u64)
    requires
        secs < YEAR_10000,
    ensures
        iso_text(secs).len() == 20,
{
    lemma_parts(secs);
    let t = date_of((secs / 86400) as int);
    let r = secs % 86400;
    lemma_four_digits(t.0 as nat);
    lemma_two_digits(t.1 as nat);
    lemma_two_digits(t.2 as nat);
    lemma_two_digits((r / 3600) as nat);
    lemma_two_digits(((r % 3600) / 60) as nat);
    lemma_two_digits((r % 60) as nat);
}

/// An earlier time before the year 10000 has a timestamp that is lower as text.
pub proof fn law_stamps_order(a: u64, b: u64)
    requires
        a < YEAR_10000,
        b < YEAR_10000,
    ensures
        a < b <==> lex_less(iso_text(a), iso_text(b)),
{
    if a < b {
        lemma_stamps_less(a, b);
    } else if b < a {
        lemma_stamps_less(b, a);
        crate::text::lemma_lex_asymmetric(iso_text(a), iso_text(b));
    } else {
        crate::text::lemma_lex_irreflexive(iso_text(a));
    }
}

proof fn lemma_stamps_less(a: u64, b: u64)
    requires
        a < b < YEAR_10000,
    ensures
        lex_less(iso_text(a), iso_text(b)),
{
    lemma_parts(a);
    lemma_parts(b);
    let s = date_of((a / 86400) as int);
    let t = date_of((b / 86400) as int);
    law_dates_in_order(s, t);
    let p = (a % 86400) as int;
    let q = (b % 86400) as int;
    lemma_stamp_order(
        s.0 as nat,
        s.1 as nat,
        s.2 as nat,
        (p / 3600) as nat,
        (p % 3600 / 60) as nat,
        (p % 60) as nat,
        t.0 as nat,
        t.1 as nat,
        t.2 as nat,
        (q / 3600) as nat,
        (q % 3600 / 60) as nat,
        (q % 60) as nat,
    );
}

/// The stamp from a field on is ordered by that field, then by what follows.
proof fn lemma_field(a: nat, b: nat, sep: char, x: Seq<char>, y: Seq<char>)
    requires
        a < 100,
        b < 100,
        a < b || (a == b && lex_less(x, y)),
    ensures
        lex_less(padded(decimal(a), 2) + seq![sep] + x, padded(decimal(b), 2) + seq![sep] + y),
{
    let u = padded(decimal(a), 2);
    let v = padded(decimal(b), 2);
    assert(u + seq![sep] + x == u + (seq![sep] + x));
    assert(v + seq![sep] + y == v + (seq![sep] + y));
    if a < b {
        lemma_two_order(a, b);
        lemma_lex_head(u, seq![sep] + x, v, seq![sep] + y);
    } else {
        lemma_lex_prefix(u + seq![sep], x, y);
    }
}

/// Minutes and what follows them in a stamp.
spec fn from_minute(i: nat, s: nat) -> Seq<char> {
    padded(decimal(i), 2) + seq![':'] + (padded(decimal(s), 2) + seq!['Z'] + Seq::empty())
}

/// Hours and what follows them in a stamp.
spec fn from_hour(h: nat, i: nat, s: nat) -> Seq<char> {
    padded(decimal(h), 2) + seq![':'] + from_minute(i, s)
}

/// The month and what follows it in a stamp.
spec fn from_month(m: nat, d: nat, h: nat, i: nat, s: nat) -> Seq<char> {
    padded(decimal(m), 2) + seq!['-'] + (padded(decimal(d), 2) + seq!['T'] + from_hour(h, i, s))
}

/// A field belongs to what stands before it as well as to what follows.
proof fn lemma_shift(before: Seq<char>, field: Seq<char>, sep: char, x: Seq<char>)
    ensures
        before + field + seq![sep] + x == before + (field + seq![sep] + x),
{
    assert(before + field + seq![sep] + x =~= before + (field + seq![sep] + x));
}

/// A stamp is its year, and what follows the year.
proof fn lemma_stamp_parts(y: nat, m: nat, d: nat, h: nat, i: nat, s: nat)
    ensures
        stamp(y, m, d, h, i, s) == padded(decimal(y), 4) + seq!['-'] + from_month(m, d, h, i, s),
{
    let e = Seq::<char>::empty();
    let sec = padded(decimal(s), 2);
    let p1 = padded(decimal(y), 4) + seq!['-'];
    let p2 = p1 + padded(decimal(m), 2) + seq!['-'];
    let p3 = p2 + padded(decimal(d), 2) + seq!['T'];
    let p4 = p3 + padded(decimal(h), 2) + seq![':'];
    let p5 = p4 + padded(decimal(i), 2) + seq![':'];
    let whole = p5 + sec + seq!['Z'];
    assert(whole + e =~= whole);
    lemma_shift(p5, sec, 'Z', e);
    lemma_shift(p4, padded(decimal(i), 2), ':', sec + seq!['Z'] + e);
    lemma_shift(p3, padded(decimal(h), 2), ':', from_minute(i, s));
    lemma_shift(p2, padded(decimal(d), 2), 'T', from_hour(h, i, s));
    lemma_shift(
        p1,
        padded(decimal(m), 2),
        '-',
        padded(decimal(d), 2) + seq!['T'] + from_hour(h, i, s),
    );
}

/// Hours, minutes and seconds are ordered in a stamp.
proof fn lemma_hour_order(h1: nat, i1: nat, s1: nat, h2: nat, i2: nat, s2: nat)
    requires
        h1 < 100,
        i1 < 100,
        s1 < 100,
        h2 < 100,
        i2 < 100,
        s2 < 100,
        h1 < h2 || (h1 == h2 && (i1 < i2 || (i1 == i2 && s1 < s2))),
    ensures
        lex_less(from_hour(h1, i1, s1), from_hour(h2, i2, s2)),
{
    let e = Seq::<char>::empty();
    if h1 == h2 {
        if i1 == i2 {
            lemma_field(s1, s2, 'Z', e, e);
        }
        lemma_field(
            i1,
            i2,
            ':',
            padded(decimal(s1), 2) + seq!['Z'] + e,
            padded(decimal(s2), 2) + seq!['Z'] + e,
        );
    }
    lemma_field(h1, h2, ':', from_minute(i1, s1), from_minute(i2, s2));
}

/// Stamps are ordered by their fields, the year first.
proof fn lemma_stamp_order(
    y1: nat,
    m1: nat,
    d1: nat,
    h1: nat,
    i1: nat,
    s1: nat,
    y2: nat,
    m2: nat,
    d2: nat,
    h2: nat,
    i2: nat,
    s2: nat,
)
    requires
        1000 <= y1 < 10000,
        1000 <= y2 < 10000,
        m1 < 100,
        d1 < 100,
        h1 < 100,
        i1 < 100,
        s1 < 100,
        m2 < 100,
        d2 < 100,
        h2 < 100,
        i2 < 100,
        s2 < 100,
        y1 < y2 || (y1 == y2 && (m1 < m2 || (m1 == m2 && (d1 < d2 || (d1 == d2 && (h1 < h2 || (h1
            == h2 && (i1 < i2 || (i1 == i2 && s1 < s2))))))))),
    ensures
        lex_less(stamp(y1, m1, d1, h1, i1, s1), stamp(y2, m2, d2, h2, i2, s2)),
{
    let hour1 = from_hour(h1, i1, s1);
    let hour2 = from_hour(h2, i2, s2);
    let tail1 = from_month(m1, d1, h1, i1, s1);
    let tail2 = from_month(m2, d2, h2, i2, s2);
    lemma_stamp_parts(y1, m1, d1, h1, i1, s1);
    lemma_stamp_parts(y2, m2, d2, h2, i2, s2);
    let year1 = padded(decimal(y1), 4);
    let year2 = padded(decimal(y2), 4);
    if y1 < y2 {
        lemma_four_order(y1, y2);
        lemma_four_digits(y1);
        lemma_four_digits(y2);
        lemma_lex_head(year1, seq!['-'] + tail1, year2, seq!['-'] + tail2);
        assert(year1 + seq!['-'] + tail1 =~= year1 + (seq!['-'] + tail1));
        assert(year2 + seq!['-'] + tail2 =~= year2 + (seq!['-'] + tail2));
    } else {
        if m1 == m2 {
            if d1 == d2 {
                lemma_hour_order(h1, i1, s1, h2, i2, s2);
            }
            lemma_field(d1, d2, 'T', hour1, hour2);
        }
        lemma_field(
            m1,
            m2,
            '-',
            padded(decimal(d1), 2) + seq!['T'] + hour1,
            padded(decimal(d2), 2) + seq!['T'] + hour2,
        );
        lemma_lex_prefix(year1 + seq!['-'], tail1, tail2);
    }
}

// ---- the clock ----------------------------------------------------------------------------

/// Seconds since the Unix epoch, from `std::time::SystemTime::now` and `duration_since`; 0
/// where the clock stands before the epoch. Nothing is claimed of the result: it is what the
/// machine's clock says.
#[verifier::external_body]
pub(crate) fn unix_now() -> (r: u64) {
    std::time::SystemTime::now()
        .duration_since(std::time::UNIX_EPOCH)
        .map(|d| d.as_secs())
        .unwrap_or(0)
}

/// Days are counted from the first of January 1970, one for each day of the calendar: months have
/// 31 days, but April, June, September and November 30, and February 28, or 29 in years that 4
/// divides but not 100, unless 400 does.
pub proof fn law_days_follow(y: int, m: int, d: int)
    requires
        is_date(y, m, d),
    ensures
        day_number(1970, 1, 1) == 0,
        ({
            let leap = (y % 4 == 0 && y % 100 != 0) || y % 400 == 0;
            let last: int = if m == 4 || m == 6 || m == 9 || m == 11 {
                30
            } else if m == 2 && leap {
                29
            } else if m == 2 {
                28
            } else {
                31
            };
            &&& 1 <= d <= last
            &&& d < last ==> is_date(y, m, d + 1) && day_number(y, m, d + 1) == day_number(y, m, d)
                + 1
            &&& d == last && m < 12 ==> is_date(y, m + 1, 1) && day_number(y, m + 1, 1)
                == day_number(y, m, d) + 1
            &&& d == last && m == 12 ==> is_date(y + 1, 1, 1) && day_number(y + 1, 1, 1)
                == day_number(y, m, d) + 1
        }),
{
    lemma_months(y);
    lemma_months(1970);
    lemma_months(y + 1);
    assert(days_before_year(1970) == 0);
    assert(days_before_year(y + 1) == days_before_year(y) + days_in_year(y));
    assert(days_before_month(y, m + 1) == days_before_month(y, m) + days_in_month(y, m));
}

/// A timestamp says date and time of day: four digits of the year, two each of month, day, hour,
/// minute and second, in this order, with their signs between.
pub proof fn law_stamp_says_the_time(y: int, m: int, d: int, h: int, mi: int, s: int, secs: u64)
    requires
        is_date(y, m, d),
        y < 10000,
        0 <= h < 24,
        0 <= mi < 60,
        0 <= s < 60,
        secs == 86400 * day_number(y, m, d) + 3600 * h + 60 * mi + s,
    ensures
        iso_text(secs) == seq![
            digit((y / 1000) as nat),
            digit((y / 100 % 10) as nat),
            digit((y / 10 % 10) as nat),
            digit((y % 10) as nat),
            '-',
            digit((m / 10) as nat),
            digit((m % 10) as nat),
            '-',
            digit((d / 10) as nat),
            digit((d % 10) as nat),
            'T',
            digit((h / 10) as nat),
            digit((h % 10) as nat),
            ':',
            digit((mi / 10) as nat),
            digit((mi % 10) as nat),
            ':',
            digit((s / 10) as nat),
            digit((s % 10) as nat),
            'Z',
        ],
        forall|n: nat| n < 10 ==> #[trigger] digit(n) as int == 48 + n,
{
    assert(secs / 86400 == day_number(y, m, d));
    let r = secs % 86400;
    assert(r == 3600 * h + 60 * mi + s);
    assert(r / 3600 == h && (r % 3600) / 60 == mi && r % 60 == s);
    lemma_date_of(day_number(y, m, d), (y, m, d));
    lemma_four_digits(y as nat);
    lemma_two_digits(m as nat);
    lemma_two_digits(d as nat);
    lemma_two_digits(h as nat);
    lemma_two_digits(mi as nat);
    lemma_two_digits(s as nat);
    assert(iso_text(secs) =~= seq![
        digit((y / 1000) as nat),
        digit((y / 100 % 10) as nat),
        digit((y / 10 % 10) as nat),
        digit((y % 10) as nat),
        '-',
        digit((m / 10) as nat),
        digit((m % 10) as nat),
        '-',
        digit((d / 10) as nat),
        digit((d % 10) as nat),
        'T',
        digit((h / 10) as nat),
        digit((h % 10) as nat),
        ':',
        digit((mi / 10) as nat),
        digit((mi % 10) as nat),
        ':',
        digit((s / 10) as nat),
        digit((s % 10) as nat),
        'Z',
    ]);
}

/// A time so many seconds ago lies that many seconds before now, but not before the first second.
pub proof fn law_seconds_before(now: u64, secs: u64)
    ensures
        secs <= now ==> secs_before(now, secs) + secs == now,
        secs > now ==> secs_before(now, secs) == 0,
{
}

} // verus!
