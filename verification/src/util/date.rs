use crate::text::{decimal, push_decimal, push_zero_padded, zero_padded};
use std::time::SystemTime;
use std::time::SystemTimeError;
use vstd::prelude::*;

verus! {

/// The days in 400 years of the Gregorian calendar.
pub const CYCLE_DAYS: u64 = 146097;

pub open spec fn is_leap_year(year: int) -> bool {
    year % 4 == 0 && (year % 100 != 0 || year % 400 == 0)
}

pub open spec fn year_days(year: int) -> int {
    if is_leap_year(year) {
        366
    } else {
        365
    }
}

/// The days of month `month` of `year`, January being month 0.
pub open spec fn month_days(year: int, month: int) -> int {
    if month == 1 {
        if is_leap_year(year) {
            29
        } else {
            28
        }
    } else if month == 3 || month == 5 || month == 8 || month == 10 {
        30
    } else {
        31
    }
}

/// The days from the first of January 1970 to the first of January of `year`.
pub open spec fn days_before_year(year: int) -> int
    decreases year - 1970,
{
    if year <= 1970 {
        0
    } else {
        days_before_year(year - 1) + year_days(year - 1)
    }
}

/// The days from the first of January of `year` to the first of month `month`.
pub open spec fn days_before_month(year: int, month: int) -> int
    decreases month,
{
    if month <= 0 {
        0
    } else {
        days_before_month(year, month - 1) + month_days(year, month - 1)
    }
}

/// Whether `day` of month `month` of `year` is a date of the calendar, from 1970 on.
pub open spec fn is_date(year: int, month: int, day: int) -> bool {
    &&& 1970 <= year
    &&& 0 <= month < 12
    &&& 1 <= day <= month_days(year, month)
}

/// The days from the first of January 1970 to the given date.
pub open spec fn days_to_date(year: int, month: int, day: int) -> int {
    days_before_year(year) + days_before_month(year, month) + day - 1
}

/// The leap years before `year`, counted from year 1.
pub open spec fn leap_years_before(year: int) -> int {
    (year - 1) / 4 - (year - 1) / 100 + (year - 1) / 400
}

/// From one number to the next the quotient by `d` goes up by one where the
/// next is a multiple of `d`, and stays where it is not.
proof fn lemma_div_step(x: int, d: int)
    requires
        1 <= x,
        0 < d,
    ensures
        x / d == (x - 1) / d + if x % d == 0 {
            1int
        } else {
            0int
        },
{
    let q = x / d;
    let r = x % d;
    vstd::arithmetic::div_mod::lemma_fundamental_div_mod(x, d);
    vstd::arithmetic::div_mod::lemma_mod_pos_bound(x, d);
    if r == 0 {
        assert(x - 1 == (q - 1) * d + (d - 1)) by (nonlinear_arith)
            requires
                x == d * q + r,
                r == 0,
        ;
        vstd::arithmetic::div_mod::lemma_fundamental_div_mod_converse_div(x - 1, d, q - 1, d - 1);
    } else {
        assert(x - 1 == q * d + (r - 1)) by (nonlinear_arith)
            requires
                x == d * q + r,
        ;
        vstd::arithmetic::div_mod::lemma_fundamental_div_mod_converse_div(x - 1, d, q, r - 1);
    }
}

/// A year adds one to the count of leap years before the next where it is a
/// leap year, and nothing where it is not.
proof fn lemma_leap_step(year: int)
    requires
        1 <= year,
    ensures
        leap_years_before(year + 1) == leap_years_before(year) + if is_leap_year(year) {
            1int
        } else {
            0int
        },
{
    lemma_div_step(year, 4);
    lemma_div_step(year, 100);
    lemma_div_step(year, 400);
    if year % 400 == 0 {
        assert(year % 100 == 0) by {
            vstd::arithmetic::div_mod::lemma_fundamental_div_mod(year, 400);
            assert(year == 100 * (4 * (year / 400)));
            vstd::arithmetic::div_mod::lemma_fundamental_div_mod_converse_mod(
                year,
                100,
                4 * (year / 400),
                0,
            );
        }
    }
    if year % 100 == 0 {
        assert(year % 4 == 0) by {
            vstd::arithmetic::div_mod::lemma_fundamental_div_mod(year, 100);
            assert(year == 4 * (25 * (year / 100)));
            vstd::arithmetic::div_mod::lemma_fundamental_div_mod_converse_mod(
                year,
                4,
                25 * (year / 100),
                0,
            );
        }
    }
}

/// The days before a year in closed form.
pub proof fn lemma_days_before_year(year: int)
    requires
        1970 <= year,
    ensures
        days_before_year(year) == 365 * (year - 1970) + leap_years_before(year) - 477,
        days_before_year(year) >= 365 * (year - 1970),
    decreases year - 1970,
{
    if year > 1970 {
        lemma_days_before_year(year - 1);
        lemma_leap_step(year - 1);
        assert(days_before_year(year) == days_before_year(year - 1) + year_days(year - 1));
    } else {
        assert(1969int / 4 == 492 && 1969int / 100 == 19 && 1969int / 400 == 4);
    }
}

/// Four hundred years are always 146097 days.
pub proof fn lemma_cycle(year: int, cycles: int)
    requires
        1970 <= year,
        0 <= cycles,
    ensures
        days_before_year(year + 400 * cycles) == days_before_year(year) + CYCLE_DAYS * cycles,
{
    lemma_days_before_year(year);
    lemma_days_before_year(year + 400 * cycles);
    let y = year - 1;
    assert((y + 400 * cycles) / 4 == y / 4 + 100 * cycles) by {
        lemma_div_shift(y, 100 * cycles, 4);
    }
    assert((y + 400 * cycles) / 100 == y / 100 + 4 * cycles) by {
        lemma_div_shift(y, 4 * cycles, 100);
    }
    assert((y + 400 * cycles) / 400 == y / 400 + cycles) by {
        lemma_div_shift(y, cycles, 400);
    }
}

proof fn lemma_div_shift(x: int, k: int, d: int)
    requires
        d > 0,
    ensures
        (x + k * d) / d == x / d + k,
{
    vstd::arithmetic::div_mod::lemma_hoist_over_denominator(x, k, d as nat);
}

pub proof fn lemma_days_before_month(year: int, month: int)
    requires
        0 <= month <= 12,
    ensures
        0 <= days_before_month(year, month) <= 31 * month,
        month == 12 ==> days_before_month(year, month) == year_days(year),
    decreases month,
{
    reveal_with_fuel(days_before_month, 13);
}

/// Later dates are more days away: the count of days tells dates apart.
pub proof fn lemma_days_to_date_unique(y1: int, m1: int, d1: int, y2: int, m2: int, d2: int)
    requires
        is_date(y1, m1, d1),
        is_date(y2, m2, d2),
        days_to_date(y1, m1, d1) == days_to_date(y2, m2, d2),
    ensures
        y1 == y2,
        m1 == m2,
        d1 == d2,
{
    lemma_date_within_year(y1, m1, d1);
    lemma_date_within_year(y2, m2, d2);
    if y1 < y2 {
        lemma_years_apart(y1, y2);
    } else if y2 < y1 {
        lemma_years_apart(y2, y1);
    } else {
        if m1 < m2 {
            lemma_months_apart(y1, m1, m2);
        } else if m2 < m1 {
            lemma_months_apart(y1, m2, m1);
        }
    }
}

proof fn lemma_date_within_year(year: int, month: int, day: int)
    requires
        is_date(year, month, day),
    ensures
        0 <= days_before_month(year, month) + day - 1 < year_days(year),
{
    lemma_days_before_month(year, month);
    lemma_days_before_month(year, 12);
    lemma_months_apart(year, month, 12);
}

proof fn lemma_months_apart(year: int, m1: int, m2: int)
    requires
        0 <= m1 < m2 <= 12,
    ensures
        days_before_month(year, m1) + month_days(year, m1) <= days_before_month(year, m2),
    decreases m2 - m1,
{
    if m1 + 1 < m2 {
        lemma_months_apart(year, m1, m2 - 1);
    }
}

proof fn lemma_years_apart(y1: int, y2: int)
    requires
        1970 <= y1 < y2,
    ensures
        days_before_year(y1) + year_days(y1) <= days_before_year(y2),
    decreases y2 - y1,
{
    if y1 + 1 < y2 {
        lemma_years_apart(y1, y2 - 1);
    }
}

/// The three-letter name of the day of the week that lies `days` days after a
/// Thursday, as the first of January 1970 was.
pub open spec fn weekday_name(days: int) -> Seq<char> {
    let d = days % 7;
    if d == 0 {
        "Thu"@
    } else if d == 1 {
        "Fri"@
    } else if d == 2 {
        "Sat"@
    } else if d == 3 {
        "Sun"@
    } else if d == 4 {
        "Mon"@
    } else if d == 5 {
        "Tue"@
    } else {
        "Wed"@
    }
}

/// The three-letter name of month `month`, January being month 0.
pub open spec fn month_name(month: int) -> Seq<char> {
    if month == 0 {
        "Jan"@
    } else if month == 1 {
        "Feb"@
    } else if month == 2 {
        "Mar"@
    } else if month == 3 {
        "Apr"@
    } else if month == 4 {
        "May"@
    } else if month == 5 {
        "Jun"@
    } else if month == 6 {
        "Jul"@
    } else if month == 7 {
        "Aug"@
    } else if month == 8 {
        "Sep"@
    } else if month == 9 {
        "Oct"@
    } else if month == 10 {
        "Nov"@
    } else {
        "Dec"@
    }
}

/// A moment in UTC by the calendar and the clock, with the days since the
/// first of January 1970.
pub struct DateTime {
    pub year: int,
    pub month: int,
    pub day: int,
    pub hour: int,
    pub minute: int,
    pub second: int,
    pub epoch_days: int,
}

impl DateTime {
    /// A date of the calendar, a time of the clock, and the day count of that date.
    pub open spec fn wf(self) -> bool {
        &&& is_date(self.year, self.month, self.day)
        &&& 0 <= self.hour < 24
        &&& 0 <= self.minute < 60
        &&& 0 <= self.second < 60
        &&& self.epoch_days == days_to_date(self.year, self.month, self.day)
    }

    /// The seconds from the start of 1970 to this moment.
    pub open spec fn epoch_secs(self) -> int {
        ((self.epoch_days * 24 + self.hour) * 60 + self.minute) * 60 + self.second
    }

    /// Whether this is the moment `secs` seconds after the start of 1970.
    pub open spec fn is_time_of(self, secs: nat) -> bool {
        self.wf() && self.epoch_secs() == secs
    }

    /// The moment in the form `Wdy, DD Mon YYYY HH:MM:SS GMT`.
    pub open spec fn rfc1123(self) -> Seq<char> {
        weekday_name(self.epoch_days) + ", "@ + zero_padded(self.day as nat) + " "@ + month_name(
            self.month,
        ) + " "@ + decimal(self.year as nat) + " "@ + zero_padded(self.hour as nat) + ":"@
            + zero_padded(self.minute as nat) + ":"@ + zero_padded(self.second as nat) + " GMT"@
    }
}

/// A count of seconds is the time of one moment only.
pub proof fn lemma_time_unique(a: DateTime, b: DateTime, secs: nat)
    requires
        a.is_time_of(secs),
        b.is_time_of(secs),
    ensures
        a == b,
{
    lemma_days_to_date_unique(a.year, a.month, a.day, b.year, b.month, b.day);
}

/// The moment `secs` seconds after the start of 1970.
pub open spec fn moment(secs: nat) -> DateTime {
    choose|t: DateTime| t.is_time_of(secs)
}

/// The moment `secs` seconds after the start of 1970, in the form
/// `Wdy, DD Mon YYYY HH:MM:SS GMT`.
pub open spec fn date_text(secs: nat) -> Seq<char> {
    moment(secs).rfc1123()
}

/// What is the time of `secs` is the moment of `secs`.
pub proof fn lemma_date_text(t: DateTime, secs: nat)
    requires
        t.is_time_of(secs),
    ensures
        t == moment(secs),
        t.rfc1123() == date_text(secs),
{
    lemma_time_unique(t, moment(secs), secs);
}

/// `std::time::SystemTime`, carried through without a look inside.
#[verifier::external_type_specification]
#[verifier::external_body]
pub struct ExSystemTime(SystemTime);

/// `std::time::SystemTimeError`, carried through without a look inside.
#[verifier::external_type_specification]
#[verifier::external_body]
pub struct ExSystemTimeError(SystemTimeError);

/// The time from the start of 1970 to `time`, or the error for a time that
/// lies before it. Names what `SystemTime::duration_since` returns when it is
/// asked about the start of 1970.
pub uninterp spec fn since_epoch_of(time: SystemTime) -> Result<std::time::Duration, SystemTimeError>;

/// The whole seconds of a span of time. Names what `Duration::as_secs` returns.
pub uninterp spec fn whole_secs_of(d: std::time::Duration) -> nat;

/// The whole seconds from the start of 1970 to `time`; 0 for a time before it.
pub open spec fn spec_epoch_secs(time: SystemTime) -> nat {
    match since_epoch_of(time) {
        Ok(d) => whole_secs_of(d),
        Err(_) => 0,
    }
}

/// Calls `SystemTime::duration_since` with the start of 1970: the time from then
/// to `time`, or an error where `time` lies before. The contract only gives the
/// result a name.
#[verifier::external_body]
fn since_epoch(time: &SystemTime) -> (r: Result<std::time::Duration, SystemTimeError>)
    ensures
        r == since_epoch_of(*time),
{
    time.duration_since(std::time::UNIX_EPOCH)
}

/// Calls `Duration::as_secs`: the whole seconds of `d`. The contract only gives
/// the result a name.
#[verifier::external_body]
fn whole_seconds(d: &std::time::Duration) -> (r: u64)
    ensures
        r == whole_secs_of(*d),
{
    d.as_secs()
}

/// The whole seconds from the start of 1970 to `time`; 0 for a time before it.
pub fn epoch_secs(time: SystemTime) -> (r: u64)
    ensures
        r == spec_epoch_secs(time),
{
    match since_epoch(&time) {
        Ok(d) => whole_seconds(&d),
        Err(_) => 0,
    }
}

/// A moment in UTC, to the second.
#[derive(Debug)]
pub struct Date {
    year: u64,
    month: u8,
    day: u8,
    hour: u8,
    minute: u8,
    second: u8,
    epoch_days: u64,
}

impl View for Date {
    type V = DateTime;

    closed spec fn view(&self) -> DateTime {
        DateTime {
            year: self.year as int,
            month: self.month as int,
            day: self.day as int,
            hour: self.hour as int,
            minute: self.minute as int,
            second: self.second as int,
            epoch_days: self.epoch_days as int,
        }
    }
}

impl Date {
    #[verifier::type_invariant]
    closed spec fn inv(self) -> bool {
        self@.wf()
    }

    pub fn is_leap_year(year: u64) -> (r: bool)
        ensures
            r == is_leap_year(year as int),
    {
        year % 4 == 0 && (year % 100 != 0 || year % 400 == 0)
    }

    /// The year, the month counted from 0 and the day counted from 1 of the
    /// date that lies `dates` days after the first of January 1970.
    pub fn year_and_date(dates: u64) -> (r: (u64, u64, u64))
        ensures
            is_date(r.0 as int, r.1 as int, r.2 as int),
            days_to_date(r.0 as int, r.1 as int, r.2 as int) == dates,
    {
        let cycles: u64 = dates / CYCLE_DAYS;
        let mut cnt: u64 = dates % CYCLE_DAYS;
        let mut year: u64 = 1970 + 400 * cycles;
        proof {
            lemma_cycle(1970, cycles as int);
        }
        loop
            invariant
                1970 <= year <= 1970 + 400 * cycles + (CYCLE_DAYS - cnt),
                cnt <= CYCLE_DAYS,
                cycles <= u64::MAX / CYCLE_DAYS,
                days_before_year(year as int) + cnt == dates,
            ensures
                1970 <= year,
                cnt < year_days(year as int),
                days_before_year(year as int) + cnt == dates,
            decreases cnt,
        {
            let whole_year: u64 = if Date::is_leap_year(year) {
                366
            } else {
                365
            };
            if cnt < whole_year {
                break;
            }
            cnt = cnt - whole_year;
            year = year + 1;
        }
        let leap = Date::is_leap_year(year);
        let mut month: u64 = 0;
        proof {
            lemma_days_before_month(year as int, 12);
        }
        loop
            invariant
                0 <= month < 12,
                leap == is_leap_year(year as int),
                days_before_month(year as int, month as int) + cnt < year_days(year as int),
                days_before_year(year as int) + days_before_month(year as int, month as int) + cnt
                    == dates,
            ensures
                0 <= month < 12,
                cnt < month_days(year as int, month as int),
                days_before_year(year as int) + days_before_month(year as int, month as int) + cnt
                    == dates,
            decreases 12 - month,
        {
            let month_days: u64 = if month == 1 {
                if leap {
                    29
                } else {
                    28
                }
            } else if month == 3 || month == 5 || month == 8 || month == 10 {
                30
            } else {
                31
            };
            if cnt < month_days {
                break;
            }
            proof {
                if month == 11 {
                    lemma_days_before_month(year as int, 12);
                }
            }
            cnt = cnt - month_days;
            month = month + 1;
        }
        (year, month, cnt + 1)
    }

    /// The moment `secs` seconds after the start of 1970.
    pub fn from_epoch_secs(secs: u64) -> (r: Self)
        ensures
            r@.is_time_of(secs as nat),
            r@ == moment(secs as nat),
    {
        let epoch_mins = secs / 60;
        let epoch_hours = epoch_mins / 60;
        let epoch_days = epoch_hours / 24;
        let (years, months, days) = Date::year_and_date(epoch_days);
        let r = Date {
            year: years,
            month: months as u8,
            day: days as u8,
            hour: (epoch_hours % 24) as u8,
            minute: (epoch_mins % 60) as u8,
            second: (secs % 60) as u8,
            epoch_days,
        };
        proof {
            lemma_date_text(r@, secs as nat);
        }
        r
    }

    /// The moment that `time` stands for, to the second; the start of 1970 for
    /// a time before it.
    pub fn from_system_time(time: SystemTime) -> (r: Self)
        ensures
            r@.is_time_of(spec_epoch_secs(time)),
            r@ == moment(spec_epoch_secs(time)),
    {
        Date::from_epoch_secs(epoch_secs(time))
    }

    fn weekday_str(&self) -> (r: &'static str)
        ensures
            r@ == weekday_name(self@.epoch_days),
    {
        let d = self.epoch_days % 7;
        if d == 0 {
            "Thu"
        } else if d == 1 {
            "Fri"
        } else if d == 2 {
            "Sat"
        } else if d == 3 {
            "Sun"
        } else if d == 4 {
            "Mon"
        } else if d == 5 {
            "Tue"
        } else {
            "Wed"
        }
    }

    fn month_str(&self) -> (r: &'static str)
        ensures
            r@ == month_name(self@.month),
    {
        let m = self.month;
        if m == 0 {
            "Jan"
        } else if m == 1 {
            "Feb"
        } else if m == 2 {
            "Mar"
        } else if m == 3 {
            "Apr"
        } else if m == 4 {
            "May"
        } else if m == 5 {
            "Jun"
        } else if m == 6 {
            "Jul"
        } else if m == 7 {
            "Aug"
        } else if m == 8 {
            "Sep"
        } else if m == 9 {
            "Oct"
        } else if m == 10 {
            "Nov"
        } else {
            "Dec"
        }
    }

    /// The moment in the form `Wdy, DD Mon YYYY HH:MM:SS GMT`.
    pub fn to_rfc1123(&self) -> (r: String)
        ensures
            r@ == self@.rfc1123(),
    {
        let mut out = String::new();
        out.append(self.weekday_str());
        out.append(", ");
        push_zero_padded(&mut out, self.day as u128);
        out.append(" ");
        out.append(self.month_str());
        out.append(" ");
        push_decimal(&mut out, self.year as u128);
        out.append(" ");
        push_zero_padded(&mut out, self.hour as u128);
        out.append(":");
        push_zero_padded(&mut out, self.minute as u128);
        out.append(":");
        push_zero_padded(&mut out, self.second as u128);
        out.append(" GMT");
        assert(out@ =~= self@.rfc1123());
        out
    }
}

} // verus!
