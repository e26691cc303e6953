//! Dates and times as EPUB metadata writes them.
use vstd::prelude::*;

use crate::text::{
    digit_char, digits, padded_decimal, padded_signed_decimal, push_padded, push_signed_padded,
};

verus! {

/// A date, a time of day, or both, as a document's metadata holds them.
#[derive(Clone, Copy, Debug, PartialEq, Eq, Structural)]
pub enum Datetime {
    /// A calendar date.
    Date { year: i32, month: u8, day: u8 },
    /// A time of day.
    Time { hour: u8, minute: u8, second: u8 },
    /// A calendar date together with a time of day.
    Datetime { year: i32, month: u8, day: u8, hour: u8, minute: u8, second: u8 },
}

impl Datetime {
    /// The year, if a date is present.
    #[verifier::allow_in_spec]
    pub fn year(&self) -> Option<i32>
        returns
            match *self {
                Datetime::Date { year, .. } => Some(year),
                Datetime::Time { .. } => None,
                Datetime::Datetime { year, .. } => Some(year),
            },
    {
        match *self {
            Datetime::Date { year, .. } => Some(year),
            Datetime::Time { .. } => None,
            Datetime::Datetime { year, .. } => Some(year),
        }
    }

    /// The month, if a date is present.
    #[verifier::allow_in_spec]
    pub fn month(&self) -> Option<u8>
        returns
            match *self {
                Datetime::Date { month, .. } => Some(month),
                Datetime::Time { .. } => None,
                Datetime::Datetime { month, .. } => Some(month),
            },
    {
        match *self {
            Datetime::Date { month, .. } => Some(month),
            Datetime::Time { .. } => None,
            Datetime::Datetime { month, .. } => Some(month),
        }
    }

    /// The day of the month, if a date is present.
    #[verifier::allow_in_spec]
    pub fn day(&self) -> Option<u8>
        returns
            match *self {
                Datetime::Date { day, .. } => Some(day),
                Datetime::Time { .. } => None,
                Datetime::Datetime { day, .. } => Some(day),
            },
    {
        match *self {
            Datetime::Date { day, .. } => Some(day),
            Datetime::Time { .. } => None,
            Datetime::Datetime { day, .. } => Some(day),
        }
    }

    /// The hour, if a time of day is present.
    #[verifier::allow_in_spec]
    pub fn hour(&self) -> Option<u8>
        returns
            match *self {
                Datetime::Date { .. } => None,
                Datetime::Time { hour, .. } => Some(hour),
                Datetime::Datetime { hour, .. } => Some(hour),
            },
    {
        match *self {
            Datetime::Date { .. } => None,
            Datetime::Time { hour, .. } => Some(hour),
            Datetime::Datetime { hour, .. } => Some(hour),
        }
    }

    /// The minute, if a time of day is present.
    #[verifier::allow_in_spec]
    pub fn minute(&self) -> Option<u8>
        returns
            match *self {
                Datetime::Date { .. } => None,
                Datetime::Time { minute, .. } => Some(minute),
                Datetime::Datetime { minute, .. } => Some(minute),
            },
    {
        match *self {
            Datetime::Date { .. } => None,
            Datetime::Time { minute, .. } => Some(minute),
            Datetime::Datetime { minute, .. } => Some(minute),
        }
    }

    /// The second, if a time of day is present.
    #[verifier::allow_in_spec]
    pub fn second(&self) -> Option<u8>
        returns
            match *self {
                Datetime::Date { .. } => None,
                Datetime::Time { second, .. } => Some(second),
                Datetime::Datetime { second, .. } => Some(second),
            },
    {
        match *self {
            Datetime::Date { .. } => None,
            Datetime::Time { second, .. } => Some(second),
            Datetime::Datetime { second, .. } => Some(second),
        }
    }

    /// Whether the datetime names a day of the Gregorian calendar and a time
    /// of day that exist, as the `time` crate's dates and times do: a month
    /// `1..=12` and a day within its month, an hour `0..=23`, a minute and a
    /// second `0..=59`.
    pub open spec fn is_valid(&self) -> bool {
        match *self {
            Datetime::Date { year, month, day } => valid_date(year as int, month as int, day as int),
            Datetime::Time { hour, minute, second } => valid_time(hour as int, minute as int, second as int),
            Datetime::Datetime { year, month, day, hour, minute, second } => valid_date(
                year as int,
                month as int,
                day as int,
            ) && valid_time(hour as int, minute as int, second as int),
        }
    }
}

/// Whether `year` is a leap year of the proleptic Gregorian calendar.
pub open spec fn is_leap_year(year: int) -> bool {
    year % 4 == 0 && (year % 100 != 0 || year % 400 == 0)
}

/// The number of days of a month (`1..=12`) in a year.
pub open spec fn days_in_month(year: int, month: int) -> int {
    if month == 2 {
        if is_leap_year(year) { 29 } else { 28 }
    } else if month == 4 || month == 6 || month == 9 || month == 11 {
        30
    } else {
        31
    }
}

/// Whether a year, month and day name a day of the calendar.
pub open spec fn valid_date(year: int, month: int, day: int) -> bool {
    1 <= month <= 12 && 1 <= day <= days_in_month(year, month)
}

/// Whether an hour, minute and second name a time of day.
pub open spec fn valid_time(hour: int, minute: int, second: int) -> bool {
    hour <= 23 && minute <= 59 && second <= 59
}

/// `YYYY-MM-DD`, with the year zero-padded to four places.
pub open spec fn date_text(year: int, month: nat, day: nat) -> Seq<char> {
    padded_signed_decimal(year, 4) + seq!['-'] + padded_decimal(month, 2) + seq!['-']
        + padded_decimal(day, 2)
}

/// `YYYY-MM-DDThh:mm:ss`, followed by `Z` when `utc` is set.
pub open spec fn datetime_text(
    year: int,
    month: nat,
    day: nat,
    hour: nat,
    minute: nat,
    second: nat,
    utc: bool,
) -> Seq<char> {
    date_text(year, month, day) + seq!['T'] + padded_decimal(hour, 2) + seq![':']
        + padded_decimal(minute, 2) + seq![':'] + padded_decimal(second, 2) + if utc {
        seq!['Z']
    } else {
        Seq::empty()
    }
}

/// A value of `Option<u8>`, or zero when absent.
pub open spec fn or_zero(v: Option<u8>) -> nat {
    match v {
        Some(x) => x as nat,
        None => 0,
    }
}

/// The EPUB modification timestamp of a datetime: present exactly when the
/// year, month and day are present and the year lies in `0..=9999`; a missing
/// time of day counts as midnight.
pub open spec fn modified_text(d: Datetime) -> Option<Seq<char>> {
    match (d.year(), d.month(), d.day()) {
        (Some(y), Some(m), Some(dd)) => if 0 <= y <= 9999 {
            Some(
                datetime_text(
                    y as int,
                    m as nat,
                    dd as nat,
                    or_zero(d.hour()),
                    or_zero(d.minute()),
                    or_zero(d.second()),
                    true,
                ),
            )
        } else {
            None
        },
        _ => None,
    }
}

/// The publication date of a datetime: a full timestamp (without zone) when
/// the time of day is complete, the bare date otherwise; absent without a
/// full date or outside the years `0..=9999`.
pub open spec fn publication_date_text(d: Datetime) -> Option<Seq<char>> {
    match (d.year(), d.month(), d.day()) {
        (Some(y), Some(m), Some(dd)) => if 0 <= y <= 9999 {
            match (d.hour(), d.minute(), d.second()) {
                (Some(h), Some(mi), Some(s)) => Some(
                    datetime_text(y as int, m as nat, dd as nat, h as nat, mi as nat, s as nat, false),
                ),
                _ => Some(date_text(y as int, m as nat, dd as nat)),
            }
        } else {
            None
        },
        _ => None,
    }
}

fn push_date(out: &mut String, year: i32, month: u8, day: u8)
    ensures
        final(out)@ == old(out)@ + date_text(year as int, month as nat, day as nat),
{
    push_signed_padded(out, year, 4);
    out.push('-');
    push_padded(out, month as u128, 10, 2);
    out.push('-');
    push_padded(out, day as u128, 10, 2);
    assert(final(out)@ =~= old(out)@ + date_text(year as int, month as nat, day as nat));
}

/// Format a date and time with second precision.
pub fn format_datetime(
    year: i32,
    month: u8,
    day: u8,
    hour: u8,
    minute: u8,
    second: u8,
    utc: bool,
) -> (s: String)
    ensures
        s@ == datetime_text(
            year as int,
            month as nat,
            day as nat,
            hour as nat,
            minute as nat,
            second as nat,
            utc,
        ),
{
    let mut s = String::new();
    push_date(&mut s, year, month, day);
    s.push('T');
    push_padded(&mut s, hour as u128, 10, 2);
    s.push(':');
    push_padded(&mut s, minute as u128, 10, 2);
    s.push(':');
    push_padded(&mut s, second as u128, 10, 2);
    if utc {
        s.push('Z');
    }
    assert(s@ =~= datetime_text(
        year as int,
        month as nat,
        day as nat,
        hour as nat,
        minute as nat,
        second as nat,
        utc,
    ));
    s
}

fn unwrap_or_zero(v: Option<u8>) -> (r: u8)
    ensures
        r as nat == or_zero(v),
{
    match v {
        Some(x) => x,
        None => 0,
    }
}

/// Format a datetime as the UTC timestamp required by EPUB.
pub fn format_modified(datetime: Datetime) -> (r: Option<String>)
    ensures
        match (r, modified_text(datetime)) {
            (Some(s), Some(t)) => s@ == t,
            (None, None) => true,
            _ => false,
        },
{
    let year = match datetime.year() {
        Some(y) => y,
        None => return None,
    };
    if !(0 <= year && year <= 9999) {
        return None;
    }
    let month = match datetime.month() {
        Some(m) => m,
        None => return None,
    };
    let day = match datetime.day() {
        Some(d) => d,
        None => return None,
    };
    Some(
        format_datetime(
            year,
            month,
            day,
            unwrap_or_zero(datetime.hour()),
            unwrap_or_zero(datetime.minute()),
            unwrap_or_zero(datetime.second()),
            true,
        ),
    )
}

/// Format the document's optional publication date.
pub fn format_publication_date(datetime: Datetime) -> (r: Option<String>)
    ensures
        match (r, publication_date_text(datetime)) {
            (Some(s), Some(t)) => s@ == t,
            (None, None) => true,
            _ => false,
        },
{
    let year = match datetime.year() {
        Some(y) => y,
        None => return None,
    };
    if !(0 <= year && year <= 9999) {
        return None;
    }
    let month = match datetime.month() {
        Some(m) => m,
        None => return None,
    };
    let day = match datetime.day() {
        Some(d) => d,
        None => return None,
    };
    match (datetime.hour(), datetime.minute(), datetime.second()) {
        (Some(hour), Some(minute), Some(second)) => Some(
            format_datetime(year, month, day, hour, minute, second, false),
        ),
        _ => {
            let mut s = String::new();
            push_date(&mut s, year, month, day);
            Some(s)
        },
    }
}

/// The calendar date and time of day in UTC, as `time::OffsetDateTime`
/// reports them: year, month, day, hour, minute, second.
pub struct UtcNow {
    pub year: i32,
    pub month: u8,
    pub day: u8,
    pub hour: u8,
    pub minute: u8,
    pub second: u8,
}

/// Calls `time::OffsetDateTime::now_utc` and reads its calendar fields.
/// The result depends on the clock; the contract states only the ranges
/// that the `time` crate documents for its fields (month `1..=12`, day
/// `1..=31`, hour `0..=23`, minute and second `0..=59`), nothing of the year.
#[verifier::external_body]
fn utc_now() -> (now: UtcNow)
    ensures
        1 <= now.month <= 12,
        1 <= now.day <= 31,
        now.hour <= 23,
        now.minute <= 59,
        now.second <= 59,
{
    let now = time::OffsetDateTime::now_utc();
    UtcNow {
        year: now.year(),
        month: u8::from(now.month()),
        day: now.day(),
        hour: now.hour(),
        minute: now.minute(),
        second: now.second(),
    }
}

/// Return the current time as an EPUB modification timestamp.
pub fn current_timestamp() -> (s: String)
    ensures
        exists|year: i32, month: u8, day: u8, hour: u8, minute: u8, second: u8|
            {
                &&& 1 <= month <= 12
                &&& 1 <= day <= 31
                &&& hour <= 23
                &&& minute <= 59
                &&& second <= 59
                &&& s@ == datetime_text(
                    year as int,
                    month as nat,
                    day as nat,
                    hour as nat,
                    minute as nat,
                    second as nat,
                    true,
                )
            },
{
    let now = utc_now();
    format_datetime(now.year, now.month, now.day, now.hour, now.minute, now.second, true)
}

/// Whether `c` is one of the decimal digits `0` to `9`.
pub open spec fn is_decimal_digit(c: char) -> bool {
    c == '0' || c == '1' || c == '2' || c == '3' || c == '4' || c == '5' || c == '6' || c == '7'
        || c == '8' || c == '9'
}

proof fn lemma_digits_decimal(n: nat)
    ensures
        forall|i: int| 0 <= i < digits(n, 10).len() ==> is_decimal_digit(#[trigger] digits(n, 10)[i]),
        n < 10 ==> digits(n, 10).len() == 1,
        n >= 10 ==> digits(n, 10).len() == digits(n / 10, 10).len() + 1,
    decreases n,
{
    if n >= 10 {
        lemma_digits_decimal(n / 10);
        let d = digits(n, 10);
        assert(d == digits(n / 10, 10).push(digit_char((n % 10) as int)));
        assert forall|i: int| 0 <= i < d.len() implies is_decimal_digit(#[trigger] d[i]) by {
            if i < d.len() - 1 {
                assert(d[i] == digits(n / 10, 10)[i]);
            }
        }
    }
}

/// `n` below `10^width` zero-padded to `width` places: exactly `width`
/// decimal digits.
proof fn lemma_padded_form(n: nat, width: nat)
    requires
        width == 2 && n < 100 || width == 4 && n < 10000,
    ensures
        padded_decimal(n, width).len() == width,
        forall|i: int|
            0 <= i < width ==> is_decimal_digit(#[trigger] padded_decimal(n, width)[i]),
{
    lemma_digits_decimal(n);
    if n >= 10 {
        lemma_digits_decimal(n / 10);
        if n >= 100 {
            lemma_digits_decimal(n / 10 / 10);
            if n >= 1000 {
                lemma_digits_decimal(n / 10 / 10 / 10);
            }
        }
    }
    let d = digits(n, 10);
    assert(d.len() <= width);
    let p = padded_decimal(n, width);
    assert forall|i: int| 0 <= i < width implies is_decimal_digit(#[trigger] p[i]) by {
        if d.len() < width {
            let zeros = Seq::new((width - d.len()) as nat, |k: int| '0');
            assert(p == zeros + d);
            if i >= zeros.len() {
                assert(p[i] == d[i - zeros.len()]);
            }
        }
    }
}

/// The modification timestamp of a valid datetime has the form
/// `CCYY-MM-DDThh:mm:ssZ` that EPUB requires: twenty characters, decimal
/// digits but for the separators.
pub proof fn lemma_modified_text_form(d: Datetime)
    requires
        modified_text(d) is Some,
        d.is_valid(),
    ensures
        ({
            let t = modified_text(d).unwrap();
            &&& t.len() == 20
            &&& t[4] == '-' && t[7] == '-' && t[10] == 'T'
            &&& t[13] == ':' && t[16] == ':' && t[19] == 'Z'
            &&& forall|i: int|
                0 <= i < 19 && i != 4 && i != 7 && i != 10 && i != 13 && i != 16
                    ==> is_decimal_digit(#[trigger] t[i])
        }),
{
    let y = d.year().unwrap() as nat;
    let mo = d.month().unwrap() as nat;
    let dd = d.day().unwrap() as nat;
    let h = or_zero(d.hour());
    let mi = or_zero(d.minute());
    let se = or_zero(d.second());
    lemma_padded_form(y, 4);
    lemma_padded_form(mo, 2);
    lemma_padded_form(dd, 2);
    lemma_padded_form(h, 2);
    lemma_padded_form(mi, 2);
    lemma_padded_form(se, 2);
    let t = modified_text(d).unwrap();
    let py = padded_decimal(y, 4);
    let pmo = padded_decimal(mo, 2);
    let pd = padded_decimal(dd, 2);
    let ph = padded_decimal(h, 2);
    let pmi = padded_decimal(mi, 2);
    let ps = padded_decimal(se, 2);
    assert(padded_signed_decimal(y as int, 4) == py);
    assert(t =~= py + seq!['-'] + pmo + seq!['-'] + pd + seq!['T'] + ph + seq![':'] + pmi + seq![':']
        + ps + seq!['Z']);
    assert(t[0] == py[0] && t[1] == py[1] && t[2] == py[2] && t[3] == py[3]);
    assert(t[5] == pmo[0] && t[6] == pmo[1]);
    assert(t[8] == pd[0] && t[9] == pd[1]);
    assert(t[11] == ph[0] && t[12] == ph[1]);
    assert(t[14] == pmi[0] && t[15] == pmi[1]);
    assert(t[17] == ps[0] && t[18] == ps[1]);
}

/// The publication date goes with the modification timestamp: both exist
/// for the same datetimes; with a complete time of day the publication date
/// is the timestamp without its `Z`, else it is the timestamp's date part
/// (its first ten characters for a valid datetime).
pub proof fn lemma_publication_date_of_modified(d: Datetime)
    ensures
        modified_text(d) is None <==> publication_date_text(d) is None,
        modified_text(d) matches Some(m) ==> {
            let p = publication_date_text(d).unwrap();
            if d.hour() is Some && d.minute() is Some && d.second() is Some {
                p == m.drop_last()
            } else {
                &&& p.is_prefix_of(m)
                &&& (d.is_valid() ==> p == m.take(10))
            }
        },
{
    if let Some(m) = modified_text(d) {
        let y = d.year().unwrap() as int;
        let mo = d.month().unwrap() as nat;
        let dd = d.day().unwrap() as nat;
        let h = or_zero(d.hour());
        let mi = or_zero(d.minute());
        let se = or_zero(d.second());
        let date = date_text(y, mo, dd);
        let rest = seq!['T'] + padded_decimal(h, 2) + seq![':'] + padded_decimal(mi, 2) + seq![':']
            + padded_decimal(se, 2);
        assert(m =~= date + rest + seq!['Z']);
        let p = publication_date_text(d).unwrap();
        if d.hour() is Some && d.minute() is Some && d.second() is Some {
            assert(p =~= date + rest);
            assert(m.drop_last() =~= date + rest);
        } else {
            assert(p == date);
            assert(m =~= date + (rest + seq!['Z']));
            assert(date.is_prefix_of(m)) by {
                assert(m.take(date.len() as int) =~= date);
            }
            if d.is_valid() {
                lemma_padded_form(y as nat, 4);
                lemma_padded_form(mo, 2);
                lemma_padded_form(dd, 2);
                assert(padded_signed_decimal(y, 4) == padded_decimal(y as nat, 4));
                assert(date.len() == 10);
                assert(m.take(10) =~= date);
            }
        }
    }
}

} // verus!
