//! EXIF capture dates: the `YYYY:MM:DD HH:MM:SS` text of `DateTimeOriginal`
//! turned into seconds since the Unix epoch (UTC).

use vstd::prelude::*;
use vstd::string::*;
use vstd::utf8::is_char_boundary;

verus! {

/// Whether `b` is an ASCII decimal digit.
pub open spec fn is_digit_byte(b: u8) -> bool {
    48 <= b <= 57
}

/// Whether every byte of `s` is a decimal digit.
pub open spec fn all_digits(s: Seq<u8>) -> bool {
    forall|i: int| 0 <= i < s.len() ==> is_digit_byte(#[trigger] s[i])
}

/// The decimal value of a string of digits.
pub open spec fn digits_value(s: Seq<u8>) -> int
    decreases s.len(),
{
    if s.len() == 0 {
        0
    } else {
        digits_value(s.drop_last()) * 10 + (s.last() - 48)
    }
}

/// `str::parse` of an unsigned integer: an optional `+`, then one or more
/// digits (the value has at most four digits here, so it always fits).
pub open spec fn parse_unsigned(s: Seq<u8>) -> Option<int> {
    let body = if s.len() > 0 && s[0] == 43 {
        s.drop_first()
    } else {
        s
    };
    if body.len() > 0 && all_digits(body) {
        Some(digits_value(body))
    } else {
        None
    }
}

/// `str::parse` of a signed integer: an optional `+` or `-`, then one or more
/// digits.
pub open spec fn parse_signed(s: Seq<u8>) -> Option<int> {
    if s.len() > 0 && s[0] == 45 {
        let body = s.drop_first();
        if body.len() > 0 && all_digits(body) {
            Some(-digits_value(body))
        } else {
            None
        }
    } else {
        parse_unsigned(s)
    }
}

/// Gregorian leap year.
pub open spec fn leap(year: int) -> bool {
    (year % 4 == 0 && year % 100 != 0) || year % 400 == 0
}

/// Days in `month` (1 to 12) of `year`; 0 for any other month.
pub open spec fn month_days(year: int, month: int) -> int {
    if month == 1 || month == 3 || month == 5 || month == 7 || month == 8 || month == 10 || month
        == 12 {
        31
    } else if month == 4 || month == 6 || month == 9 || month == 11 {
        30
    } else if month == 2 {
        if leap(year) {
            29
        } else {
            28
        }
    } else {
        0
    }
}

/// Days from 1 January 1970 to 1 January of `year`.
pub open spec fn days_before_year(year: int) -> int
    decreases year - 1970,
{
    if year <= 1970 {
        0
    } else {
        days_before_year(year - 1) + if leap(year - 1) {
            366int
        } else {
            365int
        }
    }
}

/// Days from 1 January of `year` to the first of `month`.
pub open spec fn days_before_month(year: int, month: int) -> int
    decreases month,
{
    if month <= 1 {
        0
    } else {
        days_before_month(year, month - 1) + month_days(year, month - 1)
    }
}

/// The byte offsets the date text is cut at.
pub open spec fn cut_points_are_boundaries(b: Seq<u8>) -> bool {
    &&& is_char_boundary(b, 4)
    &&& is_char_boundary(b, 5)
    &&& is_char_boundary(b, 7)
    &&& is_char_boundary(b, 8)
    &&& is_char_boundary(b, 10)
    &&& is_char_boundary(b, 11)
    &&& is_char_boundary(b, 13)
    &&& is_char_boundary(b, 14)
    &&& is_char_boundary(b, 16)
    &&& is_char_boundary(b, 17)
    &&& is_char_boundary(b, 19)
}

/// Seconds since the epoch of the date text `b`: year, month, day, hour,
/// minute and second read from their fixed byte ranges; `None` when the text
/// is shorter than 19 bytes, a field does not parse, the year is before 1970,
/// the month is not 1 to 12 or the day is not 1 to 31. The time fields are
/// not range-checked.
pub open spec fn exif_seconds(b: Seq<u8>) -> Option<int> {
    if b.len() < 19 {
        None
    } else {
        let year = parse_signed(b.subrange(0, 4));
        let month = parse_unsigned(b.subrange(5, 7));
        let day = parse_unsigned(b.subrange(8, 10));
        let hour = parse_unsigned(b.subrange(11, 13));
        let min = parse_unsigned(b.subrange(14, 16));
        let sec = parse_unsigned(b.subrange(17, 19));
        if year is None || month is None || day is None || hour is None || min is None
            || sec is None {
            None
        } else {
            let (y, mo, d) = (year->0, month->0, day->0);
            if y < 1970 || mo == 0 || mo > 12 || d == 0 || d > 31 {
                None
            } else {
                let days = days_before_year(y) + days_before_month(y, mo) + (d - 1);
                Some(days * 86400 + hour->0 * 3600 + min->0 * 60 + sec->0)
            }
        }
    }
}

/// Whether `year` is a Gregorian leap year.
pub fn is_leap(year: i32) -> (b: bool)
    ensures
        b == leap(year as int),
{
    (year % 4 == 0 && year % 100 != 0) || year % 400 == 0
}

/// Days in `month` of `year` (0 for a month outside 1 to 12).
pub fn days_in_month(year: i32, month: u32) -> (d: u32)
    ensures
        d == month_days(year as int, month as int),
{
    match month {
        1 | 3 | 5 | 7 | 8 | 10 | 12 => 31,
        4 | 6 | 9 | 11 => 30,
        2 => if is_leap(year) {
            29
        } else {
            28
        },
        _ => 0,
    }
}

proof fn lemma_digits_value_bound(s: Seq<u8>)
    requires
        all_digits(s),
    ensures
        0 <= digits_value(s),
        s.len() <= 4 ==> digits_value(s) < 10000,
        s.len() <= 3 ==> digits_value(s) < 1000,
        s.len() <= 2 ==> digits_value(s) < 100,
        s.len() <= 1 ==> digits_value(s) < 10,
    decreases s.len(),
{
    if s.len() > 0 {
        assert(all_digits(s.drop_last())) by {
            assert forall|i: int| 0 <= i < s.drop_last().len() implies is_digit_byte(
                #[trigger] s.drop_last()[i],
            ) by {
                assert(s.drop_last()[i] == s[i]);
            }
        }
        lemma_digits_value_bound(s.drop_last());
        assert(is_digit_byte(s[s.len() - 1]));
    }
}

/// Reads the digits `b[from..to]` (at most four): their value, or `None` when
/// the range is empty or holds a non-digit.
fn digits_in(b: &[u8], from: usize, to: usize) -> (r: Option<u32>)
    requires
        from <= to <= b@.len(),
        to - from <= 4,
    ensures
        match r {
            Some(v) => to > from && all_digits(b@.subrange(from as int, to as int)) && v
                == digits_value(b@.subrange(from as int, to as int)),
            None => !(to > from && all_digits(b@.subrange(from as int, to as int))),
        },
{
    if from == to {
        return None;
    }
    let ghost s = b@.subrange(from as int, to as int);
    let mut v: u32 = 0;
    let mut k: usize = from;
    while k < to
        invariant
            from <= k <= to <= b@.len(),
            to - from <= 4,
            s == b@.subrange(from as int, to as int),
            all_digits(s.take(k - from)),
            v == digits_value(s.take(k - from)),
            v < 10000,
        decreases to - k,
    {
        let c = b[k];
        if c < 48 || c > 57 {
            proof {
                assert(s[k - from] == c);
            }
            return None;
        }
        proof {
            let t = s.take(k - from + 1);
            assert(t.drop_last() =~= s.take(k - from));
            assert(t.last() == c);
            assert(all_digits(t)) by {
                assert forall|i: int| 0 <= i < t.len() implies is_digit_byte(#[trigger] t[i]) by {
                    if i < t.len() - 1 {
                        assert(t[i] == s.take(k - from)[i]);
                    }
                }
            }
            lemma_digits_value_bound(t);
        }
        v = v * 10 + (c - 48) as u32;
        k = k + 1;
    }
    proof {
        assert(s.take(to - from) =~= s);
    }
    Some(v)
}

/// `str::parse::<u32>` of the bytes `b[from..to]` (at most two).
fn parse_unsigned_at(b: &[u8], from: usize, to: usize) -> (r: Option<u32>)
    requires
        from < to <= b@.len(),
        to - from <= 2,
    ensures
        match parse_unsigned(b@.subrange(from as int, to as int)) {
            Some(v) => r == Some(v as u32) && 0 <= v < 100,
            None => r is None,
        },
{
    let ghost s = b@.subrange(from as int, to as int);
    if b[from] == 43 {
        proof {
            assert(s.drop_first() =~= b@.subrange(from + 1, to as int));
        }
        let r = digits_in(b, from + 1, to);
        proof {
            if r is Some {
                lemma_digits_value_bound(b@.subrange(from + 1, to as int));
            }
        }
        r
    } else {
        let r = digits_in(b, from, to);
        proof {
            if r is Some {
                lemma_digits_value_bound(s);
            }
        }
        r
    }
}

/// `str::parse::<i32>` of the four bytes `b[0..4]`.
fn parse_year(b: &[u8]) -> (r: Option<i32>)
    requires
        4 <= b@.len(),
    ensures
        match parse_signed(b@.subrange(0, 4)) {
            Some(v) => r == Some(v as i32) && -10000 < v < 10000,
            None => r is None,
        },
{
    let ghost s = b@.subrange(0, 4);
    if b[0] == 45 || b[0] == 43 {
        proof {
            assert(s.drop_first() =~= b@.subrange(1, 4));
        }
        let r = digits_in(b, 1, 4);
        match r {
            Some(v) => {
                proof {
                    lemma_digits_value_bound(b@.subrange(1, 4));
                }
                if b[0] == 45 {
                    Some(-(v as i32))
                } else {
                    Some(v as i32)
                }
            },
            None => None,
        }
    } else {
        let r = digits_in(b, 0, 4);
        match r {
            Some(v) => {
                proof {
                    lemma_digits_value_bound(s);
                }
                Some(v as i32)
            },
            None => None,
        }
    }
}

proof fn lemma_days_before_year_bound(year: int)
    ensures
        year >= 1970 ==> 365 * (year - 1970) <= days_before_year(year) <= 366 * (year - 1970),
    decreases year - 1970,
{
    if year > 1970 {
        lemma_days_before_year_bound(year - 1);
    }
}

proof fn lemma_days_before_month_bound(year: int, month: int)
    ensures
        0 <= days_before_month(year, month),
        month >= 1 ==> days_before_month(year, month) <= 31 * (month - 1),
    decreases month,
{
    if month > 1 {
        lemma_days_before_month_bound(year, month - 1);
    }
}

/// Seconds since the epoch of an EXIF date `YYYY:MM:DD HH:MM:SS` (see
/// `exif_seconds`).
pub fn exif_datetime_to_unix(s: &str) -> (r: Option<i64>)
    requires
        s.spec_bytes().len() >= 19 ==> cut_points_are_boundaries(s.spec_bytes()),
    ensures
        match exif_seconds(s.spec_bytes()) {
            Some(v) => r == Some(v as i64),
            None => r is None,
        },
{
    let b = s.as_bytes();
    if b.len() < 19 {
        return None;
    }
    let year = match parse_year(b) {
        Some(y) => y,
        None => {
            return None;
        },
    };
    let month = match parse_unsigned_at(b, 5, 7) {
        Some(v) => v,
        None => {
            return None;
        },
    };
    let day = match parse_unsigned_at(b, 8, 10) {
        Some(v) => v,
        None => {
            return None;
        },
    };
    let hour = match parse_unsigned_at(b, 11, 13) {
        Some(v) => v,
        None => {
            return None;
        },
    };
    let min = match parse_unsigned_at(b, 14, 16) {
        Some(v) => v,
        None => {
            return None;
        },
    };
    let sec = match parse_unsigned_at(b, 17, 19) {
        Some(v) => v,
        None => {
            return None;
        },
    };
    if year < 1970 || month == 0 || month > 12 || day == 0 || day > 31 {
        return None;
    }
    let mut days: i64 = 0;
    let mut y: i32 = 1970;
    while y < year
        invariant
            1970 <= y <= year < 10000,
            days == days_before_year(y as int),
        decreases year - y,
    {
        proof {
            lemma_days_before_year_bound(y as int);
        }
        days = days + if is_leap(y) {
            366
        } else {
            365
        };
        y = y + 1;
    }
    let ghost before_months = days;
    let mut m: u32 = 1;
    while m < month
        invariant
            1 <= m <= month <= 12,
            1970 <= year < 10000,
            before_months == days_before_year(year as int),
            days == before_months + days_before_month(year as int, m as int),
        decreases month - m,
    {
        proof {
            lemma_days_before_year_bound(year as int);
            lemma_days_before_month_bound(year as int, m as int);
        }
        days = days + days_in_month(year, m) as i64;
        m = m + 1;
    }
    proof {
        lemma_days_before_year_bound(year as int);
        lemma_days_before_month_bound(year as int, month as int);
    }
    days = days + (day - 1) as i64;
    Some(days * 86400 + hour as i64 * 3600 + min as i64 * 60 + sec as i64)
}

/// The twelve months of a year add up to its length: 366 days in a leap year,
/// 365 otherwise.
pub proof fn lemma_months_fill_year(year: int)
    ensures
        days_before_month(year, 13) == if leap(year) {
            366int
        } else {
            365int
        },
{
    reveal_with_fuel(days_before_month, 13);
}


/// The Gregorian calendar: April, June, September and November have 30 days,
/// February 28 (29 in a leap year), every other month 31; so the first of
/// each month falls on day 0, 31, 59, 90, 120, 151, 181, 212, 243, 273, 304
/// and 334 of the year, one later from March on in a leap year.
pub proof fn lemma_gregorian_months(year: int)
    ensures
        month_days(year, 1) == 31,
        month_days(year, 2) == if leap(year) { 29int } else { 28int },
        month_days(year, 3) == 31,
        month_days(year, 4) == 30,
        month_days(year, 5) == 31,
        month_days(year, 6) == 30,
        month_days(year, 7) == 31,
        month_days(year, 8) == 31,
        month_days(year, 9) == 30,
        month_days(year, 10) == 31,
        month_days(year, 11) == 30,
        month_days(year, 12) == 31,
        ({
            let l: int = if leap(year) { 1 } else { 0 };
            &&& days_before_month(year, 1) == 0
            &&& days_before_month(year, 2) == 31
            &&& days_before_month(year, 3) == 59 + l
            &&& days_before_month(year, 4) == 90 + l
            &&& days_before_month(year, 5) == 120 + l
            &&& days_before_month(year, 6) == 151 + l
            &&& days_before_month(year, 7) == 181 + l
            &&& days_before_month(year, 8) == 212 + l
            &&& days_before_month(year, 9) == 243 + l
            &&& days_before_month(year, 10) == 273 + l
            &&& days_before_month(year, 11) == 304 + l
            &&& days_before_month(year, 12) == 334 + l
        }),
{
    reveal_with_fuel(days_before_month, 13);
}


/// Leap years among the years 1 to `n`, by the Gregorian rule.
pub open spec fn leap_count(n: int) -> int {
    n / 4 - n / 100 + n / 400
}

proof fn lemma_leap_step(n: int)
    requires
        n >= 1,
    ensures
        leap_count(n) - leap_count(n - 1) == if leap(n) { 1int } else { 0int },
{
    assert(n / 4 - (n - 1) / 4 == if n % 4 == 0 { 1int } else { 0int });
    assert(n / 100 - (n - 1) / 100 == if n % 100 == 0 { 1int } else { 0int });
    assert(n / 400 - (n - 1) / 400 == if n % 400 == 0 { 1int } else { 0int });
    if n % 100 == 0 {
        assert(n % 4 == 0);
    }
    if n % 400 == 0 {
        assert(n % 100 == 0);
    }
}

/// Days from 1 January 1970 to 1 January of `year`: 365 for every year in
/// between, plus one for each leap year among them.
pub proof fn lemma_days_before_year_count(year: int)
    requires
        year >= 1970,
    ensures
        days_before_year(year) == 365 * (year - 1970) + leap_count(year - 1) - leap_count(1969),
    decreases year - 1970,
{
    if year > 1970 {
        lemma_days_before_year_count(year - 1);
        lemma_leap_step(year - 1);
    }
}

/// The Gregorian cycle: any 400 consecutive years from 1970 on hold 146097
/// days (97 of them leap years), and the leap rule repeats every 400 years.
pub proof fn lemma_gregorian_cycle(year: int)
    requires
        year >= 1970,
    ensures
        leap(year + 400) == leap(year),
        days_before_year(year + 400) == days_before_year(year) + 146097,
{
    assert((year + 400) % 4 == year % 4);
    assert((year + 400) % 100 == year % 100);
    assert((year + 400) % 400 == year % 400);
    lemma_days_before_year_count(year);
    lemma_days_before_year_count(year + 400);
    assert((year + 399) / 4 == (year - 1) / 4 + 100);
    assert((year + 399) / 100 == (year - 1) / 100 + 4);
    assert((year + 399) / 400 == (year - 1) / 400 + 1);
}

} // verus!
