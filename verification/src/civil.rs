use vstd::prelude::*;

verus! {

/// A civil (proleptic Gregorian) calendar date. The library supports the
/// years 0 through 9999, the range of the four-digit date texts it parses.
#[derive(Debug, Clone, Copy, PartialEq, Eq, Structural)]
pub struct Civil {
    pub year: i32,
    pub month: u32,
    pub day: u32,
}

pub open spec fn is_leap_year(y: int) -> bool {
    (y % 4 == 0 && y % 100 != 0) || y % 400 == 0
}

pub open spec fn days_in_month_of(y: int, m: int) -> int {
    if m == 2 {
        if is_leap_year(y) {
            29
        } else {
            28
        }
    } else if m == 4 || m == 6 || m == 9 || m == 11 {
        30
    } else {
        31
    }
}

pub open spec fn days_in_year_of(y: int) -> int {
    if is_leap_year(y) {
        366
    } else {
        365
    }
}

/// Days in year `y` before the first day of month `m`.
pub open spec fn days_before_month(y: int, m: int) -> int
    decreases m,
{
    if m <= 1 {
        0
    } else {
        days_before_month(y, m - 1) + days_in_month_of(y, m - 1)
    }
}

/// Days before the first day of year `y`, counted from the first day of year 0.
pub open spec fn days_before_year(y: int) -> int
    decreases y,
{
    if y <= 0 {
        0
    } else {
        days_before_year(y - 1) + days_in_year_of(y - 1)
    }
}

pub open spec fn valid_civil(c: Civil) -> bool {
    &&& 0 <= c.year <= 9999
    &&& 1 <= c.month <= 12
    &&& 1 <= c.day <= days_in_month_of(c.year as int, c.month as int)
}

/// The position of a civil date among all supported days: day 0 is the
/// first day of year 0, and consecutive dates get consecutive indices.
pub open spec fn day_index(c: Civil) -> int {
    days_before_year(c.year as int) + days_before_month(c.year as int, c.month as int) + c.day - 1
}

/// One more than the largest supported day index.
pub open spec fn total_days() -> int {
    days_before_year(10000)
}

/// Weekday of a day index: 0 is Monday, ..., 6 is Sunday.
pub open spec fn weekday_of_index(n: int) -> int {
    (n + 5) % 7
}

pub proof fn lemma_days_before_year_bounds(y: int)
    requires
        0 <= y,
    ensures
        365 * y <= days_before_year(y) <= 366 * y,
    decreases y,
{
    if y > 0 {
        lemma_days_before_year_bounds(y - 1);
    }
}

pub proof fn lemma_days_before_year_mono(y1: int, y2: int)
    requires
        y1 <= y2,
    ensures
        days_before_year(y1) <= days_before_year(y2),
    decreases y2 - y1,
{
    if y1 < y2 {
        lemma_days_before_year_mono(y1, y2 - 1);
        if y2 > 0 {
            lemma_days_before_year_bounds(y2 - 1);
        }
    }
}

pub proof fn lemma_days_before_month_bounds(y: int, m: int)
    requires
        1 <= m <= 13,
    ensures
        28 * (m - 1) <= days_before_month(y, m) <= 31 * (m - 1),
    decreases m,
{
    if m > 1 {
        lemma_days_before_month_bounds(y, m - 1);
    }
}

pub proof fn lemma_days_before_month_mono(y: int, m1: int, m2: int)
    requires
        m1 <= m2,
    ensures
        days_before_month(y, m1) <= days_before_month(y, m2),
    decreases m2 - m1,
{
    if m1 < m2 {
        lemma_days_before_month_mono(y, m1, m2 - 1);
    }
}

/// The twelve month lengths of a year sum to the year's length.
pub proof fn lemma_year_days(y: int)
    ensures
        days_before_month(y, 13) == days_in_year_of(y),
{
    reveal_with_fuel(days_before_month, 14);
}

/// A valid date's index lies inside its own year, and inside the supported range.
pub proof fn lemma_day_index_range(c: Civil)
    requires
        valid_civil(c),
    ensures
        days_before_year(c.year as int) <= day_index(c) < days_before_year(c.year + 1),
        0 <= day_index(c) < total_days(),
        day_index(c) < 3_660_000,
{
    let y = c.year as int;
    let m = c.month as int;
    lemma_days_before_month_bounds(y, m);
    assert(days_before_month(y, m) + days_in_month_of(y, m) == days_before_month(y, m + 1));
    lemma_days_before_month_mono(y, m + 1, 13);
    lemma_year_days(y);
    lemma_days_before_year_bounds(y);
    lemma_days_before_year_mono(y + 1, 10000);
    lemma_days_before_year_bounds(10000);
}

/// The day index respects the year/month/day lexicographic order strictly.
pub proof fn lemma_day_index_increases(c1: Civil, c2: Civil)
    requires
        valid_civil(c1),
        valid_civil(c2),
        c1.year < c2.year || (c1.year == c2.year && c1.month < c2.month) || (c1.year == c2.year
            && c1.month == c2.month && c1.day < c2.day),
    ensures
        day_index(c1) < day_index(c2),
{
    let y1 = c1.year as int;
    let y2 = c2.year as int;
    let m1 = c1.month as int;
    let m2 = c2.month as int;
    if c1.year < c2.year {
        lemma_day_index_range(c1);
        lemma_day_index_range(c2);
        lemma_days_before_year_mono(y1 + 1, y2);
    } else if c1.month < c2.month {
        assert(days_before_month(y1, m1) + days_in_month_of(y1, m1) == days_before_month(
            y1,
            m1 + 1,
        ));
        lemma_days_before_month_mono(y1, m1 + 1, m2);
    }
}

/// Two valid dates with the same index are the same date.
pub proof fn lemma_day_index_injective(c1: Civil, c2: Civil)
    requires
        valid_civil(c1),
        valid_civil(c2),
        day_index(c1) == day_index(c2),
    ensures
        c1 == c2,
{
    if c1.year != c2.year || c1.month != c2.month || c1.day != c2.day {
        if c1.year < c2.year || (c1.year == c2.year && c1.month < c2.month) || (c1.year == c2.year
            && c1.month == c2.month && c1.day < c2.day) {
            lemma_day_index_increases(c1, c2);
        } else {
            lemma_day_index_increases(c2, c1);
        }
    }
}

/// The date of a day index, found by walking years and then months.
pub open spec fn civil_of_rec(y: int, rem: int) -> Civil
    decreases rem,
{
    if rem < days_in_year_of(y) {
        civil_month_rec(y, 1, rem)
    } else {
        civil_of_rec(y + 1, rem - days_in_year_of(y))
    }
}

pub open spec fn civil_month_rec(y: int, m: int, rem: int) -> Civil
    decreases 12 - m,
{
    if m >= 12 || rem < days_in_month_of(y, m) {
        Civil { year: y as i32, month: m as u32, day: (rem + 1) as u32 }
    } else {
        civil_month_rec(y, m + 1, rem - days_in_month_of(y, m))
    }
}

/// The date at position `n` among all supported days.
pub open spec fn civil_of(n: int) -> Civil {
    civil_of_rec(0, n)
}

proof fn lemma_civil_month_rec(y: int, m: int, rem: int)
    requires
        0 <= y <= 9999,
        1 <= m <= 12,
        0 <= rem,
        days_before_month(y, m) + rem < days_in_year_of(y),
    ensures
        valid_civil(civil_month_rec(y, m, rem)),
        day_index(civil_month_rec(y, m, rem)) == days_before_year(y) + days_before_month(y, m)
            + rem,
    decreases 12 - m,
{
    lemma_year_days(y);
    if m >= 12 || rem < days_in_month_of(y, m) {
        if !(rem < days_in_month_of(y, m)) {
            // m == 12: the remainder fits in the last month.
            assert(days_before_month(y, 13) == days_before_month(y, 12) + days_in_month_of(
                y,
                12,
            ));
        }
    } else {
        assert(days_before_month(y, m + 1) == days_before_month(y, m) + days_in_month_of(y, m));
        lemma_civil_month_rec(y, m + 1, rem - days_in_month_of(y, m));
    }
}

pub proof fn lemma_civil_of_rec(y: int, rem: int)
    requires
        0 <= y <= 9999,
        0 <= rem,
        days_before_year(y) + rem < total_days(),
    ensures
        valid_civil(civil_of_rec(y, rem)),
        day_index(civil_of_rec(y, rem)) == days_before_year(y) + rem,
    decreases rem,
{
    if rem < days_in_year_of(y) {
        lemma_civil_month_rec(y, 1, rem);
    } else {
        assert(days_before_year(y + 1) == days_before_year(y) + days_in_year_of(y));
        if y == 9999 {
            assert(total_days() == days_before_year(9999) + days_in_year_of(9999));
            assert(false);
        }
        lemma_civil_of_rec(y + 1, rem - days_in_year_of(y));
    }
}

/// The day index and the date at an index invert each other.
pub proof fn lemma_civil_of_inverse(n: int)
    requires
        0 <= n < total_days(),
    ensures
        valid_civil(civil_of(n)),
        day_index(civil_of(n)) == n,
{
    lemma_civil_of_rec(0, n);
}

pub fn is_leap_num(y: i32) -> (r: bool)
    requires
        0 <= y,
    ensures
        r == is_leap_year(y as int),
{
    (y % 4 == 0 && y % 100 != 0) || y % 400 == 0
}

pub fn days_in_month_num(y: i32, m: u32) -> (r: u32)
    requires
        0 <= y,
        1 <= m <= 12,
    ensures
        r as int == days_in_month_of(y as int, m as int),
{
    if m == 2 {
        if is_leap_num(y) {
            29
        } else {
            28
        }
    } else if m == 4 || m == 6 || m == 9 || m == 11 {
        30
    } else {
        31
    }
}

pub fn civil_is_valid(c: &Civil) -> (r: bool)
    ensures
        r == valid_civil(*c),
{
    0 <= c.year && c.year <= 9999 && 1 <= c.month && c.month <= 12 && 1 <= c.day && c.day
        <= days_in_month_num(c.year, c.month)
}

/// Computes the day index of a valid date.
pub fn day_number(c: &Civil) -> (r: u32)
    requires
        valid_civil(*c),
    ensures
        r as int == day_index(*c),
{
    let mut acc: u32 = 0;
    let mut y: i32 = 0;
    while y < c.year
        invariant
            valid_civil(*c),
            0 <= y <= c.year,
            acc as int == days_before_year(y as int),
        decreases c.year - y,
    {
        proof {
            lemma_days_before_year_bounds(y as int);
        }
        let diy: u32 = if is_leap_num(y) {
            366
        } else {
            365
        };
        acc = acc + diy;
        y = y + 1;
    }
    let mut m: u32 = 1;
    while m < c.month
        invariant
            valid_civil(*c),
            1 <= m <= c.month,
            acc as int == days_before_year(c.year as int) + days_before_month(
                c.year as int,
                m as int,
            ),
        decreases c.month - m,
    {
        proof {
            lemma_days_before_year_bounds(c.year as int);
            lemma_days_before_month_bounds(c.year as int, m as int);
        }
        acc = acc + days_in_month_num(c.year, m);
        m = m + 1;
    }
    proof {
        lemma_day_index_range(*c);
        lemma_days_before_year_bounds(c.year as int);
        lemma_days_before_month_bounds(c.year as int, c.month as int);
    }
    acc + c.day - 1
}

/// Recovers the date at a day index; `None` past the supported range.
pub fn civil_from_day(n: u32) -> (r: Option<Civil>)
    ensures
        match r {
            Some(c) => n < total_days() && c == civil_of(n as int) && valid_civil(c) && day_index(
                c,
            ) == n as int,
            None => n as int >= total_days(),
        },
{
    let mut y: i32 = 0;
    let mut rem: u32 = n;
    let mut found: bool = false;
    while !found && y < 10000
        invariant
            0 <= y <= 10000,
            days_before_year(y as int) + rem == n,
            civil_of_rec(y as int, rem as int) == civil_of(n as int),
            found ==> y <= 9999 && rem < days_in_year_of(y as int),
        decreases 10000 - y, (if found { 0int } else { 1int }),
    {
        let diy: u32 = if is_leap_num(y) {
            366
        } else {
            365
        };
        if rem < diy {
            found = true;
        } else {
            rem = rem - diy;
            y = y + 1;
        }
    }
    if !found {
        // y reached 10000: the index lies past the supported range.
        return None;
    }
    // rem now lies inside year y.
    let mut m: u32 = 1;
    let mut rem2: u32 = rem;
    proof {
        assert(days_before_year(y as int) + days_in_year_of(y as int) == days_before_year(
            y + 1,
        ));
        lemma_days_before_year_mono(y + 1, 10000);
        lemma_civil_of_rec(y as int, rem as int);
        lemma_year_days(y as int);
    }
    while m < 12 && rem2 >= days_in_month_num(y, m)
        invariant
            0 <= y <= 9999,
            1 <= m <= 12,
            0 <= rem2,
            days_before_month(y as int, m as int) + rem2 == rem,
            rem < days_in_year_of(y as int),
            days_before_year(y as int) + rem == n,
            civil_month_rec(y as int, m as int, rem2 as int) == civil_of(n as int),
            valid_civil(civil_of(n as int)),
            day_index(civil_of(n as int)) == n as int,
        decreases 12 - m,
    {
        rem2 = rem2 - days_in_month_num(y, m);
        m = m + 1;
        proof {
            lemma_year_days(y as int);
            lemma_days_before_month_mono(y as int, m as int, 13);
        }
    }
    let c = Civil { year: y, month: m, day: rem2 + 1 };
    proof {
        lemma_year_days(y as int);
        lemma_days_before_month_mono(y as int, (m + 1) as int, 13);
        assert(civil_month_rec(y as int, m as int, rem2 as int) == c);
    }
    Some(c)
}

/// Computes the weekday of a valid date: 0 is Monday, ..., 6 is Sunday.
pub fn weekday_number(c: &Civil) -> (r: u32)
    requires
        valid_civil(*c),
    ensures
        r as int == weekday_of_index(day_index(*c)),
        r < 7,
{
    let n = day_number(c);
    proof {
        lemma_day_index_range(*c);
    }
    (n + 5) % 7
}

} // verus!
