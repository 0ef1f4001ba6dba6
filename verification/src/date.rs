use vstd::prelude::*;

use crate::civil::{
    civil_from_day, civil_is_valid, civil_of, day_index, day_number, days_in_month_num,
    days_in_month_of, lemma_civil_of_inverse, lemma_day_index_range, total_days, valid_civil,
    weekday_number, weekday_of_index, Civil,
};
use crate::errors::EventError;
use crate::text::{
    all_digits, digits_val, is_digit, lemma_digits_val_bounds, parse_fixed_digits, pow10,
};
use core::cmp::Ordering;
use vstd::string::StringSliceAdditionalSpecFns;

verus! {

/// A span of time, counted in whole seconds.
#[derive(Debug, Clone, Copy, PartialEq, Eq, Structural)]
pub struct Duration {
    pub seconds: i64,
}

impl Duration {
    pub fn seconds(n: i64) -> (r: Duration)
        ensures
            r.seconds == n,
    {
        Duration { seconds: n }
    }

    pub fn minutes(n: i64) -> (r: Duration)
        requires
            i64::MIN <= n * 60 <= i64::MAX,
        ensures
            r.seconds == n * 60,
    {
        Duration { seconds: n * 60 }
    }

    pub fn hours(n: i64) -> (r: Duration)
        requires
            i64::MIN <= n * 3600 <= i64::MAX,
        ensures
            r.seconds == n * 3600,
    {
        Duration { seconds: n * 3600 }
    }

    pub fn days(n: i64) -> (r: Duration)
        requires
            i64::MIN <= n * 86400 <= i64::MAX,
        ensures
            r.seconds == n * 86400,
    {
        Duration { seconds: n * 86400 }
    }

    pub fn weeks(n: i64) -> (r: Duration)
        requires
            i64::MIN <= n * 604800 <= i64::MAX,
        ensures
            r.seconds == n * 604800,
    {
        Duration { seconds: n * 604800 }
    }
}

/// A point in time: civil fields together with the UTC offset (seconds east)
/// of the zone the text was parsed in, resolved once at parse time.
#[derive(Debug, Clone, Copy, PartialEq, Eq, Structural)]
pub struct Moment {
    pub date: Civil,
    pub hour: u32,
    pub minute: u32,
    pub second: u32,
    pub offset: i32,
}

/// A date value: either a timestamped point or a whole civil day.
#[derive(Debug, Clone, Copy, PartialEq, Eq, Structural)]
pub enum Date {
    Time(Moment),
    AllDay(Civil),
}

pub open spec fn moment_wf(m: Moment) -> bool {
    &&& valid_civil(m.date)
    &&& m.hour < 24
    &&& m.minute < 60
    &&& m.second < 60
    &&& -86400 < m.offset < 86400
}

pub open spec fn date_wf(d: Date) -> bool {
    match d {
        Date::Time(m) => moment_wf(m),
        Date::AllDay(c) => valid_civil(c),
    }
}

pub open spec fn civil_part(d: Date) -> Civil {
    match d {
        Date::Time(m) => m.date,
        Date::AllDay(c) => c,
    }
}

/// The civil day a date falls on, as a day index.
pub open spec fn day_of(d: Date) -> int {
    day_index(civil_part(d))
}

/// Seconds since civil midnight; an all-day date sits at its day's start.
pub open spec fn tod_of(d: Date) -> int {
    match d {
        Date::Time(m) => m.hour * 3600 + m.minute * 60 + m.second,
        Date::AllDay(_) => 0,
    }
}

/// Seconds from the civil start of the supported range, ignoring the zone.
pub open spec fn civil_key(d: Date) -> int {
    day_of(d) * 86400 + tod_of(d)
}

/// Seconds from the start of the supported range on the UTC clock.
pub open spec fn abs_key(d: Date) -> int {
    match d {
        Date::Time(m) => civil_key(d) - m.offset,
        Date::AllDay(_) => civil_key(d),
    }
}

/// The strict date order: first by civil day; on the same civil day an
/// all-day date comes before every timestamped one, and two timestamped
/// dates compare by their absolute (offset-adjusted) time.
pub open spec fn date_lt(a: Date, b: Date) -> bool {
    ||| day_of(a) < day_of(b)
    ||| (day_of(a) == day_of(b) && match (a, b) {
        (Date::AllDay(_), Date::Time(_)) => true,
        (Date::Time(_), Date::Time(_)) => abs_key(a) < abs_key(b),
        _ => false,
    })
}

pub open spec fn date_le(a: Date, b: Date) -> bool {
    !date_lt(b, a)
}

pub open spec fn date_cmp_spec(a: Date, b: Date) -> Ordering {
    if date_lt(a, b) {
        Ordering::Less
    } else if date_lt(b, a) {
        Ordering::Greater
    } else {
        Ordering::Equal
    }
}

/// The total order used by `partial_cmp`: dates outside the well-formed
/// range are not distinguished.
pub open spec fn date_cmp_total(a: Date, b: Date) -> Ordering {
    if date_wf(a) && date_wf(b) {
        date_cmp_spec(a, b)
    } else {
        Ordering::Equal
    }
}

/// The date order is total: of two dates one is less or they tie both ways.
pub proof fn lemma_date_order_total(a: Date, b: Date)
    ensures
        !(date_lt(a, b) && date_lt(b, a)),
        date_le(a, b) || date_le(b, a),
{
}

/// The date order is transitive, and so is its strict part.
pub proof fn lemma_date_order_trans(a: Date, b: Date, c: Date)
    ensures
        date_le(a, b) && date_le(b, c) ==> date_le(a, c),
        date_lt(a, b) && date_lt(b, c) ==> date_lt(a, c),
        date_le(a, b) && date_lt(b, c) ==> date_lt(a, c),
        date_lt(a, b) && date_le(b, c) ==> date_lt(a, c),
{
}

/// The zero instant: the first moment of 1970 on the UTC clock.
pub open spec fn epoch_date() -> Date {
    Date::Time(
        Moment { date: Civil { year: 1970, month: 1, day: 1 }, hour: 0, minute: 0, second: 0, offset: 0 },
    )
}

/// What an offset lookup in the zone database returns for a zone name and a
/// local civil time: `None` when the name resolves to no zone or the local
/// time exists in no offset of that zone.
pub uninterp spec fn zone_offset_lookup(
    zone: Seq<char>,
    y: int,
    mo: int,
    d: int,
    h: int,
    mi: int,
    s: int,
) -> Option<i32>;

/// Relies on chrono-tz: `Tz::from_str` is a lookup in a fixed table of zone
/// names, and `offset_from_local_datetime` a search in the zone's fixed
/// transition list, so the result is a function of the arguments alone; the
/// returned `FixedOffset` is documented to lie strictly between -86400 and
/// 86400 seconds. An ambiguous local time yields its earliest offset.
#[verifier::external_body]
fn zone_offset(zone: &str, y: i32, mo: u32, d: u32, h: u32, mi: u32, s: u32) -> (r: Option<i32>)
    ensures
        r == zone_offset_lookup(
            zone@,
            y as int,
            mo as int,
            d as int,
            h as int,
            mi as int,
            s as int,
        ),
        r matches Some(o) ==> -86400 < o < 86400,
{
    let tz: chrono_tz::Tz = zone.parse().ok()?;
    let ndt = chrono::NaiveDate::from_ymd_opt(y, mo, d)?.and_hms_opt(h, mi, s)?;
    match chrono::TimeZone::offset_from_local_datetime(&tz, &ndt) {
        chrono::LocalResult::Single(o) => Some(chrono::Offset::fix(&o).local_minus_utc()),
        chrono::LocalResult::Ambiguous(o, _) => Some(chrono::Offset::fix(&o).local_minus_utc()),
        chrono::LocalResult::None => None,
    }
}

pub open spec fn contains_time_marker(s: Seq<u8>) -> bool {
    exists|i: int| 0 <= i < s.len() && s[i] == 84
}

pub open spec fn ends_with_utc_marker(s: Seq<u8>) -> bool {
    s.len() > 0 && s[s.len() - 1] == 90
}

/// The civil date written by the first eight digits of a date text.
pub open spec fn civil_of_digits(s: Seq<u8>) -> Civil {
    Civil {
        year: digits_val(s, 0, 4) as i32,
        month: digits_val(s, 4, 2) as u32,
        day: digits_val(s, 6, 2) as u32,
    }
}

/// Whether a text with a time marker is a well-formed timestamp:
/// eight date digits, the marker, six time digits, an optional final UTC
/// marker, and field values that form a real civil time.
pub open spec fn time_form_ok(s: Seq<u8>) -> bool {
    &&& s.len() == (if ends_with_utc_marker(s) { 16int } else { 15int })
    &&& s[8] == 84
    &&& all_digits(s, 0, 8)
    &&& all_digits(s, 9, 6)
    &&& valid_civil(civil_of_digits(s))
    &&& digits_val(s, 9, 2) < 24
    &&& digits_val(s, 11, 2) < 60
    &&& digits_val(s, 13, 2) < 60
}

/// The moment a well-formed timestamp text denotes: with the UTC marker the
/// offset is zero and the zone hint is ignored, otherwise the offset is the
/// zone lookup's answer, with UTC as the fallback.
pub open spec fn parsed_moment(s: Seq<u8>, zone: Seq<char>) -> Moment {
    let c = civil_of_digits(s);
    let h = digits_val(s, 9, 2);
    let mi = digits_val(s, 11, 2);
    let sec = digits_val(s, 13, 2);
    let off: int = if ends_with_utc_marker(s) {
        0
    } else {
        match zone_offset_lookup(zone, c.year as int, c.month as int, c.day as int, h, mi, sec) {
            Some(o) => o as int,
            None => 0,
        }
    };
    Moment { date: c, hour: h as u32, minute: mi as u32, second: sec as u32, offset: off as i32 }
}

/// What `Date::parse` returns on any input: an empty text is an error; a
/// text with a time marker parses as a timestamp, degrading to the zero
/// epoch when malformed; anything else must start with eight digits that
/// form a real civil date, giving an all-day value.
pub open spec fn spec_date_parse(s: Seq<u8>, zone: Seq<char>) -> Result<Date, EventError> {
    if s.len() == 0 {
        Err(EventError::DateError)
    } else if contains_time_marker(s) {
        if time_form_ok(s) {
            Ok(Date::Time(parsed_moment(s, zone)))
        } else {
            Ok(epoch_date())
        }
    } else {
        if s.len() >= 8 && all_digits(s, 0, 8) && valid_civil(civil_of_digits(s)) {
            Ok(Date::AllDay(civil_of_digits(s)))
        } else {
            Err(EventError::DateError)
        }
    }
}

/// A day of the week.
#[derive(Debug, Clone, Copy, PartialEq, Eq, Structural)]
pub enum Weekday {
    Mon,
    Tue,
    Wed,
    Thu,
    Fri,
    Sat,
    Sun,
}

pub open spec fn weekday_from_num(n: int) -> Weekday {
    if n == 0 {
        Weekday::Mon
    } else if n == 1 {
        Weekday::Tue
    } else if n == 2 {
        Weekday::Wed
    } else if n == 3 {
        Weekday::Thu
    } else if n == 4 {
        Weekday::Fri
    } else if n == 5 {
        Weekday::Sat
    } else {
        Weekday::Sun
    }
}

pub open spec fn weekday_num(w: Weekday) -> int {
    match w {
        Weekday::Mon => 0,
        Weekday::Tue => 1,
        Weekday::Wed => 2,
        Weekday::Thu => 3,
        Weekday::Fri => 4,
        Weekday::Sat => 5,
        Weekday::Sun => 6,
    }
}

/// A date with its civil fields replaced, keeping variant, time and offset.
pub open spec fn with_civil(d: Date, c: Civil) -> Date {
    match d {
        Date::Time(m) => Date::Time(
            Moment { date: c, hour: m.hour, minute: m.minute, second: m.second, offset: m.offset },
        ),
        Date::AllDay(_) => Date::AllDay(c),
    }
}

/// Division by a day's seconds, truncated toward zero.
pub open spec fn trunc_div_86400(x: int) -> int {
    if x >= 0 {
        x / 86400
    } else {
        -((-x) / 86400)
    }
}

/// What shifting a date by `secs` seconds yields; a shift that would leave
/// the supported range leaves the date unchanged.
pub open spec fn spec_add_duration(d: Date, secs: int) -> Date {
    match d {
        Date::AllDay(c) => {
            let nd = day_index(c) + trunc_div_86400(secs);
            if 0 <= nd < total_days() {
                Date::AllDay(civil_of(nd))
            } else {
                d
            }
        },
        Date::Time(m) => {
            let k = civil_key(d) + secs;
            if 0 <= k < total_days() * 86400 {
                let tod = k % 86400;
                Date::Time(
                    Moment {
                        date: civil_of(k / 86400),
                        hour: (tod / 3600) as u32,
                        minute: ((tod % 3600) / 60) as u32,
                        second: ((tod % 3600) % 60) as u32,
                        offset: m.offset,
                    },
                )
            } else {
                d
            }
        },
    }
}

/// The difference of two dates in seconds.
pub open spec fn date_sub(a: Date, b: Date) -> int {
    match (a, b) {
        (Date::Time(_), Date::Time(_)) => abs_key(a) - abs_key(b),
        _ => civil_key(a) - civil_key(b),
    }
}

impl Date {
    /// The zero instant.
    pub fn new() -> (d: Date)
        ensures
            d == epoch_date(),
            date_wf(d),
    {
        Date::Time(
            Moment {
                date: Civil { year: 1970, month: 1, day: 1 },
                hour: 0,
                minute: 0,
                second: 0,
                offset: 0,
            },
        )
    }

    /// Parses a date text with a zone hint, as `spec_date_parse` states.
    pub fn parse(date_str: &str, time_zone: &str) -> (r: Result<Date, EventError>)
        ensures
            r == spec_date_parse(date_str.spec_bytes(), time_zone@),
            r matches Ok(d) ==> date_wf(d),
    {
        Date::parse_bytes(date_str.as_bytes(), time_zone)
    }

    /// The byte-level core of `parse`.
    pub(crate) fn parse_bytes(b: &[u8], time_zone: &str) -> (r: Result<Date, EventError>)
        ensures
            r == spec_date_parse(b@, time_zone@),
            r matches Ok(d) ==> date_wf(d),
    {
        let n = b.len();
        let ghost s = b@;
        if n == 0 {
            return Err(EventError::DateError);
        }
        let mut has_t: bool = false;
        let mut i: usize = 0;
        while i < n && !has_t
            invariant
                n == s.len(),
                b@ == s,
                0 <= i <= n,
                !has_t ==> forall|j: int| 0 <= j < i ==> s[j] != 84,
                has_t ==> contains_time_marker(s),
            decreases n - i,
        {
            if b[i] == 84 {
                has_t = true;
            }
            i = i + 1;
        }
        if has_t {
            let absolute = b[n - 1] == 90;
            let want: usize = if absolute {
                16
            } else {
                15
            };
            if n != want || b[8] != 84 {
                return Ok(Date::new());
            }
            let y = match parse_fixed_digits(b, 0, 4) {
                Some(v) => v,
                None => {
                    return Ok(Date::new());
                },
            };
            let mo = match parse_fixed_digits(b, 4, 2) {
                Some(v) => v,
                None => {
                    return Ok(Date::new());
                },
            };
            let d = match parse_fixed_digits(b, 6, 2) {
                Some(v) => v,
                None => {
                    return Ok(Date::new());
                },
            };
            let h = match parse_fixed_digits(b, 9, 2) {
                Some(v) => v,
                None => {
                    return Ok(Date::new());
                },
            };
            let mi = match parse_fixed_digits(b, 11, 2) {
                Some(v) => v,
                None => {
                    return Ok(Date::new());
                },
            };
            let sec = match parse_fixed_digits(b, 13, 2) {
                Some(v) => v,
                None => {
                    return Ok(Date::new());
                },
            };
            proof {
                lemma_digits_val_bounds(s, 0, 4);
                lemma_digits_val_bounds(s, 4, 2);
                lemma_digits_val_bounds(s, 6, 2);
                lemma_digits_val_bounds(s, 9, 2);
                lemma_digits_val_bounds(s, 11, 2);
                lemma_digits_val_bounds(s, 13, 2);
                reveal_with_fuel(pow10, 5);
                assert(all_digits(s, 0, 8));
                assert(all_digits(s, 9, 6));
            }
            let c = Civil { year: y as i32, month: mo, day: d };
            if !civil_is_valid(&c) || h >= 24 || mi >= 60 || sec >= 60 {
                return Ok(Date::new());
            }
            assert(time_form_ok(s));
            let off: i32 = if absolute {
                0
            } else {
                match zone_offset(time_zone, c.year, c.month, c.day, h, mi, sec) {
                    Some(o) => o,
                    None => 0,
                }
            };
            let m = Moment { date: c, hour: h, minute: mi, second: sec, offset: off };
            assert(m == parsed_moment(s, time_zone@));
            Ok(Date::Time(m))
        } else {
            assert(!contains_time_marker(s));
            if n < 8 {
                return Err(EventError::DateError);
            }
            let y = match parse_fixed_digits(b, 0, 4) {
                Some(v) => v,
                None => {
                    return Err(EventError::DateError);
                },
            };
            let mo = match parse_fixed_digits(b, 4, 2) {
                Some(v) => v,
                None => {
                    return Err(EventError::DateError);
                },
            };
            let d = match parse_fixed_digits(b, 6, 2) {
                Some(v) => v,
                None => {
                    return Err(EventError::DateError);
                },
            };
            proof {
                lemma_digits_val_bounds(s, 0, 4);
                lemma_digits_val_bounds(s, 4, 2);
                lemma_digits_val_bounds(s, 6, 2);
                reveal_with_fuel(pow10, 5);
                assert(all_digits(s, 0, 8));
            }
            let c = Civil { year: y as i32, month: mo, day: d };
            if !civil_is_valid(&c) {
                return Err(EventError::DateError);
            }
            Ok(Date::AllDay(c))
        }
    }

    /// The civil fields of either variant.
    pub fn civil(&self) -> (r: Civil)
        ensures
            r == civil_part(*self),
    {
        match self {
            Date::Time(m) => m.date,
            Date::AllDay(c) => *c,
        }
    }

    pub fn is_wf(&self) -> (r: bool)
        ensures
            r == date_wf(*self),
    {
        match self {
            Date::Time(m) => civil_is_valid(&m.date) && m.hour < 24 && m.minute < 60 && m.second
                < 60 && -86400 < m.offset && m.offset < 86400,
            Date::AllDay(c) => civil_is_valid(c),
        }
    }

    pub fn day(&self) -> (r: u32)
        ensures
            r == civil_part(*self).day,
    {
        self.civil().day
    }

    pub fn month(&self) -> (r: u32)
        ensures
            r == civil_part(*self).month,
    {
        self.civil().month
    }

    pub fn year(&self) -> (r: i32)
        ensures
            r == civil_part(*self).year,
    {
        self.civil().year
    }

    pub fn hour(&self) -> (r: u32)
        ensures
            r as int == (match *self {
                Date::Time(m) => m.hour as int,
                Date::AllDay(_) => 0int,
            }),
    {
        match self {
            Date::Time(m) => m.hour,
            Date::AllDay(_) => 0,
        }
    }

    /// Civil-day equality, regardless of time-of-day and variant.
    pub fn same_day(&self, other: &Date) -> (r: bool)
        ensures
            r == (civil_part(*self) == civil_part(*other)),
    {
        let a = self.civil();
        let b = other.civil();
        a.year == b.year && a.month == b.month && a.day == b.day
    }

    pub fn days_in_month(&self) -> (r: u32)
        requires
            date_wf(*self),
        ensures
            r as int == days_in_month_of(civil_part(*self).year as int, civil_part(*self).month as int),
    {
        let c = self.civil();
        days_in_month_num(c.year, c.month)
    }

    pub fn weekday(&self) -> (r: Weekday)
        requires
            date_wf(*self),
        ensures
            r == weekday_from_num(weekday_of_index(day_of(*self))),
    {
        let c = self.civil();
        let w = weekday_number(&c);
        if w == 0 {
            Weekday::Mon
        } else if w == 1 {
            Weekday::Tue
        } else if w == 2 {
            Weekday::Wed
        } else if w == 3 {
            Weekday::Thu
        } else if w == 4 {
            Weekday::Fri
        } else if w == 5 {
            Weekday::Sat
        } else {
            Weekday::Sun
        }
    }

    pub fn with_day(&self, day: u32) -> (r: Option<Date>)
        ensures
            ({
                let c = Civil { year: civil_part(*self).year, month: civil_part(*self).month, day: day };
                r == (if valid_civil(c) {
                    Some(with_civil(*self, c))
                } else {
                    None::<Date>
                })
            }),
    {
        let c0 = self.civil();
        let c = Civil { year: c0.year, month: c0.month, day: day };
        if civil_is_valid(&c) {
            Some(self.replace_civil(c))
        } else {
            None
        }
    }

    pub fn with_month(&self, month: u32) -> (r: Option<Date>)
        ensures
            ({
                let c = Civil { year: civil_part(*self).year, month: month, day: civil_part(*self).day };
                r == (if valid_civil(c) {
                    Some(with_civil(*self, c))
                } else {
                    None::<Date>
                })
            }),
    {
        let c0 = self.civil();
        let c = Civil { year: c0.year, month: month, day: c0.day };
        if civil_is_valid(&c) {
            Some(self.replace_civil(c))
        } else {
            None
        }
    }

    pub fn with_year(&self, year: i32) -> (r: Option<Date>)
        ensures
            ({
                let c = Civil { year: year, month: civil_part(*self).month, day: civil_part(*self).day };
                r == (if valid_civil(c) {
                    Some(with_civil(*self, c))
                } else {
                    None::<Date>
                })
            }),
    {
        let c0 = self.civil();
        let c = Civil { year: year, month: c0.month, day: c0.day };
        if civil_is_valid(&c) {
            Some(self.replace_civil(c))
        } else {
            None
        }
    }

    fn replace_civil(&self, c: Civil) -> (r: Date)
        ensures
            r == with_civil(*self, c),
    {
        match self {
            Date::Time(m) => Date::Time(
                Moment {
                    date: c,
                    hour: m.hour,
                    minute: m.minute,
                    second: m.second,
                    offset: m.offset,
                },
            ),
            Date::AllDay(_) => Date::AllDay(c),
        }
    }

    /// The date on day `n`, with this date's variant, time and offset.
    pub(crate) fn with_day_number(&self, n: u32) -> (r: Date)
        requires
            date_wf(*self),
            n < total_days(),
        ensures
            r == with_civil(*self, civil_of(n as int)),
            date_wf(r),
    {
        match civil_from_day(n) {
            Some(c) => self.replace_civil(c),
            None => *self,
        }
    }

    fn civil_key_num(&self) -> (r: i64)
        requires
            date_wf(*self),
        ensures
            r == civil_key(*self),
            0 <= r < 320_000_000_000,
    {
        let c = self.civil();
        let n = day_number(&c);
        proof {
            lemma_day_index_range(c);
        }
        let base = (n as i64) * 86400;
        match self {
            Date::Time(m) => base + (m.hour as i64) * 3600 + (m.minute as i64) * 60 + (
            m.second as i64),
            Date::AllDay(_) => base,
        }
    }

    fn abs_key_num(&self) -> (r: i64)
        requires
            date_wf(*self),
        ensures
            r == abs_key(*self),
            -86400 <= r < 320_000_086_400,
    {
        let k = self.civil_key_num();
        match self {
            Date::Time(m) => k - (m.offset as i64),
            Date::AllDay(_) => k,
        }
    }

    /// The date order of the library: by civil day, then all-day before
    /// timestamped, then by absolute time.
    pub fn compare(&self, other: &Date) -> (r: Ordering)
        requires
            date_wf(*self),
            date_wf(*other),
        ensures
            r == date_cmp_spec(*self, *other),
    {
        let c1 = self.civil();
        let c2 = other.civil();
        let n1 = day_number(&c1);
        let n2 = day_number(&c2);
        if n1 < n2 {
            Ordering::Less
        } else if n1 > n2 {
            Ordering::Greater
        } else {
            match (self, other) {
                (Date::AllDay(_), Date::Time(_)) => Ordering::Less,
                (Date::Time(_), Date::AllDay(_)) => Ordering::Greater,
                (Date::AllDay(_), Date::AllDay(_)) => Ordering::Equal,
                (Date::Time(_), Date::Time(_)) => {
                    let k1 = self.abs_key_num();
                    let k2 = other.abs_key_num();
                    if k1 < k2 {
                        Ordering::Less
                    } else if k1 > k2 {
                        Ordering::Greater
                    } else {
                        Ordering::Equal
                    }
                },
            }
        }
    }

    /// Shifts a date by a duration. A timestamped date moves by whole
    /// seconds; an all-day date moves by the duration's whole days,
    /// truncated toward zero. A shift that would leave the supported
    /// range returns the date unchanged.
    pub fn add_duration(&self, dur: Duration) -> (r: Date)
        requires
            date_wf(*self),
        ensures
            r == spec_add_duration(*self, dur.seconds as int),
            date_wf(r),
    {
        proof {
            crate::civil::lemma_days_before_year_bounds(10000);
        }
        match self {
            Date::AllDay(c) => {
                let sh = match dur.seconds.checked_div(86400) {
                    Some(x) => x,
                    None => 0,
                };
                let n1 = day_number(c) as i64;
                let nd = match n1.checked_add(sh) {
                    Some(x) => x,
                    None => {
                        return *self;
                    },
                };
                if nd < 0 || nd > 3_660_000 {
                    return *self;
                }
                match civil_from_day(nd as u32) {
                    Some(c2) => Date::AllDay(c2),
                    None => *self,
                }
            },
            Date::Time(m) => {
                let k0 = self.civil_key_num();
                let k = match k0.checked_add(dur.seconds) {
                    Some(x) => x,
                    None => {
                        return *self;
                    },
                };
                if k < 0 {
                    return *self;
                }
                let day = match k.checked_div(86400) {
                    Some(x) => x,
                    None => 0,
                };
                proof {
                    vstd::arithmetic::div_mod::lemma_fundamental_div_mod(k as int, 86400);
                    vstd::arithmetic::div_mod::lemma_mod_division_less_than_divisor(
                        k as int,
                        86400,
                    );
                }
                if day > 3_660_000 {
                    return *self;
                }
                match civil_from_day(day as u32) {
                    Some(c2) => {
                        let tod = (k - day * 86400) as u32;
                        let h = tod / 3600;
                        let r1 = tod % 3600;
                        let mi2 = r1 / 60;
                        let s2 = r1 % 60;
                        Date::Time(
                            Moment { date: c2, hour: h, minute: mi2, second: s2, offset: m.offset },
                        )
                    },
                    None => *self,
                }
            },
        }
    }

    /// The difference of two dates in seconds: absolute time between two
    /// timestamped dates, civil time otherwise, with an all-day date
    /// standing at its day's start.
    pub fn sub_date(&self, other: &Date) -> (r: Duration)
        requires
            date_wf(*self),
            date_wf(*other),
        ensures
            r.seconds == date_sub(*self, *other),
    {
        match (self, other) {
            (Date::Time(_), Date::Time(_)) => Duration {
                seconds: self.abs_key_num() - other.abs_key_num(),
            },
            _ => Duration { seconds: self.civil_key_num() - other.civil_key_num() },
        }
    }

    /// The week of the month a date falls in, counted from the month's start
    /// (1-based) and, negated, from the month's end.
    pub fn week_of_month(&self) -> (r: (i32, i32))
        requires
            date_wf(*self),
        ensures
            r.0 as int == (civil_part(*self).day - 1) / 7 + 1,
            r.1 as int == -((days_in_month_of(civil_part(*self).year as int, civil_part(*self).month as int)
                - civil_part(*self).day) / 7 + 1),
    {
        let c = self.civil();
        let dim = days_in_month_num(c.year, c.month);
        let week = ((c.day - 1) / 7 + 1) as i32;
        let neg_week = ((dim - c.day) / 7 + 1) as i32;
        (week, -neg_week)
    }
}

impl vstd::std_specs::cmp::PartialOrdSpecImpl for Date {
    open spec fn obeys_partial_cmp_spec() -> bool {
        true
    }

    open spec fn partial_cmp_spec(&self, other: &Self) -> Option<Ordering> {
        Some(date_cmp_total(*self, *other))
    }
}

impl PartialOrd for Date {
    fn partial_cmp(&self, other: &Self) -> (r: Option<Ordering>) {
        if self.is_wf() && other.is_wf() {
            Some(self.compare(other))
        } else {
            Some(Ordering::Equal)
        }
    }
}

/// Law: a well-formed eight-digit date text parses to the all-day date
/// whose year, month and day round-trip the text's digit groups exactly.
pub proof fn lemma_parse_all_day_round_trip(s: Seq<u8>, zone: Seq<char>)
    requires
        s.len() == 8,
        all_digits(s, 0, 8),
        valid_civil(civil_of_digits(s)),
    ensures
        spec_date_parse(s, zone) == Ok::<Date, EventError>(Date::AllDay(civil_of_digits(s))),
        civil_of_digits(s).year as int == digits_val(s, 0, 4),
        civil_of_digits(s).month as int == digits_val(s, 4, 2),
        civil_of_digits(s).day as int == digits_val(s, 6, 2),
{
    assert forall|i: int| 0 <= i < s.len() implies s[i] != 84 by {
        assert(is_digit(s[i]));
    }
    assert(!contains_time_marker(s));
    lemma_digits_val_bounds(s, 0, 4);
    lemma_digits_val_bounds(s, 4, 2);
    lemma_digits_val_bounds(s, 6, 2);
    reveal_with_fuel(pow10, 5);
}

/// Law: on one civil day, an all-day date comes before every timestamped
/// date of that day, and against any other timestamped date it orders by
/// plain civil-day comparison.
pub proof fn lemma_all_day_sorts_first(a: Date, b: Date, d: Date)
    requires
        a is Time,
        b is Time,
        date_lt(a, b),
        d is AllDay,
        day_of(d) == day_of(a),
    ensures
        date_lt(d, a),
        day_of(d) <= day_of(b) ==> date_lt(d, b),
        day_of(d) > day_of(b) ==> date_lt(b, d),
{
}

} // verus!
