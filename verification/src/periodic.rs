use vstd::prelude::*;

use crate::civil::{
    day_index, day_number, days_before_month, days_before_year, days_in_month_num,
    days_in_month_of, days_in_year_of, civil_from_day, civil_is_valid, civil_of, is_leap_num,
    lemma_day_index_range, lemma_days_before_month_bounds, lemma_days_before_month_mono,
    lemma_days_before_year_bounds, lemma_days_before_year_mono, lemma_year_days, total_days,
    valid_civil, weekday_of_index, weekday_number, Civil,
};
use crate::date::{
    civil_part, date_le, date_lt, date_sub, date_wf, day_of, spec_date_parse, weekday_num,
    with_civil, Date, Duration, Weekday,
};
use crate::errors::EventError;
use crate::event::{empty_event, event_le, event_wf, spec_end_date, End, Event, EventV};
use crate::text::{all_digits, digits_val, parse_fixed_digits, parse_u64_digits, range_is, range_matches};
use vstd::string::StringSliceAdditionalSpecFns;

verus! {

/// How often a rule recurs.
#[derive(Debug, Clone, Copy, PartialEq, Eq, Structural)]
pub enum Freq {
    Daily,
    Weekly,
    Monthly,
    Yearly,
}

/// A weekday selector: an optional ordinal (the n-th such weekday within
/// the period, counted from its end when negative) and a weekday.
#[derive(Debug, Clone, Copy, PartialEq, Eq, Structural)]
pub struct ByDay {
    pub ord: Option<i32>,
    pub weekday: Weekday,
}

/// When a rule's sequence of occurrences ends.
#[derive(Debug, Clone, Copy, PartialEq, Eq, Structural)]
pub enum Termination {
    Unbounded,
    Count(u64),
    Until(Date),
}

/// A recurrence rule with the template event its occurrences are copies of.
#[derive(Debug, Clone, PartialEq)]
pub struct Periodic {
    pub freq: Freq,
    pub interval: u64,
    pub term: Termination,
    pub byday: Vec<ByDay>,
    pub event: Event,
}

pub ghost struct PeriodicV {
    pub freq: Freq,
    pub interval: u64,
    pub term: Termination,
    pub byday: Seq<ByDay>,
    pub event: EventV,
}

impl View for Periodic {
    type V = PeriodicV;

    open spec fn view(&self) -> PeriodicV {
        PeriodicV {
            freq: self.freq,
            interval: self.interval,
            term: self.term,
            byday: self.byday@,
            event: self.event@,
        }
    }
}

pub open spec fn byday_wf(b: ByDay) -> bool {
    match b.ord {
        Some(n) => n != 0 && -53 <= n <= 53,
        None => true,
    }
}

pub open spec fn periodic_wf(p: PeriodicV) -> bool {
    &&& 1 <= p.interval
    &&& event_wf(p.event)
    &&& match p.term {
        Termination::Until(d) => date_wf(d),
        _ => true,
    }
    &&& forall|i: int| 0 <= i < p.byday.len() ==> byday_wf(#[trigger] p.byday[i])
}

/// The empty rule: daily, every period, unbounded, no selectors.
pub open spec fn empty_periodic() -> PeriodicV {
    PeriodicV {
        freq: Freq::Daily,
        interval: 1,
        term: Termination::Unbounded,
        byday: Seq::<ByDay>::empty(),
        event: empty_event(),
    }
}

pub open spec fn kw_freq() -> Seq<u8> {
    seq![70u8, 82u8, 69u8, 81u8]
}

pub open spec fn kw_interval() -> Seq<u8> {
    seq![73u8, 78u8, 84u8, 69u8, 82u8, 86u8, 65u8, 76u8]
}

pub open spec fn kw_count() -> Seq<u8> {
    seq![67u8, 79u8, 85u8, 78u8, 84u8]
}

pub open spec fn kw_until() -> Seq<u8> {
    seq![85u8, 78u8, 84u8, 73u8, 76u8]
}

pub open spec fn kw_byday() -> Seq<u8> {
    seq![66u8, 89u8, 68u8, 65u8, 89u8]
}

pub open spec fn kw_daily() -> Seq<u8> {
    seq![68u8, 65u8, 73u8, 76u8, 89u8]
}

pub open spec fn kw_weekly() -> Seq<u8> {
    seq![87u8, 69u8, 69u8, 75u8, 76u8, 89u8]
}

pub open spec fn kw_monthly() -> Seq<u8> {
    seq![77u8, 79u8, 78u8, 84u8, 72u8, 76u8, 89u8]
}

pub open spec fn kw_yearly() -> Seq<u8> {
    seq![89u8, 69u8, 65u8, 82u8, 76u8, 89u8]
}

/// A frequency value is one of the four upper-case keywords.
pub open spec fn spec_freq_parse(v: Seq<u8>) -> Option<Freq> {
    if v == kw_daily() {
        Some(Freq::Daily)
    } else if v == kw_weekly() {
        Some(Freq::Weekly)
    } else if v == kw_monthly() {
        Some(Freq::Monthly)
    } else if v == kw_yearly() {
        Some(Freq::Yearly)
    } else {
        None
    }
}

pub open spec fn weekday_of_code(a: u8, b: u8) -> Option<Weekday> {
    if a == 77 && b == 79 {
        Some(Weekday::Mon)
    } else if a == 84 && b == 85 {
        Some(Weekday::Tue)
    } else if a == 87 && b == 69 {
        Some(Weekday::Wed)
    } else if a == 84 && b == 72 {
        Some(Weekday::Thu)
    } else if a == 70 && b == 82 {
        Some(Weekday::Fri)
    } else if a == 83 && b == 65 {
        Some(Weekday::Sat)
    } else if a == 83 && b == 85 {
        Some(Weekday::Sun)
    } else {
        None
    }
}

/// A selector token: an optional sign and one or two ordinal digits,
/// then a two-letter weekday code. The ordinal may not be zero.
pub open spec fn spec_byday_token(t: Seq<u8>) -> Option<ByDay> {
    if t.len() < 2 {
        None
    } else {
        match weekday_of_code(t[t.len() - 2], t[t.len() - 1]) {
            None => None,
            Some(wd) => {
                if t.len() == 2 {
                    Some(ByDay { ord: None, weekday: wd })
                } else {
                    let ds: int = if t[0] == 45 || t[0] == 43 {
                        1
                    } else {
                        0
                    };
                    let dl = t.len() - 2 - ds;
                    if dl < 1 || dl > 2 || !all_digits(t, ds, dl) {
                        None
                    } else {
                        let v = digits_val(t, ds, dl);
                        if 1 <= v <= 53 {
                            Some(
                                ByDay {
                                    ord: Some((if t[0] == 45 {
                                        -v
                                    } else {
                                        v
                                    }) as i32),
                                    weekday: wd,
                                },
                            )
                        } else {
                            None
                        }
                    }
                }
            },
        }
    }
}

/// The position of the first comma at or after `i`, or the text's end.
pub open spec fn first_comma_from(v: Seq<u8>, i: int) -> int
    decreases v.len() - i,
{
    if i < 0 || i >= v.len() {
        v.len() as int
    } else if v[i] == 44 {
        i
    } else {
        first_comma_from(v, i + 1)
    }
}

pub proof fn lemma_first_comma_from(v: Seq<u8>, i: int)
    requires
        0 <= i <= v.len(),
    ensures
        i <= first_comma_from(v, i) <= v.len(),
        first_comma_from(v, i) < v.len() ==> v[first_comma_from(v, i)] == 44,
        forall|j: int| i <= j < first_comma_from(v, i) ==> v[j] != 44,
    decreases v.len() - i,
{
    if i < v.len() && v[i] != 44 {
        lemma_first_comma_from(v, i + 1);
    }
}

/// The comma-separated selector list starting at `i`; a malformed token
/// spoils the whole list.
pub open spec fn spec_byday_list_from(v: Seq<u8>, i: int) -> Result<Seq<ByDay>, EventError>
    decreases v.len() - i,
    via spec_byday_list_from_decreases
{
    let j = first_comma_from(v, i);
    match spec_byday_token(v.subrange(i, j)) {
        None => Err(EventError::BydayError),
        Some(bd) => {
            if j >= v.len() {
                Ok(seq![bd])
            } else {
                match spec_byday_list_from(v, j + 1) {
                    Ok(rest) => Ok(seq![bd] + rest),
                    Err(e) => Err(e),
                }
            }
        },
    }
}

#[via_fn]
proof fn spec_byday_list_from_decreases(v: Seq<u8>, i: int) {
    if 0 <= i <= v.len() {
        lemma_first_comma_from(v, i);
    }
}

pub open spec fn spec_byday_list(v: Seq<u8>) -> Result<Seq<ByDay>, EventError> {
    spec_byday_list_from(v, 0)
}

/// What applying one `KEY=VALUE` parameter does to a rule: the five
/// recognized keys each set their field, every other key is ignored.
pub open spec fn spec_set_param(p: PeriodicV, key: Seq<u8>, value: Seq<u8>) -> Result<
    PeriodicV,
    EventError,
> {
    if key == kw_freq() {
        match spec_freq_parse(value) {
            Some(f) => Ok(PeriodicV { freq: f, ..p }),
            None => Err(EventError::FreqError),
        }
    } else if key == kw_interval() {
        if value.len() >= 1 && all_digits(value, 0, value.len() as int) && 1 <= digits_val(
            value,
            0,
            value.len() as int,
        ) <= u64::MAX {
            Ok(PeriodicV { interval: digits_val(value, 0, value.len() as int) as u64, ..p })
        } else {
            Err(EventError::IntError)
        }
    } else if key == kw_count() {
        if value.len() >= 1 && all_digits(value, 0, value.len() as int) && digits_val(
            value,
            0,
            value.len() as int,
        ) <= u64::MAX {
            Ok(
                PeriodicV {
                    term: Termination::Count(digits_val(value, 0, value.len() as int) as u64),
                    ..p
                },
            )
        } else {
            Err(EventError::IntError)
        }
    } else if key == kw_until() {
        match spec_date_parse(value, Seq::<char>::empty()) {
            Ok(d) => Ok(PeriodicV { term: Termination::Until(d), ..p }),
            Err(e) => Err(e),
        }
    } else if key == kw_byday() {
        match spec_byday_list(value) {
            Ok(bds) => Ok(PeriodicV { byday: bds, ..p }),
            Err(e) => Err(e),
        }
    } else {
        Ok(p)
    }
}

fn parse_byday_token(b: &[u8], start: usize, end: usize) -> (r: Option<ByDay>)
    requires
        start <= end <= b@.len(),
    ensures
        r == spec_byday_token(b@.subrange(start as int, end as int)),
{
    let ghost t = b@.subrange(start as int, end as int);
    let len = end - start;
    if len < 2 {
        return None;
    }
    let a = b[end - 2];
    let c = b[end - 1];
    let wd = if a == 77 && c == 79 {
        Weekday::Mon
    } else if a == 84 && c == 85 {
        Weekday::Tue
    } else if a == 87 && c == 69 {
        Weekday::Wed
    } else if a == 84 && c == 72 {
        Weekday::Thu
    } else if a == 70 && c == 82 {
        Weekday::Fri
    } else if a == 83 && c == 65 {
        Weekday::Sat
    } else if a == 83 && c == 85 {
        Weekday::Sun
    } else {
        return None;
    };
    assert(weekday_of_code(t[t.len() - 2], t[t.len() - 1]) == Some(wd));
    if len == 2 {
        return Some(ByDay { ord: None, weekday: wd });
    }
    let signed = b[start] == 45 || b[start] == 43;
    let ds: usize = if signed {
        1
    } else {
        0
    };
    let dl = len - 2 - ds;
    if dl < 1 || dl > 2 {
        return None;
    }
    proof {
        crate::text::lemma_digits_val_congruent(
            b@,
            t,
            start + ds,
            ds as int,
            dl as int,
        );
    }
    let v = match parse_fixed_digits(b, start + ds, dl) {
        Some(x) => x,
        None => {
            return None;
        },
    };
    if v < 1 || v > 53 {
        return None;
    }
    let ord: i32 = if b[start] == 45 {
        -(v as i32)
    } else {
        v as i32
    };
    Some(ByDay { ord: Some(ord), weekday: wd })
}

/// Parses a comma-separated selector list.
fn parse_byday_list(b: &[u8]) -> (r: Result<Vec<ByDay>, EventError>)
    ensures
        match r {
            Ok(v) => spec_byday_list(b@) == Ok::<Seq<ByDay>, EventError>(v@) && forall|q: int|
                0 <= q < v@.len() ==> byday_wf(#[trigger] v@[q]),
            Err(e) => spec_byday_list(b@) == Err::<Seq<ByDay>, EventError>(e),
        },
{
    let n = b.len();
    let mut out: Vec<ByDay> = Vec::new();
    let mut i: usize = 0;
    proof {
        match spec_byday_list_from(b@, 0) {
            Ok(rest) => {
                assert(out@ + rest =~= rest);
            },
            Err(_) => {},
        }
    }
    loop
        invariant
            0 <= i <= n == b@.len(),
            spec_byday_list(b@) == (match spec_byday_list_from(b@, i as int) {
                Ok(rest) => Ok::<Seq<ByDay>, EventError>(out@ + rest),
                Err(e) => Err::<Seq<ByDay>, EventError>(e),
            }),
            forall|q: int| 0 <= q < out@.len() ==> byday_wf(#[trigger] out@[q]),
        decreases n - i,
    {
        // find the next comma
        let mut j: usize = i;
        while j < n && b[j] != 44
            invariant
                i <= j <= n == b@.len(),
                forall|q: int| i <= q < j ==> b@[q] != 44,
            decreases n - j,
        {
            j = j + 1;
        }
        proof {
            lemma_first_comma_from_exact(b@, i as int, j as int);
        }
        let bd = match parse_byday_token(b, i, j) {
            Some(x) => x,
            None => {
                return Err(EventError::BydayError);
            },
        };
        proof {
            assert(byday_wf(bd));
        }
        if j >= n {
            proof {
                assert(out@ + seq![bd] =~= out@.push(bd));
            }
            out.push(bd);
            return Ok(out);
        }
        proof {
            match spec_byday_list_from(b@, j + 1) {
                Ok(rest) => {
                    assert(out@ + (seq![bd] + rest) =~= (out@ + seq![bd]) + rest);
                    assert(out@ + seq![bd] =~= out@.push(bd));
                },
                Err(_) => {},
            }
        }
        out.push(bd);
        i = j + 1;
    }
}

proof fn lemma_first_comma_from_exact(v: Seq<u8>, i: int, j: int)
    requires
        0 <= i <= j <= v.len(),
        forall|q: int| i <= q < j ==> v[q] != 44,
        j < v.len() ==> v[j] == 44,
    ensures
        first_comma_from(v, i) == j,
    decreases j - i,
{
    if i < j {
        lemma_first_comma_from_exact(v, i + 1, j);
    }
}

impl Periodic {
    /// The empty rule.
    pub fn new() -> (r: Periodic)
        ensures
            r@ == empty_periodic(),
            periodic_wf(r@),
    {
        Periodic {
            freq: Freq::Daily,
            interval: 1,
            term: Termination::Unbounded,
            byday: Vec::new(),
            event: Event::new(),
        }
    }

    /// Applies one rule parameter, as `spec_set_param` states; on an error
    /// the rule is unchanged.
    pub fn set_param(&mut self, param: &str, value: &str) -> (r: Result<(), EventError>)
        ensures
            match spec_set_param(old(self)@, param.spec_bytes(), value.spec_bytes()) {
                Ok(p2) => r is Ok && final(self)@ == p2,
                Err(e) => r == Err::<(), EventError>(e) && final(self)@ == old(self)@,
            },
            periodic_wf(old(self)@) && r is Ok ==> periodic_wf(final(self)@),
    {
        self.set_param_bytes(param.as_bytes(), value.as_bytes())
    }

    /// The byte-level core of `set_param`.
    pub(crate) fn set_param_bytes(&mut self, pb: &[u8], vb: &[u8]) -> (r: Result<(), EventError>)
        ensures
            match spec_set_param(old(self)@, pb@, vb@) {
                Ok(p2) => r is Ok && final(self)@ == p2,
                Err(e) => r == Err::<(), EventError>(e) && final(self)@ == old(self)@,
            },
            periodic_wf(old(self)@) && r is Ok ==> periodic_wf(final(self)@),
    {
        let pn = pb.len();
        let vn = vb.len();
        let k_freq = [70u8, 82u8, 69u8, 81u8];
        let k_interval = [73u8, 78u8, 84u8, 69u8, 82u8, 86u8, 65u8, 76u8];
        let k_count = [67u8, 79u8, 85u8, 78u8, 84u8];
        let k_until = [85u8, 78u8, 84u8, 73u8, 76u8];
        let k_byday = [66u8, 89u8, 68u8, 65u8, 89u8];
        if range_matches(pb, 0, pn, k_freq.as_slice()) {
            proof {
                assert(pb@ =~= kw_freq());
            }
            let v_daily = [68u8, 65u8, 73u8, 76u8, 89u8];
            let v_weekly = [87u8, 69u8, 69u8, 75u8, 76u8, 89u8];
            let v_monthly = [77u8, 79u8, 78u8, 84u8, 72u8, 76u8, 89u8];
            let v_yearly = [89u8, 69u8, 65u8, 82u8, 76u8, 89u8];
            if range_matches(vb, 0, vn, v_daily.as_slice()) {
                proof {
                    assert(vb@ =~= kw_daily());
                }
                self.freq = Freq::Daily;
                Ok(())
            } else if range_matches(vb, 0, vn, v_weekly.as_slice()) {
                proof {
                    assert(vb@ =~= kw_weekly());
                    assert(vb@ != kw_daily());
                }
                self.freq = Freq::Weekly;
                Ok(())
            } else if range_matches(vb, 0, vn, v_monthly.as_slice()) {
                proof {
                    assert(vb@ =~= kw_monthly());
                    assert(vb@ != kw_daily() && vb@ != kw_weekly());
                }
                self.freq = Freq::Monthly;
                Ok(())
            } else if range_matches(vb, 0, vn, v_yearly.as_slice()) {
                proof {
                    assert(vb@ =~= kw_yearly());
                    assert(vb@ != kw_daily() && vb@ != kw_weekly() && vb@ != kw_monthly());
                }
                self.freq = Freq::Yearly;
                Ok(())
            } else {
                proof {
                    assert(vb@ == kw_daily() ==> range_is(vb@, 0, vn as int, v_daily@));
                    assert(vb@ == kw_weekly() ==> range_is(vb@, 0, vn as int, v_weekly@));
                    assert(vb@ == kw_monthly() ==> range_is(vb@, 0, vn as int, v_monthly@));
                    assert(vb@ == kw_yearly() ==> range_is(vb@, 0, vn as int, v_yearly@));
                }
                Err(EventError::FreqError)
            }
        } else if range_matches(pb, 0, pn, k_interval.as_slice()) {
            proof {
                assert(pb@ =~= kw_interval());
                assert(pb@ != kw_freq());
            }
            match parse_u64_digits(vb, 0, vn) {
                Some(v) => {
                    if v >= 1 {
                        self.interval = v;
                        Ok(())
                    } else {
                        Err(EventError::IntError)
                    }
                },
                None => Err(EventError::IntError),
            }
        } else if range_matches(pb, 0, pn, k_count.as_slice()) {
            proof {
                assert(pb@ =~= kw_count());
                assert(pb@ != kw_freq() && pb@ != kw_interval());
            }
            match parse_u64_digits(vb, 0, vn) {
                Some(v) => {
                    self.term = Termination::Count(v);
                    Ok(())
                },
                None => Err(EventError::IntError),
            }
        } else if range_matches(pb, 0, pn, k_until.as_slice()) {
            proof {
                assert(pb@ =~= kw_until());
                assert(pb@ != kw_freq() && pb@ != kw_interval() && pb@ != kw_count());
                reveal_strlit("");
                assert(""@ =~= Seq::<char>::empty());
            }
            match Date::parse_bytes(vb, "") {
                Ok(d) => {
                    self.term = Termination::Until(d);
                    Ok(())
                },
                Err(e) => Err(e),
            }
        } else if range_matches(pb, 0, pn, k_byday.as_slice()) {
            proof {
                assert(pb@ =~= kw_byday());
                assert(pb@ != kw_freq() && pb@ != kw_interval() && pb@ != kw_count() && pb@
                    != kw_until());
            }
            match parse_byday_list(vb) {
                Ok(v) => {
                    self.byday = v;
                    Ok(())
                },
                Err(e) => Err(e),
            }
        } else {
            proof {
                assert(pb@ == kw_freq() ==> range_is(pb@, 0, pn as int, k_freq@));
                assert(pb@ == kw_interval() ==> range_is(pb@, 0, pn as int, k_interval@));
                assert(pb@ == kw_count() ==> range_is(pb@, 0, pn as int, k_count@));
                assert(pb@ == kw_until() ==> range_is(pb@, 0, pn as int, k_until@));
                assert(pb@ == kw_byday() ==> range_is(pb@, 0, pn as int, k_byday@));
            }
            Ok(())
        }
    }
}

// ---------------------------------------------------------------------
// The occurrence generator.
// ---------------------------------------------------------------------

/// The days in the window `[lo, lo+n)` that satisfy `f`, ascending.
pub open spec fn sieve(f: spec_fn(int) -> bool, lo: int, n: nat) -> Seq<int>
    decreases n,
{
    if n == 0 {
        Seq::empty()
    } else {
        let rest = sieve(f, lo + 1, (n - 1) as nat);
        if f(lo) {
            seq![lo] + rest
        } else {
            rest
        }
    }
}

pub proof fn lemma_sieve_props(f: spec_fn(int) -> bool, lo: int, n: nat)
    ensures
        sieve(f, lo, n).len() <= n,
        forall|x: int|
            0 <= x < sieve(f, lo, n).len() ==> lo <= #[trigger] sieve(f, lo, n)[x] < lo + n && f(
                sieve(f, lo, n)[x],
            ),
        forall|x: int, y: int|
            0 <= x < y < sieve(f, lo, n).len() ==> sieve(f, lo, n)[x] < sieve(f, lo, n)[y],
    decreases n,
{
    if n > 0 {
        lemma_sieve_props(f, lo + 1, (n - 1) as nat);
    }
}

/// Extending the window by one day appends that day if it qualifies.
pub proof fn lemma_sieve_snoc(f: spec_fn(int) -> bool, lo: int, n: nat)
    ensures
        sieve(f, lo, (n + 1) as nat) == sieve(f, lo, n) + (if f(lo + n) {
            seq![lo + n]
        } else {
            Seq::<int>::empty()
        }),
    decreases n,
{
    if n == 0 {
        assert(sieve(f, lo, 1) =~= Seq::empty() + (if f(lo) {
            seq![lo]
        } else {
            Seq::<int>::empty()
        })) by {
            reveal_with_fuel(sieve, 3);
        }
    } else {
        lemma_sieve_snoc(f, lo + 1, (n - 1) as nat);
        if f(lo) {
            assert(seq![lo] + (sieve(f, lo + 1, (n - 1) as nat) + (if f(lo + n) {
                seq![lo + n]
            } else {
                Seq::<int>::empty()
            })) =~= (seq![lo] + sieve(f, lo + 1, (n - 1) as nat)) + (if f(lo + n) {
                seq![lo + n]
            } else {
                Seq::<int>::empty()
            }));
        }
    }
}

pub open spec fn in_day_range(d: int) -> bool {
    0 <= d < total_days()
}

/// Some selector names this weekday (its ordinal, if any, is ignored for
/// weekly rules).
pub open spec fn byday_has_weekday(s: Seq<ByDay>, w: int) -> bool {
    exists|i: int| 0 <= i < s.len() && weekday_num(#[trigger] s[i].weekday) == w
}

pub open spec fn ord_pos_match(o: Option<i32>, pos: int, endpos: int) -> bool {
    match o {
        None => true,
        Some(n) => if n > 0 {
            pos == n
        } else {
            endpos == -n
        },
    }
}

/// Some selector names this weekday and its position within the period,
/// counted in weeks from the period's start and from its end.
pub open spec fn byday_matches(s: Seq<ByDay>, w: int, pos: int, endpos: int) -> bool {
    exists|i: int|
        0 <= i < s.len() && weekday_num(#[trigger] s[i].weekday) == w && ord_pos_match(
            s[i].ord,
            pos,
            endpos,
        )
}

pub open spec fn in_range_pred() -> spec_fn(int) -> bool {
    |d: int| in_day_range(d)
}

pub open spec fn const_pred(b: bool) -> spec_fn(int) -> bool {
    |d: int| b
}

pub open spec fn weekly_pred(byday: Seq<ByDay>) -> spec_fn(int) -> bool {
    |d: int| in_day_range(d) && byday_has_weekday(byday, weekday_of_index(d))
}

pub open spec fn selector_pred(byday: Seq<ByDay>, first: int, last: int) -> spec_fn(int) -> bool {
    |d: int|
        byday_matches(byday, weekday_of_index(d), (d - first) / 7 + 1, (last - d) / 7 + 1)
}

pub open spec fn month_index(c: Civil) -> int {
    c.year * 12 + c.month - 1
}

/// The day indices of the rule's occurrences in its `k`-th period,
/// ascending. Daily and weekly rules step by days; monthly and yearly
/// rules step the month or year field, resolving weekday selectors within
/// the period, skipping a day the target period does not have, and ending
/// past the supported years.
pub open spec fn period_starts(p: PeriodicV, k: nat) -> Seq<int> {
    let seed = civil_part(p.event.start);
    let sd = day_index(seed);
    let iv = p.interval as int;
    match p.freq {
        Freq::Daily => sieve(in_range_pred(), sd + k * iv, 1),
        Freq::Weekly => {
            if p.byday.len() == 0 {
                sieve(in_range_pred(), sd + k * iv * 7, 1)
            } else {
                let base = sd - weekday_of_index(sd) + k * iv * 7;
                sieve(weekly_pred(p.byday), base, 7)
            }
        },
        Freq::Monthly => {
            let mi = month_index(seed) + k * iv;
            if mi < 120000 {
                let y = mi / 12;
                let m = mi % 12 + 1;
                let first = days_before_year(y) + days_before_month(y, m);
                let dim = days_in_month_of(y, m);
                if p.byday.len() == 0 {
                    sieve(const_pred(seed.day <= dim), first + seed.day - 1, 1)
                } else {
                    sieve(selector_pred(p.byday, first, first + dim - 1), first, dim as nat)
                }
            } else {
                Seq::empty()
            }
        },
        Freq::Yearly => {
            let y = seed.year + k * iv;
            if y <= 9999 {
                let first = days_before_year(y);
                let diy = days_in_year_of(y);
                if p.byday.len() == 0 {
                    let c = Civil { year: y as i32, month: seed.month, day: seed.day };
                    sieve(const_pred(valid_civil(c)), day_index(c), 1)
                } else {
                    sieve(selector_pred(p.byday, first, first + diy - 1), first, diy as nat)
                }
            } else {
                Seq::empty()
            }
        },
    }
}

/// A lower bound for the `k`-th period's days.
pub open spec fn period_lo(p: PeriodicV, k: nat) -> int {
    let seed = civil_part(p.event.start);
    let sd = day_index(seed);
    let iv = p.interval as int;
    match p.freq {
        Freq::Daily => sd + k * iv,
        Freq::Weekly => {
            if p.byday.len() == 0 {
                sd + k * iv * 7
            } else {
                sd - weekday_of_index(sd) + k * iv * 7
            }
        },
        Freq::Monthly => {
            let mi = month_index(seed) + k * iv;
            let y = mi / 12;
            let m = mi % 12 + 1;
            days_before_year(y) + days_before_month(y, m)
        },
        Freq::Yearly => days_before_year(seed.year + k * iv),
    }
}

/// An upper bound for the `k`-th period's days.
pub open spec fn period_hi(p: PeriodicV, k: nat) -> int {
    let seed = civil_part(p.event.start);
    let iv = p.interval as int;
    match p.freq {
        Freq::Daily => period_lo(p, k),
        Freq::Weekly => {
            if p.byday.len() == 0 {
                period_lo(p, k)
            } else {
                period_lo(p, k) + 6
            }
        },
        Freq::Monthly => {
            let mi = month_index(seed) + k * iv;
            let y = mi / 12;
            let m = mi % 12 + 1;
            period_lo(p, k) + days_in_month_of(y, m) - 1
        },
        Freq::Yearly => period_lo(p, k) + days_in_year_of(seed.year + k * iv) - 1,
    }
}

/// Every period's days lie between its bounds, inside the supported range,
/// strictly ascending.
pub proof fn lemma_period_elements(p: PeriodicV, k: nat)
    requires
        periodic_wf(p),
    ensures
        forall|x: int|
            0 <= x < period_starts(p, k).len() ==> period_lo(p, k) <= #[trigger] period_starts(
                p,
                k,
            )[x] <= period_hi(p, k) && in_day_range(period_starts(p, k)[x]),
        forall|x: int, y: int|
            0 <= x < y < period_starts(p, k).len() ==> period_starts(p, k)[x] < period_starts(
                p,
                k,
            )[y],
{
    let seed = civil_part(p.event.start);
    let sd = day_index(seed);
    let iv = p.interval as int;
    assert(valid_civil(seed)) by {
        match p.event.start {
            Date::Time(_) => {},
            Date::AllDay(_) => {},
        }
    }
    match p.freq {
        Freq::Daily => {
            lemma_sieve_props(in_range_pred(), sd + k * iv, 1);
        },
        Freq::Weekly => {
            if p.byday.len() == 0 {
                lemma_sieve_props(in_range_pred(), sd + k * iv * 7, 1);
            } else {
                lemma_sieve_props(weekly_pred(p.byday), sd - weekday_of_index(sd) + k * iv * 7, 7);
            }
        },
        Freq::Monthly => {
            let mi = month_index(seed) + k * iv;
            if mi < 120000 {
                let y = mi / 12;
                let m = mi % 12 + 1;
                let first = days_before_year(y) + days_before_month(y, m);
                let dim = days_in_month_of(y, m);
                assert(0 <= mi) by {
                    assert(month_index(seed) >= 0);
                    vstd::arithmetic::mul::lemma_mul_nonnegative(k as int, iv);
                }
                assert(0 <= y <= 9999 && 1 <= m <= 12) by {
                    vstd::arithmetic::div_mod::lemma_fundamental_div_mod(mi, 12);
                    vstd::arithmetic::div_mod::lemma_mod_division_less_than_divisor(mi, 12);
                    assert(y >= 0) by (nonlinear_arith)
                        requires 0 <= mi, y == mi / 12;
                    assert(y <= 9999) by (nonlinear_arith)
                        requires mi < 120000, 0 <= mi, y == mi / 12;
                }
                let lastc = Civil { year: y as i32, month: m as u32, day: dim as u32 };
                assert(valid_civil(lastc));
                lemma_day_index_range(lastc);
                assert(day_index(lastc) == first + dim - 1);
                assert(first >= 0) by {
                    lemma_days_before_year_bounds(y);
                    lemma_days_before_month_bounds(y, m);
                }
                if p.byday.len() == 0 {
                    lemma_sieve_props(const_pred(seed.day <= dim), first + seed.day - 1, 1);
                } else {
                    lemma_sieve_props(selector_pred(p.byday, first, first + dim - 1), first, dim as nat);
                }
            }
        },
        Freq::Yearly => {
            let y = seed.year + k * iv;
            assert(y >= seed.year) by {
                vstd::arithmetic::mul::lemma_mul_nonnegative(k as int, iv);
            }
            if y <= 9999 {
                let first = days_before_year(y);
                let diy = days_in_year_of(y);
                let lastc = Civil { year: y as i32, month: 12u32, day: 31u32 };
                assert(valid_civil(lastc));
                lemma_day_index_range(lastc);
                assert(day_index(lastc) == first + diy - 1) by {
                    lemma_year_days(y);
                    lemma_days_before_month_mono(y, 12, 13);
                    assert(days_before_month(y, 13) == days_before_month(y, 12)
                        + days_in_month_of(y, 12));
                }
                assert(first >= 0) by {
                    lemma_days_before_year_bounds(y);
                }
                if p.byday.len() == 0 {
                    let c = Civil { year: y as i32, month: seed.month, day: seed.day };
                    lemma_sieve_props(const_pred(valid_civil(c)), day_index(c), 1);
                    if valid_civil(c) {
                        lemma_day_index_range(c);
                        assert(day_index(c) >= first) by {
                            lemma_days_before_month_bounds(y, c.month as int);
                        }
                    }
                } else {
                    lemma_sieve_props(selector_pred(p.byday, first, first + diy - 1), first, diy as nat);
                }
            }
        },
    }
}

/// Periods come in strict order: every day of an earlier period is
/// earlier than every day of a later one.
pub proof fn lemma_period_step(p: PeriodicV, k: nat)
    requires
        periodic_wf(p),
    ensures
        period_lo(p, k) <= period_hi(p, k),
        period_hi(p, k) < period_lo(p, (k + 1) as nat),
{
    let seed = civil_part(p.event.start);
    let sd = day_index(seed);
    let iv = p.interval as int;
    assert((k + 1) * iv == k * iv + iv) by (nonlinear_arith);
    match p.freq {
        Freq::Daily => {},
        Freq::Weekly => {
            assert((k + 1) * iv * 7 == k * iv * 7 + iv * 7) by (nonlinear_arith);
        },
        Freq::Monthly => {
            let mi1 = month_index(seed) + k * iv;
            let mi2 = month_index(seed) + (k + 1) * iv;
            let y1 = mi1 / 12;
            let m1 = mi1 % 12 + 1;
            let y2 = mi2 / 12;
            let m2 = mi2 % 12 + 1;
            vstd::arithmetic::div_mod::lemma_fundamental_div_mod(mi1, 12);
            vstd::arithmetic::div_mod::lemma_mod_division_less_than_divisor(mi1, 12);
            vstd::arithmetic::div_mod::lemma_fundamental_div_mod(mi2, 12);
            vstd::arithmetic::div_mod::lemma_mod_division_less_than_divisor(mi2, 12);
            assert(mi1 < mi2);
            assert(y1 <= y2) by (nonlinear_arith)
                requires
                    mi1 < mi2,
                    y1 == mi1 / 12,
                    y2 == mi2 / 12,
            ;
            // within one month: days_before_month(y1, m1) + dim <= days_before_month(y1, m1 + 1)
            assert(days_before_month(y1, m1 + 1) == days_before_month(y1, m1) + days_in_month_of(
                y1,
                m1,
            ));
            if y1 == y2 {
                assert(m1 < m2);
                lemma_days_before_month_mono(y1, m1 + 1, m2);
                lemma_days_before_month_bounds(y1, m1);
            } else {
                lemma_days_before_month_mono(y1, m1 + 1, 13);
                lemma_year_days(y1);
                assert(days_before_year(y1 + 1) == days_before_year(y1) + days_in_year_of(y1));
                lemma_days_before_year_mono(y1 + 1, y2);
                lemma_days_before_month_bounds(y1, m1);
                lemma_days_before_month_bounds(y2, m2);
            }
        },
        Freq::Yearly => {
            let y1 = seed.year + k * iv;
            let y2 = seed.year + (k + 1) * iv;
            assert(days_before_year(y1 + 1) == days_before_year(y1) + days_in_year_of(y1));
            lemma_days_before_year_mono(y1 + 1, y2);
        },
    }
}

/// Bounds grow by at least one day per period.
pub proof fn lemma_period_lo_mono(p: PeriodicV, k1: nat, k2: nat)
    requires
        periodic_wf(p),
        k1 <= k2,
    ensures
        period_lo(p, k1) + (k2 - k1) <= period_lo(p, k2),
    decreases k2 - k1,
{
    if k1 < k2 {
        lemma_period_lo_mono(p, k1, (k2 - 1) as nat);
        lemma_period_step(p, (k2 - 1) as nat);
    }
}

pub open spec fn scan_budget() -> nat {
    48
}

/// The day of the `j`-th raw occurrence, scanning periods from `k` with
/// `budget` consecutive empty periods allowed before the stream ends.
pub open spec fn raw_from(p: PeriodicV, k: nat, budget: nat, j: nat) -> Option<int>
    decreases j, budget,
{
    let s = period_starts(p, k);
    if s.len() == 0 {
        if budget == 0 {
            None
        } else {
            raw_from(p, (k + 1) as nat, (budget - 1) as nat, j)
        }
    } else if j < s.len() {
        Some(s[j as int])
    } else {
        raw_from(p, (k + 1) as nat, scan_budget(), (j - s.len()) as nat)
    }
}

/// The day of the rule's `j`-th raw occurrence, before termination applies.
pub open spec fn raw(p: PeriodicV, j: nat) -> Option<int> {
    raw_from(p, 0, scan_budget(), j)
}

pub proof fn lemma_raw_from_lower(p: PeriodicV, k: nat, budget: nat, j: nat)
    requires
        periodic_wf(p),
    ensures
        raw_from(p, k, budget, j) matches Some(d) ==> period_lo(p, k) <= d && in_day_range(d),
    decreases j, budget,
{
    let s = period_starts(p, k);
    lemma_period_elements(p, k);
    if s.len() == 0 {
        if budget > 0 {
            lemma_raw_from_lower(p, (k + 1) as nat, (budget - 1) as nat, j);
            lemma_period_step(p, k);
        }
    } else if j < s.len() {
    } else {
        lemma_raw_from_lower(p, (k + 1) as nat, scan_budget(), (j - s.len()) as nat);
        lemma_period_step(p, k);
    }
}

/// The raw stream is strictly ascending, and defined on a prefix.
pub proof fn lemma_raw_from_mono(p: PeriodicV, k: nat, budget: nat, j1: nat, j2: nat)
    requires
        periodic_wf(p),
        j1 < j2,
        raw_from(p, k, budget, j2) is Some,
    ensures
        raw_from(p, k, budget, j1) is Some,
        raw_from(p, k, budget, j1)->Some_0 < raw_from(p, k, budget, j2)->Some_0,
    decreases j2, budget,
{
    let s = period_starts(p, k);
    lemma_period_elements(p, k);
    if s.len() == 0 {
        if budget > 0 {
            lemma_raw_from_mono(p, (k + 1) as nat, (budget - 1) as nat, j1, j2);
        }
    } else if j2 < s.len() {
    } else if j1 < s.len() {
        lemma_raw_from_lower(p, (k + 1) as nat, scan_budget(), (j2 - s.len()) as nat);
        lemma_period_step(p, k);
    } else {
        lemma_raw_from_mono(p, (k + 1) as nat, scan_budget(), (j1 - s.len()) as nat, (j2
            - s.len()) as nat);
    }
}

/// A raw occurrence's day is at least its position: the stream is finite.
pub proof fn lemma_raw_index_lower(p: PeriodicV, j: nat)
    requires
        periodic_wf(p),
        raw(p, j) is Some,
    ensures
        j <= raw(p, j)->Some_0 < total_days(),
    decreases j,
{
    lemma_raw_from_lower(p, 0, scan_budget(), j);
    if j > 0 {
        lemma_raw_from_mono(p, 0, scan_budget(), (j - 1) as nat, j);
        lemma_raw_index_lower(p, (j - 1) as nat);
    }
}

/// The duration every occurrence keeps: the template's own.
pub open spec fn template_duration(p: PeriodicV) -> int {
    date_sub(spec_end_date(p.event), p.event.start)
}

/// The occurrence on day `d`: the template, moved to that day, its end the
/// template's duration past the start.
pub open spec fn occurrence(p: PeriodicV, d: int) -> EventV {
    EventV {
        start: with_civil(p.event.start, civil_of(d)),
        end: End::Duration(Duration { seconds: template_duration(p) as i64 }),
        summary: p.event.summary,
        location: p.event.location,
        description: p.event.description,
        status: p.event.status,
    }
}

/// The rule's `j`-th occurrence: the raw stream, cut off by the
/// termination rule — after `Count(n)` occurrences, or at the first start
/// past an (inclusive) `Until` bound.
pub open spec fn occ(p: PeriodicV, j: nat) -> Option<EventV> {
    match raw(p, j) {
        None => None,
        Some(d) => {
            let e = occurrence(p, d);
            let pass = match p.term {
                Termination::Unbounded => true,
                Termination::Count(n) => j < n,
                Termination::Until(u) => date_le(e.start, u),
            };
            if pass {
                Some(e)
            } else {
                None
            }
        },
    }
}

pub open spec fn days_view(v: Seq<u32>) -> Seq<int> {
    v.map_values(|x: u32| x as int)
}

/// A generator in flight: the current period's days, the position within
/// them, and how many occurrences have been yielded.
pub struct PeriodicIter {
    pub rule: Periodic,
    pub k: u64,
    pub idx: usize,
    pub pending: Vec<u32>,
    pub budget: u8,
    pub emitted: u64,
    pub done: bool,
}

pub open spec fn wf_iter(it: PeriodicIter) -> bool {
    &&& periodic_wf(it.rule@)
    &&& it.emitted <= 3_660_000
    &&& if it.done {
        forall|j: nat| j >= it.emitted ==> #[trigger] occ(it.rule@, j) is None
    } else {
        &&& days_view(it.pending@) == period_starts(it.rule@, it.k as nat)
        &&& it.idx <= it.pending.len()
        &&& it.budget <= 48
        &&& it.k as int <= 3_660_010 + (48 - it.budget as int)
        &&& forall|j: nat|
            j >= it.emitted ==> #[trigger] raw(it.rule@, j) == raw_from(
                it.rule@,
                it.k as nat,
                it.budget as nat,
                (it.idx + (j - it.emitted)) as nat,
            )
    }
}

proof fn lemma_sieve_singleton(f: spec_fn(int) -> bool, lo: int)
    ensures
        sieve(f, lo, 1) == (if f(lo) {
            seq![lo]
        } else {
            Seq::<int>::empty()
        }),
{
    reveal_with_fuel(sieve, 3);
    if f(lo) {
        assert(sieve(f, lo, 1) =~= seq![lo]);
    } else {
        assert(sieve(f, lo, 1) =~= Seq::<int>::empty());
    }
}

fn empty_days() -> (r: Vec<u32>)
    ensures
        days_view(r@) == Seq::<int>::empty(),
{
    let r: Vec<u32> = Vec::new();
    proof {
        assert(days_view(r@) =~= Seq::<int>::empty());
    }
    r
}

fn one_day(d: u32) -> (r: Vec<u32>)
    ensures
        days_view(r@) == seq![d as int],
{
    let mut r: Vec<u32> = Vec::new();
    r.push(d);
    proof {
        assert(days_view(r@) =~= seq![d as int]);
    }
    r
}

/// The window day `t` as a one- or zero-day period, depending on range.
fn day_singleton(t: u64) -> (r: Vec<u32>)
    ensures
        days_view(r@) == sieve(in_range_pred(), t as int, 1),
{
    proof {
        lemma_sieve_singleton(in_range_pred(), t as int);
        lemma_days_before_year_bounds(10000);
    }
    if t <= 3_700_000 {
        match civil_from_day(t as u32) {
            Some(_) => one_day(t as u32),
            None => empty_days(),
        }
    } else {
        empty_days()
    }
}

fn weekday_code_num(w: Weekday) -> (r: u32)
    ensures
        r as int == weekday_num(w),
{
    match w {
        Weekday::Mon => 0,
        Weekday::Tue => 1,
        Weekday::Wed => 2,
        Weekday::Thu => 3,
        Weekday::Fri => 4,
        Weekday::Sat => 5,
        Weekday::Sun => 6,
    }
}

fn has_weekday(byday: &Vec<ByDay>, w: u32) -> (r: bool)
    ensures
        r == byday_has_weekday(byday@, w as int),
{
    let n = byday.len();
    let mut i: usize = 0;
    while i < n
        invariant
            0 <= i <= n == byday@.len(),
            forall|q: int| 0 <= q < i ==> weekday_num(#[trigger] byday@[q].weekday) != w as int,
        decreases n - i,
    {
        if weekday_code_num(byday[i].weekday) == w {
            return true;
        }
        i = i + 1;
    }
    false
}

fn matches_selectors(byday: &Vec<ByDay>, w: u32, pos: u32, endpos: u32) -> (r: bool)
    ensures
        r == byday_matches(byday@, w as int, pos as int, endpos as int),
{
    let n = byday.len();
    let mut i: usize = 0;
    while i < n
        invariant
            0 <= i <= n == byday@.len(),
            forall|q: int|
                0 <= q < i ==> !(weekday_num(#[trigger] byday@[q].weekday) == w as int
                    && ord_pos_match(byday@[q].ord, pos as int, endpos as int)),
        decreases n - i,
    {
        let bd = byday[i];
        if weekday_code_num(bd.weekday) == w {
            let ok = match bd.ord {
                None => true,
                Some(o) => {
                    if o > 0 {
                        pos as i64 == o as i64
                    } else {
                        endpos as i64 == -(o as i64)
                    }
                },
            };
            if ok {
                return true;
            }
        }
        i = i + 1;
    }
    false
}

/// Collects the days in `[first, first + n)` that match a selector,
/// positions counted within that window.
fn collect_selected(byday: &Vec<ByDay>, first: u32, n: u32) -> (r: Vec<u32>)
    requires
        1 <= n,
        first + n <= 4_000_000,
    ensures
        days_view(r@) == sieve(
            selector_pred(byday@, first as int, first as int + n - 1),
            first as int,
            n as nat,
        ),
{
    let ghost pred = selector_pred(byday@, first as int, first as int + n - 1);
    let mut out: Vec<u32> = Vec::new();
    let mut j: u32 = 0;
    proof {
        assert(days_view(out@) =~= sieve(pred, first as int, 0));
    }
    while j < n
        invariant
            1 <= n,
            first + n <= 4_000_000,
            0 <= j <= n,
            pred == selector_pred(byday@, first as int, first as int + n - 1),
            days_view(out@) == sieve(pred, first as int, j as nat),
        decreases n - j,
    {
        let d = first + j;
        let w = (d + 5) % 7;
        let pos = j / 7 + 1;
        let endpos = (n - 1 - j) / 7 + 1;
        let m = matches_selectors(byday, w, pos, endpos);
        proof {
            lemma_sieve_snoc(pred, first as int, j as nat);
            assert(pred(first as int + j) == byday_matches(
                byday@,
                weekday_of_index(d as int),
                (d as int - first as int) / 7 + 1,
                ((first as int + n - 1) - d as int) / 7 + 1,
            ));
            assert(weekday_of_index(d as int) == w as int);
            assert((d as int - first as int) / 7 + 1 == pos as int);
            assert(((first as int + n - 1) - d as int) / 7 + 1 == endpos as int);
            if m {
                assert(days_view(out@.push(d)) =~= days_view(out@) + seq![d as int]);
            }
        }
        if m {
            out.push(d);
        }
        j = j + 1;
    }
    out
}

/// Collects the selected weekdays of the week starting at `base`.
fn collect_weekly(byday: &Vec<ByDay>, base: i64) -> (r: Vec<u32>)
    requires
        -10 <= base <= 8_000_000,
    ensures
        days_view(r@) == sieve(weekly_pred(byday@), base as int, 7),
{
    let ghost pred = weekly_pred(byday@);
    proof {
        lemma_days_before_year_bounds(10000);
    }
    let mut out: Vec<u32> = Vec::new();
    let mut j: u32 = 0;
    proof {
        assert(days_view(out@) =~= sieve(pred, base as int, 0));
    }
    while j < 7
        invariant
            -10 <= base <= 8_000_000,
            0 <= j <= 7,
            pred == weekly_pred(byday@),
            total_days() <= 3_660_000,
            days_view(out@) == sieve(pred, base as int, j as nat),
        decreases 7 - j,
    {
        let d: i64 = base + j as i64;
        let mut keep: bool = false;
        if d >= 0 && d <= 3_700_000 {
            proof {
                lemma_days_before_year_bounds(10000);
            }
            match civil_from_day(d as u32) {
                Some(_) => {
                    let w = ((d as u32) + 5) % 7;
                    keep = has_weekday(byday, w);
                    proof {
                        assert(weekday_of_index(d as int) == w as int);
                    }
                },
                None => {},
            }
        }
        proof {
            lemma_sieve_snoc(pred, base as int, j as nat);
            assert(pred(base as int + j) == (in_day_range(d as int) && byday_has_weekday(
                byday@,
                weekday_of_index(d as int),
            )));
            if keep {
                assert(days_view(out@.push(d as u32)) =~= days_view(out@) + seq![d as int]);
            }
        }
        if keep {
            out.push(d as u32);
        }
        j = j + 1;
    }
    out
}

/// The day indices of the rule's `k`-th period, as `period_starts` states.
fn compute_period(rule: &Periodic, k: u64) -> (r: Vec<u32>)
    requires
        periodic_wf(rule@),
    ensures
        days_view(r@) == period_starts(rule@, k as nat),
{
    let seedc = rule.event.start.civil();
    let sd = day_number(&seedc);
    proof {
        lemma_days_before_year_bounds(10000);
        lemma_day_index_range(seedc);
    }
    match rule.freq {
        Freq::Daily => {
            let ghost lo = day_index(seedc) + (k as nat) * (rule.interval as int);
            proof {
                vstd::arithmetic::mul::lemma_mul_nonnegative(k as int, rule.interval as int);
            }
            match k.checked_mul(rule.interval) {
                Some(st) => match (sd as u64).checked_add(st) {
                    Some(t) => day_singleton(t),
                    None => {
                        proof {
                            lemma_sieve_singleton(in_range_pred(), lo);
                        }
                        empty_days()
                    },
                },
                None => {
                    proof {
                        lemma_sieve_singleton(in_range_pred(), lo);
                    }
                    empty_days()
                },
            }
        },
        Freq::Weekly => {
            if rule.byday.len() == 0 {
                let ghost lo = day_index(seedc) + (k as nat) * (rule.interval as int) * 7;
                proof {
                    vstd::arithmetic::mul::lemma_mul_nonnegative(k as int, rule.interval as int);
                    vstd::arithmetic::mul::lemma_mul_nonnegative(
                        (k as int) * (rule.interval as int),
                        7,
                    );
                }
                match k.checked_mul(rule.interval) {
                    Some(a) => match a.checked_mul(7) {
                        Some(st) => match (sd as u64).checked_add(st) {
                            Some(t) => day_singleton(t),
                            None => {
                                proof {
                                    lemma_sieve_singleton(in_range_pred(), lo);
                                }
                                empty_days()
                            },
                        },
                        None => {
                            proof {
                                lemma_sieve_singleton(in_range_pred(), lo);
                            }
                            empty_days()
                        },
                    },
                    None => {
                        proof {
                            lemma_sieve_singleton(in_range_pred(), lo);
                        }
                        empty_days()
                    },
                }
            } else {
                let wd = weekday_number(&seedc);
                let ghost base = day_index(seedc) - weekday_of_index(day_index(seedc)) + (k as nat)
                    * (rule.interval as int) * 7;
                proof {
                    vstd::arithmetic::mul::lemma_mul_nonnegative(k as int, rule.interval as int);
                    vstd::arithmetic::mul::lemma_mul_nonnegative(
                        (k as int) * (rule.interval as int),
                        7,
                    );
                }
                match k.checked_mul(rule.interval) {
                    Some(a) => match a.checked_mul(7) {
                        Some(st) => {
                            if st > 4_000_000 {
                                proof {
                                    lemma_sieve_empty_when_out(weekly_pred(rule@.byday), base, 7);
                                }
                                empty_days()
                            } else {
                                let b: i64 = sd as i64 - wd as i64 + st as i64;
                                collect_weekly(&rule.byday, b)
                            }
                        },
                        None => {
                            proof {
                                lemma_sieve_empty_when_out(weekly_pred(rule@.byday), base, 7);
                            }
                            empty_days()
                        },
                    },
                    None => {
                        proof {
                            lemma_sieve_empty_when_out(weekly_pred(rule@.byday), base, 7);
                        }
                        empty_days()
                    },
                }
            }
        },
        Freq::Monthly => {
            let mi0: u64 = (seedc.year as u64) * 12 + (seedc.month as u64) - 1;
            proof {
                vstd::arithmetic::mul::lemma_mul_nonnegative(k as int, rule.interval as int);
            }
            let mi = match k.checked_mul(rule.interval) {
                Some(st) => match mi0.checked_add(st) {
                    Some(x) => x,
                    None => {
                        return empty_days();
                    },
                },
                None => {
                    return empty_days();
                },
            };
            if mi >= 120000 {
                return empty_days();
            }
            let y: i32 = (mi / 12) as i32;
            let m: u32 = (mi % 12 + 1) as u32;
            proof {
                vstd::arithmetic::div_mod::lemma_fundamental_div_mod(mi as int, 12);
                vstd::arithmetic::div_mod::lemma_mod_division_less_than_divisor(mi as int, 12);
                assert(y as int == (mi as int) / 12 && y <= 9999) by (nonlinear_arith)
                    requires
                        mi < 120000,
                        0 <= mi,
                        y as int == (mi as u64 / 12u64) as int == (mi as int) / 12,
                ;
            }
            let firstc = Civil { year: y, month: m, day: 1 };
            let first = day_number(&firstc);
            let dim = days_in_month_num(y, m);
            proof {
                lemma_day_index_range(firstc);
            }
            if rule.byday.len() == 0 {
                proof {
                    lemma_sieve_singleton(
                        const_pred(seedc.day <= days_in_month_of(y as int, m as int)),
                        first as int + seedc.day - 1,
                    );
                }
                if seedc.day <= dim {
                    one_day(first + seedc.day - 1)
                } else {
                    empty_days()
                }
            } else {
                collect_selected(&rule.byday, first, dim)
            }
        },
        Freq::Yearly => {
            proof {
                vstd::arithmetic::mul::lemma_mul_nonnegative(k as int, rule.interval as int);
            }
            let yy = match k.checked_mul(rule.interval) {
                Some(st) => match (seedc.year as u64).checked_add(st) {
                    Some(x) => x,
                    None => {
                        return empty_days();
                    },
                },
                None => {
                    return empty_days();
                },
            };
            if yy > 9999 {
                return empty_days();
            }
            let y = yy as i32;
            if rule.byday.len() == 0 {
                let c = Civil { year: y, month: seedc.month, day: seedc.day };
                proof {
                    lemma_sieve_singleton(const_pred(valid_civil(c)), day_index(c));
                }
                if civil_is_valid(&c) {
                    one_day(day_number(&c))
                } else {
                    empty_days()
                }
            } else {
                let firstc = Civil { year: y, month: 1, day: 1 };
                let first = day_number(&firstc);
                proof {
                    lemma_day_index_range(firstc);
                }
                let diy: u32 = if is_leap_num(y) {
                    366
                } else {
                    365
                };
                collect_selected(&rule.byday, first, diy)
            }
        },
    }
}

/// A window past the supported range selects nothing.
proof fn lemma_sieve_empty_when_out(f: spec_fn(int) -> bool, lo: int, n: nat)
    requires
        forall|d: int| lo <= d < lo + n ==> !#[trigger] f(d),
    ensures
        sieve(f, lo, n) == Seq::<int>::empty(),
    decreases n,
{
    if n > 0 {
        lemma_sieve_empty_when_out(f, lo + 1, (n - 1) as nat);
        assert(sieve(f, lo, n) =~= Seq::<int>::empty());
    } else {
        assert(sieve(f, lo, n) =~= Seq::<int>::empty());
    }
}

fn copy_byday(v: &Vec<ByDay>) -> (r: Vec<ByDay>)
    ensures
        r@ == v@,
{
    let n = v.len();
    let mut r: Vec<ByDay> = Vec::new();
    let mut i: usize = 0;
    while i < n
        invariant
            0 <= i <= n == v@.len(),
            r@ == v@.subrange(0, i as int),
        decreases n - i,
    {
        r.push(v[i]);
        proof {
            assert(r@ =~= v@.subrange(0, i + 1));
        }
        i = i + 1;
    }
    proof {
        assert(v@.subrange(0, n as int) =~= v@);
    }
    r
}

impl Periodic {
    /// A fresh generator for this rule's occurrence stream; the rule is
    /// not consumed and a later call starts the stream over.
    pub fn produce(&self) -> (it: PeriodicIter)
        requires
            periodic_wf(self@),
        ensures
            wf_iter(it),
            it.rule@ == self@,
            it.emitted == 0,
    {
        let rule = Periodic {
            freq: self.freq,
            interval: self.interval,
            term: self.term,
            byday: copy_byday(&self.byday),
            event: self.event.duplicate(),
        };
        let pending = compute_period(&rule, 0);
        PeriodicIter { rule, k: 0, idx: 0, pending, budget: 48, emitted: 0, done: false }
    }
}

impl PeriodicIter {
    /// Yields the next occurrence of the rule, in ascending order:
    /// exactly the stream that `occ` states, one position per call.
    pub fn next(&mut self) -> (r: Option<Event>)
        requires
            wf_iter(*old(self)),
        ensures
            wf_iter(*final(self)),
            final(self).rule@ == old(self).rule@,
            match r {
                Some(e) => occ(old(self).rule@, old(self).emitted as nat) == Some(e@)
                    && final(self).emitted == old(self).emitted + 1,
                None => occ(old(self).rule@, old(self).emitted as nat) is None
                    && final(self).emitted == old(self).emitted,
            },
    {
        let ghost p = self.rule@;
        loop
            invariant
                wf_iter(*self),
                self.rule@ == old(self).rule@,
                self.rule@ == p,
                self.emitted == old(self).emitted,
            decreases (if !self.done && self.idx == self.pending.len() && self.pending.len() > 0 {
                1int
            } else {
                0int
            }), (if self.done {
                0int
            } else {
                self.budget as int + 1
            }),
        {
            if self.done {
                return None;
            }
            let len = self.pending.len();
            if self.idx < len {
                let d = self.pending[self.idx];
                proof {
                    lemma_days_before_year_bounds(10000);
                    lemma_period_elements(p, self.k as nat);
                    assert(days_view(self.pending@)[self.idx as int] == d as int);
                    assert(raw(p, self.emitted as nat) == Some(d as int));
                    lemma_raw_index_lower(p, self.emitted as nat);
                }
                // the occurrence's start
                let startd = self.rule.event.start.with_day_number(d);
                proof {
                    lemma_occurrence_start(p, d as int);
                }
                match self.rule.term {
                    Termination::Count(n) => {
                        if self.emitted >= n {
                            proof {
                                let em = self.emitted as nat;
                                assert forall|j: nat| j >= em implies #[trigger] occ(p, j)
                                    is None by {
                                    assert(j >= n);
                                }
                            }
                            self.done = true;
                            return None;
                        }
                    },
                    Termination::Until(u) => {
                        let cmp = startd.compare(&u);
                        if matches!(cmp, core::cmp::Ordering::Greater) {
                            proof {
                                lemma_past_until(p, self.emitted as nat, d as int, u);
                            }
                            self.done = true;
                            return None;
                        }
                    },
                    Termination::Unbounded => {},
                }
                let dur = self.rule.event.end_date().sub_date(&self.rule.event.start);
                let mut e = self.rule.event.duplicate();
                e.start = startd;
                e.end = End::Duration(dur);
                proof {
                    assert(e@ == occurrence(p, d as int));
                    let em = self.emitted as nat;
                    let kk = self.k as nat;
                    let bb = self.budget as nat;
                    let ii = self.idx as nat;
                    assert forall|j: nat| j >= em + 1 implies #[trigger] raw(p, j) == raw_from(
                        p,
                        kk,
                        bb,
                        ((ii + 1) + (j - (em + 1))) as nat,
                    ) by {
                        assert(raw(p, j) == raw_from(p, kk, bb, (ii + (j - em)) as nat));
                        assert(((ii + 1) + (j - (em + 1))) as nat == (ii + (j - em)) as nat);
                    }
                }
                self.idx = self.idx + 1;
                self.emitted = self.emitted + 1;
                return Some(e);
            }
            // the period is exhausted or empty
            if len > 0 {
                proof {
                    lemma_days_before_year_bounds(10000);
                    lemma_period_elements(p, self.k as nat);
                    lemma_period_lo_mono(p, 0, self.k as nat);
                    lemma_period_lo_zero(p);
                    assert(period_lo(p, self.k as nat) <= days_view(self.pending@)[0]);
                    let em = self.emitted as nat;
                    let kk = self.k as nat;
                    let bb = self.budget as nat;
                    let ii = self.idx as nat;
                    let sl = period_starts(p, kk).len();
                    assert(ii == sl);
                    assert forall|j: nat| j >= em implies #[trigger] raw(p, j) == raw_from(
                        p,
                        (kk + 1) as nat,
                        scan_budget(),
                        (j - em) as nat,
                    ) by {
                        assert(raw(p, j) == raw_from(p, kk, bb, (ii + (j - em)) as nat));
                        assert(raw_from(p, kk, bb, (ii + (j - em)) as nat) == raw_from(
                            p,
                            (kk + 1) as nat,
                            scan_budget(),
                            ((ii + (j - em)) - sl) as nat,
                        ));
                    }
                }
                self.k = self.k + 1;
                self.budget = 48;
                self.idx = 0;
                let np = compute_period(&self.rule, self.k);
                self.pending = np;
            } else {
                if self.budget == 0 {
                    proof {
                        let em = self.emitted as nat;
                        let kk = self.k as nat;
                        let ii = self.idx as nat;
                        assert forall|j: nat| j >= em implies #[trigger] occ(p, j) is None by {
                            assert(raw(p, j) == raw_from(p, kk, 0, (ii + (j - em)) as nat));
                            assert(raw_from(p, kk, 0, (ii + (j - em)) as nat) is None);
                        }
                    }
                    self.done = true;
                    return None;
                }
                proof {
                    let em = self.emitted as nat;
                    let kk = self.k as nat;
                    let bb = self.budget as nat;
                    let ii = self.idx as nat;
                    assert forall|j: nat| j >= em implies #[trigger] raw(p, j) == raw_from(
                        p,
                        (kk + 1) as nat,
                        (bb - 1) as nat,
                        (j - em) as nat,
                    ) by {
                        assert(raw(p, j) == raw_from(p, kk, bb, (ii + (j - em)) as nat));
                        assert(ii == 0);
                        assert(raw_from(p, kk, bb, (ii + (j - em)) as nat) == raw_from(
                            p,
                            (kk + 1) as nat,
                            (bb - 1) as nat,
                            (ii + (j - em)) as nat,
                        ));
                    }
                }
                self.budget = self.budget - 1;
                self.k = self.k + 1;
                let np = compute_period(&self.rule, self.k);
                self.pending = np;
            }
        }
    }
}

/// The start of the occurrence on day `d` sits on that day, with the
/// template's variant and time of day.
proof fn lemma_occurrence_start(p: PeriodicV, d: int)
    requires
        periodic_wf(p),
        in_day_range(d),
    ensures
        day_of(occurrence(p, d).start) == d,
        date_wf(occurrence(p, d).start),
        occurrence(p, d).end == End::Duration(
            Duration { seconds: template_duration(p) as i64 },
        ),
{
    crate::civil::lemma_civil_of_inverse(d);
}

/// Once a start passes the `Until` bound, every later one does too.
proof fn lemma_past_until(p: PeriodicV, j0: nat, d0: int, u: Date)
    requires
        periodic_wf(p),
        p.term == Termination::Until(u),
        raw(p, j0) == Some(d0),
        date_lt(u, occurrence(p, d0).start),
    ensures
        forall|j: nat| j >= j0 ==> #[trigger] occ(p, j) is None,
{
    assert forall|j: nat| j >= j0 implies #[trigger] occ(p, j) is None by {
        match raw(p, j) {
            None => {},
            Some(d) => {
                lemma_raw_from_lower(p, 0, scan_budget(), j);
                lemma_raw_from_lower(p, 0, scan_budget(), j0);
                lemma_occurrence_start(p, d);
                lemma_occurrence_start(p, d0);
                if j > j0 {
                    lemma_raw_from_mono(p, 0, scan_budget(), j0, j);
                }
                // d >= d0, so the start is no earlier
                assert(!date_lt(occurrence(p, d).start, occurrence(p, d0).start));
                crate::date::lemma_date_order_trans(
                    u,
                    occurrence(p, d0).start,
                    occurrence(p, d).start,
                );
                assert(date_lt(u, occurrence(p, d).start));
            },
        }
    }
}

/// Every occurrence of a well-formed rule is a well-formed event.
pub proof fn lemma_occ_wf(p: PeriodicV, j: nat)
    requires
        periodic_wf(p),
    ensures
        occ(p, j) matches Some(e) ==> event_wf(e),
{
    if occ(p, j) is Some {
        lemma_raw_from_lower(p, 0, scan_budget(), j);
        match raw(p, j) {
            Some(d) => {
                lemma_occurrence_start(p, d);
            },
            None => {},
        }
    }
}

/// Within one rule the occurrences come in event order: the starts never
/// decrease, and each occurrence keeps the template's duration.
pub proof fn lemma_occ_monotone(p: PeriodicV, j1: nat, j2: nat)
    requires
        periodic_wf(p),
        j1 <= j2,
        occ(p, j1) is Some,
        occ(p, j2) is Some,
    ensures
        event_le(occ(p, j1)->Some_0, occ(p, j2)->Some_0),
{
    let d1 = raw(p, j1)->Some_0;
    let d2 = raw(p, j2)->Some_0;
    lemma_raw_from_lower(p, 0, scan_budget(), j1);
    lemma_raw_from_lower(p, 0, scan_budget(), j2);
    lemma_occurrence_start(p, d1);
    lemma_occurrence_start(p, d2);
    if j1 < j2 {
        lemma_raw_from_mono(p, 0, scan_budget(), j1, j2);
    }
}

// ---------------------------------------------------------------------
// Laws of the generator.
// ---------------------------------------------------------------------

/// Days per period of a rule that makes one occurrence per period.
pub open spec fn step_days(p: PeriodicV) -> int {
    match p.freq {
        Freq::Daily => p.interval as int,
        Freq::Weekly => p.interval as int * 7,
        _ => 0,
    }
}

/// For daily and plain weekly rules, the raw stream is the seed's day
/// stepped one period at a time, for as long as it stays in range.
proof fn lemma_raw_single(p: PeriodicV, k: nat, b: nat, j: nat)
    requires
        periodic_wf(p),
        p.freq == Freq::Daily || (p.freq == Freq::Weekly && p.byday.len() == 0),
    ensures
        raw_from(p, k, b, j) == (if day_of(p.event.start) + (k + j) * step_days(p) < total_days() {
            Some(day_of(p.event.start) + (k + j) * step_days(p))
        } else {
            None::<int>
        }),
    decreases j, b,
{
    let sd = day_of(p.event.start);
    let st = step_days(p);
    let iv = p.interval as int;
    assert(st >= 1) by (nonlinear_arith)
        requires
            iv >= 1,
            st == iv || st == iv * 7,
    ;
    assert(k * iv * 7 == k * (iv * 7)) by (nonlinear_arith);
    let lo = sd + k * st;
    assert(period_starts(p, k) == sieve(in_range_pred(), lo, 1));
    lemma_sieve_singleton(in_range_pred(), lo);
    vstd::arithmetic::mul::lemma_mul_nonnegative(k as int, st);
    assert(valid_civil(civil_part(p.event.start))) by {
        match p.event.start {
            Date::Time(_) => {},
            Date::AllDay(_) => {},
        }
    }
    lemma_day_index_range(civil_part(p.event.start));
    assert((k + j) * st >= k * st && (k + j) * st >= j * st) by (nonlinear_arith)
        requires
            st >= 1,
    ;
    if !in_day_range(lo) {
        // past the range: every later period is too
        if b > 0 {
            lemma_raw_single(p, (k + 1) as nat, (b - 1) as nat, j);
            assert((k + 1 + j) * st >= k * st) by (nonlinear_arith)
                requires
                    st >= 1,
            ;
        }
    } else {
        if j == 0 {
            assert((k + 0) * st == k * st);
        } else {
            lemma_raw_single(p, (k + 1) as nat, scan_budget(), (j - 1) as nat);
            assert(((k + 1) + (j - 1)) * st == (k + j) * st);
        }
    }
}

/// Law: a daily rule with interval one and a count of five, starting on
/// day `D`, yields exactly the occurrences on `D`, `D+1`, ..., `D+4`, in
/// order, each keeping the template's duration, and nothing after them.
pub proof fn lemma_daily_count_five(p: PeriodicV, j: nat)
    requires
        periodic_wf(p),
        p.freq == Freq::Daily,
        p.interval == 1,
        p.term == Termination::Count(5),
        day_of(p.event.start) + 4 < total_days(),
    ensures
        j < 5 ==> occ(p, j) == Some(occurrence(p, day_of(p.event.start) + j)),
        j < 5 ==> day_of(occ(p, j)->Some_0.start) == day_of(p.event.start) + j,
        j < 5 ==> occ(p, j)->Some_0.end == End::Duration(
            Duration { seconds: template_duration(p) as i64 },
        ),
        j >= 5 ==> occ(p, j) is None,
{
    if j < 5 {
        lemma_raw_single(p, 0, scan_budget(), j);
        assert((0 + j) * step_days(p) == j) by (nonlinear_arith)
            requires
                step_days(p) == 1,
        ;
        assert(valid_civil(civil_part(p.event.start))) by {
            match p.event.start {
                Date::Time(_) => {},
                Date::AllDay(_) => {},
            }
        }
        lemma_day_index_range(civil_part(p.event.start));
        lemma_occurrence_start(p, day_of(p.event.start) + j);
    }
}

/// Law: a plain weekly rule bounded by `Until` at the seed's own start
/// yields exactly the seed occurrence; with a bound strictly before the
/// seed's start it yields nothing at all.
pub proof fn lemma_weekly_until_boundary(p: PeriodicV, j: nat, u: Date)
    requires
        periodic_wf(p),
        p.freq == Freq::Weekly,
        p.byday.len() == 0,
        p.term == Termination::Until(u),
    ensures
        u == p.event.start && j == 0 ==> occ(p, 0) == Some(
            occurrence(p, day_of(p.event.start)),
        ) && occ(p, 0)->Some_0.start == p.event.start,
        u == p.event.start && j >= 1 ==> occ(p, j) is None,
        date_lt(u, p.event.start) ==> occ(p, j) is None,
{
    let sd = day_of(p.event.start);
    let st = step_days(p);
    assert(st >= 1) by (nonlinear_arith)
        requires
            p.interval >= 1,
            st == p.interval as int * 7,
    ;
    assert(valid_civil(civil_part(p.event.start))) by {
        match p.event.start {
            Date::Time(_) => {},
            Date::AllDay(_) => {},
        }
    }
    lemma_day_index_range(civil_part(p.event.start));
    lemma_raw_single(p, 0, scan_budget(), j);
    lemma_raw_single(p, 0, scan_budget(), 0);
    assert((0 + 0) * st == 0);
    // the seed occurrence is the seed itself
    lemma_occurrence_start(p, sd);
    crate::civil::lemma_civil_of_inverse(sd);
    crate::civil::lemma_day_index_injective(civil_of(sd), civil_part(p.event.start));
    assert(occurrence(p, sd).start == p.event.start);
    if j >= 1 {
        assert((0 + j) * st >= 1 * st) by (nonlinear_arith)
            requires
                st >= 1,
                j >= 1,
        ;
    }
    match raw(p, j) {
        Some(d) => {
            assert(d == sd + (0 + j) * st);
            lemma_occurrence_start(p, d);
            if date_lt(u, p.event.start) {
                assert(sd + (0 + j) * st >= sd) by (nonlinear_arith)
                    requires
                        st >= 1,
                ;
                if d > sd {
                    assert(date_lt(occurrence(p, sd).start, occurrence(p, d).start));
                }
                crate::date::lemma_date_order_trans(
                    u,
                    occurrence(p, sd).start,
                    occurrence(p, d).start,
                );
            }
        },
        None => {},
    }
}

/// The Monday beginning the seed's week.
pub open spec fn seed_monday(p: PeriodicV) -> int {
    day_of(p.event.start) - weekday_of_index(day_of(p.event.start))
}

/// The Monday beginning the week of period `k` of a weekly rule.
pub open spec fn week_base(p: PeriodicV, k: nat) -> int {
    seed_monday(p) + k * (p.interval as int) * 7
}

/// The selector list Monday, Wednesday, Friday.
pub open spec fn mon_wed_fri() -> Seq<ByDay> {
    seq![
        ByDay { ord: None, weekday: Weekday::Mon },
        ByDay { ord: None, weekday: Weekday::Wed },
        ByDay { ord: None, weekday: Weekday::Fri },
    ]
}

/// A week of a Monday/Wednesday/Friday rule that lies in the supported
/// range contributes exactly those three days, ascending.
proof fn lemma_weekly3_period(p: PeriodicV, k: nat)
    requires
        periodic_wf(p),
        p.freq == Freq::Weekly,
        p.byday == mon_wed_fri(),
        0 <= week_base(p, k),
        week_base(p, k) + 6 < total_days(),
    ensures
        period_starts(p, k) == seq![week_base(p, k), week_base(p, k) + 2, week_base(p, k) + 4],
{
    let sd = day_of(p.event.start);
    let base = week_base(p, k);
    let f = weekly_pred(p.byday);
    assert(period_starts(p, k) == sieve(f, base, 7));
    assert(valid_civil(civil_part(p.event.start))) by {
        match p.event.start {
            Date::Time(_) => {},
            Date::AllDay(_) => {},
        }
    }
    lemma_day_index_range(civil_part(p.event.start));
    let m = (k as int) * (p.interval as int);
    assert(base == sd - ((sd + 5) % 7) + m * 7) by (nonlinear_arith)
        requires
            base == sd - ((sd + 5) % 7) + (k as int) * (p.interval as int) * 7,
            m == (k as int) * (p.interval as int),
    ;
    assert((base + 5) % 7 == 0 && (base + 1 + 5) % 7 == 1 && (base + 2 + 5) % 7 == 2 && (base + 3
        + 5) % 7 == 3 && (base + 4 + 5) % 7 == 4 && (base + 5 + 5) % 7 == 5 && (base + 6 + 5) % 7
        == 6) by (nonlinear_arith)
        requires
            base == sd - ((sd + 5) % 7) + m * 7,
            sd >= 0,
            base >= 0,
    ;
    assert(weekday_num(p.byday[0].weekday) == 0);
    assert(weekday_num(p.byday[1].weekday) == 2);
    assert(weekday_num(p.byday[2].weekday) == 4);
    assert(byday_has_weekday(p.byday, 0));
    assert(byday_has_weekday(p.byday, 2));
    assert(byday_has_weekday(p.byday, 4));
    assert(!byday_has_weekday(p.byday, 1) && !byday_has_weekday(p.byday, 3) && !byday_has_weekday(
        p.byday,
        5,
    ) && !byday_has_weekday(p.byday, 6)) by {
        assert(p.byday.len() == 3);
    }
    assert(f(base) && !f(base + 1) && f(base + 2) && !f(base + 3) && f(base + 4) && !f(base + 5)
        && !f(base + 6)) by {
        assert(in_day_range(base) && in_day_range(base + 2) && in_day_range(base + 4));
        assert(weekday_of_index(base) == 0 && weekday_of_index(base + 1) == 1 && weekday_of_index(
            base + 2,
        ) == 2 && weekday_of_index(base + 3) == 3 && weekday_of_index(base + 4) == 4
            && weekday_of_index(base + 5) == 5 && weekday_of_index(base + 6) == 6);
    }
    assert(sieve(f, base, 7) =~= seq![base, base + 2, base + 4]) by {
        reveal_with_fuel(sieve, 9);
    }
}

/// The raw stream of a Monday/Wednesday/Friday weekly rule: three days per
/// week, for as long as the weeks stay in the supported range.
proof fn lemma_raw_weekly3(p: PeriodicV, k: nat, b: nat, j: nat)
    requires
        periodic_wf(p),
        p.freq == Freq::Weekly,
        p.byday == mon_wed_fri(),
        0 <= week_base(p, k),
        week_base(p, (k + j / 3) as nat) + 6 < total_days(),
    ensures
        raw_from(p, k, b, j) == Some(week_base(p, (k + j / 3) as nat) + 2 * (j % 3)),
    decreases j,
{
    let iv = p.interval as int;
    assert(iv * 7 >= 7) by (nonlinear_arith)
        requires
            iv >= 1,
    ;
    assert(week_base(p, (k + 1) as nat) == week_base(p, k) + iv * 7) by (nonlinear_arith)
        requires
            week_base(p, (k + 1) as nat) - seed_monday(p) == ((k + 1) as int) * iv * 7,
            week_base(p, k) - seed_monday(p) == (k as int) * iv * 7,
    ;
    if j < 3 {
        assert(k + j / 3 == k) by {
            assert(j / 3 == 0);
        }
        lemma_weekly3_period(p, k);
        assert(raw_from(p, k, b, j) == Some(week_base(p, k) + 2 * (j % 3))) by {
            assert(period_starts(p, k).len() == 3);
            assert(period_starts(p, k)[j as int] == week_base(p, k) + 2 * j);
            assert(j % 3 == j);
        }
    } else {
        assert((j - 3) / 3 == j / 3 - 1 && (j - 3) % 3 == j % 3) by (nonlinear_arith)
            requires
                j >= 3,
        ;
        assert(k + 1 + (j - 3) / 3 == k + j / 3);
        assert(week_base(p, (k + j / 3) as nat) >= week_base(p, (k + 1) as nat)) by {
            lemma_period_lo_mono(p, (k + 1) as nat, (k + j / 3) as nat);
            assert(period_lo(p, (k + 1) as nat) == week_base(p, (k + 1) as nat));
            assert(period_lo(p, (k + j / 3) as nat) == week_base(p, (k + j / 3) as nat));
        }
        lemma_raw_weekly3(p, (k + 1) as nat, scan_budget(), (j - 3) as nat);
        lemma_weekly3_period(p, k);
        assert(period_starts(p, k).len() == 3);
    }
}

/// Law: within the supported years a Monday/Wednesday/Friday weekly rule
/// with no termination never ends: every position whose week lies in range
/// is an occurrence, three per week in ascending weekday order.
pub proof fn lemma_weekly_byday_endless(p: PeriodicV, j: nat)
    requires
        periodic_wf(p),
        p.freq == Freq::Weekly,
        p.term == Termination::Unbounded,
        p.byday == mon_wed_fri(),
        0 <= seed_monday(p),
        week_base(p, (j / 3) as nat) + 6 < total_days(),
    ensures
        occ(p, j) == Some(occurrence(p, week_base(p, (j / 3) as nat) + 2 * (j % 3))),
{
    assert(week_base(p, 0) == seed_monday(p)) by (nonlinear_arith)
        requires
            week_base(p, 0) - seed_monday(p) == 0int * (p.interval as int) * 7,
    ;
    lemma_raw_weekly3(p, 0, scan_budget(), j);
    assert(0 + j / 3 == j / 3);
}

/// Law: a weekly rule selecting Monday, Wednesday and Friday, with no
/// termination, yields as its first three occurrences the Monday, the
/// Wednesday and the Friday of the seed's own week, in that order,
/// whichever weekday the seed's start is on.
pub proof fn lemma_weekly_byday_first_week(p: PeriodicV, j: nat)
    requires
        periodic_wf(p),
        p.freq == Freq::Weekly,
        p.term == Termination::Unbounded,
        p.byday == mon_wed_fri(),
        0 <= seed_monday(p),
        seed_monday(p) + 6 < total_days(),
        j < 3,
    ensures
        occ(p, j) == Some(occurrence(p, seed_monday(p) + 2 * j)),
        weekday_of_index(day_of(occ(p, j)->Some_0.start)) == 2 * j,
{
    let sd = day_of(p.event.start);
    let base = seed_monday(p);
    assert(week_base(p, 0) == base) by (nonlinear_arith)
        requires
            week_base(p, 0) - base == 0int * (p.interval as int) * 7,
    ;
    assert(j / 3 == 0 && j % 3 == j);
    lemma_raw_weekly3(p, 0, scan_budget(), j);
    assert(valid_civil(civil_part(p.event.start))) by {
        match p.event.start {
            Date::Time(_) => {},
            Date::AllDay(_) => {},
        }
    }
    lemma_day_index_range(civil_part(p.event.start));
    lemma_occurrence_start(p, base + 2 * j);
    assert((base + 2 * j + 5) % 7 == 2 * j) by (nonlinear_arith)
        requires
            base == sd - ((sd + 5) % 7),
            0 <= j < 3,
            sd >= 0,
            base >= 0,
    ;
}

/// The first period starts no more than a week before the seed.
proof fn lemma_period_lo_zero(p: PeriodicV)
    requires
        periodic_wf(p),
    ensures
        period_lo(p, 0) >= -6,
{
    let seed = civil_part(p.event.start);
    let iv = p.interval as int;
    assert(0 * iv == 0) by (nonlinear_arith);
    assert(valid_civil(seed)) by {
        match p.event.start {
            Date::Time(_) => {},
            Date::AllDay(_) => {},
        }
    }
    lemma_day_index_range(seed);
    match p.freq {
        Freq::Daily => {},
        Freq::Weekly => {},
        Freq::Monthly => {
            let mi = month_index(seed);
            vstd::arithmetic::div_mod::lemma_fundamental_div_mod(mi, 12);
            vstd::arithmetic::div_mod::lemma_mod_division_less_than_divisor(mi, 12);
            assert(mi / 12 >= 0) by (nonlinear_arith)
                requires
                    mi >= 0,
            ;
            lemma_days_before_year_bounds(mi / 12);
            lemma_days_before_month_bounds(mi / 12, mi % 12 + 1);
        },
        Freq::Yearly => {
            lemma_days_before_year_bounds(seed.year as int);
        },
    }
}

} // verus!
