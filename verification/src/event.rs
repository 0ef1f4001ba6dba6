use vstd::prelude::*;

use crate::date::{
    date_cmp_spec, date_le, date_lt, date_wf, epoch_date, lemma_date_order_trans,
    spec_add_duration, Date, Duration,
};
use crate::errors::EventError;
use crate::text::{range_is, range_matches};
use core::cmp::Ordering;
use vstd::string::StringSliceAdditionalSpecFns;

verus! {

/// The lifecycle of an event; invalid status text is a hard parse error.
#[derive(Debug, Clone, Copy, PartialEq, Eq, Structural)]
pub enum Status {
    Confirmed,
    Tentative,
    Canceled,
}

/// How an event ends: at an absolute date, or a duration past its start.
#[derive(Debug, Clone, Copy, PartialEq, Eq, Structural)]
pub enum End {
    Date(Date),
    Duration(Duration),
}

/// One concrete occurrence: a temporal extent with descriptive fields.
#[derive(Debug, Clone, PartialEq, Eq)]
pub struct Event {
    pub start: Date,
    pub end: End,
    pub summary: String,
    pub location: String,
    pub description: String,
    pub status: Status,
}

/// The mathematical value of an event: its strings as character sequences.
pub ghost struct EventV {
    pub start: Date,
    pub end: End,
    pub summary: Seq<char>,
    pub location: Seq<char>,
    pub description: Seq<char>,
    pub status: Status,
}

impl View for Event {
    type V = EventV;

    open spec fn view(&self) -> EventV {
        EventV {
            start: self.start,
            end: self.end,
            summary: self.summary@,
            location: self.location@,
            description: self.description@,
            status: self.status,
        }
    }
}

pub open spec fn event_wf(e: EventV) -> bool {
    &&& date_wf(e.start)
    &&& match e.end {
        End::Date(d) => date_wf(d),
        End::Duration(_) => true,
    }
}

/// The effective end: the absolute end if present, else start plus duration.
pub open spec fn spec_end_date(e: EventV) -> Date {
    match e.end {
        End::Date(d) => d,
        End::Duration(du) => spec_add_duration(e.start, du.seconds as int),
    }
}

/// The event order: by start, ties broken by the effective end.
pub open spec fn event_cmp_spec(a: EventV, b: EventV) -> Ordering {
    if date_lt(a.start, b.start) {
        Ordering::Less
    } else if date_lt(b.start, a.start) {
        Ordering::Greater
    } else {
        date_cmp_spec(spec_end_date(a), spec_end_date(b))
    }
}

pub open spec fn event_le(a: EventV, b: EventV) -> bool {
    ||| date_lt(a.start, b.start)
    ||| (!date_lt(a.start, b.start) && !date_lt(b.start, a.start) && date_le(
        spec_end_date(a),
        spec_end_date(b),
    ))
}

pub open spec fn event_cmp_total(a: EventV, b: EventV) -> Ordering {
    if event_wf(a) && event_wf(b) {
        event_cmp_spec(a, b)
    } else {
        Ordering::Equal
    }
}

/// The event order is a total preorder.
pub proof fn lemma_event_le_total(a: EventV, b: EventV)
    ensures
        event_le(a, b) || event_le(b, a),
        event_le(a, b) <==> event_cmp_spec(a, b) != Ordering::Greater,
{
}

pub proof fn lemma_event_le_trans(a: EventV, b: EventV, c: EventV)
    requires
        event_le(a, b),
        event_le(b, c),
    ensures
        event_le(a, c),
{
    lemma_date_order_trans(a.start, b.start, c.start);
    lemma_date_order_trans(spec_end_date(a), spec_end_date(b), spec_end_date(c));
}

/// The empty event: epoch extent, empty strings, confirmed.
pub open spec fn empty_event() -> EventV {
    EventV {
        start: epoch_date(),
        end: End::Date(epoch_date()),
        summary: Seq::<char>::empty(),
        location: Seq::<char>::empty(),
        description: Seq::<char>::empty(),
        status: Status::Confirmed,
    }
}

impl Event {
    /// The empty event: epoch extent, empty strings, confirmed.
    pub fn new() -> (r: Event)
        ensures
            r@ == empty_event(),
            event_wf(r@),
    {
        Event {
            summary: String::new(),
            location: String::new(),
            description: String::new(),
            status: Status::Confirmed,
            start: Date::new(),
            end: End::Date(Date::new()),
        }
    }

    /// The effective end of the event.
    pub fn end_date(&self) -> (r: Date)
        requires
            event_wf(self@),
        ensures
            r == spec_end_date(self@),
            date_wf(r),
    {
        match &self.end {
            End::Date(d) => *d,
            End::Duration(du) => self.start.add_duration(*du),
        }
    }

    pub fn is_wf(&self) -> (r: bool)
        ensures
            r == event_wf(self@),
    {
        self.start.is_wf() && match &self.end {
            End::Date(d) => d.is_wf(),
            End::Duration(_) => true,
        }
    }

    /// The event order: by start date, ties broken by effective end.
    pub fn compare(&self, other: &Event) -> (r: Ordering)
        requires
            event_wf(self@),
            event_wf(other@),
        ensures
            r == event_cmp_spec(self@, other@),
    {
        let ord = self.start.compare(&other.start);
        match ord {
            Ordering::Equal => self.end_date().compare(&other.end_date()),
            _ => ord,
        }
    }

    /// An exact copy of the event.
    pub fn duplicate(&self) -> (r: Event)
        ensures
            r@ == self@,
    {
        Event {
            start: self.start,
            end: self.end,
            summary: clone_string(&self.summary),
            location: clone_string(&self.location),
            description: clone_string(&self.description),
            status: self.status,
        }
    }
}

/// Decides the event order: `a` comes no later than `b`.
pub fn event_le_exec(a: &Event, b: &Event) -> (r: bool)
    requires
        event_wf(a@),
        event_wf(b@),
    ensures
        r == event_le(a@, b@),
{
    let c = a.compare(b);
    proof {
        lemma_event_le_total(a@, b@);
    }
    !matches!(c, core::cmp::Ordering::Greater)
}

pub(crate) fn clone_string(s: &String) -> (r: String)
    ensures
        r@ == s@,
{
    s.clone()
}

impl vstd::std_specs::cmp::PartialOrdSpecImpl for Event {
    open spec fn obeys_partial_cmp_spec() -> bool {
        true
    }

    open spec fn partial_cmp_spec(&self, other: &Self) -> Option<Ordering> {
        Some(event_cmp_total(self@, other@))
    }
}

impl PartialOrd for Event {
    fn partial_cmp(&self, other: &Self) -> (r: Option<Ordering>) {
        if self.is_wf() && other.is_wf() {
            Some(self.compare(other))
        } else {
            Some(Ordering::Equal)
        }
    }
}

pub open spec fn kw_confirmed() -> Seq<u8> {
    seq![67u8, 79u8, 78u8, 70u8, 73u8, 82u8, 77u8, 69u8, 68u8]
}

pub open spec fn kw_tentative() -> Seq<u8> {
    seq![84u8, 69u8, 78u8, 84u8, 65u8, 84u8, 73u8, 86u8, 69u8]
}

pub open spec fn kw_cancelled() -> Seq<u8> {
    seq![67u8, 65u8, 78u8, 67u8, 69u8, 76u8, 76u8, 69u8, 68u8]
}

/// A status text is exactly one of the three upper-case keywords.
pub open spec fn spec_status_parse(b: Seq<u8>) -> Result<Status, EventError> {
    if b == kw_confirmed() {
        Ok(Status::Confirmed)
    } else if b == kw_tentative() {
        Ok(Status::Tentative)
    } else if b == kw_cancelled() {
        Ok(Status::Canceled)
    } else {
        Err(EventError::StatusError)
    }
}

impl Status {
    /// Parses a status keyword; anything else is a hard error.
    pub fn from_str(s: &str) -> (r: Result<Status, EventError>)
        ensures
            r == spec_status_parse(s.spec_bytes()),
    {
        let b = s.as_bytes();
        let n = b.len();
        let confirmed = [67u8, 79u8, 78u8, 70u8, 73u8, 82u8, 77u8, 69u8, 68u8];
        let tentative = [84u8, 69u8, 78u8, 84u8, 65u8, 84u8, 73u8, 86u8, 69u8];
        let cancelled = [67u8, 65u8, 78u8, 67u8, 69u8, 76u8, 76u8, 69u8, 68u8];
        if range_matches(b, 0, n, confirmed.as_slice()) {
            proof {
                assert(b@ =~= kw_confirmed());
            }
            Ok(Status::Confirmed)
        } else if range_matches(b, 0, n, tentative.as_slice()) {
            proof {
                assert(b@ =~= kw_tentative());
                assert(b@ != kw_confirmed());
            }
            Ok(Status::Tentative)
        } else if range_matches(b, 0, n, cancelled.as_slice()) {
            proof {
                assert(b@ =~= kw_cancelled());
                assert(b@ != kw_confirmed());
                assert(b@ != kw_tentative());
            }
            Ok(Status::Canceled)
        } else {
            proof {
                assert(b@ == kw_confirmed() ==> range_is(b@, 0, n as int, confirmed@));
                assert(b@ == kw_tentative() ==> range_is(b@, 0, n as int, tentative@));
                assert(b@ == kw_cancelled() ==> range_is(b@, 0, n as int, cancelled@));
            }
            Err(EventError::StatusError)
        }
    }
}

} // verus!
