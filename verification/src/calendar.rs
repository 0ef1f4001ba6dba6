use vstd::prelude::*;

use crate::date::{spec_date_parse, Date, Duration};
use crate::errors::EventError;
use crate::event::{
    empty_event, event_le, event_le_exec, event_wf, lemma_event_le_total, lemma_event_le_trans,
    spec_status_parse, End, Event, EventV, Status,
};
use crate::periodic::{
    empty_periodic, periodic_wf, spec_set_param, Periodic, PeriodicV,
};
use crate::text::{all_digits, digits_val, lemma_digits_val_congruent, range_matches};
use vstd::string::StringSliceAdditionalSpecFns;
use vstd::utf8::encode_utf8;

verus! {

// ---------------------------------------------------------------------
// The duration grammar: signed digit groups, each closed by a unit letter.
// ---------------------------------------------------------------------

pub open spec fn is_dur_unit(c: u8) -> bool {
    c == 87 || c == 68 || c == 72 || c == 77 || c == 83
}

pub open spec fn dur_unit_secs(c: u8) -> int {
    if c == 87 {
        604800
    } else if c == 68 {
        86400
    } else if c == 72 {
        3600
    } else if c == 77 {
        60
    } else {
        1
    }
}

/// One step per byte: digits grow the pending group, a minus negates what
/// has accumulated so far, a unit letter closes the group, and anything
/// else is ignored. An empty or oversized group is an integer error.
pub open spec fn spec_duration_from(v: Seq<u8>, i: int, dur: int, acc: Seq<u8>) -> Result<
    Duration,
    EventError,
>
    decreases v.len() - i,
{
    if i < 0 || i >= v.len() {
        Ok(Duration { seconds: dur as i64 })
    } else {
        let c = v[i];
        if 48 <= c <= 57 {
            spec_duration_from(v, i + 1, dur, acc.push(c))
        } else if c == 45 {
            spec_duration_from(v, i + 1, -dur, acc)
        } else if is_dur_unit(c) {
            if acc.len() == 0 {
                Err(EventError::IntError)
            } else {
                let cnt = digits_val(acc, 0, acc.len() as int);
                let add = cnt * dur_unit_secs(c);
                if cnt > i64::MAX || add > i64::MAX || dur + add > i64::MAX {
                    Err(EventError::IntError)
                } else {
                    spec_duration_from(v, i + 1, dur + add, Seq::empty())
                }
            }
        } else {
            spec_duration_from(v, i + 1, dur, acc)
        }
    }
}

pub open spec fn spec_duration_parse(v: Seq<u8>) -> Result<Duration, EventError> {
    spec_duration_from(v, 0, 0, Seq::empty())
}

/// Parses a duration text, as `spec_duration_parse` states.
pub fn duration(value: &str) -> (r: Result<Duration, EventError>)
    ensures
        r == spec_duration_parse(value.spec_bytes()),
{
    let b = value.as_bytes();
    let n = b.len();
    let ghost v = value.spec_bytes();
    let mut dur: i64 = 0;
    let mut acc_val: Option<u64> = Some(0);
    let mut acc_len: usize = 0;
    let ghost mut acc: Seq<u8> = Seq::empty();
    let mut i: usize = 0;
    while i < n
        invariant
            v == value.spec_bytes(),
            n == v.len(),
            b@ == v,
            0 <= i <= n,
            -i64::MAX <= dur <= i64::MAX,
            acc_len == acc.len(),
            acc.len() <= i,
            all_digits(acc, 0, acc.len() as int),
            match acc_val {
                Some(a) => a as int == digits_val(acc, 0, acc.len() as int),
                None => digits_val(acc, 0, acc.len() as int) > u64::MAX,
            },
            spec_duration_parse(v) == spec_duration_from(v, i as int, dur as int, acc),
        decreases n - i,
    {
        let c = b[i];
        if 48 <= c && c <= 57 {
            proof {
                lemma_digits_val_congruent(acc, acc.push(c), 0, 0, acc.len() as int);
                crate::text::lemma_digits_val_bounds(acc, 0, acc.len() as int);
            }
            acc_val = match acc_val {
                Some(a) => match a.checked_mul(10) {
                    Some(x) => x.checked_add((c - 48) as u64),
                    None => None,
                },
                None => None,
            };
            proof {
                acc = acc.push(c);
            }
            acc_len = acc_len + 1;
        } else if c == 45 {
            dur = -dur;
        } else if c == 87 || c == 68 || c == 72 || c == 77 || c == 83 {
            if acc_len == 0 {
                return Err(EventError::IntError);
            }
            let a = match acc_val {
                Some(x) => x,
                None => {
                    return Err(EventError::IntError);
                },
            };
            if a > (i64::MAX as u64) {
                return Err(EventError::IntError);
            }
            let cnt = a as i64;
            let unit: i64 = if c == 87 {
                604800
            } else if c == 68 {
                86400
            } else if c == 72 {
                3600
            } else if c == 77 {
                60
            } else {
                1
            };
            let add = match cnt.checked_mul(unit) {
                Some(x) => x,
                None => {
                    proof {
                        vstd::arithmetic::mul::lemma_mul_nonnegative(cnt as int, unit as int);
                    }
                    return Err(EventError::IntError);
                },
            };
            dur = match dur.checked_add(add) {
                Some(x) => x,
                None => {
                    return Err(EventError::IntError);
                },
            };
            acc_val = Some(0);
            acc_len = 0;
            proof {
                acc = Seq::empty();
            }
        }
        i = i + 1;
    }
    Ok(Duration { seconds: dur })
}

// ---------------------------------------------------------------------
// Recurrence-rule text: semicolon-separated KEY=VALUE entries, then the
// property's own parameters.
// ---------------------------------------------------------------------

/// The position of the first `c` at or after `i`, or the text's end.
pub open spec fn first_byte_from(v: Seq<u8>, i: int, c: u8) -> int
    decreases v.len() - i,
{
    if i < 0 || i >= v.len() {
        v.len() as int
    } else if v[i] == c {
        i
    } else {
        first_byte_from(v, i + 1, c)
    }
}

pub proof fn lemma_first_byte_from(v: Seq<u8>, i: int, c: u8)
    requires
        0 <= i <= v.len(),
    ensures
        i <= first_byte_from(v, i, c) <= v.len(),
    decreases v.len() - i,
{
    if i < v.len() && v[i] != c {
        lemma_first_byte_from(v, i + 1, c);
    }
}

proof fn lemma_first_byte_from_exact(v: Seq<u8>, i: int, j: int, c: u8)
    requires
        0 <= i <= j <= v.len(),
        forall|q: int| i <= q < j ==> v[q] != c,
        j < v.len() ==> v[j] == c,
    ensures
        first_byte_from(v, i, c) == j,
    decreases j - i,
{
    if i < j {
        lemma_first_byte_from_exact(v, i + 1, j, c);
    }
}

/// Applies the `KEY=VALUE` entries of a rule text, left to right. An entry
/// without `=` is a bare key with an empty value.
pub open spec fn spec_rrule_entries(p: PeriodicV, v: Seq<u8>, i: int) -> Result<
    PeriodicV,
    EventError,
>
    decreases v.len() - i,
    via spec_rrule_entries_decreases
{
    let j = first_byte_from(v, i, 59);
    let eq = first_byte_from(v.subrange(i, j), 0, 61);
    let key = v.subrange(i, i + eq);
    let val = if i + eq < j {
        v.subrange(i + eq + 1, j)
    } else {
        Seq::<u8>::empty()
    };
    match spec_set_param(p, key, val) {
        Err(e) => Err(e),
        Ok(p2) => {
            if j >= v.len() {
                Ok(p2)
            } else {
                spec_rrule_entries(p2, v, j + 1)
            }
        },
    }
}

#[via_fn]
proof fn spec_rrule_entries_decreases(p: PeriodicV, v: Seq<u8>, i: int) {
    if 0 <= i <= v.len() {
        lemma_first_byte_from(v, i, 59);
    }
}

/// One parameter of a property, a name with its values.
#[derive(Debug, Clone, PartialEq)]
pub struct Param {
    pub name: String,
    pub values: Vec<String>,
}

pub ghost struct ParamV {
    pub name: Seq<char>,
    pub values: Seq<Seq<char>>,
}

impl View for Param {
    type V = ParamV;

    open spec fn view(&self) -> ParamV {
        ParamV { name: self.name@, values: self.values.deep_view() }
    }
}

pub open spec fn params_view(s: Seq<Param>) -> Seq<ParamV> {
    s.map_values(|p: Param| p@)
}

/// Applies a property's parameters to a rule, in order; a parameter's
/// value is its first entry, or empty.
pub open spec fn spec_rrule_params(p: PeriodicV, params: Seq<ParamV>, i: int) -> Result<
    PeriodicV,
    EventError,
>
    decreases params.len() - i,
{
    if i < 0 || i >= params.len() {
        Ok(p)
    } else {
        let key = encode_utf8(params[i].name);
        let val = if params[i].values.len() > 0 {
            encode_utf8(params[i].values[0])
        } else {
            Seq::<u8>::empty()
        };
        match spec_set_param(p, key, val) {
            Err(e) => Err(e),
            Ok(p2) => spec_rrule_params(p2, params, i + 1),
        }
    }
}

/// A recurrence rule built from an empty rule by the text's entries and
/// then the property's parameters.
pub open spec fn spec_rrule(v: Seq<u8>, params: Seq<ParamV>) -> Result<PeriodicV, EventError> {
    match spec_rrule_entries(empty_periodic(), v, 0) {
        Ok(p) => spec_rrule_params(p, params, 0),
        Err(e) => Err(e),
    }
}

/// Builds a recurrence rule, as `spec_rrule` states. The rule's template
/// event is still the empty one; ingestion fills it in.
pub fn rrule(value: &str, params: &Vec<Param>) -> (r: Result<Periodic, EventError>)
    ensures
        match spec_rrule(value.spec_bytes(), params_view(params@)) {
            Ok(p) => r matches Ok(x) && x@ == p && periodic_wf(p),
            Err(e) => r == Err::<Periodic, EventError>(e),
        },
{
    let b = value.as_bytes();
    let n = b.len();
    let ghost v = value.spec_bytes();
    let mut per = Periodic::new();
    let mut i: usize = 0;
    let mut entries_done: bool = false;
    while !entries_done
        invariant
            v == value.spec_bytes(),
            n == v.len(),
            b@ == v,
            0 <= i <= n,
            periodic_wf(per@),
            !entries_done ==> spec_rrule_entries(empty_periodic(), v, 0) == spec_rrule_entries(
                per@,
                v,
                i as int,
            ),
            entries_done ==> spec_rrule_entries(empty_periodic(), v, 0) == Ok::<
                PeriodicV,
                EventError,
            >(per@),
        decreases (if entries_done {
            0int
        } else {
            1int
        }), n - i,
    {
        // find the end of this entry
        let mut j: usize = i;
        while j < n && b[j] != 59
            invariant
                i <= j <= n == b@.len(),
                b@ == v,
                forall|q: int| i <= q < j ==> v[q] != 59,
            decreases n - j,
        {
            j = j + 1;
        }
        // find the equals sign inside it
        let mut eq: usize = i;
        while eq < j && b[eq] != 61
            invariant
                i <= eq <= j <= n == b@.len(),
                b@ == v,
                forall|q: int| i <= q < eq ==> v[q] != 61,
            decreases j - eq,
        {
            eq = eq + 1;
        }
        proof {
            lemma_first_byte_from_exact(v, i as int, j as int, 59);
            let t = v.subrange(i as int, j as int);
            assert forall|q: int| 0 <= q < (eq - i) implies t[q] != 61 by {
                assert(t[q] == v[i + q]);
            }
            if (eq - i) < t.len() {
                assert(t[eq - i] == v[eq as int]);
            }
            lemma_first_byte_from_exact(t, 0, (eq - i) as int, 61);
            assert(v.subrange(i as int, i + (eq - i)) =~= b@.subrange(i as int, eq as int));
            if i + (eq - i) < j {
                assert(v.subrange(i + (eq - i) + 1, j as int) =~= b@.subrange(
                    eq + 1,
                    j as int,
                ));
            }
        }
        let key = &b[i..eq];
        let val: &[u8] = if eq < j {
            &b[eq + 1..j]
        } else {
            &b[0..0]
        };
        proof {
            if !(eq < j) {
                assert(b@.subrange(0, 0) =~= Seq::<u8>::empty());
            }
        }
        match per.set_param_bytes(key, val) {
            Ok(_) => {},
            Err(e) => {
                return Err(e);
            },
        }
        if j >= n {
            entries_done = true;
        } else {
            i = j + 1;
        }
    }
    // the property's own parameters
    let m = params.len();
    let mut q: usize = 0;
    while q < m
        invariant
            m == params@.len(),
            0 <= q <= m,
            periodic_wf(per@),
            spec_rrule(value.spec_bytes(), params_view(params@)) == spec_rrule_params(
                per@,
                params_view(params@),
                q as int,
            ),
        decreases m - q,
    {
        let p = &params[q];
        proof {
            assert(params_view(params@)[q as int] == p@);
        }
        let empty_bytes: [u8; 0] = [];
        let res = if p.values.len() > 0 {
            proof {
                assert(p@.values[0] == p.values@[0]@);
            }
            per.set_param_bytes(p.name.as_str().as_bytes(), p.values[0].as_str().as_bytes())
        } else {
            proof {
                assert(empty_bytes@ =~= Seq::<u8>::empty());
            }
            per.set_param_bytes(p.name.as_str().as_bytes(), empty_bytes.as_slice())
        };
        match res {
            Ok(_) => {},
            Err(e) => {
                return Err(e);
            },
        }
        q = q + 1;
    }
    Ok(per)
}

// ---------------------------------------------------------------------
// Ingestion: properties to events and rules.
// ---------------------------------------------------------------------

/// One property of a calendar component, as the upstream property parser
/// hands it over: a name, a value, and parameters.
#[derive(Debug, Clone, PartialEq)]
pub struct Property {
    pub name: String,
    pub value: String,
    pub params: Vec<Param>,
}

pub ghost struct PropertyV {
    pub name: Seq<char>,
    pub value: Seq<char>,
    pub params: Seq<ParamV>,
}

impl View for Property {
    type V = PropertyV;

    open spec fn view(&self) -> PropertyV {
        PropertyV { name: self.name@, value: self.value@, params: params_view(self.params@) }
    }
}

/// One calendar component: a sequence of properties.
#[derive(Debug, Clone, PartialEq)]
pub struct Component {
    pub properties: Vec<Property>,
}

pub open spec fn props_view(s: Seq<Property>) -> Seq<PropertyV> {
    s.map_values(|p: Property| p@)
}

impl View for Component {
    type V = Seq<PropertyV>;

    open spec fn view(&self) -> Seq<PropertyV> {
        props_view(self.properties@)
    }
}

pub open spec fn comps_view(s: Seq<Component>) -> Seq<Seq<PropertyV>> {
    s.map_values(|c: Component| c@)
}

pub open spec fn kw_tzid() -> Seq<u8> {
    seq![84u8, 90u8, 73u8, 68u8]
}

pub open spec fn kw_summary() -> Seq<u8> {
    seq![83u8, 85u8, 77u8, 77u8, 65u8, 82u8, 89u8]
}

pub open spec fn kw_location() -> Seq<u8> {
    seq![76u8, 79u8, 67u8, 65u8, 84u8, 73u8, 79u8, 78u8]
}

pub open spec fn kw_description() -> Seq<u8> {
    seq![68u8, 69u8, 83u8, 67u8, 82u8, 73u8, 80u8, 84u8, 73u8, 79u8, 78u8]
}

pub open spec fn kw_status() -> Seq<u8> {
    seq![83u8, 84u8, 65u8, 84u8, 85u8, 83u8]
}

pub open spec fn kw_dtstart() -> Seq<u8> {
    seq![68u8, 84u8, 83u8, 84u8, 65u8, 82u8, 84u8]
}

pub open spec fn kw_dtend() -> Seq<u8> {
    seq![68u8, 84u8, 69u8, 78u8, 68u8]
}

pub open spec fn kw_duration() -> Seq<u8> {
    seq![68u8, 85u8, 82u8, 65u8, 84u8, 73u8, 79u8, 78u8]
}

pub open spec fn kw_rrule() -> Seq<u8> {
    seq![82u8, 82u8, 85u8, 76u8, 69u8]
}

/// The zone named by the last `TZID` parameter that carries a value.
pub open spec fn spec_tzid_from(params: Seq<ParamV>, i: int, acc: Seq<char>) -> Seq<char>
    decreases params.len() - i,
{
    if i < 0 || i >= params.len() {
        acc
    } else {
        let acc2 = if encode_utf8(params[i].name) == kw_tzid() && params[i].values.len() > 0 {
            params[i].values[0]
        } else {
            acc
        };
        spec_tzid_from(params, i + 1, acc2)
    }
}

pub open spec fn spec_tzid(params: Seq<ParamV>) -> Seq<char> {
    spec_tzid_from(params, 0, Seq::<char>::empty())
}

fn tzid_of(params: &Vec<Param>) -> (r: String)
    ensures
        r@ == spec_tzid(params_view(params@)),
{
    let ghost pv = params_view(params@);
    let n = params.len();
    let mut tz = String::new();
    let mut i: usize = 0;
    while i < n
        invariant
            pv == params_view(params@),
            n == params@.len(),
            0 <= i <= n,
            spec_tzid(pv) == spec_tzid_from(pv, i as int, tz@),
        decreases n - i,
    {
        let p = &params[i];
        proof {
            assert(pv[i as int] == params@[i as int]@);
        }
        let k_tzid = [84u8, 90u8, 73u8, 68u8];
        let nb = p.name.as_str().as_bytes();
        if range_matches(nb, 0, nb.len(), k_tzid.as_slice()) {
            proof {
                assert(nb@ =~= kw_tzid());
            }
            if p.values.len() > 0 {
                proof {
                    assert(pv[i as int].values[0] == p.values@[0]@);
                }
                tz = crate::event::clone_string(&p.values[0]);
            }
        } else {
            proof {
                assert(nb@ == kw_tzid() ==> crate::text::range_is(nb@, 0, nb@.len() as int, k_tzid@));
            }
        }
        i = i + 1;
    }
    tz
}

pub open spec fn opt_rule_view(m: Option<Periodic>) -> Option<PeriodicV> {
    match m {
        Some(p) => Some(p@),
        None => None,
    }
}

pub open spec fn opt_rule_wf(m: Option<PeriodicV>) -> bool {
    match m {
        Some(p) => periodic_wf(p),
        None => true,
    }
}

/// What one property does to the component being built: the descriptive
/// fields set strings, status and dates parse, `DURATION` sets a relative
/// end, `RRULE` makes the component periodic, anything else is ignored.
pub open spec fn spec_apply_property(ev: EventV, m: Option<PeriodicV>, prop: PropertyV) -> Result<
    (EventV, Option<PeriodicV>),
    EventError,
> {
    let nb = encode_utf8(prop.name);
    let vb = encode_utf8(prop.value);
    let tz = spec_tzid(prop.params);
    if nb == kw_summary() {
        Ok((EventV { summary: prop.value, ..ev }, m))
    } else if nb == kw_location() {
        Ok((EventV { location: prop.value, ..ev }, m))
    } else if nb == kw_description() {
        Ok((EventV { description: prop.value, ..ev }, m))
    } else if nb == kw_status() {
        match spec_status_parse(vb) {
            Ok(s) => Ok((EventV { status: s, ..ev }, m)),
            Err(e) => Err(e),
        }
    } else if nb == kw_dtstart() {
        match spec_date_parse(vb, tz) {
            Ok(d) => Ok((EventV { start: d, ..ev }, m)),
            Err(e) => Err(e),
        }
    } else if nb == kw_dtend() {
        match spec_date_parse(vb, tz) {
            Ok(d) => Ok((EventV { end: End::Date(d), ..ev }, m)),
            Err(e) => Err(e),
        }
    } else if nb == kw_duration() {
        match spec_duration_parse(vb) {
            Ok(du) => Ok((EventV { end: End::Duration(du), ..ev }, m)),
            Err(e) => Err(e),
        }
    } else if nb == kw_rrule() {
        match spec_rrule(vb, prop.params) {
            Ok(p) => Ok((ev, Some(p))),
            Err(e) => Err(e),
        }
    } else {
        Ok((ev, m))
    }
}

fn apply_property(ev: &mut Event, maybe: &mut Option<Periodic>, prop: &Property) -> (r: Result<
    (),
    EventError,
>)
    ensures
        match spec_apply_property(old(ev)@, opt_rule_view(*old(maybe)), prop@) {
            Ok(pair) => r is Ok && final(ev)@ == pair.0 && opt_rule_view(*final(maybe)) == pair.1,
            Err(e) => r == Err::<(), EventError>(e),
        },
        r is Ok && event_wf(old(ev)@) ==> event_wf(final(ev)@),
        r is Ok && opt_rule_wf(opt_rule_view(*old(maybe))) ==> opt_rule_wf(
            opt_rule_view(*final(maybe)),
        ),
{
    let nb = prop.name.as_str().as_bytes();
    let nn = nb.len();
    let k_summary = [83u8, 85u8, 77u8, 77u8, 65u8, 82u8, 89u8];
    let k_location = [76u8, 79u8, 67u8, 65u8, 84u8, 73u8, 79u8, 78u8];
    let k_description = [68u8, 69u8, 83u8, 67u8, 82u8, 73u8, 80u8, 84u8, 73u8, 79u8, 78u8];
    let k_status = [83u8, 84u8, 65u8, 84u8, 85u8, 83u8];
    let k_dtstart = [68u8, 84u8, 83u8, 84u8, 65u8, 82u8, 84u8];
    let k_dtend = [68u8, 84u8, 69u8, 78u8, 68u8];
    let k_duration = [68u8, 85u8, 82u8, 65u8, 84u8, 73u8, 79u8, 78u8];
    let k_rrule = [82u8, 82u8, 85u8, 76u8, 69u8];
    if range_matches(nb, 0, nn, k_summary.as_slice()) {
        proof {
            assert(nb@ =~= kw_summary());
        }
        ev.summary = crate::event::clone_string(&prop.value);
        Ok(())
    } else if range_matches(nb, 0, nn, k_location.as_slice()) {
        proof {
            assert(nb@ =~= kw_location());
            assert(nb@ != kw_summary());
        }
        ev.location = crate::event::clone_string(&prop.value);
        Ok(())
    } else if range_matches(nb, 0, nn, k_description.as_slice()) {
        proof {
            assert(nb@ =~= kw_description());
            assert(nb@ != kw_summary() && nb@ != kw_location());
        }
        ev.description = crate::event::clone_string(&prop.value);
        Ok(())
    } else if range_matches(nb, 0, nn, k_status.as_slice()) {
        proof {
            assert(nb@ =~= kw_status());
            assert(nb@ != kw_summary() && nb@ != kw_location() && nb@ != kw_description());
        }
        match Status::from_str(prop.value.as_str()) {
            Ok(s) => {
                ev.status = s;
                Ok(())
            },
            Err(e) => Err(e),
        }
    } else if range_matches(nb, 0, nn, k_dtstart.as_slice()) {
        proof {
            assert(nb@ =~= kw_dtstart());
            assert(nb@ != kw_summary() && nb@ != kw_location() && nb@ != kw_description() && nb@
                != kw_status());
        }
        let tz = tzid_of(&prop.params);
        match Date::parse(prop.value.as_str(), tz.as_str()) {
            Ok(d) => {
                ev.start = d;
                Ok(())
            },
            Err(e) => Err(e),
        }
    } else if range_matches(nb, 0, nn, k_dtend.as_slice()) {
        proof {
            assert(nb@ =~= kw_dtend());
            assert(nb@ != kw_summary() && nb@ != kw_location() && nb@ != kw_description() && nb@
                != kw_status() && nb@ != kw_dtstart());
        }
        let tz = tzid_of(&prop.params);
        match Date::parse(prop.value.as_str(), tz.as_str()) {
            Ok(d) => {
                ev.end = End::Date(d);
                Ok(())
            },
            Err(e) => Err(e),
        }
    } else if range_matches(nb, 0, nn, k_duration.as_slice()) {
        proof {
            assert(nb@ =~= kw_duration());
            assert(nb@ != kw_summary() && nb@ != kw_location() && nb@ != kw_description() && nb@
                != kw_status() && nb@ != kw_dtstart() && nb@ != kw_dtend());
        }
        match duration(prop.value.as_str()) {
            Ok(du) => {
                ev.end = End::Duration(du);
                Ok(())
            },
            Err(e) => Err(e),
        }
    } else if range_matches(nb, 0, nn, k_rrule.as_slice()) {
        proof {
            assert(nb@ =~= kw_rrule());
            assert(nb@ != kw_summary() && nb@ != kw_location() && nb@ != kw_description() && nb@
                != kw_status() && nb@ != kw_dtstart() && nb@ != kw_dtend() && nb@
                != kw_duration());
        }
        match rrule(prop.value.as_str(), &prop.params) {
            Ok(p) => {
                *maybe = Some(p);
                Ok(())
            },
            Err(e) => Err(e),
        }
    } else {
        proof {
            assert(nb@ == kw_summary() ==> crate::text::range_is(nb@, 0, nn as int, k_summary@));
            assert(nb@ == kw_location() ==> crate::text::range_is(nb@, 0, nn as int, k_location@));
            assert(nb@ == kw_description() ==> crate::text::range_is(
                nb@,
                0,
                nn as int,
                k_description@,
            ));
            assert(nb@ == kw_status() ==> crate::text::range_is(nb@, 0, nn as int, k_status@));
            assert(nb@ == kw_dtstart() ==> crate::text::range_is(nb@, 0, nn as int, k_dtstart@));
            assert(nb@ == kw_dtend() ==> crate::text::range_is(nb@, 0, nn as int, k_dtend@));
            assert(nb@ == kw_duration() ==> crate::text::range_is(nb@, 0, nn as int, k_duration@));
            assert(nb@ == kw_rrule() ==> crate::text::range_is(nb@, 0, nn as int, k_rrule@));
        }
        Ok(())
    }
}

/// The event and, for a periodic component, the rule that one component's
/// properties build up, applied in order over the empty event.
pub open spec fn spec_component_from(
    c: Seq<PropertyV>,
    i: int,
    ev: EventV,
    m: Option<PeriodicV>,
) -> Result<(EventV, Option<PeriodicV>), EventError>
    decreases c.len() - i,
{
    if i < 0 || i >= c.len() {
        Ok((ev, m))
    } else {
        match spec_apply_property(ev, m, c[i]) {
            Err(e) => Err(e),
            Ok(pair) => spec_component_from(c, i + 1, pair.0, pair.1),
        }
    }
}

pub open spec fn spec_component(c: Seq<PropertyV>) -> Result<
    (EventV, Option<PeriodicV>),
    EventError,
> {
    spec_component_from(c, 0, empty_event(), None)
}

/// Classifies one component: the event its properties build and, if it
/// carries a recurrence rule, that rule (the component is then periodic).
pub fn ingest(component: &Component) -> (r: Result<(Event, Option<Periodic>), EventError>)
    ensures
        match spec_component(component@) {
            Ok(pair) => r matches Ok(x) && x.0@ == pair.0 && opt_rule_view(x.1) == pair.1
                && event_wf(pair.0) && opt_rule_wf(pair.1),
            Err(e) => r == Err::<(Event, Option<Periodic>), EventError>(e),
        },
{
    let ghost cv = component@;
    let mut ev = Event::new();
    let mut maybe: Option<Periodic> = None;
    let n = component.properties.len();
    let mut i: usize = 0;
    while i < n
        invariant
            cv == component@,
            n == component.properties@.len(),
            0 <= i <= n,
            event_wf(ev@),
            opt_rule_wf(opt_rule_view(maybe)),
            spec_component(cv) == spec_component_from(cv, i as int, ev@, opt_rule_view(maybe)),
        decreases n - i,
    {
        let prop = &component.properties[i];
        proof {
            assert(cv[i as int] == component.properties@[i as int]@);
        }
        match apply_property(&mut ev, &mut maybe, prop) {
            Ok(_) => {},
            Err(e) => {
                return Err(e);
            },
        }
        i = i + 1;
    }
    Ok((ev, maybe))
}

// ---------------------------------------------------------------------
// The calendar store: sorted single events and rules in parse order.
// ---------------------------------------------------------------------

pub open spec fn events_view(s: Seq<Event>) -> Seq<EventV> {
    s.map_values(|e: Event| e@)
}

pub open spec fn rules_view(s: Seq<Periodic>) -> Seq<PeriodicV> {
    s.map_values(|p: Periodic| p@)
}

pub open spec fn events_sorted(s: Seq<EventV>) -> bool {
    forall|i: int, j: int| 0 <= i < j < s.len() ==> event_le(#[trigger] s[i], #[trigger] s[j])
}

/// Stable insertion: the new event goes after every earlier element it
/// does not precede.
pub open spec fn insert_sorted(s: Seq<EventV>, e: EventV) -> Seq<EventV>
    decreases s.len(),
{
    if s.len() == 0 {
        seq![e]
    } else if event_le(s.last(), e) {
        s.push(e)
    } else {
        insert_sorted(s.drop_last(), e).push(s.last())
    }
}

/// The stable insertion sort of an event sequence.
pub open spec fn sort_events(s: Seq<EventV>) -> Seq<EventV>
    decreases s.len(),
{
    if s.len() == 0 {
        Seq::empty()
    } else {
        insert_sorted(sort_events(s.drop_last()), s.last())
    }
}

/// Insertion is a splice at the point the scan from the right stops.
proof fn lemma_insert_sorted_splice(s: Seq<EventV>, e: EventV, pos: int)
    requires
        0 <= pos <= s.len(),
        pos == 0 || event_le(s[pos - 1], e),
        forall|r: int| pos <= r < s.len() ==> !event_le(#[trigger] s[r], e),
    ensures
        insert_sorted(s, e) == s.subrange(0, pos) + seq![e] + s.subrange(pos, s.len() as int),
    decreases s.len(),
{
    if s.len() == 0 {
        assert(insert_sorted(s, e) =~= s.subrange(0, pos) + seq![e] + s.subrange(
            pos,
            s.len() as int,
        ));
    } else if pos == s.len() {
        assert(insert_sorted(s, e) == s.push(e));
        assert(s.push(e) =~= s.subrange(0, pos) + seq![e] + s.subrange(pos, s.len() as int));
    } else {
        assert(!event_le(s[s.len() - 1], e));
        let dl = s.drop_last();
        assert forall|r: int| pos <= r < dl.len() implies !event_le(#[trigger] dl[r], e) by {
            assert(dl[r] == s[r]);
        }
        assert(pos == 0 || event_le(dl[pos - 1], e)) by {
            if pos > 0 {
                assert(dl[pos - 1] == s[pos - 1]);
            }
        }
        lemma_insert_sorted_splice(dl, e, pos);
        assert((dl.subrange(0, pos) + seq![e] + dl.subrange(pos, dl.len() as int)).push(s.last())
            =~= s.subrange(0, pos) + seq![e] + s.subrange(pos, s.len() as int));
    }
}

/// Splicing into a sorted sequence at the scan point keeps it sorted.
proof fn lemma_splice_sorted(s: Seq<EventV>, e: EventV, pos: int)
    requires
        events_sorted(s),
        0 <= pos <= s.len(),
        pos == 0 || event_le(s[pos - 1], e),
        forall|r: int| pos <= r < s.len() ==> !event_le(#[trigger] s[r], e),
    ensures
        events_sorted(s.subrange(0, pos) + seq![e] + s.subrange(pos, s.len() as int)),
{
    let t = s.subrange(0, pos) + seq![e] + s.subrange(pos, s.len() as int);
    assert forall|i: int, j: int| 0 <= i < j < t.len() implies event_le(
        #[trigger] t[i],
        #[trigger] t[j],
    ) by {
        if i < pos {
            assert(t[i] == s[i]);
        } else if i == pos {
            assert(t[i] == e);
        } else {
            assert(t[i] == s[i - 1]);
        }
        if j < pos {
            assert(t[j] == s[j]);
        } else if j == pos {
            assert(t[j] == e);
        } else {
            assert(t[j] == s[j - 1]);
        }
        if j == pos {
            // t[i] is s[i] with i < pos: s[i] <= s[pos-1] <= e
            if i < pos - 1 {
                lemma_event_le_trans(s[i], s[pos - 1], e);
            }
        } else if i == pos {
            // e <= s[j-1] since !le(s[j-1], e)
            lemma_event_le_total(s[j - 1], e);
        } else if i < pos && j > pos {
            if i < pos - 1 {
                lemma_event_le_trans(s[i], s[pos - 1], e);
            }
            lemma_event_le_total(s[j - 1], e);
            lemma_event_le_trans(s[i], e, s[j - 1]);
        }
    }
}

/// Inserts an event into a sorted vector, keeping it sorted and stable.
fn insert_event(v: &mut Vec<Event>, e: Event) -> (nothing: ())
    requires
        event_wf(e@),
        forall|q: int| 0 <= q < old(v)@.len() ==> event_wf(#[trigger] events_view(old(v)@)[q]),
        events_sorted(events_view(old(v)@)),
    ensures
        events_view(final(v)@) == insert_sorted(events_view(old(v)@), e@),
        events_sorted(events_view(final(v)@)),
        forall|q: int| 0 <= q < final(v)@.len() ==> event_wf(#[trigger] events_view(final(v)@)[q]),
{
    let ghost s = events_view(v@);
    proof {
        assert forall|q: int| 0 <= q < v@.len() implies event_wf(#[trigger] v@[q]@) by {
            assert(events_view(v@)[q] == v@[q]@);
        }
    }
    let n = v.len();
    let mut pos: usize = n;
    while pos > 0 && !event_le_exec(&v[pos - 1], &e)
        invariant
            s == events_view(v@),
            n == v@.len() == s.len(),
            event_wf(e@),
            forall|q: int| 0 <= q < s.len() ==> event_wf(#[trigger] s[q]),
            forall|q: int| 0 <= q < v@.len() ==> event_wf(#[trigger] v@[q]@),
            0 <= pos <= n,
            forall|r: int| pos <= r < s.len() ==> !event_le(#[trigger] s[r], e@),
        decreases pos,
    {
        proof {
            assert(s[pos - 1] == v@[pos - 1]@);
        }
        pos = pos - 1;
    }
    proof {
        assert(pos > 0 ==> s[pos - 1] == v@[pos - 1]@);
        lemma_insert_sorted_splice(s, e@, pos as int);
        lemma_splice_sorted(s, e@, pos as int);
    }
    v.insert(pos, e);
    proof {
        assert(events_view(v@) =~= s.subrange(0, pos as int) + seq![e@] + s.subrange(
            pos as int,
            s.len() as int,
        ));
    }
}

/// The calendar store: single events sorted ascending, rules in the order
/// the document gave them.
#[derive(Debug, PartialEq)]
pub struct Calendar {
    pub single: Vec<Event>,
    pub periodic: Vec<Periodic>,
}

pub ghost struct CalendarV {
    pub singles: Seq<EventV>,
    pub periodics: Seq<PeriodicV>,
}

impl View for Calendar {
    type V = CalendarV;

    open spec fn view(&self) -> CalendarV {
        CalendarV { singles: events_view(self.single@), periodics: rules_view(self.periodic@) }
    }
}

pub open spec fn calendar_wf(c: CalendarV) -> bool {
    &&& forall|i: int| 0 <= i < c.singles.len() ==> event_wf(#[trigger] c.singles[i])
    &&& events_sorted(c.singles)
    &&& forall|i: int| 0 <= i < c.periodics.len() ==> periodic_wf(#[trigger] c.periodics[i])
}

/// The calendar a property stream builds: each component becomes a single
/// event or, with a recurrence rule, that rule with the event as template;
/// singles are then sorted. The first bad property aborts the whole parse.
pub open spec fn spec_parse_from(
    cs: Seq<Seq<PropertyV>>,
    i: int,
    singles: Seq<EventV>,
    rules: Seq<PeriodicV>,
) -> Result<CalendarV, EventError>
    decreases cs.len() - i,
{
    if i < 0 || i >= cs.len() {
        Ok(CalendarV { singles: sort_events(singles), periodics: rules })
    } else {
        match spec_component(cs[i]) {
            Err(e) => Err(e),
            Ok(pair) => {
                match pair.1 {
                    Some(p) => spec_parse_from(
                        cs,
                        i + 1,
                        singles,
                        rules.push(PeriodicV { event: pair.0, ..p }),
                    ),
                    None => spec_parse_from(cs, i + 1, singles.push(pair.0), rules),
                }
            },
        }
    }
}

pub open spec fn spec_parse(cs: Seq<Seq<PropertyV>>) -> Result<CalendarV, EventError> {
    spec_parse_from(cs, 0, Seq::empty(), Seq::empty())
}

impl Calendar {
    /// Builds the store from decoded components, as `spec_parse` states.
    pub fn parse(components: &Vec<Component>) -> (r: Result<Calendar, EventError>)
        ensures
            match spec_parse(comps_view(components@)) {
                Ok(cv) => r matches Ok(c) && c@ == cv && calendar_wf(c@),
                Err(e) => r == Err::<Calendar, EventError>(e),
            },
    {
        let ghost cs = comps_view(components@);
        let mut raw: Vec<Event> = Vec::new();
        let mut periodic: Vec<Periodic> = Vec::new();
        proof {
            assert(events_view(raw@) =~= Seq::<EventV>::empty());
            assert(rules_view(periodic@) =~= Seq::<PeriodicV>::empty());
        }
        let n = components.len();
        let mut i: usize = 0;
        while i < n
            invariant
                cs == comps_view(components@),
                n == components@.len(),
                0 <= i <= n,
                forall|q: int| 0 <= q < raw@.len() ==> event_wf(#[trigger] events_view(raw@)[q]),
                forall|q: int|
                    0 <= q < periodic@.len() ==> periodic_wf(
                        #[trigger] rules_view(periodic@)[q],
                    ),
                spec_parse(cs) == spec_parse_from(
                    cs,
                    i as int,
                    events_view(raw@),
                    rules_view(periodic@),
                ),
            decreases n - i,
        {
            let comp = &components[i];
            proof {
                assert(cs[i as int] == components@[i as int]@);
            }
            let (ev, maybe) = match ingest(comp) {
                Ok(x) => x,
                Err(e) => {
                    return Err(e);
                },
            };
            match maybe {
                Some(mut p) => {
                    p.event = ev;
                    proof {
                        assert(rules_view(periodic@.push(p)) =~= rules_view(periodic@).push(p@));
                    }
                    periodic.push(p);
                },
                None => {
                    proof {
                        assert(events_view(raw@.push(ev)) =~= events_view(raw@).push(ev@));
                    }
                    raw.push(ev);
                },
            }
            i = i + 1;
        }
        // sort the single events once
        let m = raw.len();
        let mut single: Vec<Event> = Vec::new();
        let mut j: usize = 0;
        proof {
            assert(events_view(raw@).subrange(0, 0) =~= Seq::<EventV>::empty());
            assert(events_view(single@) =~= Seq::<EventV>::empty());
        }
        while j < m
            invariant
                m == raw@.len(),
                0 <= j <= m,
                forall|q: int| 0 <= q < raw@.len() ==> event_wf(#[trigger] events_view(raw@)[q]),
                forall|q: int|
                    0 <= q < single@.len() ==> event_wf(#[trigger] events_view(single@)[q]),
                events_sorted(events_view(single@)),
                events_view(single@) == sort_events(events_view(raw@).subrange(0, j as int)),
            decreases m - j,
        {
            let e = raw[j].duplicate();
            proof {
                assert(events_view(raw@)[j as int] == raw@[j as int]@);
                let pre = events_view(raw@).subrange(0, j as int);
                let cur = events_view(raw@).subrange(0, j + 1);
                assert(cur.drop_last() =~= pre);
                assert(cur.last() == e@);
            }
            insert_event(&mut single, e);
            j = j + 1;
        }
        proof {
            assert(events_view(raw@).subrange(0, m as int) =~= events_view(raw@));
        }
        Ok(Calendar { single, periodic })
    }
}

} // verus!
