//! A [`Timetable`](crate::Timetable) built from a GTFS feed for one service
//! day.
//!
//! The feed comes in as a [`GtfsFeed`]: the stops, trips, calendars and
//! calendar exceptions of the GTFS files with every cross-reference already
//! resolved to an index (stops by their position in `stops`, routes and
//! services by an interned number). Building keeps the trips that run on
//! the service day, groups them by GTFS route and stop sequence, and splits
//! each group into sub-groups in which no trip overtakes another; each
//! sub-group becomes one route of the timetable.

use vstd::prelude::*;
use vstd::string::StringExecFns;

pub mod assemble;
pub mod timetable;


verus! {

/// A calendar date.
#[derive(Debug, Clone, Copy, PartialEq, Eq, Structural)]
pub struct CivilDate {
    /// The year, `-9999..=9999`.
    pub year: i16,
    /// The month, `1..=12`.
    pub month: i8,
    /// The day of the month, from 1.
    pub day: i8,
}

/// Whether `year` is a leap year of the proleptic Gregorian calendar.
pub open spec fn leap_year(year: int) -> bool {
    (year % 4 == 0 && year % 100 != 0) || year % 400 == 0
}

/// The number of days in `month` of `year`.
pub open spec fn days_in_month(year: int, month: int) -> int {
    if month == 2 {
        if leap_year(year) {
            29
        } else {
            28
        }
    } else if month == 4 || month == 6 || month == 9 || month == 11 {
        30
    } else {
        31
    }
}

impl CivilDate {
    /// The date exists: year `-9999..=9999`, month `1..=12`, and a day of
    /// that month.
    pub open spec fn valid(self) -> bool {
        &&& -9999 <= self.year <= 9999
        &&& 1 <= self.month <= 12
        &&& 1 <= self.day <= days_in_month(self.year as int, self.month as int)
    }

    /// `self` comes strictly before `other`.
    pub open spec fn before(self, other: CivilDate) -> bool {
        ||| self.year < other.year
        ||| self.year == other.year && self.month < other.month
        ||| self.year == other.year && self.month == other.month && self.day < other.day
    }

    /// Whether `self` comes strictly before `other`.
    pub fn is_before(&self, other: &CivilDate) -> (r: bool)
        ensures
            r == self.before(*other),
    {
        self.year < other.year || (self.year == other.year && (self.month < other.month || (self.month
            == other.month && self.day < other.day)))
    }
}

/// The day of the week of a valid date, Monday being 0, as
/// `jiff::civil::Date::weekday` computes it.
pub uninterp spec fn weekday_of(year: i16, month: i8, day: i8) -> i8;

/// `jiff::civil::Date::new` followed by `weekday().to_monday_zero_offset()`:
/// the day of the week of a valid date, counted from Monday as 0, which
/// jiff documents as an offset in `0..7`.
#[verifier::external_body]
fn weekday_monday_zero(date: CivilDate) -> (r: i8)
    requires
        date.valid(),
    ensures
        r == weekday_of(date.year, date.month, date.day),
        0 <= r < 7,
{
    match jiff::civil::Date::new(date.year, date.month, date.day) {
        Ok(d) => d.weekday().to_monday_zero_offset(),
        Err(_) => 0,
    }
}

/// A service's weekly pattern and validity window (`calendar.txt`).
#[derive(Debug, Clone, Copy)]
pub struct ServiceCalendar {
    /// The interned service id.
    pub service: u32,
    /// Runs on Mondays.
    pub monday: bool,
    /// Runs on Tuesdays.
    pub tuesday: bool,
    /// Runs on Wednesdays.
    pub wednesday: bool,
    /// Runs on Thursdays.
    pub thursday: bool,
    /// Runs on Fridays.
    pub friday: bool,
    /// Runs on Saturdays.
    pub saturday: bool,
    /// Runs on Sundays.
    pub sunday: bool,
    /// First day of the window.
    pub start_date: CivilDate,
    /// Last day of the window.
    pub end_date: CivilDate,
}

impl ServiceCalendar {
    /// Whether the pattern runs on weekday `w` (Monday being 0).
    pub open spec fn runs_on(self, w: int) -> bool {
        if w == 0 {
            self.monday
        } else if w == 1 {
            self.tuesday
        } else if w == 2 {
            self.wednesday
        } else if w == 3 {
            self.thursday
        } else if w == 4 {
            self.friday
        } else if w == 5 {
            self.saturday
        } else {
            self.sunday
        }
    }
}

/// A one-day exception to a service (`calendar_dates.txt`): the service is
/// added on `date` or removed from it.
#[derive(Debug, Clone, Copy)]
pub struct ServiceException {
    /// The interned service id.
    pub service: u32,
    /// The day the exception applies to.
    pub date: CivilDate,
    /// `true` when the service runs that day, `false` when it is removed.
    pub added: bool,
}

/// One stop time of a trip (`stop_times.txt`), in the trip's order.
#[derive(Debug, Clone)]
pub struct FeedStopTime {
    /// The GTFS `stop_id`, as written.
    pub stop_id: String,
    /// The position of that stop in the feed's `stops`, or `None` when no
    /// stop has that id.
    pub stop: Option<u32>,
    /// Arrival time in seconds since midnight, if given.
    pub arrival_time: Option<u32>,
    /// Departure time in seconds since midnight, if given.
    pub departure_time: Option<u32>,
}

/// A trip (`trips.txt`) with its stop times.
#[derive(Debug, Clone)]
pub struct FeedTrip {
    /// The GTFS `trip_id`.
    pub id: String,
    /// The interned GTFS `route_id`; interning in the order of the ids
    /// keeps routes in id order.
    pub route: u32,
    /// The interned `service_id`.
    pub service: u32,
    /// The stop times, in sequence order.
    pub stop_times: Vec<FeedStopTime>,
}

/// A transfer out of a stop (`transfers.txt`).
#[derive(Debug, Clone, Copy)]
pub struct FeedTransfer {
    /// The position of the destination stop in the feed's `stops`, or
    /// `None` when no stop has the given id.
    pub to_stop: Option<u32>,
    /// The minimum transfer time in seconds, if given.
    pub min_transfer_time: Option<u32>,
}

/// A stop (`stops.txt`) with the transfers out of it.
#[derive(Debug, Clone)]
pub struct FeedStop {
    /// The GTFS `stop_id`.
    pub id: String,
    /// The position of the parent station in the feed's `stops`, if any.
    pub parent_station: Option<u32>,
    /// The transfers out of this stop.
    pub transfers: Vec<FeedTransfer>,
}

/// A parsed GTFS feed with its references resolved to indices.
#[derive(Debug, Clone)]
pub struct GtfsFeed {
    /// The stops; a stop's index is its position here.
    pub stops: Vec<FeedStop>,
    /// The GTFS `route_id` of each interned route number.
    pub route_ids: Vec<String>,
    /// The trips.
    pub trips: Vec<FeedTrip>,
    /// The weekly service patterns, at most one per service.
    pub calendar: Vec<ServiceCalendar>,
    /// The one-day service exceptions.
    pub calendar_dates: Vec<ServiceException>,
}

/// Errors from building a timetable out of a feed.
#[derive(Debug, Clone, PartialEq, Eq)]
pub enum GtfsError {
    /// A trip referenced in the feed was not found.
    MissingTrip(String),
    /// A stop referenced by a trip was not found.
    MissingStop(String),
    /// A trip has no stop times.
    MissingStopTimes(String),
    /// A stop time has no departure time, which the departure-ordered
    /// lookups need.
    MissingDepartureTime {
        /// The trip the stop time belongs to.
        trip: String,
        /// The stop the stop time refers to.
        stop: String,
    },
}

/// The message of an error.
pub open spec fn error_text(e: GtfsError) -> Seq<char> {
    match e {
        GtfsError::MissingTrip(id) => "trip not found: "@ + id@,
        GtfsError::MissingStop(id) => "stop not found: "@ + id@,
        GtfsError::MissingStopTimes(id) => "trip has no stop_times: "@ + id@,
        GtfsError::MissingDepartureTime { trip, stop } => "stop_time has no departure_time: "@ + (("trip "@ + trip@) + (
        ", stop "@ + stop@)),
    }
}

impl GtfsError {
    /// The message the error displays.
    pub fn to_string(&self) -> (r: String)
        ensures
            r@ == error_text(*self),
    {
        match self {
            GtfsError::MissingTrip(id) => concat_str("trip not found: ", id),
            GtfsError::MissingStop(id) => concat_str("stop not found: ", id),
            GtfsError::MissingStopTimes(id) => concat_str("trip has no stop_times: ", id),
            GtfsError::MissingDepartureTime { trip, stop } => concat_str(
                "stop_time has no departure_time: ",
                &concat_str(&concat_str("trip ", trip), &concat_str(", stop ", stop)),
            ),
        }
    }
}

/// `prefix` followed by `rest`.
fn concat_str(prefix: &str, rest: &str) -> (r: String)
    ensures
        r@ == prefix@ + rest@,
{
    let mut r = prefix.to_owned();
    r.append(rest);
    r
}

// ---------------------------------------------------------------------
// Service days
// ---------------------------------------------------------------------

/// Entry `i` is the first exception for `service` on `date`.
pub open spec fn first_exception(excs: Seq<ServiceException>, service: u32, date: CivilDate, i: int) -> bool {
    &&& 0 <= i < excs.len()
    &&& excs[i].service == service && excs[i].date == date
    &&& forall|k: int| 0 <= k < i ==> !((#[trigger] excs[k]).service == service && excs[k].date == date)
}

/// Entry `i` is the first weekly pattern for `service`.
pub open spec fn first_calendar(cals: Seq<ServiceCalendar>, service: u32, i: int) -> bool {
    &&& 0 <= i < cals.len()
    &&& cals[i].service == service
    &&& forall|k: int| 0 <= k < i ==> (#[trigger] cals[k]).service != service
}

/// Whether `service` runs on `date`: an exception for that exact date
/// decides (the first one listed); otherwise the weekly pattern does, within
/// its window; a service with neither does not run.
pub open spec fn service_active(feed: GtfsFeed, service: u32, date: CivilDate) -> bool {
    let excs = feed.calendar_dates@;
    let cals = feed.calendar@;
    if exists|i: int| first_exception(excs, service, date, i) {
        excs[choose|i: int| first_exception(excs, service, date, i)].added
    } else if exists|i: int| first_calendar(cals, service, i) {
        let cal = cals[choose|i: int| first_calendar(cals, service, i)];
        &&& !date.before(cal.start_date)
        &&& !cal.end_date.before(date)
        &&& cal.runs_on(weekday_of(date.year, date.month, date.day) as int)
    } else {
        false
    }
}

/// Dates are ordered by year, then month, then day: `before` is a strict
/// total order on them, and a later year (or the same year and a later
/// month, or the same month and a later day) is never before.
pub proof fn law_date_order(a: CivilDate, b: CivilDate, c: CivilDate)
    ensures
        !a.before(a),
        a.before(b) ==> !b.before(a),
        a.before(b) && b.before(c) ==> a.before(c),
        a != b ==> a.before(b) || b.before(a),
        a.year < b.year ==> a.before(b),
        a.year == b.year && a.month < b.month ==> a.before(b),
        a.year == b.year && a.month == b.month && a.day < b.day ==> a.before(b),
{
}

/// The weekday numbering runs from Monday as 0 to Sunday as 6: weekday
/// `w` selects the flag of the day it names.
pub proof fn law_runs_on_named_days(cal: ServiceCalendar)
    ensures
        cal.runs_on(0) == cal.monday,
        cal.runs_on(1) == cal.tuesday,
        cal.runs_on(2) == cal.wednesday,
        cal.runs_on(3) == cal.thursday,
        cal.runs_on(4) == cal.friday,
        cal.runs_on(5) == cal.saturday,
        cal.runs_on(6) == cal.sunday,
{
}

/// With no exception for the date, a service with a weekly pattern runs
/// on a date inside the pattern's window exactly when the pattern's flag
/// for that date's named weekday is set, and never outside the window.
pub proof fn law_weekly_service(feed: GtfsFeed, service: u32, date: CivilDate, c: int)
    requires
        forall|i: int| !first_exception(feed.calendar_dates@, service, date, i),
        first_calendar(feed.calendar@, service, c),
    ensures
        ({
            let cal = feed.calendar@[c];
            let w = weekday_of(date.year, date.month, date.day);
            let inside = !date.before(cal.start_date) && !cal.end_date.before(date);
            &&& !inside ==> !service_active(feed, service, date)
            &&& inside && w == 0 ==> (service_active(feed, service, date) <==> cal.monday)
            &&& inside && w == 1 ==> (service_active(feed, service, date) <==> cal.tuesday)
            &&& inside && w == 2 ==> (service_active(feed, service, date) <==> cal.wednesday)
            &&& inside && w == 3 ==> (service_active(feed, service, date) <==> cal.thursday)
            &&& inside && w == 4 ==> (service_active(feed, service, date) <==> cal.friday)
            &&& inside && w == 5 ==> (service_active(feed, service, date) <==> cal.saturday)
            &&& inside && w == 6 ==> (service_active(feed, service, date) <==> cal.sunday)
        }),
{
    let cals = feed.calendar@;
    assert(exists|i: int| first_calendar(cals, service, i));
    let j = choose|i: int| first_calendar(cals, service, i);
    if j < c {
        assert(cals[j].service != service);
    } else if j > c {
        assert(cals[c].service != service);
    }
    assert(j == c);
}

/// A date that an exception names for a service decides alone, whatever
/// the weekly pattern says: the first such exception gives the answer.
pub proof fn law_exception_decides(feed: GtfsFeed, service: u32, date: CivilDate, e: int)
    requires
        first_exception(feed.calendar_dates@, service, date, e),
    ensures
        service_active(feed, service, date) == feed.calendar_dates@[e].added,
{
    let excs = feed.calendar_dates@;
    let j = choose|i: int| first_exception(excs, service, date, i);
    if j < e {
        assert(!(excs[j].service == service && excs[j].date == date));
    } else if j > e {
        assert(!(excs[e].service == service && excs[e].date == date));
    }
}

/// Whether `service` runs on `date` (see [`service_active`]).
pub fn is_service_active(feed: &GtfsFeed, service: u32, date: CivilDate) -> (r: bool)
    requires
        date.valid(),
    ensures
        r == service_active(*feed, service, date),
{
    let excs = &feed.calendar_dates;
    let mut i: usize = 0;
    while i < excs.len()
        invariant
            i <= excs@.len(),
            excs == &feed.calendar_dates,
            forall|k: int| 0 <= k < i ==> !((#[trigger] excs@[k]).service == service && excs@[k].date == date),
        decreases excs@.len() - i,
    {
        if excs[i].service == service && excs[i].date == date {
            proof {
                assert(first_exception(excs@, service, date, i as int));
                assert forall|j: int| #[trigger] first_exception(excs@, service, date, j) implies j == i by {
                    if j < i {
                        assert(!(excs@[j].service == service && excs@[j].date == date));
                    }
                    if j > i {
                        assert(!(excs@[i as int].service == service && excs@[i as int].date == date));
                    }
                }
            }
            return excs[i].added;
        }
        i = i + 1;
    }
    proof {
        assert forall|j: int| !first_exception(excs@, service, date, j) by {
            if 0 <= j < excs@.len() {
                assert(!(excs@[j].service == service && excs@[j].date == date));
            }
        }
    }
    let cals = &feed.calendar;
    let mut c: usize = 0;
    while c < cals.len()
        invariant
            c <= cals@.len(),
            cals == &feed.calendar,
            date.valid(),
            forall|j: int| !first_exception(feed.calendar_dates@, service, date, j),
            forall|k: int| 0 <= k < c ==> (#[trigger] cals@[k]).service != service,
        decreases cals@.len() - c,
    {
        if cals[c].service == service {
            let cal = &cals[c];
            proof {
                assert(first_calendar(cals@, service, c as int));
                assert forall|j: int| #[trigger] first_calendar(cals@, service, j) implies j == c by {
                    if j < c {
                        assert(cals@[j].service != service);
                    }
                    if j > c {
                        assert(cals@[c as int].service != service);
                    }
                }
            }
            if date.is_before(&cal.start_date) || cal.end_date.is_before(&date) {
                return false;
            }
            let w = weekday_monday_zero(date);
            let runs = if w == 0 {
                cal.monday
            } else if w == 1 {
                cal.tuesday
            } else if w == 2 {
                cal.wednesday
            } else if w == 3 {
                cal.thursday
            } else if w == 4 {
                cal.friday
            } else if w == 5 {
                cal.saturday
            } else {
                cal.sunday
            };
            return runs;
        }
        c = c + 1;
    }
    proof {
        assert forall|j: int| !first_calendar(cals@, service, j) by {
            if 0 <= j < cals@.len() {
                assert(cals@[j].service != service);
            }
        }
    }
    false
}

// ---------------------------------------------------------------------
// Overtaking
// ---------------------------------------------------------------------

/// Every stop time among the first `n` has a departure time.
pub open spec fn departures_given(s: Seq<FeedStopTime>, n: int) -> bool {
    forall|p: int| 0 <= p < n && p < s.len() ==> (#[trigger] s[p]).departure_time is Some
}

/// At position `p`, `later` leaves before `earlier`, or both arrival times
/// are given and `later` arrives first.
pub open spec fn overtakes_at(earlier: Seq<FeedStopTime>, later: Seq<FeedStopTime>, p: int) -> bool {
    ||| later[p].departure_time->0 < earlier[p].departure_time->0
    ||| (earlier[p].arrival_time is Some && later[p].arrival_time is Some && later[p].arrival_time->0
        < earlier[p].arrival_time->0)
}

/// `later` overtakes `earlier` at some position both schedules have.
pub open spec fn overtakes_spec(earlier: Seq<FeedStopTime>, later: Seq<FeedStopTime>) -> bool {
    exists|p: int| 0 <= p < earlier.len() && p < later.len() && #[trigger] overtakes_at(earlier, later, p)
}

/// Whether `later` overtakes `earlier`: at some position both have, it
/// leaves earlier, or arrives earlier when both arrival times are given.
/// The departure times must be given at every such position.
pub fn overtakes(earlier: &[FeedStopTime], later: &[FeedStopTime]) -> (r: bool)
    requires
        departures_given(earlier@, later@.len() as int),
        departures_given(later@, earlier@.len() as int),
    ensures
        r == overtakes_spec(earlier@, later@),
{
    let mut p: usize = 0;
    while p < earlier.len() && p < later.len()
        invariant
            p <= earlier@.len(),
            p <= later@.len(),
            departures_given(earlier@, later@.len() as int),
            departures_given(later@, earlier@.len() as int),
            forall|q: int| 0 <= q < p ==> !#[trigger] overtakes_at(earlier@, later@, q),
        decreases earlier@.len() - p,
    {
        let e = &earlier[p];
        let l = &later[p];
        assert(e.departure_time is Some && l.departure_time is Some);
        let e_dep = match e.departure_time {
            Some(d) => d,
            None => 0,
        };
        let l_dep = match l.departure_time {
            Some(d) => d,
            None => 0,
        };
        let arrives_first = match (e.arrival_time, l.arrival_time) {
            (Some(ea), Some(la)) => la < ea,
            _ => false,
        };
        if l_dep < e_dep || arrives_first {
            assert(overtakes_at(earlier@, later@, p as int));
            return true;
        }
        p = p + 1;
    }
    false
}

/// Trip `t` overtakes none of the trips of `group`.
pub open spec fn fits_group(group: Seq<usize>, scheds: Seq<Seq<FeedStopTime>>, t: int) -> bool {
    forall|j: int| 0 <= j < group.len() ==> !overtakes_spec(scheds[#[trigger] group[j] as int], scheds[t])
}

/// The first of the first `n` groups none of whose trips `t` overtakes.
pub open spec fn first_fit(groups: Seq<Seq<usize>>, scheds: Seq<Seq<FeedStopTime>>, t: int, n: nat) -> Option<int>
    decreases n,
{
    if n == 0 {
        None
    } else {
        match first_fit(groups, scheds, t, (n - 1) as nat) {
            Some(g) => Some(g),
            None => if fits_group(groups[n - 1], scheds, t) {
                Some(n - 1)
            } else {
                None
            },
        }
    }
}

/// The greedy split of the first `n` trips: each trip joins the first
/// group whose last trip it does not overtake, or opens a new group.
pub open spec fn split_spec(scheds: Seq<Seq<FeedStopTime>>, n: nat) -> Seq<Seq<usize>>
    decreases n,
{
    if n == 0 {
        Seq::empty()
    } else {
        let gs = split_spec(scheds, (n - 1) as nat);
        match first_fit(gs, scheds, n - 1, gs.len()) {
            Some(g) => gs.update(g, gs[g].push((n - 1) as usize)),
            None => gs.push(seq![(n - 1) as usize]),
        }
    }
}

/// The schedules of `trips`.
pub open spec fn schedules_of<I>(trips: Seq<(I, &[FeedStopTime])>) -> Seq<Seq<FeedStopTime>> {
    Seq::new(trips.len(), |i: int| trips[i].1@)
}

/// Every schedule gives all its departure times.
pub open spec fn all_departures_given(scheds: Seq<Seq<FeedStopTime>>) -> bool {
    forall|i: int| 0 <= i < scheds.len() ==> departures_given(#[trigger] scheds[i], scheds[i].len() as int)
}

proof fn lemma_split_entries(scheds: Seq<Seq<FeedStopTime>>, n: nat)
    ensures
        forall|g: int, k: int|
            0 <= g < split_spec(scheds, n).len() && 0 <= k < split_spec(scheds, n)[g].len() ==> (
            #[trigger] split_spec(scheds, n)[g][k]) < n,
        forall|g: int| 0 <= g < split_spec(scheds, n).len() ==> (#[trigger] split_spec(scheds, n)[g]).len() >= 1,
    decreases n,
{
    if n > 0 {
        lemma_split_entries(scheds, (n - 1) as nat);
        let gs = split_spec(scheds, (n - 1) as nat);
        lemma_first_fit_range(gs, scheds, n - 1, gs.len());
    }
}

proof fn lemma_first_fit_range(groups: Seq<Seq<usize>>, scheds: Seq<Seq<FeedStopTime>>, t: int, n: nat)
    ensures
        first_fit(groups, scheds, t, n) matches Some(g) ==> 0 <= g < n,
    decreases n,
{
    if n > 0 {
        lemma_first_fit_range(groups, scheds, t, (n - 1) as nat);
    }
}

/// Splits departure-ordered trips sharing a stop sequence into groups in
/// which no trip overtakes any trip placed before it: each trip joins the
/// first group none of whose trips it overtakes, or opens a new group.
/// Returns the ids of each group.
pub fn split_non_overtaking<I: Copy>(trips: &[(I, &[FeedStopTime])]) -> (r: Vec<Vec<I>>)
    requires
        all_departures_given(schedules_of(trips@)),
    ensures
        r@.len() == split_spec(schedules_of(trips@), trips@.len() as nat).len(),
        forall|g: int|
            0 <= g < r@.len() ==> (#[trigger] r@[g])@.len() == split_spec(schedules_of(trips@), trips@.len() as nat)[g].len(),
        forall|g: int, k: int|
            0 <= g < r@.len() && 0 <= k < r@[g]@.len() ==> #[trigger] r@[g]@[k] == trips@[split_spec(
                schedules_of(trips@),
                trips@.len() as nat,
            )[g][k] as int].0,
{
    let ghost scheds = schedules_of(trips@);
    let mut groups: Vec<Vec<usize>> = Vec::new();
    let mut i: usize = 0;
    while i < trips.len()
        invariant
            i <= trips@.len(),
            scheds == schedules_of(trips@),
            all_departures_given(scheds),
            groups@.len() == split_spec(scheds, i as nat).len(),
            forall|g: int| 0 <= g < groups@.len() ==> (#[trigger] groups@[g])@ == split_spec(scheds, i as nat)[g],
        decreases trips@.len() - i,
    {
        proof {
            lemma_split_entries(scheds, i as nat);
        }
        let ghost gs = split_spec(scheds, i as nat);
        let mut g: usize = 0;
        let mut placed = false;
        while g < groups.len() && !placed
            invariant
                i < trips@.len(),
                scheds == schedules_of(trips@),
                all_departures_given(scheds),
                gs == split_spec(scheds, i as nat),
                g <= groups@.len(),
                forall|g: int, k: int| 0 <= g < gs.len() && 0 <= k < gs[g].len() ==> (#[trigger] gs[g][k]) < i,
                forall|g: int| 0 <= g < gs.len() ==> (#[trigger] gs[g]).len() >= 1,
                !placed ==> groups@.len() == gs.len(),
                !placed ==> forall|h: int| 0 <= h < groups@.len() ==> (#[trigger] groups@[h])@ == gs[h],
                !placed ==> first_fit(gs, scheds, i as int, g as nat) is None,
                placed ==> (first_fit(gs, scheds, i as int, gs.len()) matches Some(f) && groups@.len() == gs.len()
                    && forall|h: int| 0 <= h < groups@.len() ==> (#[trigger] groups@[h])@ == (if h == f {
                        gs[h].push(i)
                    } else {
                        gs[h]
                    })),
            decreases groups@.len() - g + (if placed { 0int } else { 1int }),
        {
            assert(trips@[i as int].1@ == scheds[i as int]);
            assert(departures_given(scheds[i as int], scheds[i as int].len() as int));
            let mut fits = true;
            let mut m: usize = 0;
            while m < groups[g].len()
                invariant
                    i < trips@.len(),
                    g < groups@.len(),
                    scheds == schedules_of(trips@),
                    all_departures_given(scheds),
                    groups@[g as int]@ == gs[g as int],
                    forall|k: int| 0 <= k < gs[g as int].len() ==> (#[trigger] gs[g as int][k]) < i,
                    m <= gs[g as int].len(),
                    fits <==> forall|j: int| 0 <= j < m ==> !overtakes_spec(scheds[#[trigger] gs[g as int][j] as int], scheds[i as int]),
                decreases gs[g as int].len() - m,
            {
                let member = groups[g][m];
                assert(member == gs[g as int][m as int]);
                assert(member < i);
                assert(trips@[member as int].1@ == scheds[member as int]);
                assert(departures_given(scheds[member as int], scheds[member as int].len() as int));
                assert(departures_given(scheds[i as int], scheds[i as int].len() as int));
                if overtakes(trips[member].1, trips[i].1) {
                    fits = false;
                }
                m = m + 1;
            }
            assert(fits == fits_group(gs[g as int], scheds, i as int));
            if fits {
                proof {
                    lemma_first_fit_stable(gs, scheds, i as int, g as nat, gs.len());
                }
                let ghost before = groups@;
                let mut grp = groups.remove(g);
                grp.push(i);
                groups.insert(g, grp);
                proof {
                    assert forall|h: int| 0 <= h < groups@.len() implies (#[trigger] groups@[h])@ == (if h == g {
                        gs[h].push(i)
                    } else {
                        gs[h]
                    }) by {
                        if h != g {
                            assert(groups@[h] == before[h]);
                        }
                    }
                }
                placed = true;
            } else {
                g = g + 1;
            }
        }
        proof {
            lemma_first_fit_range(gs, scheds, i as int, gs.len());
            assert(split_spec(scheds, (i + 1) as nat) == (match first_fit(gs, scheds, i as int, gs.len()) {
                Some(f) => gs.update(f, gs[f].push(i)),
                None => gs.push(seq![i]),
            }));
        }
        if !placed {
            let mut grp: Vec<usize> = Vec::new();
            grp.push(i);
            let ghost before = groups@;
            groups.push(grp);
            proof {
                assert(first_fit(gs, scheds, i as int, gs.len()) is None);
                assert forall|h: int| 0 <= h < groups@.len() implies (#[trigger] groups@[h])@ == split_spec(scheds, (i + 1) as nat)[h] by {
                    if h < before.len() {
                        assert(groups@[h] == before[h]);
                    } else {
                        assert(groups@[h]@ =~= seq![i]);
                    }
                }
            }
        } else {
            proof {
                lemma_first_fit_range(gs, scheds, i as int, gs.len());
                let f = first_fit(gs, scheds, i as int, gs.len())->0;
                let next = gs.update(f, gs[f].push(i));
                assert(split_spec(scheds, (i + 1) as nat) == next);
                assert forall|h: int| 0 <= h < groups@.len() implies (#[trigger] groups@[h])@ == split_spec(scheds, (i + 1) as nat)[h] by {
                    assert(groups@[h]@ == (if h == f { gs[h].push(i) } else { gs[h] }));
                }
            }
        }
        i = i + 1;
    }
    proof {
        lemma_split_entries(scheds, trips@.len() as nat);
    }
    let ghost gs = split_spec(scheds, trips@.len() as nat);
    let mut out: Vec<Vec<I>> = Vec::new();
    let mut g: usize = 0;
    while g < groups.len()
        invariant
            g <= groups@.len(),
            groups@.len() == gs.len(),
            gs == split_spec(scheds, trips@.len() as nat),
            scheds == schedules_of(trips@),
            forall|h: int| 0 <= h < groups@.len() ==> (#[trigger] groups@[h])@ == gs[h],
            forall|h: int, k: int| 0 <= h < gs.len() && 0 <= k < gs[h].len() ==> (#[trigger] gs[h][k]) < trips@.len(),
            out@.len() == g,
            forall|h: int| 0 <= h < g ==> (#[trigger] out@[h])@.len() == gs[h].len(),
            forall|h: int, k: int| 0 <= h < g && 0 <= k < out@[h]@.len() ==> #[trigger] out@[h]@[k] == trips@[gs[h][k] as int].0,
        decreases groups@.len() - g,
    {
        let mut ids: Vec<I> = Vec::new();
        let mut k: usize = 0;
        while k < groups[g].len()
            invariant
                g < groups@.len(),
                groups@[g as int]@ == gs[g as int],
                forall|k: int| 0 <= k < gs[g as int].len() ==> (#[trigger] gs[g as int][k]) < trips@.len(),
                k <= gs[g as int].len(),
                ids@.len() == k,
                forall|j: int| 0 <= j < k ==> #[trigger] ids@[j] == trips@[gs[g as int][j] as int].0,
            decreases gs[g as int].len() - k,
        {
            let t = groups[g][k];
            ids.push(trips[t].0);
            k = k + 1;
        }
        let ghost o0 = out@;
        out.push(ids);
        proof {
            assert forall|h: int, k: int| 0 <= h < g + 1 && 0 <= k < out@[h]@.len() implies #[trigger] out@[h]@[k]
                == trips@[gs[h][k] as int].0 by {
                if h < g {
                    assert(out@[h] == o0[h]);
                }
            }
            assert forall|h: int| 0 <= h < g + 1 implies (#[trigger] out@[h])@.len() == gs[h].len() by {
                if h < g {
                    assert(out@[h] == o0[h]);
                }
            }
        }
        g = g + 1;
    }
    out
}

/// `first_fit` over more groups keeps a fit found among the first ones,
/// and finds group `g` when the earlier ones do not fit and `g` does.
proof fn lemma_first_fit_stable(groups: Seq<Seq<usize>>, scheds: Seq<Seq<FeedStopTime>>, t: int, g: nat, n: nat)
    requires
        g < n,
        n <= groups.len(),
        first_fit(groups, scheds, t, g) is None,
        fits_group(groups[g as int], scheds, t),
    ensures
        first_fit(groups, scheds, t, n) == Some(g as int),
    decreases n,
{
    if n > g + 1 {
        lemma_first_fit_stable(groups, scheds, t, g, (n - 1) as nat);
    }
}


/// Some group of `groups` holds `k`.
pub open spec fn split_places(groups: Seq<Seq<usize>>, k: int) -> bool {
    exists|g: int, j: int| 0 <= g < groups.len() && 0 <= j < groups[g].len() && #[trigger] groups[g][j] == k
}

proof fn lemma_first_fit_fits(groups: Seq<Seq<usize>>, scheds: Seq<Seq<FeedStopTime>>, t: int, n: nat)
    ensures
        first_fit(groups, scheds, t, n) matches Some(g) ==> fits_group(groups[g], scheds, t),
    decreases n,
{
    if n > 0 {
        lemma_first_fit_fits(groups, scheds, t, (n - 1) as nat);
    }
}

/// Every trip lands in exactly one place of the split, and within a
/// group no trip overtakes any trip placed before it.
pub proof fn lemma_split_laws(scheds: Seq<Seq<FeedStopTime>>, n: nat)
    requires
        n <= usize::MAX,
    ensures
        forall|k: int| 0 <= k < n ==> #[trigger] split_places(split_spec(scheds, n), k),
        forall|g1: int, j1: int, g2: int, j2: int|
            0 <= g1 < split_spec(scheds, n).len() && 0 <= j1 < split_spec(scheds, n)[g1].len() && 0 <= g2 < split_spec(scheds, n).len()
                && 0 <= j2 < split_spec(scheds, n)[g2].len() && #[trigger] split_spec(scheds, n)[g1][j1] == #[trigger] split_spec(
                scheds,
                n,
            )[g2][j2] ==> g1 == g2 && j1 == j2,
        forall|g: int, j1: int, j2: int|
            0 <= g < split_spec(scheds, n).len() && 0 <= j1 < j2 < split_spec(scheds, n)[g].len() ==> !overtakes_spec(
                scheds[#[trigger] split_spec(scheds, n)[g][j1] as int],
                scheds[#[trigger] split_spec(scheds, n)[g][j2] as int],
            ),
    decreases n,
{
    lemma_split_entries(scheds, n);
    if n > 0 {
        let m = (n - 1) as nat;
        lemma_split_laws(scheds, m);
        lemma_split_entries(scheds, m);
        let gs = split_spec(scheds, m);
        let ns = split_spec(scheds, n);
        lemma_first_fit_range(gs, scheds, m as int, gs.len());
        lemma_first_fit_fits(gs, scheds, m as int, gs.len());
        let t = m as usize;
        match first_fit(gs, scheds, m as int, gs.len()) {
            Some(f) => {
                assert(ns == gs.update(f, gs[f].push(t)));
                assert forall|k: int| 0 <= k < n implies #[trigger] split_places(ns, k) by {
                    if k < m {
                        assert(split_places(gs, k));
                        let (g, j) = choose|g: int, j: int| 0 <= g < gs.len() && 0 <= j < gs[g].len() && #[trigger] gs[g][j] == k;
                        assert(ns[g][j] == k);
                    } else {
                        assert(ns[f][gs[f].len() as int] == k);
                    }
                }
                assert forall|g1: int, j1: int, g2: int, j2: int|
                    0 <= g1 < ns.len() && 0 <= j1 < ns[g1].len() && 0 <= g2 < ns.len() && 0 <= j2 < ns[g2].len()
                        && #[trigger] ns[g1][j1] == #[trigger] ns[g2][j2] implies g1 == g2 && j1 == j2 by {
                    let new1 = g1 == f && j1 == gs[f].len();
                    let new2 = g2 == f && j2 == gs[f].len();
                    if !new1 && !new2 {
                        assert(ns[g1][j1] == gs[g1][j1]);
                        assert(ns[g2][j2] == gs[g2][j2]);
                    } else if new1 && !new2 {
                        assert(ns[g2][j2] == gs[g2][j2]);
                        assert(gs[g2][j2] < m);
                    } else if !new1 && new2 {
                        assert(ns[g1][j1] == gs[g1][j1]);
                        assert(gs[g1][j1] < m);
                    }
                }
                assert forall|g: int, j1: int, j2: int| 0 <= g < ns.len() && 0 <= j1 < j2 < ns[g].len() implies !overtakes_spec(
                    scheds[#[trigger] ns[g][j1] as int],
                    scheds[#[trigger] ns[g][j2] as int],
                ) by {
                    if g == f && j2 == gs[f].len() {
                        assert(ns[g][j1] == gs[f][j1]);
                        assert(ns[g][j2] == t);
                        assert(fits_group(gs[f], scheds, m as int));
                        assert(!overtakes_spec(scheds[gs[f][j1] as int], scheds[m as int]));
                    } else {
                        assert(ns[g][j1] == gs[g][j1]);
                        assert(ns[g][j2] == gs[g][j2]);
                    }
                }
            },
            None => {
                assert(ns == gs.push(seq![t]));
                assert forall|k: int| 0 <= k < n implies #[trigger] split_places(ns, k) by {
                    if k < m {
                        assert(split_places(gs, k));
                        let (g, j) = choose|g: int, j: int| 0 <= g < gs.len() && 0 <= j < gs[g].len() && #[trigger] gs[g][j] == k;
                        assert(ns[g][j] == k);
                    } else {
                        assert(ns[gs.len() as int][0] == k);
                    }
                }
                assert forall|g1: int, j1: int, g2: int, j2: int|
                    0 <= g1 < ns.len() && 0 <= j1 < ns[g1].len() && 0 <= g2 < ns.len() && 0 <= j2 < ns[g2].len()
                        && #[trigger] ns[g1][j1] == #[trigger] ns[g2][j2] implies g1 == g2 && j1 == j2 by {
                    if g1 < gs.len() {
                        assert(ns[g1][j1] == gs[g1][j1]);
                    }
                    if g2 < gs.len() {
                        assert(ns[g2][j2] == gs[g2][j2]);
                    }
                }
                assert forall|g: int, j1: int, j2: int| 0 <= g < ns.len() && 0 <= j1 < j2 < ns[g].len() implies !overtakes_spec(
                    scheds[#[trigger] ns[g][j1] as int],
                    scheds[#[trigger] ns[g][j2] as int],
                ) by {
                    assert(ns[g][j1] == gs[g][j1]);
                    assert(ns[g][j2] == gs[g][j2]);
                }
            },
        }
    }
}


/// `x` is an entry of one of the first `g` groups.
pub open spec fn placed_before(groups: Seq<Seq<usize>>, g: nat, x: usize) -> bool {
    exists|h: int, j: int| 0 <= h < g && 0 <= j < groups[h].len() && #[trigger] groups[h][j] == x
}

/// The entries of the first `g` groups, group after group.
pub open spec fn flatten_groups(groups: Seq<Seq<usize>>, g: nat) -> Seq<usize>
    decreases g,
{
    if g == 0 {
        Seq::empty()
    } else {
        flatten_groups(groups, (g - 1) as nat) + groups[g - 1]
    }
}

/// With every entry below `n` and no entry in two places, the flattened
/// first `g` groups hold distinct entries below `n`, and every entry of
/// those groups.
pub proof fn lemma_flatten_props(groups: Seq<Seq<usize>>, g: nat, n: nat)
    requires
        g <= groups.len(),
        forall|h: int, j: int| 0 <= h < groups.len() && 0 <= j < groups[h].len() ==> (#[trigger] groups[h][j]) < n,
        forall|g1: int, j1: int, g2: int, j2: int|
            0 <= g1 < groups.len() && 0 <= j1 < groups[g1].len() && 0 <= g2 < groups.len() && 0 <= j2 < groups[g2].len()
                && #[trigger] groups[g1][j1] == #[trigger] groups[g2][j2] ==> g1 == g2 && j1 == j2,
    ensures
        flatten_groups(groups, g).no_duplicates(),
        forall|i: int| 0 <= i < flatten_groups(groups, g).len() ==> (#[trigger] flatten_groups(groups, g)[i]) < n,
        forall|h: int, j: int| 0 <= h < g && 0 <= j < groups[h].len() ==> flatten_groups(groups, g).contains(#[trigger] groups[h][j]),
        forall|i: int| 0 <= i < flatten_groups(groups, g).len() ==> placed_before(groups, g, #[trigger] flatten_groups(groups, g)[i]),
    decreases g,
{
    if g > 0 {
        let m = (g - 1) as nat;
        lemma_flatten_props(groups, m, n);
        let prev = flatten_groups(groups, m);
        let last = groups[m as int];
        let cur = flatten_groups(groups, g);
        assert(cur == prev + last);
        assert forall|i: int, j: int| 0 <= i < cur.len() && 0 <= j < cur.len() && i != j implies cur[i] != cur[j] by {
            if i < prev.len() && j < prev.len() {
            } else if i >= prev.len() && j >= prev.len() {
                assert(cur[i] == last[i - prev.len()]);
                assert(cur[j] == last[j - prev.len()]);
                if cur[i] == cur[j] {
                    assert(groups[m as int][i - prev.len()] == groups[m as int][j - prev.len()]);
                }
            } else if i < prev.len() {
                assert(placed_before(groups, m, prev[i]));
                let (h, jj) = choose|h: int, jj: int| 0 <= h < m && 0 <= jj < groups[h].len() && #[trigger] groups[h][jj] == prev[i];
                assert(cur[j] == groups[m as int][j - prev.len()]);
                if cur[i] == cur[j] {
                    assert(groups[h][jj] == groups[m as int][j - prev.len()]);
                }
            } else {
                assert(placed_before(groups, m, prev[j]));
                let (h, jj) = choose|h: int, jj: int| 0 <= h < m && 0 <= jj < groups[h].len() && #[trigger] groups[h][jj] == prev[j];
                assert(cur[i] == groups[m as int][i - prev.len()]);
                if cur[i] == cur[j] {
                    assert(groups[h][jj] == groups[m as int][i - prev.len()]);
                }
            }
        }
        assert forall|h: int, j: int| 0 <= h < g && 0 <= j < groups[h].len() implies cur.contains(#[trigger] groups[h][j]) by {
            if h < m {
                assert(prev.contains(groups[h][j]));
                let i = choose|i: int| 0 <= i < prev.len() && prev[i] == groups[h][j];
                assert(cur[i] == prev[i]);
            } else {
                assert(cur[prev.len() + j] == last[j]);
            }
        }
        assert forall|i: int| 0 <= i < cur.len() implies placed_before(groups, g, #[trigger] cur[i]) by {
            if i < prev.len() {
                assert(cur[i] == prev[i]);
                assert(placed_before(groups, m, prev[i]));
            } else {
                assert(groups[m as int][i - prev.len()] == cur[i]);
            }
        }
    }
}

/// Entries of the split lie below the trip count, and groups are not
/// empty.
pub proof fn lemma_split_entries_pub(scheds: Seq<Seq<FeedStopTime>>, n: nat)
    ensures
        forall|g: int, k: int|
            0 <= g < split_spec(scheds, n).len() && 0 <= k < split_spec(scheds, n)[g].len() ==> (
            #[trigger] split_spec(scheds, n)[g][k]) < n,
        forall|g: int| 0 <= g < split_spec(scheds, n).len() ==> (#[trigger] split_spec(scheds, n)[g]).len() >= 1,
{
    lemma_split_entries(scheds, n);
}

} // verus!
