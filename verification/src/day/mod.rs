//! One calendar day: its date, the weekday derived from it, and its
//! classification.

pub mod kind;

use vstd::prelude::*;

use crate::date::is_weekend_day;
use crate::date::iso_chars;
use crate::date::parse_iso_chars;
use crate::date::parse_weekday_name;
use crate::date::weekday_name;
use crate::date::weekday_of;
use crate::date::Date;
use crate::date::Weekday;
use crate::day::kind::kind_name;
use crate::day::kind::parse_kind_name;
use crate::day::kind::DayKind;

verus! {

/// One calendar day with its weekday and classification.
///
/// Well-formedness ties the weekday to the date; the kind is free, since
/// override records may reclassify any day.
#[derive(Clone, Copy, Debug, PartialEq, Eq, Structural, Hash)]
pub struct Day {
    pub weekday: Weekday,
    pub day: Date,
    pub kind: DayKind,
}

/// The default classification of a weekday: weekend days rest, the rest work.
pub open spec fn default_kind(w: Weekday) -> DayKind {
    if is_weekend_day(w) {
        DayKind::Weekend
    } else {
        DayKind::Work
    }
}

impl Day {
    /// A well-formed day: the date is valid and the weekday is the
    /// calendar-correct weekday of that date.
    pub open spec fn wf(self) -> bool {
        &&& self.day.valid()
        &&& self.weekday == weekday_of(self.day)
    }

    /// Builds the day for a date, with the weekday derived from the date and
    /// the default weekday-based classification.
    pub fn new(day: Date) -> (r: Day)
        requires
            day.valid(),
        ensures
            r.day == day,
            r.weekday == weekday_of(day),
            r.kind == default_kind(weekday_of(day)),
            r.wf(),
    {
        let weekday = day.weekday();
        let kind = match weekday {
            Weekday::Sat | Weekday::Sun => DayKind::Weekend,
            _ => DayKind::Work,
        };
        Day { weekday, day, kind }
    }

    /// The date of this day.
    pub fn get_date(&self) -> (r: Date)
        ensures
            r == self.day,
    {
        self.day
    }

    /// The year of this day.
    pub fn get_year(&self) -> (r: i32)
        ensures
            r == self.day.year as i32,
    {
        self.day.year as i32
    }

    /// The weekday of this day.
    pub fn get_weekday(&self) -> (r: Weekday)
        ensures
            r == self.weekday,
    {
        self.weekday
    }

    /// The classification of this day.
    pub fn get_kind(&self) -> (r: DayKind)
        ensures
            r == self.kind,
    {
        self.kind
    }

    /// Reclassifies this day. Used when override records are built; a day
    /// inside a built calendar is not changed any more.
    pub fn set_kind(&mut self, kind: DayKind)
        ensures
            *final(self) == (Day { kind, ..*old(self) }),
    {
        self.kind = kind;
    }

    /// This day with another classification.
    pub fn with_kind(self, kind: DayKind) -> (r: Day)
        ensures
            r == (Day { kind, ..self }),
    {
        Day { kind, ..self }
    }

    /// Whether two days fall on the same calendar date, whatever their
    /// classification. Merging override records compares days this way.
    pub fn same_date(&self, other: &Day) -> (r: bool)
        ensures
            r == (self.day == other.day),
    {
        self.day == other.day
    }

    /// This day as string key/value pairs: the weekday name, the ISO date,
    /// and the kind name.
    pub fn as_map(&self) -> (r: Vec<(String, String)>)
        ensures
            r@.len() == 3,
            r@[0].0@ == "weekday"@ && r@[0].1@ == weekday_name(self.weekday),
            r@[1].0@ == "day"@ && r@[1].1@ == iso_chars(self.day),
            r@[2].0@ == "kind"@ && r@[2].1@ == kind_name(self.kind),
    {
        let mut v: Vec<(String, String)> = Vec::new();
        v.push((String::from_str("weekday"), String::from_str(self.weekday.as_str())));
        v.push((String::from_str("day"), self.day.to_iso_string()));
        v.push((String::from_str("kind"), String::from_str(self.kind.as_str())));
        v
    }

    /// A textual rendering: `Day(day=DATE, kind=KIND, weekday=WEEKDAY)`.
    pub fn display_string(&self) -> (r: String)
        ensures
            r@ == "Day(day="@ + iso_chars(self.day) + ", kind="@ + kind_name(self.kind)
                + ", weekday="@ + weekday_name(self.weekday) + ")"@,
    {
        let mut s = String::from_str("Day(day=");
        s.append(self.day.to_iso_string().as_str());
        s.append(", kind=");
        s.append(self.kind.as_str());
        s.append(", weekday=");
        s.append(self.weekday.as_str());
        s.append(")");
        s
    }
}

/// What rebuilding a day from its string entries yields: the weekday, date
/// and kind strings must each parse, and the weekday must be the one the
/// date gives.
pub open spec fn reconstruct_day(ws: Seq<char>, ds: Seq<char>, ks: Seq<char>) -> Option<Day> {
    match (parse_weekday_name(ws), parse_iso_chars(ds), parse_kind_name(ks)) {
        (Some(w), Some(dt), Some(k)) => {
            if w == weekday_of(dt) {
                Some(Day { weekday: w, day: dt, kind: k })
            } else {
                None
            }
        },
        _ => None,
    }
}

/// Rebuilds a day from the string entries that `as_map` hands out.
pub fn from_map_entries(weekday: &str, day: &str, kind: &str) -> (r: Option<Day>)
    ensures
        r == reconstruct_day(weekday@, day@, kind@),
{
    let w = match Weekday::from_name(weekday) {
        Some(w) => w,
        None => { return None },
    };
    let dt = match Date::from_iso(day) {
        Some(d) => d,
        None => { return None },
    };
    let k = match DayKind::from_str(kind) {
        Ok(k) => k,
        Err(_) => { return None },
    };
    if w == dt.weekday() {
        Some(Day { weekday: w, day: dt, kind: k })
    } else {
        None
    }
}

/// Round trip: the string entries of a well-formed day rebuild exactly that
/// day, so in particular a day equal by date.
pub proof fn lemma_day_map_round_trip(d: Day)
    requires
        d.wf(),
    ensures
        reconstruct_day(weekday_name(d.weekday), iso_chars(d.day), kind_name(d.kind)) == Some(d),
{
    crate::date::lemma_weekday_name_round_trip(d.weekday);
    crate::date::lemma_iso_round_trip(d.day);
    crate::day::kind::lemma_kind_name_round_trip(d.kind);
}

} // verus!
