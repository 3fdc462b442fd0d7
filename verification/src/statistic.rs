//! Aggregate counts of day kinds over a calendar, with the derived rest-day
//! and working-hour figures.

use vstd::prelude::*;

use crate::text::dec_chars;
use crate::text::u64_to_string;

verus! {

/// How many days of each kind a calendar holds.
#[derive(Clone, Copy, Debug, PartialEq, Eq, Structural, Hash)]
pub struct Statistic {
    pub holidays: u16,
    pub work_days: u16,
    pub weekends: u16,
    pub preholidays: u16,
}

impl Statistic {
    /// Builds a statistic from the four counts.
    pub fn new(holidays: u16, work_days: u16, weekends: u16, preholidays: u16) -> (r: Statistic)
        ensures
            r == (Statistic { holidays, work_days, weekends, preholidays }),
    {
        Statistic { holidays, work_days, weekends, preholidays }
    }

    /// Days off work: holidays plus weekend days.
    pub fn rest_days(&self) -> (r: u16)
        requires
            self.holidays + self.weekends <= u16::MAX,
        ensures
            r == self.holidays + self.weekends,
    {
        self.holidays + self.weekends
    }

    /// Working hours: eight for a working day, seven for a shortened
    /// pre-holiday day.
    pub fn work_hours(&self) -> (r: u16)
        requires
            self.work_days * 8 + self.preholidays * 7 <= u16::MAX,
        ensures
            r == self.work_days * 8 + self.preholidays * 7,
    {
        self.work_days * 8 + self.preholidays * 7
    }

    /// The four counts under their fixed export keys. The key spellings,
    /// including `prelolidays`, are contract strings kept verbatim for
    /// compatibility.
    pub fn as_map(&self) -> (r: Vec<(String, u16)>)
        ensures
            r@.len() == 4,
            r@[0].0@ == "holidays"@ && r@[0].1 == self.holidays,
            r@[1].0@ == "workdays"@ && r@[1].1 == self.work_days,
            r@[2].0@ == "weekends"@ && r@[2].1 == self.weekends,
            r@[3].0@ == "prelolidays"@ && r@[3].1 == self.preholidays,
    {
        let mut v: Vec<(String, u16)> = Vec::new();
        v.push((String::from_str("holidays"), self.holidays));
        v.push((String::from_str("workdays"), self.work_days));
        v.push((String::from_str("weekends"), self.weekends));
        v.push((String::from_str("prelolidays"), self.preholidays));
        v
    }

    /// A textual rendering:
    /// `Statistic(holidays=H, work_days=W, weekends=E, preholidays=P)`.
    pub fn display_string(&self) -> (r: String)
        ensures
            r@ == "Statistic(holidays="@ + dec_chars(self.holidays as int) + ", work_days="@
                + dec_chars(self.work_days as int) + ", weekends="@ + dec_chars(
                self.weekends as int,
            ) + ", preholidays="@ + dec_chars(self.preholidays as int) + ")"@,
    {
        let mut s = String::from_str("Statistic(holidays=");
        s.append(u64_to_string(self.holidays as u64).as_str());
        s.append(", work_days=");
        s.append(u64_to_string(self.work_days as u64).as_str());
        s.append(", weekends=");
        s.append(u64_to_string(self.weekends as u64).as_str());
        s.append(", preholidays=");
        s.append(u64_to_string(self.preholidays as u64).as_str());
        s.append(")");
        s
    }
}

impl Default for Statistic {
    /// The all-zero statistic.
    fn default() -> (r: Statistic)
        ensures
            r == (Statistic { holidays: 0, work_days: 0, weekends: 0, preholidays: 0 }),
    {
        Statistic { holidays: 0, work_days: 0, weekends: 0, preholidays: 0 }
    }
}

} // verus!
