//! Reading override records out of the override page's cells: month names,
//! day-cell texts, and the page address for a year. Fetching and walking
//! the page itself is the caller's business; everything here works on the
//! plain texts the page shows.

use vstd::prelude::*;

use crate::date::weekday_of;
use crate::date::Date;
use crate::day::kind::DayKind;
use crate::day::Day;
use crate::text::dec_chars;
use crate::text::spec_parse_u32;
use crate::text::str_eq;
use crate::text::stripped;

verus! {

/// Builds override day records for one year from the texts of the override
/// page. Holds the year and the address of that year's page.
pub struct ProductCalendarParser {
    pub year: u16,
    pub url: String,
}

/// The one-based number of a month, by its Russian name as the override
/// page spells it.
pub open spec fn spec_month_number(s: Seq<char>) -> Option<u8> {
    if s == "\u{42f}\u{43d}\u{432}\u{430}\u{440}\u{44c}"@ {
        Some(1u8)
    } else if s == "\u{424}\u{435}\u{432}\u{440}\u{430}\u{43b}\u{44c}"@ {
        Some(2u8)
    } else if s == "\u{41c}\u{430}\u{440}\u{442}"@ {
        Some(3u8)
    } else if s == "\u{410}\u{43f}\u{440}\u{435}\u{43b}\u{44c}"@ {
        Some(4u8)
    } else if s == "\u{41c}\u{430}\u{439}"@ {
        Some(5u8)
    } else if s == "\u{418}\u{44e}\u{43d}\u{44c}"@ {
        Some(6u8)
    } else if s == "\u{418}\u{44e}\u{43b}\u{44c}"@ {
        Some(7u8)
    } else if s == "\u{410}\u{432}\u{433}\u{443}\u{441}\u{442}"@ {
        Some(8u8)
    } else if s == "\u{421}\u{435}\u{43d}\u{442}\u{44f}\u{431}\u{440}\u{44c}"@ {
        Some(9u8)
    } else if s == "\u{41e}\u{43a}\u{442}\u{44f}\u{431}\u{440}\u{44c}"@ {
        Some(10u8)
    } else if s == "\u{41d}\u{43e}\u{44f}\u{431}\u{440}\u{44c}"@ {
        Some(11u8)
    } else if s == "\u{414}\u{435}\u{43a}\u{430}\u{431}\u{440}\u{44c}"@ {
        Some(12u8)
    } else {
        None
    }
}

/// The override record a day-cell text stands for: the text, stripped of
/// filler, must denote a day of the given month in the given year; the
/// record carries the date, its weekday, and the given classification.
pub open spec fn day_from_text(year: u16, month: u8, text: Seq<char>, kind: DayKind) -> Option<
    Day,
> {
    match spec_parse_u32(stripped(text)) {
        Some(v) => {
            if 1 <= v <= 31 {
                let dt = Date { year, month, day: v as u8 };
                if dt.valid() {
                    Some(Day { weekday: weekday_of(dt), day: dt, kind })
                } else {
                    None
                }
            } else {
                None
            }
        },
        None => None,
    }
}

/// The override records a month's day-cell texts stand for, in the order
/// the texts come; texts that name no day of the month are dropped.
pub open spec fn collected_days(
    year: u16,
    month: u8,
    texts: Seq<String>,
    kind: DayKind,
) -> Seq<Day>
    decreases texts.len(),
{
    if texts.len() == 0 {
        Seq::empty()
    } else {
        let rest = collected_days(year, month, texts.drop_last(), kind);
        match day_from_text(year, month, texts.last()@, kind) {
            Some(d) => rest.push(d),
            None => rest,
        }
    }
}

impl ProductCalendarParser {
    /// A parser for one year's override page: remembers the year and the
    /// address of the page that publishes it.
    pub fn new(year: u16) -> (r: ProductCalendarParser)
        ensures
            r.year == year,
            r.url@ == "https://www.consultant.ru/law/ref/calendar/proizvodstvennye/"@ + dec_chars(
                year as int,
            ),
    {
        let mut url = String::from_str(
            "https://www.consultant.ru/law/ref/calendar/proizvodstvennye/",
        );
        url.append(crate::text::u64_to_string(year as u64).as_str());
        ProductCalendarParser { year, url }
    }

    /// The one-based number of a Russian month name, if it is one.
    pub fn month_number(&self, name: &str) -> (r: Option<u8>)
        ensures
            r == spec_month_number(name@),
    {
        if str_eq(name, "\u{42f}\u{43d}\u{432}\u{430}\u{440}\u{44c}") {
            Some(1)
        } else if str_eq(name, "\u{424}\u{435}\u{432}\u{440}\u{430}\u{43b}\u{44c}") {
            Some(2)
        } else if str_eq(name, "\u{41c}\u{430}\u{440}\u{442}") {
            Some(3)
        } else if str_eq(name, "\u{410}\u{43f}\u{440}\u{435}\u{43b}\u{44c}") {
            Some(4)
        } else if str_eq(name, "\u{41c}\u{430}\u{439}") {
            Some(5)
        } else if str_eq(name, "\u{418}\u{44e}\u{43d}\u{44c}") {
            Some(6)
        } else if str_eq(name, "\u{418}\u{44e}\u{43b}\u{44c}") {
            Some(7)
        } else if str_eq(name, "\u{410}\u{432}\u{433}\u{443}\u{441}\u{442}") {
            Some(8)
        } else if str_eq(name, "\u{421}\u{435}\u{43d}\u{442}\u{44f}\u{431}\u{440}\u{44c}") {
            Some(9)
        } else if str_eq(name, "\u{41e}\u{43a}\u{442}\u{44f}\u{431}\u{440}\u{44c}") {
            Some(10)
        } else if str_eq(name, "\u{41d}\u{43e}\u{44f}\u{431}\u{440}\u{44c}") {
            Some(11)
        } else if str_eq(name, "\u{414}\u{435}\u{43a}\u{430}\u{431}\u{440}\u{44c}") {
            Some(12)
        } else {
            None
        }
    }

    /// The date the cleaned day text names in the given month of this
    /// parser's year, when it names one.
    pub fn to_date(&self, day: &str, month: u8) -> (r: Option<Date>)
        ensures
            r == (match spec_parse_u32(stripped(day@)) {
                Some(v) => {
                    if 1 <= v <= 31 && (Date { year: self.year, month, day: v as u8 }).valid() {
                        Some(Date { year: self.year, month, day: v as u8 })
                    } else {
                        None::<Date>
                    }
                },
                None => None::<Date>,
            }),
    {
        match crate::text::parse_day_text(day) {
            None => None,
            Some(v) => {
                if v < 1 || v > 31 {
                    None
                } else {
                    Date::new(self.year, month, v as u8)
                }
            },
        }
    }

    /// The override record one day-cell text stands for, classified `kind`.
    pub fn make_day(&self, text: &str, month: u8, kind: DayKind) -> (r: Option<Day>)
        ensures
            r == day_from_text(self.year, month, text@, kind),
    {
        match self.to_date(text, month) {
            None => None,
            Some(dt) => Some(Day::new(dt).with_kind(kind)),
        }
    }

    /// The override records of one month, built from its day-cell texts in
    /// order.
    pub fn collect_days(&self, day_texts: &Vec<String>, month_number: u8, day_kind: DayKind) -> (r:
        Vec<Day>)
        ensures
            r@ == collected_days(self.year, month_number, day_texts@, day_kind),
    {
        let total = day_texts.len();
        let mut out: Vec<Day> = Vec::new();
        let mut i: usize = 0;
        while i < total
            invariant
                i <= total,
                total == day_texts@.len(),
                out@ == collected_days(
                    self.year,
                    month_number,
                    day_texts@.take(i as int),
                    day_kind,
                ),
            decreases total - i,
        {
            proof {
                assert(day_texts@.take(i as int + 1).drop_last() =~= day_texts@.take(i as int));
                assert(day_texts@.take(i as int + 1).last() == day_texts@[i as int]);
            }
            match self.make_day(day_texts[i].as_str(), month_number, day_kind) {
                Some(d) => out.push(d),
                None => (),
            }
            i += 1;
        }
        proof {
            assert(day_texts@.take(total as int) =~= day_texts@);
        }
        out
    }
}

} // verus!
