//! The failures a calendar query can report. Every failing operation says
//! which value was at fault; nothing panics.

use vstd::prelude::*;

use crate::text::dec_chars;
use crate::text::u64_to_string;

verus! {

/// Why a calendar operation failed.
#[derive(Clone, Debug, PartialEq, Eq)]
pub enum ProductCalendarError {
    /// A day could not be found; holds a description.
    CantFindDay(String),
    /// A window could not be shifted; holds a description.
    ShiftError(String),
    /// The requested year lies outside the supported range; holds the year.
    InvalidYear(String),
    /// A referenced date is not in the calendar, or a slice is inverted;
    /// holds the offending value.
    DateOutOfRange(String),
    /// A window would run past the end of the sequence; holds the offending
    /// count or index.
    ExceedMaxDaysError(usize),
    /// The quarter number is not 1 to 4; holds the offending number.
    InvalidQuarter(u8),
    /// The override provider failed; holds its report.
    ProviderError(String),
}

impl ProductCalendarError {
    /// The human-readable message for this failure, holding the offending
    /// value.
    pub fn message(&self) -> (r: String)
        ensures
            match *self {
                ProductCalendarError::CantFindDay(ref s) => r@ == s@,
                ProductCalendarError::ShiftError(ref s) => r@ == s@,
                ProductCalendarError::InvalidYear(ref s) => r@ == "\u{414}\u{430}\u{43d}\u{43d}\u{44b}\u{435} \u{43d}\u{430} `"@
                    + s@ + "` \u{433}\u{43e}\u{434} \u{43d}\u{435}\u{434}\u{43e}\u{441}\u{442}\u{443}\u{43f}\u{43d}\u{44b}."@,
                ProductCalendarError::DateOutOfRange(ref s) => r@ == "\u{414}\u{430}\u{442}\u{430} `"@
                    + s@
                    + "` \u{43d}\u{430}\u{445}\u{43e}\u{434}\u{438}\u{442}\u{441}\u{44f} \u{432}\u{43d}\u{435} \u{434}\u{438}\u{430}\u{43f}\u{430}\u{437}\u{43e}\u{43d}\u{430} \u{442}\u{435}\u{43a}\u{443}\u{449}\u{435}\u{433}\u{43e} \u{43f}\u{440}\u{43e}\u{438}\u{437}\u{432}\u{43e}\u{434}\u{441}\u{442}\u{432}\u{435}\u{43d}\u{43d}\u{43e}\u{433}\u{43e} \u{43a}\u{430}\u{43b}\u{435}\u{43d}\u{434}\u{430}\u{440}\u{44f}."@,
                ProductCalendarError::ExceedMaxDaysError(n) => r@ == "\u{41a}\u{43e}\u{43b}\u{438}\u{447}\u{435}\u{441}\u{442}\u{432}\u{43e} \u{434}\u{43d}\u{435}\u{439}: `"@
                    + dec_chars(n as int)
                    + "` \u{43f}\u{440}\u{435}\u{432}\u{44b}\u{448}\u{430}\u{435}\u{442} \u{43c}\u{430}\u{43a}\u{441}\u{438}\u{43c}\u{430}\u{43b}\u{44c}\u{43d}\u{43e} \u{434}\u{43e}\u{43f}\u{443}\u{441}\u{442}\u{438}\u{43c}\u{43e}\u{435} \u{437}\u{43d}\u{430}\u{447}\u{435}\u{43d}\u{438}\u{435}"@,
                ProductCalendarError::InvalidQuarter(q) => r@ == "\u{41d}\u{435}\u{432}\u{435}\u{440}\u{43d}\u{43e} \u{443}\u{43a}\u{430}\u{437}\u{430}\u{43d} \u{43a}\u{432}\u{430}\u{440}\u{442}\u{430}\u{43b}:`"@
                    + dec_chars(q as int)
                    + ". \u{414}\u{43e}\u{43b}\u{436}\u{435}\u{43d} \u{431}\u{44b}\u{442}\u{44c} \u{43e}\u{442} 1 \u{434}\u{43e} 4 \u{432}\u{43a}\u{43b}\u{44e}\u{447}\u{438}\u{442}\u{435}\u{43b}\u{44c}\u{43d}\u{43e}."@,
                ProductCalendarError::ProviderError(ref s) => r@ == s@,
            },
    {
        match self {
            ProductCalendarError::CantFindDay(s) => s.clone(),
            ProductCalendarError::ShiftError(s) => s.clone(),
            ProductCalendarError::InvalidYear(s) => {
                let mut r = String::from_str("\u{414}\u{430}\u{43d}\u{43d}\u{44b}\u{435} \u{43d}\u{430} `");
                r.append(s.as_str());
                r.append("` \u{433}\u{43e}\u{434} \u{43d}\u{435}\u{434}\u{43e}\u{441}\u{442}\u{443}\u{43f}\u{43d}\u{44b}.");
                r
            },
            ProductCalendarError::DateOutOfRange(s) => {
                let mut r = String::from_str("\u{414}\u{430}\u{442}\u{430} `");
                r.append(s.as_str());
                r.append("` \u{43d}\u{430}\u{445}\u{43e}\u{434}\u{438}\u{442}\u{441}\u{44f} \u{432}\u{43d}\u{435} \u{434}\u{438}\u{430}\u{43f}\u{430}\u{437}\u{43e}\u{43d}\u{430} \u{442}\u{435}\u{43a}\u{443}\u{449}\u{435}\u{433}\u{43e} \u{43f}\u{440}\u{43e}\u{438}\u{437}\u{432}\u{43e}\u{434}\u{441}\u{442}\u{432}\u{435}\u{43d}\u{43d}\u{43e}\u{433}\u{43e} \u{43a}\u{430}\u{43b}\u{435}\u{43d}\u{434}\u{430}\u{440}\u{44f}.");
                r
            },
            ProductCalendarError::ExceedMaxDaysError(n) => {
                let mut r = String::from_str("\u{41a}\u{43e}\u{43b}\u{438}\u{447}\u{435}\u{441}\u{442}\u{432}\u{43e} \u{434}\u{43d}\u{435}\u{439}: `");
                r.append(u64_to_string(*n as u64).as_str());
                r.append("` \u{43f}\u{440}\u{435}\u{432}\u{44b}\u{448}\u{430}\u{435}\u{442} \u{43c}\u{430}\u{43a}\u{441}\u{438}\u{43c}\u{430}\u{43b}\u{44c}\u{43d}\u{43e} \u{434}\u{43e}\u{43f}\u{443}\u{441}\u{442}\u{438}\u{43c}\u{43e}\u{435} \u{437}\u{43d}\u{430}\u{447}\u{435}\u{43d}\u{438}\u{435}");
                r
            },
            ProductCalendarError::InvalidQuarter(q) => {
                let mut r = String::from_str("\u{41d}\u{435}\u{432}\u{435}\u{440}\u{43d}\u{43e} \u{443}\u{43a}\u{430}\u{437}\u{430}\u{43d} \u{43a}\u{432}\u{430}\u{440}\u{442}\u{430}\u{43b}:`");
                r.append(u64_to_string(*q as u64).as_str());
                r.append(". \u{414}\u{43e}\u{43b}\u{436}\u{435}\u{43d} \u{431}\u{44b}\u{442}\u{44c} \u{43e}\u{442} 1 \u{434}\u{43e} 4 \u{432}\u{43a}\u{43b}\u{44e}\u{447}\u{438}\u{442}\u{435}\u{43b}\u{44c}\u{43d}\u{43e}.");
                r
            },
            ProductCalendarError::ProviderError(s) => s.clone(),
        }
    }
}

} // verus!
