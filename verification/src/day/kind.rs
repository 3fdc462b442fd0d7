//! The classification of a calendar day.

use vstd::prelude::*;

use crate::text::str_eq;

verus! {

/// How a day counts: a statutory holiday, a shortened pre-holiday working
/// day, an ordinary working day, or a weekend day.
#[derive(Clone, Copy, Debug, PartialEq, Eq, Structural, Hash)]
pub enum DayKind {
    Holiday,
    Preholiday,
    Work,
    Weekend,
}

/// The name of a day kind.
pub open spec fn kind_name(k: DayKind) -> Seq<char> {
    match k {
        DayKind::Holiday => seq!['H', 'o', 'l', 'i', 'd', 'a', 'y'],
        DayKind::Preholiday => seq!['P', 'r', 'e', 'h', 'o', 'l', 'i', 'd', 'a', 'y'],
        DayKind::Work => seq!['W', 'o', 'r', 'k'],
        DayKind::Weekend => seq!['W', 'e', 'e', 'k', 'e', 'n', 'd'],
    }
}

/// The day kind a name stands for, if any.
pub open spec fn parse_kind_name(s: Seq<char>) -> Option<DayKind> {
    if s == kind_name(DayKind::Holiday) {
        Some(DayKind::Holiday)
    } else if s == kind_name(DayKind::Preholiday) {
        Some(DayKind::Preholiday)
    } else if s == kind_name(DayKind::Work) {
        Some(DayKind::Work)
    } else if s == kind_name(DayKind::Weekend) {
        Some(DayKind::Weekend)
    } else {
        None
    }
}

/// The message given for a name that is no day kind.
pub open spec fn invalid_kind_message(s: Seq<char>) -> Seq<char> {
    "Invalid DayKind: '"@ + s
        + "'. Available options: 'Holiday', 'Preholiday', 'Work', 'Weekend'"@
}

impl DayKind {
    /// The name of this day kind.
    pub fn as_str(&self) -> (r: &'static str)
        ensures
            r@ == kind_name(*self),
    {
        proof {
            reveal_strlit("Holiday");
            reveal_strlit("Preholiday");
            reveal_strlit("Work");
            reveal_strlit("Weekend");
        }
        let r = match self {
            DayKind::Holiday => "Holiday",
            DayKind::Preholiday => "Preholiday",
            DayKind::Work => "Work",
            DayKind::Weekend => "Weekend",
        };
        proof {
            assert(r@ =~= kind_name(*self));
        }
        r
    }

    /// The day kind a name stands for; any other name is refused with a
    /// message that holds the offending name.
    pub fn from_str(s: &str) -> (r: Result<DayKind, String>)
        ensures
            match r {
                Ok(k) => parse_kind_name(s@) == Some(k),
                Err(e) => parse_kind_name(s@) is None && e@ == invalid_kind_message(s@),
            },
    {
        proof {
            reveal_strlit("Holiday");
            reveal_strlit("Preholiday");
            reveal_strlit("Work");
            reveal_strlit("Weekend");
            assert("Holiday"@ =~= kind_name(DayKind::Holiday));
            assert("Preholiday"@ =~= kind_name(DayKind::Preholiday));
            assert("Work"@ =~= kind_name(DayKind::Work));
            assert("Weekend"@ =~= kind_name(DayKind::Weekend));
        }
        if str_eq(s, "Holiday") {
            Ok(DayKind::Holiday)
        } else if str_eq(s, "Preholiday") {
            Ok(DayKind::Preholiday)
        } else if str_eq(s, "Work") {
            Ok(DayKind::Work)
        } else if str_eq(s, "Weekend") {
            Ok(DayKind::Weekend)
        } else {
            let mut e = String::from_str("Invalid DayKind: '");
            e.append(s);
            e.append("'. Available options: 'Holiday', 'Preholiday', 'Work', 'Weekend'");
            Err(e)
        }
    }
}

/// Kind names are read back as the kind they were made from.
pub proof fn lemma_kind_name_round_trip(k: DayKind)
    ensures
        parse_kind_name(kind_name(k)) == Some(k),
{
    match k {
        DayKind::Holiday => {},
        DayKind::Preholiday => {
            assert(kind_name(k)[0] != kind_name(DayKind::Holiday)[0]);
        },
        DayKind::Work => {
            assert(kind_name(k)[0] != kind_name(DayKind::Holiday)[0]);
            assert(kind_name(k)[0] != kind_name(DayKind::Preholiday)[0]);
        },
        DayKind::Weekend => {
            assert(kind_name(k)[0] != kind_name(DayKind::Holiday)[0]);
            assert(kind_name(k)[0] != kind_name(DayKind::Preholiday)[0]);
            assert(kind_name(k)[1] != kind_name(DayKind::Work)[1]);
        },
    }
}

} // verus!
