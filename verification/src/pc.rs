//! The production calendar itself: an ordered sequence of classified days,
//! the merge of override records into the default weekday rule, and the
//! range, offset and statistics queries over the sequence.

use vstd::prelude::*;

use crate::date::days_before_year;
use crate::date::days_in_year;
use crate::date::is_weekend_day;
use crate::date::iso_chars;
use crate::date::lemma_days_before_month_whole_year;
use crate::date::lemma_index_injective;
use crate::date::year_length;
use crate::date::Date;
use crate::day::kind::DayKind;
use crate::day::default_kind;
use crate::day::Day;
use crate::errors::ProductCalendarError;
use crate::statistic::Statistic;
use crate::text::dec_chars;

verus! {

/// An ordered sequence of classified days, strictly sorted by date.
#[derive(Clone, Debug)]
pub struct ProductCalendar {
    pub calendar: Vec<Day>,
}

/// Strictly ascending by date: no duplicate dates, calendar order.
pub open spec fn sorted_by_date(s: Seq<Day>) -> bool {
    forall|i: int, j: int|
        0 <= i < j < s.len() ==> s[i].day.index() < s[j].day.index()
}

/// Every day is well formed.
pub open spec fn all_wf(s: Seq<Day>) -> bool {
    forall|i: int| 0 <= i < s.len() ==> (#[trigger] s[i]).wf()
}

/// Whether some day of `s` falls on date `d`.
pub open spec fn has_date(s: Seq<Day>, d: Date) -> bool {
    exists|i: int| 0 <= i < s.len() && (#[trigger] s[i]).day == d
}

/// The position of the day on date `d`; meaningful when `has_date` holds
/// and `s` is sorted, which makes the position unique.
pub open spec fn index_of_date(s: Seq<Day>, d: Date) -> int {
    choose|i: int| 0 <= i < s.len() && (#[trigger] s[i]).day == d
}

/// Whether `s` holds the very day `d` (date and classification).
pub open spec fn contains_day(s: Seq<Day>, d: Day) -> bool {
    exists|i: int| 0 <= i < s.len() && s[i] == d
}

/// No two days of `s` share a date.
pub open spec fn distinct_dates(s: Seq<Day>) -> bool {
    forall|i: int, j: int| 0 <= i < j < s.len() ==> s[i].day != s[j].day
}

/// In a sorted sequence a date appears at most once.
pub proof fn lemma_sorted_date_unique(s: Seq<Day>, i: int, j: int)
    requires
        sorted_by_date(s),
        0 <= i < s.len(),
        0 <= j < s.len(),
        s[i].day == s[j].day,
    ensures
        i == j,
{
}

/// In a sorted calendar, the day found at a contained day's date is that
/// very day: one date, one classification. In particular, after a merge
/// every overridden date answers with the override's kind.
pub proof fn lemma_contained_day_is_found(s: Seq<Day>, d: Day)
    requires
        sorted_by_date(s),
        contains_day(s, d),
    ensures
        has_date(s, d.day),
        s[index_of_date(s, d.day)] == d,
{
    let w = choose|i: int| 0 <= i < s.len() && s[i] == d;
    assert(s[w].day == d.day);
    lemma_sorted_date_unique(s, w, index_of_date(s, d.day));
}

/// A slice of a sorted, well-formed sequence is sorted and well formed.
pub proof fn lemma_subrange_wf(s: Seq<Day>, a: int, b: int)
    requires
        sorted_by_date(s),
        all_wf(s),
        0 <= a <= b <= s.len(),
    ensures
        sorted_by_date(s.subrange(a, b)),
        all_wf(s.subrange(a, b)),
{
    let t = s.subrange(a, b);
    assert forall|i: int| 0 <= i < t.len() implies (#[trigger] t[i]).wf() by {
        assert(t[i] == s[a + i]);
    }
}

impl ProductCalendar {
    /// The calendar invariant: days are strictly sorted by date, and each
    /// day is well formed.
    pub open spec fn wf(self) -> bool {
        &&& sorted_by_date(self.calendar@)
        &&& all_wf(self.calendar@)
    }

    /// Number of days in the calendar.
    pub fn total_days(&self) -> (r: usize)
        ensures
            r == self.calendar@.len(),
    {
        self.calendar.len()
    }

    /// The first day, when there is one.
    pub fn first(&self) -> (r: Option<Day>)
        ensures
            match r {
                Some(d) => self.calendar@.len() > 0 && d == self.calendar@[0],
                None => self.calendar@.len() == 0,
            },
    {
        if self.calendar.len() == 0 {
            None
        } else {
            Some(self.calendar[0])
        }
    }

    /// The last day, when there is one.
    pub fn last(&self) -> (r: Option<Day>)
        ensures
            match r {
                Some(d) => self.calendar@.len() > 0 && d == self.calendar@[self.calendar@.len()
                    - 1],
                None => self.calendar@.len() == 0,
            },
    {
        if self.calendar.len() == 0 {
            None
        } else {
            Some(self.calendar[self.calendar.len() - 1])
        }
    }

    /// All days of the calendar, in order.
    pub fn all_days(&self) -> (r: Vec<Day>)
        ensures
            r@ == self.calendar@,
    {
        copy_range(&self.calendar, 0, self.calendar.len())
    }

    /// The position of the day on `date`, scanning from the front.
    fn find_date(&self, date: Date) -> (r: Option<usize>)
        ensures
            match r {
                Some(i) => i < self.calendar@.len() && self.calendar@[i as int].day == date
                    && has_date(self.calendar@, date),
                None => !has_date(self.calendar@, date),
            },
    {
        let mut i: usize = 0;
        while i < self.calendar.len()
            invariant
                i <= self.calendar@.len(),
                forall|j: int| 0 <= j < i ==> (#[trigger] self.calendar@[j]).day != date,
            decreases self.calendar@.len() - i,
        {
            if self.calendar[i].day == date {
                return Some(i);
            }
            i += 1;
        }
        None
    }

    /// The day on the given date, when the calendar holds one.
    pub fn info_by_date(&self, date: Date) -> (r: Option<Day>)
        requires
            self.wf(),
        ensures
            match r {
                Some(d) => has_date(self.calendar@, date) && d == self.calendar@[index_of_date(
                    self.calendar@,
                    date,
                )] && d.day == date,
                None => !has_date(self.calendar@, date),
            },
    {
        match self.find_date(date) {
            Some(i) => {
                let d = self.calendar[i];
                proof {
                    lemma_sorted_date_unique(
                        self.calendar@,
                        i as int,
                        index_of_date(self.calendar@, date),
                    );
                }
                Some(d)
            },
            None => None,
        }
    }
}

/// Whether a day counts toward a span of working days.
pub open spec fn is_workish(d: Day) -> bool {
    d.kind == DayKind::Work || d.kind == DayKind::Preholiday
}

/// The position of the first working or pre-holiday day at or after `k`,
/// or the length of `s` when none follows.
pub open spec fn first_workish_from(s: Seq<Day>, k: int) -> int
    decreases s.len() - k,
    when 0 <= k <= s.len()
{
    if k >= s.len() {
        s.len() as int
    } else if is_workish(s[k]) {
        k
    } else {
        first_workish_from(s, k + 1)
    }
}

/// `v` as a `usize`, saturating at the largest one.
pub open spec fn clamp_usize(v: int) -> usize {
    if v <= usize::MAX {
        v as usize
    } else {
        usize::MAX
    }
}

/// What `period_by_number_of_days` yields on a calendar holding the days
/// `s`: the `n`-day window of `s` that starts at `date`, when `date` is
/// present and the window fits.
pub open spec fn period_by_days_post(
    s: Seq<Day>,
    date: Date,
    n: int,
    r: Result<ProductCalendar, ProductCalendarError>,
) -> bool {
    if has_date(s, date) {
        let i = index_of_date(s, date);
        if i + n <= s.len() {
            r matches Ok(pc) && pc.calendar@ == s.subrange(i, i + n) && pc.wf()
        } else {
            r == Err::<ProductCalendar, ProductCalendarError>(
                ProductCalendarError::ExceedMaxDaysError(clamp_usize(i + n)),
            )
        }
    } else {
        r matches Err(ProductCalendarError::DateOutOfRange(m)) && m@ == iso_chars(date)
    }
}

/// A served day window holds exactly `n` consecutive entries of the
/// calendar, the first of which falls on the requested date; a window of
/// zero days is empty.
pub proof fn lemma_period_window(
    s: Seq<Day>,
    date: Date,
    n: int,
    r: Result<ProductCalendar, ProductCalendarError>,
)
    requires
        period_by_days_post(s, date, n, r),
        has_date(s, date),
        0 <= n,
        index_of_date(s, date) + n <= s.len(),
    ensures
        r is Ok,
        r->Ok_0.calendar@.len() == n,
        forall|k: int|
            0 <= k < n ==> r->Ok_0.calendar@[k] == s[index_of_date(s, date) + k],
        n > 0 ==> r->Ok_0.calendar@[0].day == date,
{
    let i = index_of_date(s, date);
    assert(0 <= i < s.len() && s[i].day == date);
}

impl ProductCalendar {
    /// The window of `days` consecutive entries that starts at `date`:
    /// exactly `days` entries, the first of which falls on `date`.
    pub fn period_by_number_of_days(&self, date: Date, days: usize) -> (r: Result<
        ProductCalendar,
        ProductCalendarError,
    >)
        requires
            self.wf(),
        ensures
            period_by_days_post(self.calendar@, date, days as int, r),
    {
        let total = self.calendar.len();
        match self.find_date(date) {
            None => Err(ProductCalendarError::DateOutOfRange(date.to_iso_string())),
            Some(i) => {
                proof {
                    lemma_sorted_date_unique(
                        self.calendar@,
                        i as int,
                        index_of_date(self.calendar@, date),
                    );
                }
                match i.checked_add(days) {
                    Some(end) => {
                        if end <= total {
                            let part = copy_range(&self.calendar, i, end);
                            proof {
                                lemma_subrange_wf(self.calendar@, i as int, end as int);
                            }
                            Ok(ProductCalendar { calendar: part })
                        } else {
                            Err(ProductCalendarError::ExceedMaxDaysError(end))
                        }
                    },
                    None => Err(ProductCalendarError::ExceedMaxDaysError(usize::MAX)),
                }
            },
        }
    }

    /// The single day that lies `weeks` whole weeks after `date` in the
    /// sequence.
    pub fn after_nth_weeks(&self, date: Date, weeks: usize) -> (r: Result<
        Day,
        ProductCalendarError,
    >)
        requires
            self.wf(),
        ensures
            ({
                let s = self.calendar@;
                if has_date(s, date) {
                    let e = index_of_date(s, date) + weeks * 7;
                    if e < s.len() {
                        r == Ok::<Day, ProductCalendarError>(s[e])
                    } else {
                        r == Err::<Day, ProductCalendarError>(
                            ProductCalendarError::ExceedMaxDaysError(clamp_usize(e)),
                        )
                    }
                } else {
                    r matches Err(ProductCalendarError::DateOutOfRange(m)) && m@ == iso_chars(
                        date,
                    )
                }
            }),
    {
        let total = self.calendar.len();
        match self.find_date(date) {
            None => Err(ProductCalendarError::DateOutOfRange(date.to_iso_string())),
            Some(i) => {
                proof {
                    lemma_sorted_date_unique(
                        self.calendar@,
                        i as int,
                        index_of_date(self.calendar@, date),
                    );
                }
                let step = match weeks.checked_mul(7) {
                    Some(w) => w,
                    None => { return Err(ProductCalendarError::ExceedMaxDaysError(usize::MAX)) },
                };
                match i.checked_add(step) {
                    Some(e) => {
                        if e < total {
                            Ok(self.calendar[e])
                        } else {
                            Err(ProductCalendarError::ExceedMaxDaysError(e))
                        }
                    },
                    None => Err(ProductCalendarError::ExceedMaxDaysError(usize::MAX)),
                }
            },
        }
    }

    /// The first working or pre-holiday day strictly after `cur_day`.
    pub fn next_work_day(&self, cur_day: Date) -> (r: Result<Day, ProductCalendarError>)
        requires
            self.wf(),
        ensures
            ({
                let s = self.calendar@;
                if has_date(s, cur_day) {
                    let j = first_workish_from(s, index_of_date(s, cur_day) + 1);
                    if j < s.len() {
                        r == Ok::<Day, ProductCalendarError>(s[j]) && is_workish(s[j])
                    } else {
                        r matches Err(ProductCalendarError::DateOutOfRange(m)) && m@ == iso_chars(
                            cur_day,
                        )
                    }
                } else {
                    r matches Err(ProductCalendarError::DateOutOfRange(m)) && m@ == iso_chars(
                        cur_day,
                    )
                }
            }),
    {
        let total = self.calendar.len();
        match self.find_date(cur_day) {
            None => Err(ProductCalendarError::DateOutOfRange(cur_day.to_iso_string())),
            Some(i) => {
                proof {
                    lemma_sorted_date_unique(
                        self.calendar@,
                        i as int,
                        index_of_date(self.calendar@, cur_day),
                    );
                }
                let mut k: usize = i + 1;
                while k < self.calendar.len()
                    invariant
                        i < k <= self.calendar@.len(),
                        has_date(self.calendar@, cur_day),
                        i == index_of_date(self.calendar@, cur_day),
                        first_workish_from(self.calendar@, i + 1) == first_workish_from(
                            self.calendar@,
                            k as int,
                        ),
                        forall|a: int| i < a < k ==> !is_workish(#[trigger] self.calendar@[a]),
                    decreases self.calendar@.len() - k,
                {
                    let d = self.calendar[k];
                    if d.kind == DayKind::Work || d.kind == DayKind::Preholiday {
                        proof {
                            assert(first_workish_from(self.calendar@, k as int) == k as int);
                        }
                        return Ok(d);
                    }
                    k += 1;
                }
                proof {
                    assert(first_workish_from(self.calendar@, k as int)
                        == self.calendar@.len() as int);
                }
                Err(ProductCalendarError::DateOutOfRange(cur_day.to_iso_string()))
            },
        }
    }

    /// The inclusive stretch of the sequence between `start` and `end`.
    pub fn period_slice(&self, start: Date, end: Date) -> (r: Result<
        ProductCalendar,
        ProductCalendarError,
    >)
        requires
            self.wf(),
        ensures
            ({
                let s = self.calendar@;
                if has_date(s, start) && has_date(s, end) {
                    let si = index_of_date(s, start);
                    let ei = index_of_date(s, end);
                    if si <= ei {
                        r matches Ok(pc) && pc.calendar@ == s.subrange(si, ei + 1) && pc.wf()
                    } else {
                        r matches Err(ProductCalendarError::DateOutOfRange(m)) && m@ == iso_chars(
                            start,
                        )
                    }
                } else {
                    r matches Err(ProductCalendarError::DateOutOfRange(m)) && m@ == iso_chars(
                        start,
                    ) + " - "@ + iso_chars(end)
                }
            }),
    {
        let total = self.calendar.len();
        let si = self.find_date(start);
        let ei = self.find_date(end);
        match (si, ei) {
            (Some(a), Some(b)) => {
                proof {
                    lemma_sorted_date_unique(
                        self.calendar@,
                        a as int,
                        index_of_date(self.calendar@, start),
                    );
                    lemma_sorted_date_unique(
                        self.calendar@,
                        b as int,
                        index_of_date(self.calendar@, end),
                    );
                }
                if a > b {
                    Err(ProductCalendarError::DateOutOfRange(start.to_iso_string()))
                } else {
                    let part = copy_range(&self.calendar, a, b + 1);
                    proof {
                        lemma_subrange_wf(self.calendar@, a as int, b as int + 1);
                    }
                    Ok(ProductCalendar { calendar: part })
                }
            },
            _ => {
                let mut m = start.to_iso_string();
                m.append(" - ");
                m.append(end.to_iso_string().as_str());
                proof {
                    reveal_strlit(" - ");
                }
                Err(ProductCalendarError::DateOutOfRange(m))
            },
        }
    }
}

/// The predicate that keeps the days of one kind.
pub open spec fn kind_pred(kind: DayKind) -> spec_fn(Day) -> bool {
    |d: Day| d.kind == kind
}

/// Number of days of kind `k` in `s`.
pub open spec fn count_kind(s: Seq<Day>, k: DayKind) -> int {
    s.filter(kind_pred(k)).len() as int
}

/// Filtering one more element extends the filtered sequence by that element
/// exactly when the predicate keeps it.
proof fn lemma_filter_step(s: Seq<Day>, i: int, pred: spec_fn(Day) -> bool)
    requires
        0 <= i < s.len(),
    ensures
        pred(s[i]) ==> s.take(i + 1).filter(pred) == s.take(i).filter(pred).push(s[i]),
        !pred(s[i]) ==> s.take(i + 1).filter(pred) == s.take(i).filter(pred),
{
    reveal(Seq::filter);
    assert(s.take(i + 1).drop_last() =~= s.take(i));
    assert(s.take(i + 1).last() == s[i]);
}

/// Filtering a sorted, well-formed sequence keeps it sorted and well
/// formed, and every kept day is no later than the last day.
proof fn lemma_filter_wf(s: Seq<Day>, pred: spec_fn(Day) -> bool)
    requires
        sorted_by_date(s),
        all_wf(s),
    ensures
        sorted_by_date(s.filter(pred)),
        all_wf(s.filter(pred)),
        forall|a: int|
            0 <= a < s.filter(pred).len() ==> s.len() > 0 && (#[trigger] s.filter(
                pred,
            )[a]).day.index() <= s[s.len() - 1].day.index(),
    decreases s.len(),
{
    reveal(Seq::filter);
    if s.len() > 0 {
        let t = s.drop_last();
        assert(forall|a: int| 0 <= a < t.len() ==> t[a] == s[a]);
        lemma_filter_wf(t, pred);
        let f = s.filter(pred);
        let ft = t.filter(pred);
        if pred(s.last()) {
            assert(f == ft.push(s.last()));
            assert forall|a: int, b: int| 0 <= a < b < f.len() implies f[a].day.index()
                < f[b].day.index() by {
                if b < f.len() - 1 {
                    assert(f[a] == ft[a] && f[b] == ft[b]);
                } else {
                    assert(f[b] == s.last());
                    assert(f[a] == ft[a]);
                    if t.len() > 0 {
                        assert(ft[a].day.index() <= t[t.len() - 1].day.index());
                        assert(t[t.len() - 1] == s[s.len() - 2]);
                    } else {
                        assert(ft.len() == 0);
                    }
                }
            }
        } else {
            assert(f == ft);
            if t.len() > 0 {
                assert(t[t.len() - 1] == s[s.len() - 2]);
            } else {
                assert(f.len() == 0);
            }
        }
    }
}

impl ProductCalendar {
    /// All days of the given kind, in calendar order.
    pub fn by_kind(&self, kind: DayKind) -> (r: ProductCalendar)
        requires
            self.wf(),
        ensures
            r.calendar@ == self.calendar@.filter(kind_pred(kind)),
            r.wf(),
    {
        let total = self.calendar.len();
        let mut out: Vec<Day> = Vec::new();
        let mut i: usize = 0;
        while i < total
            invariant
                i <= total,
                total == self.calendar@.len(),
                out@ == self.calendar@.take(i as int).filter(kind_pred(kind)),
            decreases total - i,
        {
            let d = self.calendar[i];
            proof {
                lemma_filter_step(self.calendar@, i as int, kind_pred(kind));
            }
            if d.kind == kind {
                out.push(d);
            }
            i += 1;
        }
        proof {
            assert(self.calendar@.take(total as int) =~= self.calendar@);
            lemma_filter_wf(self.calendar@, kind_pred(kind));
        }
        ProductCalendar { calendar: out }
    }

    /// Counts the days of each kind. The four counts always sum to the
    /// number of days in the calendar.
    pub fn statistic(&self) -> (r: Statistic)
        requires
            self.calendar@.len() <= u16::MAX,
        ensures
            r.holidays == count_kind(self.calendar@, DayKind::Holiday),
            r.preholidays == count_kind(self.calendar@, DayKind::Preholiday),
            r.work_days == count_kind(self.calendar@, DayKind::Work),
            r.weekends == count_kind(self.calendar@, DayKind::Weekend),
            r.holidays + r.work_days + r.weekends + r.preholidays == self.calendar@.len(),
    {
        let total = self.calendar.len();
        let mut holidays: u16 = 0;
        let mut preholidays: u16 = 0;
        let mut work_days: u16 = 0;
        let mut weekends: u16 = 0;
        let mut i: usize = 0;
        while i < total
            invariant
                i <= total,
                total == self.calendar@.len(),
                total <= u16::MAX,
                holidays == count_kind(self.calendar@.take(i as int), DayKind::Holiday),
                preholidays == count_kind(self.calendar@.take(i as int), DayKind::Preholiday),
                work_days == count_kind(self.calendar@.take(i as int), DayKind::Work),
                weekends == count_kind(self.calendar@.take(i as int), DayKind::Weekend),
                holidays + preholidays + work_days + weekends == i,
            decreases total - i,
        {
            let d = self.calendar[i];
            proof {
                lemma_filter_step(self.calendar@, i as int, kind_pred(DayKind::Holiday));
                lemma_filter_step(self.calendar@, i as int, kind_pred(DayKind::Preholiday));
                lemma_filter_step(self.calendar@, i as int, kind_pred(DayKind::Work));
                lemma_filter_step(self.calendar@, i as int, kind_pred(DayKind::Weekend));
            }
            match d.kind {
                DayKind::Holiday => holidays = holidays + 1,
                DayKind::Preholiday => preholidays = preholidays + 1,
                DayKind::Work => work_days = work_days + 1,
                DayKind::Weekend => weekends = weekends + 1,
            }
            i += 1;
        }
        proof {
            assert(self.calendar@.take(total as int) =~= self.calendar@);
        }
        Statistic { holidays, work_days, weekends, preholidays }
    }
}

/// The end of the window that starts at `i` and takes `n` working or
/// pre-holiday days: just past the `n`-th such day, or one past the end of
/// `s` when fewer than `n` remain.
pub open spec fn workish_prefix_end(s: Seq<Day>, i: int, n: int) -> int
    decreases s.len() - i,
    when 0 <= i <= s.len()
{
    if n <= 0 {
        i
    } else if i >= s.len() {
        s.len() as int + 1
    } else if is_workish(s[i]) {
        workish_prefix_end(s, i + 1, n - 1)
    } else {
        workish_prefix_end(s, i + 1, n)
    }
}

impl ProductCalendar {
    /// The window that starts at `date` and runs up to and including the
    /// `work_days`-th working or pre-holiday day. Weekend days and holidays
    /// inside the span are included but do not count.
    pub fn period_by_number_of_work_days(&self, date: Date, work_days: usize) -> (r: Result<
        ProductCalendar,
        ProductCalendarError,
    >)
        requires
            self.wf(),
        ensures
            ({
                let s = self.calendar@;
                if has_date(s, date) {
                    let e = workish_prefix_end(s, index_of_date(s, date), work_days as int);
                    if e <= s.len() {
                        r matches Ok(pc) && pc.calendar@ == s.subrange(
                            index_of_date(s, date),
                            e,
                        ) && pc.wf()
                    } else {
                        r == Err::<ProductCalendar, ProductCalendarError>(
                            ProductCalendarError::ExceedMaxDaysError(s.len() as usize),
                        )
                    }
                } else {
                    r matches Err(ProductCalendarError::DateOutOfRange(m)) && m@ == iso_chars(
                        date,
                    )
                }
            }),
    {
        let total = self.calendar.len();
        match self.find_date(date) {
            None => Err(ProductCalendarError::DateOutOfRange(date.to_iso_string())),
            Some(i) => {
                proof {
                    lemma_sorted_date_unique(
                        self.calendar@,
                        i as int,
                        index_of_date(self.calendar@, date),
                    );
                }
                let mut k: usize = i;
                let mut remaining: usize = work_days;
                while k < total && remaining > 0
                    invariant
                        i <= k <= total,
                        total == self.calendar@.len(),
                        workish_prefix_end(self.calendar@, i as int, work_days as int)
                            == workish_prefix_end(self.calendar@, k as int, remaining as int),
                    decreases total - k,
                {
                    let d = self.calendar[k];
                    if d.kind == DayKind::Work || d.kind == DayKind::Preholiday {
                        remaining -= 1;
                    }
                    k += 1;
                }
                if remaining == 0 {
                    let part = copy_range(&self.calendar, i, k);
                    proof {
                        lemma_subrange_wf(self.calendar@, i as int, k as int);
                    }
                    Ok(ProductCalendar { calendar: part })
                } else {
                    Err(ProductCalendarError::ExceedMaxDaysError(total))
                }
            },
        }
    }
}

impl ProductCalendar {
    /// The default calendar of a year: every date from the first of January
    /// to the thirty-first of December, classified `Weekend` exactly on
    /// Saturdays and Sundays and `Work` on every other day.
    pub fn new(year: u16) -> (pc: ProductCalendar)
        requires
            1 <= year <= 9999,
        ensures
            pc.wf(),
            pc.calendar@.len() == days_in_year(year as int),
            forall|i: int|
                0 <= i < pc.calendar@.len() ==> {
                    let d = #[trigger] pc.calendar@[i];
                    d.day.year == year && d.day.ordinal_spec() == i + 1
                },
            forall|i: int|
                0 <= i < pc.calendar@.len() ==> ((#[trigger] pc.calendar@[i]).kind
                    == DayKind::Weekend <==> is_weekend_day(pc.calendar@[i].weekday)),
            forall|i: int|
                0 <= i < pc.calendar@.len() ==> !is_weekend_day((#[trigger] pc.calendar@[i]).weekday)
                    ==> pc.calendar@[i].kind == DayKind::Work,
    {
        let n = year_length(year);
        let mut cal: Vec<Day> = Vec::with_capacity(n as usize);
        let mut cur = Date { year, month: 1, day: 1 };
        let mut i: u16 = 0;
        while i < n
            invariant
                i <= n,
                n == days_in_year(year as int),
                cal@.len() == i,
                i < n ==> cur.valid() && cur.year == year && cur.ordinal_spec() == i + 1,
                forall|j: int|
                    0 <= j < i ==> {
                        let d = #[trigger] cal@[j];
                        d.wf() && d.day.year == year && d.day.ordinal_spec() == j + 1 && d.kind
                            == default_kind(d.weekday)
                    },
            decreases n - i,
        {
            let d = Day::new(cur);
            cal.push(d);
            i += 1;
            if i < n {
                proof {
                    lemma_days_before_month_whole_year(year as int);
                    if cur.month == 12 && cur.day == 31 {
                        assert(cur.ordinal_spec() == days_in_year(year as int));
                    }
                }
                cur = cur.succ();
            }
        }
        proof {
            assert forall|a: int, b: int| 0 <= a < b < cal@.len() implies cal@[a].day.index()
                < cal@[b].day.index() by {
                assert(cal@[a].day.year == year && cal@[b].day.year == year);
            }
        }
        ProductCalendar { calendar: cal }
    }
}

/// Whether some day of the list falls on date `d`.
fn covers(list: &Vec<Day>, d: Date) -> (r: bool)
    ensures
        r == has_date(list@, d),
{
    let total = list.len();
    let mut i: usize = 0;
    while i < total
        invariant
            i <= total,
            total == list@.len(),
            forall|j: int| 0 <= j < i ==> (#[trigger] list@[j]).day != d,
        decreases total - i,
    {
        if list[i].day == d {
            return true;
        }
        i += 1;
    }
    false
}

/// Where a day on the fresh date `d` belongs in the sorted days `v`.
fn insert_position(v: &Vec<Day>, d: Date) -> (r: usize)
    requires
        sorted_by_date(v@),
        all_wf(v@),
        d.valid(),
        !has_date(v@, d),
    ensures
        r <= v@.len(),
        forall|a: int| 0 <= a < r ==> (#[trigger] v@[a]).day.index() < d.index(),
        forall|a: int| r <= a < v@.len() ==> (#[trigger] v@[a]).day.index() > d.index(),
{
    let total = v.len();
    let target = d.day_index();
    let mut i: usize = 0;
    while i < total
        invariant
            i <= total,
            total == v@.len(),
            sorted_by_date(v@),
            all_wf(v@),
            d.valid(),
            !has_date(v@, d),
            target == d.index(),
            forall|a: int| 0 <= a < i ==> (#[trigger] v@[a]).day.index() < d.index(),
        decreases total - i,
    {
        let e = v[i];
        proof {
            assert(v@[i as int].wf());
        }
        let di = e.day.day_index();
        if di > target {
            return i;
        }
        proof {
            if v@[i as int].day.index() == d.index() {
                lemma_index_injective(v@[i as int].day, d);
                assert(v@[i as int].day == d);
            }
        }
        i += 1;
    }
    i
}

/// Inserting a day between its sorted neighbours keeps the sequence sorted
/// and well formed.
proof fn lemma_sorted_insert(s: Seq<Day>, pos: int, x: Day)
    requires
        sorted_by_date(s),
        all_wf(s),
        x.wf(),
        0 <= pos <= s.len(),
        forall|a: int| 0 <= a < pos ==> (#[trigger] s[a]).day.index() < x.day.index(),
        forall|a: int| pos <= a < s.len() ==> (#[trigger] s[a]).day.index() > x.day.index(),
    ensures
        sorted_by_date(s.insert(pos, x)),
        all_wf(s.insert(pos, x)),
{
    s.insert_ensures(pos, x);
    let t = s.insert(pos, x);
    assert forall|a: int, b: int| 0 <= a < b < t.len() implies t[a].day.index()
        < t[b].day.index() by {
        if a < pos {
            assert(t[a] == s[a]);
        } else if a == pos {
            assert(t[a] == x);
        } else {
            assert(t[a] == s[a - 1]);
        }
        if b < pos {
            assert(t[b] == s[b]);
        } else if b == pos {
            assert(t[b] == x);
        } else {
            assert(t[b] == s[b - 1]);
        }
    }
    assert forall|a: int| 0 <= a < t.len() implies (#[trigger] t[a]).wf() by {
        if a < pos {
            assert(t[a] == s[a]);
        } else if a == pos {
            assert(t[a] == x);
        } else {
            assert(t[a] == s[a - 1]);
        }
    }
}

/// A day contained in a sequence is still contained after a push.
proof fn lemma_push_contains(s: Seq<Day>, x: Day, d: Day)
    requires
        contains_day(s, d),
    ensures
        contains_day(s.push(x), d),
{
    let w = choose|i: int| 0 <= i < s.len() && s[i] == d;
    assert(s.push(x)[w] == d);
}

/// A day contained in a sequence is still contained after an insertion.
proof fn lemma_insert_contains(s: Seq<Day>, pos: int, x: Day, d: Day)
    requires
        0 <= pos <= s.len(),
        contains_day(s, d),
    ensures
        contains_day(s.insert(pos, x), d),
{
    s.insert_ensures(pos, x);
    let w = choose|i: int| 0 <= i < s.len() && s[i] == d;
    if w < pos {
        assert(s.insert(pos, x)[w] == d);
    } else {
        assert(s.insert(pos, x)[w + 1] == d);
    }
}

impl ProductCalendar {
    /// Overlays override records on this calendar: every date covered by an
    /// override is classified as the override says; every other date keeps
    /// its present classification; the result is sorted with one day per
    /// date. The override records are drained.
    pub fn merge(&mut self, consultant_data: &mut Vec<Day>)
        requires
            old(self).wf(),
            all_wf(old(consultant_data)@),
            distinct_dates(old(consultant_data)@),
        ensures
            final(self).wf(),
            final(consultant_data)@.len() == 0,
            forall|i: int|
                0 <= i < old(consultant_data)@.len() ==> contains_day(
                    final(self).calendar@,
                    #[trigger] old(consultant_data)@[i],
                ),
            forall|i: int|
                0 <= i < old(self).calendar@.len() && !has_date(
                    old(consultant_data)@,
                    (#[trigger] old(self).calendar@[i]).day,
                ) ==> contains_day(final(self).calendar@, old(self).calendar@[i]),
            forall|i: int|
                0 <= i < final(self).calendar@.len() ==> {
                    let d = #[trigger] final(self).calendar@[i];
                    contains_day(old(consultant_data)@, d) || (contains_day(old(self).calendar@, d)
                        && !has_date(old(consultant_data)@, d.day))
                },
    {
        let ghost old_cal = self.calendar@;
        let ghost ov = consultant_data@;
        let total = self.calendar.len();
        let mut result: Vec<Day> = Vec::new();
        let mut i: usize = 0;
        while i < total
            invariant
                i <= total,
                total == old_cal.len(),
                self.calendar@ == old_cal,
                consultant_data@ == ov,
                sorted_by_date(old_cal),
                all_wf(old_cal),
                sorted_by_date(result@),
                all_wf(result@),
                forall|a: int|
                    0 <= a < result@.len() ==> i > 0 && (#[trigger] result@[a]).day.index()
                        <= old_cal[i - 1].day.index(),
                forall|a: int|
                    0 <= a < result@.len() ==> contains_day(old_cal, #[trigger] result@[a])
                        && !has_date(ov, result@[a].day),
                forall|j: int|
                    0 <= j < i && !has_date(ov, (#[trigger] old_cal[j]).day) ==> contains_day(
                        result@,
                        old_cal[j],
                    ),
            decreases total - i,
        {
            let d = self.calendar[i];
            if !covers(consultant_data, d.day) {
                let ghost before = result@;
                result.push(d);
                proof {
                    assert(old_cal[i as int] == d);
                    assert(contains_day(old_cal, d));
                    assert(result@[result@.len() - 1] == d);
                    assert(contains_day(result@, d));
                    assert forall|j: int|
                        0 <= j < i + 1 && !has_date(
                            ov,
                            (#[trigger] old_cal[j]).day,
                        ) implies contains_day(result@, old_cal[j]) by {
                        if j < i {
                            lemma_push_contains(before, d, old_cal[j]);
                        }
                    }
                }
            }
            i += 1;
        }
        let m = consultant_data.len();
        let mut k: usize = 0;
        while k < m
            invariant
                k <= m,
                m == ov.len(),
                consultant_data@ == ov,
                all_wf(ov),
                distinct_dates(ov),
                sorted_by_date(result@),
                all_wf(result@),
                forall|a: int|
                    0 <= a < result@.len() ==> {
                        let d = #[trigger] result@[a];
                        (contains_day(old_cal, d) && !has_date(ov, d.day)) || exists|j: int|
                            0 <= j < k && ov[j] == d
                    },
                forall|j: int| 0 <= j < k ==> contains_day(result@, #[trigger] ov[j]),
                forall|j: int|
                    0 <= j < old_cal.len() && !has_date(ov, (#[trigger] old_cal[j]).day)
                        ==> contains_day(result@, old_cal[j]),
            decreases m - k,
        {
            let o = consultant_data[k];
            proof {
                assert(o.wf());
                assert forall|a: int| 0 <= a < result@.len() implies (#[trigger] result@[a]).day
                    != o.day by {
                    let d = result@[a];
                    if contains_day(old_cal, d) && !has_date(ov, d.day) {
                        assert(ov[k as int].day == o.day);
                        if d.day == o.day {
                            assert(has_date(ov, d.day));
                        }
                    } else {
                        let j = choose|j: int| 0 <= j < k && ov[j] == d;
                        assert(ov[j].day != ov[k as int].day);
                    }
                }
                if has_date(result@, o.day) {
                    let w = choose|w: int| 0 <= w < result@.len() && (#[trigger] result@[w]).day
                        == o.day;
                    assert(false);
                }
            }
            let ghost before = result@;
            let pos = insert_position(&result, o.day);
            result.insert(pos, o);
            proof {
                assert(result@ == before.insert(pos as int, o));
                before.insert_ensures(pos as int, o);
                lemma_sorted_insert(before, pos as int, o);
                assert forall|a: int| 0 <= a < result@.len() implies {
                    let d = #[trigger] result@[a];
                    (contains_day(old_cal, d) && !has_date(ov, d.day)) || exists|j: int|
                        0 <= j < k + 1 && ov[j] == d
                } by {
                    if a < pos {
                        assert(result@[a] == before[a]);
                    } else if a == pos {
                        assert(result@[a] == o);
                        assert(ov[k as int] == o);
                    } else {
                        assert(result@[a] == before[a - 1]);
                    }
                }
                assert forall|j: int| 0 <= j < k + 1 implies contains_day(
                    result@,
                    #[trigger] ov[j],
                ) by {
                    if j < k {
                        lemma_insert_contains(before, pos as int, o, ov[j]);
                    } else {
                        assert(result@[pos as int] == o);
                    }
                }
                assert forall|j: int|
                    0 <= j < old_cal.len() && !has_date(
                        ov,
                        (#[trigger] old_cal[j]).day,
                    ) implies contains_day(result@, old_cal[j]) by {
                    lemma_insert_contains(before, pos as int, o, old_cal[j]);
                }
            }
            k += 1;
        }
        self.calendar = result;
        consultant_data.clear();
    }
}

/// Where quarter `q` of a year of `len` days begins. The first quarter is
/// one day longer in a leap year; the second and third are fixed-width.
pub open spec fn quarter_start(len: int, q: int) -> int {
    let fql: int = if len == 366 {
        90
    } else {
        89
    };
    if q == 1 {
        0
    } else if q == 2 {
        fql + 1
    } else if q == 3 {
        fql + 92
    } else {
        fql + 184
    }
}

/// Where quarter `q` of a year of `len` days ends (exclusive).
pub open spec fn quarter_end(len: int, q: int) -> int {
    let fql: int = if len == 366 {
        90
    } else {
        89
    };
    if q == 1 {
        fql + 1
    } else if q == 2 {
        fql + 92
    } else if q == 3 {
        fql + 184
    } else {
        len
    }
}

/// Whether the sequence is one full, unbroken calendar year: its length is
/// that year's day count and it runs from the first ordinal to the last.
pub open spec fn spans_whole_year(s: Seq<Day>) -> bool {
    &&& s.len() > 0
    &&& s.len() == days_in_year(s[0].day.year as int)
    &&& s[0].day.ordinal_spec() == 1
    &&& s[s.len() - 1].day.year == s[0].day.year
    &&& s[s.len() - 1].day.ordinal_spec() == s.len()
}

impl ProductCalendar {
    /// Whether this calendar is one full, unbroken calendar year.
    pub fn is_whole_year(&self) -> (r: bool)
        requires
            self.wf(),
        ensures
            r == spans_whole_year(self.calendar@),
    {
        let total = self.calendar.len();
        if total == 0 {
            return false;
        }
        let first = self.calendar[0];
        let last = self.calendar[total - 1];
        let y = first.day.year;
        first.day.ordinal() == 1 && last.day.year == y && last.day.ordinal() as usize == total
            && total == year_length(y) as usize
    }

    /// The stretch of a full-year calendar that makes up the given quarter.
    /// The quarter must be 1 to 4, and the receiver must span a whole year:
    /// the quarter boundaries are fixed day offsets that mean nothing on an
    /// arbitrary slice.
    pub fn extract_dates_in_quarter(&self, quarter: u8) -> (r: Result<
        ProductCalendar,
        ProductCalendarError,
    >)
        requires
            self.wf(),
        ensures
            ({
                let s = self.calendar@;
                if !(1 <= quarter <= 4) {
                    r == Err::<ProductCalendar, ProductCalendarError>(
                        ProductCalendarError::InvalidQuarter(quarter),
                    )
                } else if !spans_whole_year(s) {
                    r matches Err(ProductCalendarError::DateOutOfRange(m)) && m@ == dec_chars(
                        s.len() as int,
                    )
                } else {
                    r matches Ok(pc) && pc.calendar@ == s.subrange(
                        quarter_start(s.len() as int, quarter as int),
                        quarter_end(s.len() as int, quarter as int),
                    ) && pc.wf()
                }
            }),
    {
        if quarter < 1 || quarter > 4 {
            return Err(ProductCalendarError::InvalidQuarter(quarter));
        }
        let total = self.calendar.len();
        if !self.is_whole_year() {
            return Err(
                ProductCalendarError::DateOutOfRange(
                    crate::text::u64_to_string(total as u64),
                ),
            );
        }
        let fql: usize = if total == 366 {
            90
        } else {
            89
        };
        let si: usize;
        let ei: usize;
        match quarter {
            1 => {
                si = 0;
                ei = fql + 1;
            },
            2 => {
                si = fql + 1;
                ei = fql + 92;
            },
            3 => {
                si = fql + 92;
                ei = fql + 184;
            },
            _ => {
                si = fql + 184;
                ei = total;
            },
        }
        let part = copy_range(&self.calendar, si, ei);
        proof {
            lemma_subrange_wf(self.calendar@, si as int, ei as int);
        }
        Ok(ProductCalendar { calendar: part })
    }
}

/// In a sorted sequence the day index grows at least as fast as the
/// position, measured from the front.
proof fn lemma_sorted_lower(s: Seq<Day>, i: int)
    requires
        sorted_by_date(s),
        0 <= i < s.len(),
    ensures
        s[i].day.index() >= s[0].day.index() + i,
    decreases i,
{
    if i > 0 {
        lemma_sorted_lower(s, i - 1);
    }
}

/// In a sorted sequence the day index grows at least as fast as the
/// position, measured from the back.
proof fn lemma_sorted_upper(s: Seq<Day>, i: int)
    requires
        sorted_by_date(s),
        0 <= i < s.len(),
    ensures
        s[i].day.index() <= s[s.len() - 1].day.index() - (s.len() - 1 - i),
    decreases s.len() - i,
{
    if i < s.len() - 1 {
        lemma_sorted_upper(s, i + 1);
    }
}

/// A calendar that spans a whole year holds exactly that year's days in
/// order: the entry at position `i` is the day of the year with ordinal
/// `i + 1` — no gaps, no overlaps, nothing from another year.
pub proof fn lemma_whole_year_entries(s: Seq<Day>)
    requires
        sorted_by_date(s),
        all_wf(s),
        spans_whole_year(s),
    ensures
        forall|i: int|
            0 <= i < s.len() ==> (#[trigger] s[i]).day.year == s[0].day.year
                && s[i].day.ordinal_spec() == i + 1,
{
    let n = s.len() as int;
    let y = s[0].day.year as int;
    assert forall|i: int|
        0 <= i < s.len() implies (#[trigger] s[i]).day.year == s[0].day.year
        && s[i].day.ordinal_spec() == i + 1 by {
        lemma_sorted_lower(s, i);
        lemma_sorted_upper(s, i);
        assert(s[0].day.index() == days_before_year(y));
        assert(s[n - 1].day.index() == days_before_year(y) + n - 1);
        assert(s[i].day.index() == days_before_year(y) + i);
        let yi = s[i].day.year as int;
        crate::date::lemma_ordinal_bounds(s[i].day);
        if yi < y {
            crate::date::lemma_year_offset_mono(yi, y);
            assert(s[i].day.index() <= days_before_year(yi) + days_in_year(yi) - 1);
            assert(false);
        } else if yi > y {
            crate::date::lemma_year_offset_mono(y, yi);
            assert(s[i].day.index() >= days_before_year(yi));
            assert(days_before_year(y) + days_in_year(y) <= days_before_year(yi));
            assert(false);
        }
    }
}

/// The four quarters of a year-long sequence tile it exactly: each quarter
/// begins where the previous one ends, the first begins at the start, the
/// fourth ends at the end, and their concatenation is the whole sequence.
pub proof fn lemma_quarters_cover_year(s: Seq<Day>)
    requires
        s.len() == 365 || s.len() == 366,
    ensures
        quarter_start(s.len() as int, 1) == 0,
        quarter_end(s.len() as int, 4) == s.len(),
        forall|q: int|
            1 <= q < 4 ==> quarter_end(s.len() as int, q) == quarter_start(s.len() as int, q + 1),
        s.subrange(quarter_start(s.len() as int, 1), quarter_end(s.len() as int, 1)) + s.subrange(
            quarter_start(s.len() as int, 2),
            quarter_end(s.len() as int, 2),
        ) + s.subrange(quarter_start(s.len() as int, 3), quarter_end(s.len() as int, 3))
            + s.subrange(quarter_start(s.len() as int, 4), quarter_end(s.len() as int, 4)) == s,
{
    let n = s.len() as int;
    assert(s.subrange(quarter_start(n, 1), quarter_end(n, 1)) + s.subrange(
        quarter_start(n, 2),
        quarter_end(n, 2),
    ) + s.subrange(quarter_start(n, 3), quarter_end(n, 3)) + s.subrange(
        quarter_start(n, 4),
        quarter_end(n, 4),
    ) =~= s);
}

/// A year-keyed store of completed calendars: built once per year, read
/// many times, never evicted. It is an explicit value handed to whoever
/// assembles calendars; callers that share it across threads put it behind
/// a lock of their own.
pub struct CalendarCache {
    pub entries: Vec<(u16, ProductCalendar)>,
}

impl CalendarCache {
    /// The cache invariant: one entry per year, each holding a well-formed
    /// calendar.
    pub open spec fn wf(self) -> bool {
        &&& forall|i: int, j: int|
            0 <= i < j < self.entries@.len() ==> (#[trigger] self.entries@[i]).0 != (
            #[trigger] self.entries@[j]).0
        &&& forall|i: int| 0 <= i < self.entries@.len() ==> (#[trigger] self.entries@[i]).1.wf()
    }

    /// Whether a calendar for the year is resident.
    pub open spec fn has_year(self, y: u16) -> bool {
        exists|i: int| 0 <= i < self.entries@.len() && (#[trigger] self.entries@[i]).0 == y
    }

    /// The days of the resident calendar for the year, if any.
    pub open spec fn spec_get(self, y: u16) -> Option<Seq<Day>> {
        if self.has_year(y) {
            let i = choose|i: int|
                0 <= i < self.entries@.len() && (#[trigger] self.entries@[i]).0 == y;
            Some(self.entries@[i].1.calendar@)
        } else {
            None
        }
    }

    /// An empty cache.
    pub fn new() -> (r: CalendarCache)
        ensures
            r.wf(),
            forall|y: u16| r.spec_get(y) is None,
    {
        CalendarCache { entries: Vec::new() }
    }

    /// The resident calendar for the year, if any.
    pub fn get(&self, year: u16) -> (r: Option<&ProductCalendar>)
        requires
            self.wf(),
        ensures
            match r {
                Some(pc) => self.spec_get(year) == Some(pc.calendar@) && pc.wf(),
                None => self.spec_get(year) is None,
            },
    {
        let total = self.entries.len();
        let mut i: usize = 0;
        while i < total
            invariant
                i <= total,
                total == self.entries@.len(),
                self.wf(),
                forall|j: int| 0 <= j < i ==> (#[trigger] self.entries@[j]).0 != year,
            decreases total - i,
        {
            if self.entries[i].0 == year {
                proof {
                    lemma_cache_get_at(*self, year, i as int);
                }
                return Some(&self.entries[i].1);
            }
            i += 1;
        }
        None
    }

    /// Makes the calendar resident for the year, replacing any earlier one.
    /// Calendars for other years are untouched.
    pub fn insert(&mut self, year: u16, pc: ProductCalendar)
        requires
            old(self).wf(),
            pc.wf(),
        ensures
            final(self).wf(),
            final(self).spec_get(year) == Some(pc.calendar@),
            forall|z: u16| z != year ==> final(self).spec_get(z) == old(self).spec_get(z),
    {
        let ghost old_entries = self.entries@;
        let total = self.entries.len();
        let mut i: usize = 0;
        while i < total
            invariant
                i <= total,
                total == self.entries@.len(),
                self.entries@ == old_entries,
                old(self).wf(),
                pc.wf(),
                *self == *old(self),
                forall|j: int| 0 <= j < i ==> (#[trigger] self.entries@[j]).0 != year,
            decreases total - i,
        {
            if self.entries[i].0 == year {
                proof {
                    assert(old_entries[i as int].0 == year);
                }
                self.entries.set(i, (year, pc));
                proof {
                    assert forall|w: int|
                        0 <= w < self.entries@.len() implies (#[trigger] self.entries@[w]).0
                        == old_entries[w].0 by {
                        if w != i {
                            assert(self.entries@[w] == old_entries[w]);
                        }
                    }
                    assert forall|a: int, b: int|
                        0 <= a < b < self.entries@.len() implies (#[trigger] self.entries@[a]).0
                        != (#[trigger] self.entries@[b]).0 by {
                        assert(old_entries[a].0 != old_entries[b].0);
                    }
                    assert forall|w: int|
                        0 <= w < self.entries@.len() implies (#[trigger] self.entries@[w]).1.wf()
                        by {
                        if w != i {
                            assert(self.entries@[w] == old_entries[w]);
                            assert(old_entries[w].1.wf());
                        }
                    }
                    lemma_cache_get_at(*self, year, i as int);
                    assert forall|z: u16| z != year implies final(self).spec_get(z) == old(
                        self,
                    ).spec_get(z) by {
                        assert forall|w: int|
                            0 <= w < old_entries.len() && (#[trigger] old_entries[w]).0
                            == z implies old_entries[w] == self.entries@[w] by {
                            if w == i {
                                assert(old_entries[w].0 == year);
                            } else {
                                assert(self.entries@[w] == old_entries[w]);
                            }
                        }
                        lemma_cache_same_keys_frame(*old(self), *self, z);
                    }
                }
                return ;
            }
            i += 1;
        }
        self.entries.push((year, pc));
        proof {
            assert forall|a: int, b: int|
                0 <= a < b < self.entries@.len() implies (#[trigger] self.entries@[a]).0 != (
            #[trigger] self.entries@[b]).0 by {
                if b < old_entries.len() {
                    assert(old_entries[a].0 != old_entries[b].0);
                } else {
                    assert(self.entries@[b].0 == year);
                    assert(self.entries@[a] == old_entries[a]);
                }
            }
            lemma_cache_get_at(*self, year, old_entries.len() as int);
            assert forall|z: u16| z != year implies final(self).spec_get(z) == old(self).spec_get(
                z,
            ) by {
                if old(self).has_year(z) {
                    let w = choose|w: int|
                        0 <= w < old_entries.len() && (#[trigger] old_entries[w]).0 == z;
                    assert(self.entries@[w].0 == z);
                    lemma_cache_get_at(*old(self), z, w);
                    lemma_cache_get_at(*self, z, w);
                } else {
                    assert forall|w: int|
                        0 <= w < self.entries@.len() implies (#[trigger] self.entries@[w]).0
                        != z by {
                        if w < old_entries.len() {
                            assert(old_entries[w] == self.entries@[w]);
                        }
                    }
                }
            }
        }
    }
}

/// The entry at a position with the sought key is the one `spec_get` sees:
/// the cache invariant makes that position unique.
proof fn lemma_cache_get_at(c: CalendarCache, y: u16, i: int)
    requires
        c.wf(),
        0 <= i < c.entries@.len(),
        c.entries@[i].0 == y,
    ensures
        c.spec_get(y) == Some(c.entries@[i].1.calendar@),
{
    assert(c.has_year(y));
    let j = choose|j: int| 0 <= j < c.entries@.len() && (#[trigger] c.entries@[j]).0 == y;
    if i < j {
        assert(c.entries@[i].0 != c.entries@[j].0);
    } else if j < i {
        assert(c.entries@[j].0 != c.entries@[i].0);
    }
}

/// Two caches whose entries agree at a key, entry for entry, agree on
/// `spec_get` at that key.
proof fn lemma_cache_same_keys_frame(c1: CalendarCache, c2: CalendarCache, z: u16)
    requires
        c1.wf(),
        c2.wf(),
        c1.entries@.len() == c2.entries@.len(),
        forall|i: int|
            0 <= i < c1.entries@.len() ==> ((#[trigger] c1.entries@[i]).0 == z <==> (
            #[trigger] c2.entries@[i]).0 == z),
        forall|i: int|
            0 <= i < c1.entries@.len() && (#[trigger] c1.entries@[i]).0 == z ==> c1.entries@[i]
                == c2.entries@[i],
    ensures
        c1.spec_get(z) == c2.spec_get(z),
{
    if c1.has_year(z) {
        let w = choose|w: int| 0 <= w < c1.entries@.len() && (#[trigger] c1.entries@[w]).0 == z;
        assert(c2.entries@[w].0 == z);
        lemma_cache_get_at(c1, z, w);
        lemma_cache_get_at(c2, z, w);
    } else {
        if c2.has_year(z) {
            let w = choose|w: int|
                0 <= w < c2.entries@.len() && (#[trigger] c2.entries@[w]).0 == z;
            assert(c1.entries@[w].0 == z);
        }
    }
}

/// The predicate that keeps the days on or before `cutoff`.
pub open spec fn le_pred(cutoff: Date) -> spec_fn(Day) -> bool {
    |d: Day| d.day.index() <= cutoff.index()
}

impl ProductCalendar {
    /// Grows this window forward by `days` days, re-slicing from the cached
    /// full-year calendar of the window's first day. The year's calendar
    /// must be resident in the cache, and the enlarged window must not run
    /// past its end.
    pub fn extend_forward(self, days: usize, cache: &CalendarCache) -> (r: Result<
        ProductCalendar,
        ProductCalendarError,
    >)
        requires
            self.wf(),
            cache.wf(),
        ensures
            ({
                let s = self.calendar@;
                if s.len() == 0 {
                    r matches Err(ProductCalendarError::DateOutOfRange(m)) && m@.len() == 0
                } else {
                    let y = s[0].day.year;
                    match cache.spec_get(y) {
                        None => r matches Err(ProductCalendarError::DateOutOfRange(m)) && m@
                            == dec_chars(y as int),
                        Some(cs) => {
                            if s.len() + days > cs.len() {
                                r matches Err(ProductCalendarError::DateOutOfRange(m)) && m@
                                    == dec_chars(s.len() + days)
                            } else {
                                period_by_days_post(cs, s[0].day, s.len() + days, r)
                            }
                        },
                    }
                }
            }),
    {
        if self.calendar.len() == 0 {
            return Err(ProductCalendarError::DateOutOfRange(String::new()));
        }
        let first = self.calendar[0];
        let year = first.day.year;
        let cached = match cache.get(year) {
            Some(c) => c,
            None => {
                return Err(
                    ProductCalendarError::DateOutOfRange(crate::text::u64_to_string(year as u64)),
                )
            },
        };
        let move_on_wide = self.calendar.len() as u128 + days as u128;
        if move_on_wide > cached.calendar.len() as u128 {
            return Err(
                ProductCalendarError::DateOutOfRange(crate::text::u128_to_string(move_on_wide)),
            );
        }
        let move_on = move_on_wide as usize;
        cached.period_by_number_of_days(first.day, move_on)
    }

    /// Grows this window backward by `days` days, re-slicing from the cached
    /// full-year calendar of the window's last day: the cached year is cut
    /// at the window's last date, and the window start is shifted `days`
    /// entries earlier, bounded by the start of the year.
    pub fn extend_backward(self, days: usize, cache: &CalendarCache) -> (r: Result<
        ProductCalendar,
        ProductCalendarError,
    >)
        requires
            self.wf(),
            cache.wf(),
        ensures
            ({
                let s = self.calendar@;
                if s.len() == 0 {
                    r matches Err(ProductCalendarError::DateOutOfRange(m)) && m@.len() == 0
                } else {
                    let first = s[0];
                    let last = s[s.len() - 1];
                    match cache.spec_get(last.day.year) {
                        None => r matches Err(ProductCalendarError::DateOutOfRange(m)) && m@
                            == dec_chars(last.day.year as int),
                        Some(cs) => {
                            let filtered = cs.filter(le_pred(last.day));
                            if has_date(filtered, first.day) {
                                let idx = index_of_date(filtered, first.day);
                                if idx >= days {
                                    r matches Ok(pc) && pc.calendar@ == filtered.subrange(
                                        idx - days,
                                        filtered.len() as int,
                                    ) && pc.wf()
                                } else {
                                    r matches Err(ProductCalendarError::DateOutOfRange(m)) && m@
                                        == dec_chars(0)
                                }
                            } else {
                                r matches Ok(pc) && pc.calendar@ == filtered && pc.wf()
                            }
                        },
                    }
                }
            }),
    {
        if self.calendar.len() == 0 {
            return Err(ProductCalendarError::DateOutOfRange(String::new()));
        }
        let first = self.calendar[0];
        let last = self.calendar[self.calendar.len() - 1];
        let year = last.day.year;
        let cached = match cache.get(year) {
            Some(c) => c,
            None => {
                return Err(
                    ProductCalendarError::DateOutOfRange(crate::text::u64_to_string(year as u64)),
                )
            },
        };
        proof {
            assert(last.wf());
        }
        let total = cached.calendar.len();
        let mut kept: Vec<Day> = Vec::new();
        let mut i: usize = 0;
        while i < total
            invariant
                i <= total,
                total == cached.calendar@.len(),
                cached.wf(),
                last.wf(),
                kept@ == cached.calendar@.take(i as int).filter(le_pred(last.day)),
            decreases total - i,
        {
            let d = cached.calendar[i];
            proof {
                assert(cached.calendar@[i as int].wf());
                lemma_filter_step(cached.calendar@, i as int, le_pred(last.day));
            }
            if d.day.le(&last.day) {
                kept.push(d);
            }
            i += 1;
        }
        proof {
            assert(cached.calendar@.take(total as int) =~= cached.calendar@);
            lemma_filter_wf(cached.calendar@, le_pred(last.day));
        }
        let filtered = ProductCalendar { calendar: kept };
        match filtered.find_date(first.day) {
            Some(idx) => {
                proof {
                    lemma_sorted_date_unique(
                        filtered.calendar@,
                        idx as int,
                        index_of_date(filtered.calendar@, first.day),
                    );
                }
                match idx.checked_sub(days) {
                    Some(start) => {
                        let part = copy_range(&filtered.calendar, start, filtered.calendar.len());
                        proof {
                            lemma_subrange_wf(
                                filtered.calendar@,
                                start as int,
                                filtered.calendar@.len() as int,
                            );
                        }
                        Ok(ProductCalendar { calendar: part })
                    },
                    None => {
                        let zero = crate::text::u64_to_string(0);
                        Err(ProductCalendarError::DateOutOfRange(zero))
                    },
                }
            },
            None => Ok(filtered),
        }
    }
}

/// Relies on chrono's `Local::now` and `Datelike::year` for the current
/// local year. Nothing is promised of the clock's reading.
#[verifier::external_body]
fn clock_year() -> u16 {
    chrono::Datelike::year(&chrono::Local::now()) as u16
}

/// The first year the override source publishes data for.
pub const FIRST_SUPPORTED_YEAR: u16 = 2015;

/// Settles which year a request is about: an explicit year must lie between
/// the first supported year and the current year; an absent one means the
/// current year.
pub fn resolve_year(year: Option<u16>, current_year: u16) -> (r: Result<
    u16,
    ProductCalendarError,
>)
    ensures
        match year {
            Some(y) => {
                if FIRST_SUPPORTED_YEAR <= y <= current_year {
                    r == Ok::<u16, ProductCalendarError>(y)
                } else {
                    r matches Err(ProductCalendarError::InvalidYear(m)) && m@ == dec_chars(
                        y as int,
                    )
                }
            },
            None => r == Ok::<u16, ProductCalendarError>(current_year),
        },
{
    match year {
        Some(y) => {
            if FIRST_SUPPORTED_YEAR <= y && y <= current_year {
                Ok(y)
            } else {
                Err(ProductCalendarError::InvalidYear(crate::text::u64_to_string(y as u64)))
            }
        },
        None => Ok(current_year),
    }
}

/// What a freshly assembled calendar for a year looks like: well formed;
/// every override record is in it; every other day is a default-classified
/// day of that year on a date no override covers; and every date of the
/// year that no override covers is present.
pub open spec fn merged_calendar_post(year: int, ov: Seq<Day>, pc: ProductCalendar) -> bool {
    &&& pc.wf()
    &&& forall|i: int| 0 <= i < ov.len() ==> contains_day(pc.calendar@, #[trigger] ov[i])
    &&& forall|i: int|
        0 <= i < pc.calendar@.len() ==> {
            let d = #[trigger] pc.calendar@[i];
            contains_day(ov, d) || (d.day.year == year && d.kind == default_kind(d.weekday)
                && !has_date(ov, d.day))
        }
    &&& forall|dt: Date|
        dt.valid() && dt.year == year && !has_date(ov, dt) ==> #[trigger] has_date(
            pc.calendar@,
            dt,
        )
}

/// What serving a request for year `y` does, given the override records
/// `ov`: a cache hit returns the resident days and leaves the cache alone;
/// a miss assembles the default-plus-overrides calendar, caches it under
/// `y`, touches no other year, and returns it.
pub open spec fn served(
    y: u16,
    ov: Seq<Day>,
    oldc: CalendarCache,
    newc: CalendarCache,
    r: Result<ProductCalendar, ProductCalendarError>,
) -> bool {
    match oldc.spec_get(y) {
        Some(cs) => {
            &&& r matches Ok(pc) && pc.calendar@ == cs && pc.wf()
            &&& newc == oldc
        },
        None => {
            &&& r matches Ok(pc) && merged_calendar_post(y as int, ov, pc) && newc.spec_get(y)
                == Some(pc.calendar@)
            &&& forall|z: u16| z != y ==> newc.spec_get(z) == oldc.spec_get(z)
        },
    }
}

/// What `get_product_calendar` does when the clock reads `cy`: the request
/// is refused with `InvalidYear` when an explicit year is outside the
/// supported range, or when the settled year cannot be modelled; otherwise
/// the calendar for the settled year is served from the cache or assembled.
pub open spec fn get_product_calendar_post(
    year: Option<u16>,
    cy: u16,
    ov: Seq<Day>,
    oldc: CalendarCache,
    newc: CalendarCache,
    r: Result<ProductCalendar, ProductCalendarError>,
) -> bool {
    let resolved: u16 = match year {
        Some(y) => y,
        None => cy,
    };
    let in_range: bool = match year {
        Some(y) => FIRST_SUPPORTED_YEAR <= y <= cy,
        None => true,
    };
    if !in_range || resolved < 1 || resolved > 9999 {
        &&& r matches Err(ProductCalendarError::InvalidYear(m)) && m@ == dec_chars(
            resolved as int,
        )
        &&& newc == oldc
    } else {
        served(resolved, ov, oldc, newc, r)
    }
}

/// The calendar for the requested year: resolved against the current local
/// year, answered from the cache when resident, otherwise assembled from
/// the default weekday rule and the given override records and cached.
pub fn get_product_calendar(
    year: Option<u16>,
    overrides: Vec<Day>,
    cache: &mut CalendarCache,
) -> (r: Result<ProductCalendar, ProductCalendarError>)
    requires
        old(cache).wf(),
        all_wf(overrides@),
        distinct_dates(overrides@),
    ensures
        final(cache).wf(),
        exists|cy: u16|
            get_product_calendar_post(year, cy, overrides@, *old(cache), *final(cache), r),
{
    let ghost ov0 = overrides@;
    let current = clock_year();
    let y = match resolve_year(year, current) {
        Ok(y) => y,
        Err(e) => {
            let r = Err(e);
            proof {
                assert(get_product_calendar_post(year, current, ov0, *old(cache), *cache, r));
            }
            return r;
        },
    };
    if y < 1 || y > 9999 {
        let r = Err(ProductCalendarError::InvalidYear(crate::text::u64_to_string(y as u64)));
        proof {
            assert(get_product_calendar_post(year, current, ov0, *old(cache), *cache, r));
        }
        return r;
    }
    let hit: Option<ProductCalendar> = match cache.get(y) {
        Some(c) => {
            let copycal = copy_range(&c.calendar, 0, c.calendar.len());
            proof {
                assert(copycal@ =~= c.calendar@);
            }
            Some(ProductCalendar { calendar: copycal })
        },
        None => None,
    };
    match hit {
        Some(pc) => {
            let r = Ok(pc);
            proof {
                assert(get_product_calendar_post(year, current, ov0, *old(cache), *cache, r));
            }
            r
        },
        None => {
            let mut prod_cal = ProductCalendar::new(y);
            let ghost default_cal = prod_cal.calendar@;
            let mut consultant_data = overrides;
            prod_cal.merge(&mut consultant_data);
            proof {
                lemma_merged_covers_year(y, ov0, default_cal, prod_cal);
            }
            let copy = ProductCalendar {
                calendar: copy_range(&prod_cal.calendar, 0, prod_cal.calendar.len()),
            };
            proof {
                assert(copy.calendar@ =~= prod_cal.calendar@);
            }
            cache.insert(y, copy);
            let r = Ok(prod_cal);
            proof {
                assert(get_product_calendar_post(year, current, ov0, *old(cache), *cache, r));
            }
            r
        },
    }
}

/// A calendar merged from the full default year and override records holds
/// a day for every date of the year that no override covers.
proof fn lemma_merged_covers_year(
    y: u16,
    ov: Seq<Day>,
    default_cal: Seq<Day>,
    merged: ProductCalendar,
)
    requires
        1 <= y <= 9999,
        default_cal.len() == days_in_year(y as int),
        forall|i: int|
            0 <= i < default_cal.len() ==> {
                let d = #[trigger] default_cal[i];
                d.wf() && d.day.year == y && d.day.ordinal_spec() == i + 1
            },
        forall|i: int|
            0 <= i < default_cal.len() && !has_date(ov, (#[trigger] default_cal[i]).day)
                ==> contains_day(merged.calendar@, default_cal[i]),
    ensures
        forall|dt: Date|
            dt.valid() && dt.year == y && !has_date(ov, dt) ==> #[trigger] has_date(
                merged.calendar@,
                dt,
            ),
{
    assert forall|dt: Date| dt.valid() && dt.year == y && !has_date(ov, dt) implies #[trigger]
        has_date(merged.calendar@, dt) by {
        crate::date::lemma_ordinal_bounds(dt);
        let idx = dt.ordinal_spec() - 1;
        assert(0 <= idx < default_cal.len());
        let d = default_cal[idx];
        crate::date::lemma_index_injective(d.day, dt);
        assert(d.day == dt);
        assert(contains_day(merged.calendar@, d));
        let w = choose|w: int|
            0 <= w < merged.calendar@.len() && merged.calendar@[w] == d;
        assert(merged.calendar@[w].day == dt);
    }
}

/// Copies the days of `v` between `from` and `to` into a fresh vector.
fn copy_range(v: &Vec<Day>, from: usize, to: usize) -> (out: Vec<Day>)
    requires
        from <= to <= v@.len(),
    ensures
        out@ == v@.subrange(from as int, to as int),
{
    let mut out: Vec<Day> = Vec::new();
    let mut i: usize = from;
    while i < to
        invariant
            from <= i <= to <= v@.len(),
            out@ == v@.subrange(from as int, i as int),
        decreases to - i,
    {
        out.push(v[i]);
        proof {
            assert(out@ =~= v@.subrange(from as int, i + 1));
        }
        i += 1;
    }
    out
}

} // verus!
