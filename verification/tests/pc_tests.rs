use product_calendar::date::Date;
use product_calendar::day::kind::DayKind;
use product_calendar::day::Day;
use product_calendar::errors::ProductCalendarError;
use product_calendar::pc::get_product_calendar;
use product_calendar::pc::resolve_year;
use product_calendar::pc::CalendarCache;
use product_calendar::pc::ProductCalendar;
use product_calendar::statistic::Statistic;

fn create_day(year: u16, month: u8, day: u8, kind: Option<DayKind>) -> Day {
    let mut day_instance = Day::new(Date::new(year, month, day).unwrap());
    if let Some(k) = kind {
        day_instance.set_kind(k);
    }
    day_instance
}

/// The override records the source documents for 2024: the non-working
/// holidays, the shortened pre-holiday days, and the Saturdays turned into
/// working days.
fn overrides_2024() -> Vec<Day> {
    let mut v: Vec<Day> = Vec::new();
    let holidays: [(u8, u8); 17] = [
        (1, 1),
        (1, 2),
        (1, 3),
        (1, 4),
        (1, 5),
        (1, 8),
        (2, 23),
        (3, 8),
        (4, 29),
        (4, 30),
        (5, 1),
        (5, 9),
        (5, 10),
        (6, 12),
        (11, 4),
        (12, 30),
        (12, 31),
    ];
    for (m, d) in holidays {
        v.push(create_day(2024, m, d, Some(DayKind::Holiday)));
    }
    let preholidays: [(u8, u8); 5] = [(2, 22), (3, 7), (5, 8), (6, 11), (11, 2)];
    for (m, d) in preholidays {
        v.push(create_day(2024, m, d, Some(DayKind::Preholiday)));
    }
    let moved_work: [(u8, u8); 2] = [(4, 27), (12, 28)];
    for (m, d) in moved_work {
        v.push(create_day(2024, m, d, Some(DayKind::Work)));
    }
    v
}

fn get_product_calendar_for_year(year: u16, cache: &mut CalendarCache) -> ProductCalendar {
    let overrides = if year == 2024 { overrides_2024() } else { Vec::new() };
    get_product_calendar(Some(year), overrides, cache).unwrap()
}

fn _create_period(cache: &mut CalendarCache) -> ProductCalendar {
    let pc = {
        let _pc = get_product_calendar(Some(2024), overrides_2024(), cache);
        let start = Date::new(2024, 9, 1).unwrap();
        let end = Date::new(2024, 9, 30).unwrap();
        _pc.expect("\u{41d}\u{435} \u{443}\u{434}\u{430}\u{43b}\u{43e}\u{441}\u{44c} \u{43f}\u{43e}\u{43b}\u{443}\u{447}\u{438}\u{442}\u{44c} \u{43a}\u{430}\u{43b}\u{435}\u{43d}\u{434}\u{430}\u{440}\u{44c}...")
            .period_slice(start, end)
            .unwrap()
    };
    pc
}

#[test]
fn test_extend_forward() {
    let mut cache = CalendarCache::new();
    let pc_period = _create_period(&mut cache);
    let extended = pc_period.extend_forward(30, &cache);
    let day = create_day(2024, 10, 30, Some(DayKind::Work));
    assert_eq!(
        extended
            .unwrap()
            .last()
            .expect("\u{41d}\u{435} \u{43f}\u{43e}\u{443}\u{43b}\u{447}\u{438}\u{43b}\u{438} \u{43f}\u{43e}\u{441}\u{43b}\u{435}\u{434}\u{438}\u{43d}\u{439} \u{434}\u{435}\u{43d}\u{44c} \u{432} \u{442}\u{435}\u{441}\u{442}\u{435}"),
        day
    );
}

#[test]
fn test_extend_backward() {
    let mut cache = CalendarCache::new();
    let pc_period = _create_period(&mut cache);
    let extended = pc_period.extend_backward(30, &cache);
    let day = create_day(2024, 8, 2, Some(DayKind::Work));
    assert_eq!(
        extended
            .unwrap()
            .first()
            .expect("\u{41d}\u{435} \u{43f}\u{43e}\u{443}\u{43b}\u{447}\u{438}\u{43b}\u{438} \u{43f}\u{43e}\u{441}\u{43b}\u{435}\u{434}\u{438}\u{43d}\u{439} \u{434}\u{435}\u{43d}\u{44c} \u{432} \u{442}\u{435}\u{441}\u{442}\u{435}"),
        day
    );
}

#[test]
fn test_period_by_number_of_days() {
    let mut cache = CalendarCache::new();
    let pc = get_product_calendar_for_year(2024, &mut cache);
    let expected = vec![
        create_day(2024, 5, 6, None),
        create_day(2024, 5, 7, None),
        create_day(2024, 5, 8, Some(DayKind::Preholiday)),
    ];

    assert_eq!(
        pc.period_by_number_of_days(Date::new(2024, 5, 6).unwrap(), 3)
            .unwrap()
            .calendar,
        expected
    );
}

#[test]
fn test_statistic() {
    let mut cache = CalendarCache::new();
    let pc = get_product_calendar_for_year(2024, &mut cache);
    let expected = Statistic {
        holidays: 17,
        work_days: 243,
        weekends: 101,
        preholidays: 5,
    };
    assert_eq!(pc.statistic(), expected);
}

#[test]
fn test_last() {
    let mut cache = CalendarCache::new();
    let pc = get_product_calendar_for_year(2024, &mut cache);
    let expected_day = create_day(2024, 12, 31, Some(DayKind::Holiday));
    assert_eq!(pc.last(), Some(expected_day));
}

#[test]
fn test_first() {
    let mut cache = CalendarCache::new();
    let pc = get_product_calendar_for_year(2024, &mut cache);
    let expected_day = create_day(2024, 1, 1, Some(DayKind::Holiday));
    assert_eq!(pc.first(), Some(expected_day));
}

#[test]
fn test_info_by_day() {
    let mut cache = CalendarCache::new();
    let pc = get_product_calendar_for_year(2024, &mut cache);
    let expected_day = create_day(2024, 6, 11, Some(DayKind::Preholiday));
    let test_day = pc.info_by_date(Date::new(2024, 6, 11).unwrap()).unwrap();
    assert_eq!(expected_day, test_day);
}

#[test]
fn test_info_by_day_2() {
    let mut cache = CalendarCache::new();
    let pc = get_product_calendar_for_year(2025, &mut cache);
    let expected_day = create_day(2025, 2, 22, Some(DayKind::Weekend));
    let test_day = pc.info_by_date(Date::new(2025, 2, 22).unwrap()).unwrap();
    assert_eq!(expected_day, test_day);
}

#[test]
fn test_period_by_number_of_work_days() {
    let mut cache = CalendarCache::new();
    let pc = get_product_calendar_for_year(2024, &mut cache);

    let expected = vec![
        create_day(2024, 6, 11, Some(DayKind::Preholiday)),
        create_day(2024, 6, 12, Some(DayKind::Holiday)),
        create_day(2024, 6, 13, None),
    ];

    assert_eq!(
        expected,
        pc.period_by_number_of_work_days(Date::new(2024, 6, 11).unwrap(), 2)
            .unwrap()
            .calendar,
    );
}

#[test]
fn test_invalid_year() {
    let invalid_year: u16 = 1899;
    let mut cache = CalendarCache::new();
    let calendar = get_product_calendar(Some(invalid_year), Vec::new(), &mut cache);
    assert_eq!(calendar.is_err(), true);
}

#[test]
fn test_invalid_year_2() {
    let invalid_year: u16 = 2055;
    let mut cache = CalendarCache::new();
    let calendar = get_product_calendar(Some(invalid_year), Vec::new(), &mut cache);
    assert_eq!(calendar.is_err(), true);
}

#[test]
fn test_next_work_day() {
    let mut cache = CalendarCache::new();
    let pc = get_product_calendar_for_year(2024, &mut cache);
    let next = pc.next_work_day(Date::new(2024, 6, 11).unwrap()).unwrap();
    assert_eq!(next, create_day(2024, 6, 13, None));
    assert_eq!(next.get_kind(), DayKind::Work);
}

#[test]
fn test_period_of_zero_days_is_empty() {
    let mut cache = CalendarCache::new();
    let pc = get_product_calendar_for_year(2024, &mut cache);
    let window = pc
        .period_by_number_of_days(Date::new(2024, 5, 6).unwrap(), 0)
        .unwrap();
    assert_eq!(window.total_days(), 0);
}

#[test]
fn test_period_errors() {
    let mut cache = CalendarCache::new();
    let pc = get_product_calendar_for_year(2024, &mut cache);
    let absent = Date::new(2023, 5, 6).unwrap();
    assert!(matches!(
        pc.period_by_number_of_days(absent, 3),
        Err(ProductCalendarError::DateOutOfRange(_))
    ));
    assert!(matches!(
        pc.period_by_number_of_days(Date::new(2024, 12, 31).unwrap(), 2),
        Err(ProductCalendarError::ExceedMaxDaysError(_))
    ));
    assert!(matches!(
        pc.period_slice(
            Date::new(2024, 9, 30).unwrap(),
            Date::new(2024, 9, 1).unwrap()
        ),
        Err(ProductCalendarError::DateOutOfRange(_))
    ));
    assert!(matches!(
        pc.period_by_number_of_work_days(Date::new(2024, 12, 28).unwrap(), 10),
        Err(ProductCalendarError::ExceedMaxDaysError(_))
    ));
}

#[test]
fn test_invalid_quarter() {
    let mut cache = CalendarCache::new();
    let pc = get_product_calendar_for_year(2024, &mut cache);
    assert!(matches!(
        pc.extract_dates_in_quarter(5),
        Err(ProductCalendarError::InvalidQuarter(5))
    ));
    assert!(matches!(
        pc.extract_dates_in_quarter(0),
        Err(ProductCalendarError::InvalidQuarter(0))
    ));
}

#[test]
fn test_quarters_tile_leap_year() {
    let mut cache = CalendarCache::new();
    let pc = get_product_calendar_for_year(2024, &mut cache);
    let mut glued: Vec<Day> = Vec::new();
    for q in [1u8, 2, 3, 4] {
        let part = pc.extract_dates_in_quarter(q).unwrap();
        glued.extend_from_slice(&part.calendar);
    }
    assert_eq!(glued.len(), 366);
    assert_eq!(glued, pc.all_days());
}

#[test]
fn test_quarters_tile_common_year() {
    let mut cache = CalendarCache::new();
    let pc = get_product_calendar_for_year(2025, &mut cache);
    let mut glued: Vec<Day> = Vec::new();
    for q in [1u8, 2, 3, 4] {
        let part = pc.extract_dates_in_quarter(q).unwrap();
        glued.extend_from_slice(&part.calendar);
    }
    assert_eq!(glued.len(), 365);
    assert_eq!(glued, pc.all_days());
}

#[test]
fn test_quarter_needs_whole_year() {
    let mut cache = CalendarCache::new();
    let pc = get_product_calendar_for_year(2024, &mut cache);
    let slice = pc
        .period_slice(
            Date::new(2024, 9, 1).unwrap(),
            Date::new(2024, 9, 30).unwrap(),
        )
        .unwrap();
    assert!(matches!(
        slice.extract_dates_in_quarter(1),
        Err(ProductCalendarError::DateOutOfRange(_))
    ));
}

#[test]
fn test_after_nth_weeks() {
    let mut cache = CalendarCache::new();
    let pc = get_product_calendar_for_year(2024, &mut cache);
    let d = pc
        .after_nth_weeks(Date::new(2024, 5, 6).unwrap(), 1)
        .unwrap();
    assert_eq!(d.get_date(), Date::new(2024, 5, 13).unwrap());
    assert!(matches!(
        pc.after_nth_weeks(Date::new(2024, 12, 31).unwrap(), 1),
        Err(ProductCalendarError::ExceedMaxDaysError(_))
    ));
}

#[test]
fn test_by_kind() {
    let mut cache = CalendarCache::new();
    let pc = get_product_calendar_for_year(2024, &mut cache);
    let holidays = pc.by_kind(DayKind::Holiday);
    assert_eq!(holidays.total_days(), 17);
    for d in holidays.all_days() {
        assert_eq!(d.get_kind(), DayKind::Holiday);
    }
    let preholidays = pc.by_kind(DayKind::Preholiday);
    assert_eq!(preholidays.total_days(), 5);
}

#[test]
fn test_merge_overrides_win() {
    let mut pc = ProductCalendar::new(2024);
    assert_eq!(pc.total_days(), 366);
    let mut overrides = overrides_2024();
    pc.merge(&mut overrides);
    assert_eq!(overrides.len(), 0);
    assert_eq!(pc.total_days(), 366);
    let d = pc.info_by_date(Date::new(2024, 11, 2).unwrap()).unwrap();
    assert_eq!(d.get_kind(), DayKind::Preholiday);
    let d = pc.info_by_date(Date::new(2024, 4, 27).unwrap()).unwrap();
    assert_eq!(d.get_kind(), DayKind::Work);
    let d = pc.info_by_date(Date::new(2024, 1, 6).unwrap()).unwrap();
    assert_eq!(d.get_kind(), DayKind::Weekend);
}

#[test]
fn test_default_calendar_weekend_rule() {
    let pc = ProductCalendar::new(2025);
    assert_eq!(pc.total_days(), 365);
    for d in pc.all_days() {
        let weekend = matches!(
            d.get_weekday(),
            product_calendar::date::Weekday::Sat | product_calendar::date::Weekday::Sun
        );
        if weekend {
            assert_eq!(d.get_kind(), DayKind::Weekend);
        } else {
            assert_eq!(d.get_kind(), DayKind::Work);
        }
    }
}

#[test]
fn test_statistic_sums_to_total_days() {
    let mut cache = CalendarCache::new();
    let pc = get_product_calendar_for_year(2024, &mut cache);
    let s = pc.statistic();
    let total = s.holidays + s.work_days + s.weekends + s.preholidays;
    assert_eq!(total as usize, pc.total_days());
}

#[test]
fn test_statistic_derived_figures() {
    let s = Statistic::new(17, 243, 101, 5);
    assert_eq!(s.rest_days(), 118);
    assert_eq!(s.work_hours(), 1979);
    let m = s.as_map();
    assert_eq!(m[0], ("holidays".to_string(), 17));
    assert_eq!(m[1], ("workdays".to_string(), 243));
    assert_eq!(m[2], ("weekends".to_string(), 101));
    assert_eq!(m[3], ("prelolidays".to_string(), 5));
    assert_eq!(
        s.display_string(),
        "Statistic(holidays=17, work_days=243, weekends=101, preholidays=5)".to_string()
    );
    assert_eq!(Statistic::default(), Statistic::new(0, 0, 0, 0));
}

#[test]
fn test_resolve_year() {
    assert_eq!(resolve_year(None, 2024), Ok(2024));
    assert_eq!(resolve_year(Some(2020), 2024), Ok(2020));
    assert!(matches!(
        resolve_year(Some(2014), 2024),
        Err(ProductCalendarError::InvalidYear(_))
    ));
    assert!(matches!(
        resolve_year(Some(2025), 2024),
        Err(ProductCalendarError::InvalidYear(_))
    ));
}

#[test]
fn test_cache_serves_repeat_requests() {
    let mut cache = CalendarCache::new();
    let first = get_product_calendar(Some(2024), overrides_2024(), &mut cache).unwrap();
    let again = get_product_calendar(Some(2024), Vec::new(), &mut cache).unwrap();
    assert_eq!(first.calendar, again.calendar);
}

#[test]
fn test_info_by_date_absent() {
    let mut cache = CalendarCache::new();
    let pc = get_product_calendar_for_year(2024, &mut cache);
    assert_eq!(pc.info_by_date(Date::new(2023, 1, 1).unwrap()), None);
}

#[test]
fn test_error_messages_carry_value() {
    let e = ProductCalendarError::InvalidQuarter(5);
    assert!(e.message().contains('5'));
    let e = ProductCalendarError::ExceedMaxDaysError(370);
    assert!(e.message().contains("370"));
    let e = ProductCalendarError::InvalidYear("1899".to_string());
    assert!(e.message().contains("1899"));
    let e = ProductCalendarError::DateOutOfRange("2023-01-01".to_string());
    assert!(e.message().contains("2023-01-01"));
}
