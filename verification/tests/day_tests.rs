use product_calendar::date::Date;
use product_calendar::date::Weekday;
use product_calendar::day::from_map_entries;
use product_calendar::day::kind::DayKind;
use product_calendar::day::Day;

fn date(y: u16, m: u8, d: u8) -> Date {
    Date::new(y, m, d).unwrap()
}

#[test]
fn test_get_date() {
    let d = Day::new(date(2024, 5, 6));
    assert_eq!(d.get_date(), date(2024, 5, 6));
}

#[test]
fn test_get_year() {
    let d = Day::new(date(2024, 5, 6));
    assert_eq!(d.get_year(), 2024);
}

#[test]
fn test_get_kind() {
    let d = Day::new(date(2024, 5, 6));
    let kind = d.get_kind();
    assert_eq!(DayKind::Work, kind);
}

#[test]
fn test_get_weekday() {
    let d = Day::new(date(2024, 5, 6));
    let weekday = d.get_weekday();
    assert_eq!(Weekday::Mon, weekday);
}

#[test]
fn test_day_not_eq() {
    let mut d1 = Day::new(date(2024, 5, 8));
    d1.set_kind(DayKind::Preholiday);

    let d2 = Day::new(date(2024, 5, 8));
    assert_ne!(d1, d2);
}

#[test]
fn test_eq() {
    let mut d1 = Day::new(date(1970, 1, 1));
    d1.set_kind(DayKind::Work);

    let mut d2 = Day::new(date(1970, 1, 1));
    d2.set_kind(DayKind::Weekend);

    assert!(d1.same_date(&d2));
}

#[test]
fn day_test_day_as_map() {
    let d1 = Day::new(date(2024, 5, 6));

    let day_map = vec![
        ("weekday".to_owned(), "Mon".to_string()),
        ("day".to_owned(), "2024-05-06".to_string()),
        ("kind".to_owned(), "Work".to_string()),
    ];

    println!("{:?}", d1.as_map());
    assert_eq!(d1.as_map(), day_map);
}

#[test]
fn mod_test_day_as_map() {
    let d = Day::new(date(2024, 5, 6));
    let day_map = vec![
        ("weekday".to_owned(), "Mon".to_string()),
        ("day".to_owned(), "2024-05-06".to_string()),
        ("kind".to_owned(), "Work".to_string()),
    ];
    assert_eq!(d.as_map(), day_map);
}

#[test]
fn test_day_map_reconstructs_day() {
    let mut d = Day::new(date(2024, 6, 11));
    d.set_kind(DayKind::Preholiday);
    let entries = d.as_map();
    let rebuilt = from_map_entries(
        entries[0].1.as_str(),
        entries[1].1.as_str(),
        entries[2].1.as_str(),
    );
    assert_eq!(rebuilt, Some(d));
    assert!(rebuilt.unwrap().same_date(&d));
}

#[test]
fn test_kind_from_str_round_trip() {
    for kind in [DayKind::Holiday, DayKind::Preholiday, DayKind::Work, DayKind::Weekend] {
        assert_eq!(DayKind::from_str(kind.as_str()), Ok(kind));
    }
}

#[test]
fn test_kind_from_str_rejects() {
    let r = DayKind::from_str("Foo");
    assert_eq!(
        r,
        Err(
            "Invalid DayKind: 'Foo'. Available options: 'Holiday', 'Preholiday', 'Work', 'Weekend'"
                .to_string(),
        )
    );
}

#[test]
fn test_weekday_names_round_trip() {
    for w in [
        Weekday::Mon,
        Weekday::Tue,
        Weekday::Wed,
        Weekday::Thu,
        Weekday::Fri,
        Weekday::Sat,
        Weekday::Sun,
    ] {
        assert_eq!(Weekday::from_name(w.as_str()), Some(w));
    }
    assert_eq!(Weekday::from_name("Foo"), None);
}

#[test]
fn test_date_iso_round_trip() {
    let d = date(2024, 5, 6);
    assert_eq!(d.to_iso_string(), "2024-05-06".to_string());
    assert_eq!(Date::from_iso("2024-05-06"), Some(d));
    assert_eq!(Date::from_iso("2024-13-06"), None);
    assert_eq!(Date::from_iso("2023-02-29"), None);
    assert_eq!(Date::from_iso("2024-05-6"), None);
    assert_eq!(Date::from_iso("not a date"), None);
}

#[test]
fn test_date_rejects_invalid() {
    assert_eq!(Date::new(2024, 2, 30), None);
    assert_eq!(Date::new(2024, 0, 1), None);
    assert_eq!(Date::new(0, 1, 1), None);
    assert!(Date::new(2024, 2, 29).is_some());
    assert_eq!(Date::new(2023, 2, 29), None);
}

#[test]
fn test_date_ordinal_and_weekday() {
    assert_eq!(date(2024, 1, 1).ordinal(), 1);
    assert_eq!(date(2024, 12, 31).ordinal(), 366);
    assert_eq!(date(2025, 12, 31).ordinal(), 365);
    assert_eq!(date(2000, 1, 1).weekday(), Weekday::Sat);
    assert_eq!(date(2024, 6, 12).weekday(), Weekday::Wed);
}

#[test]
fn test_day_display_string() {
    let d = Day::new(date(2024, 5, 6));
    assert_eq!(
        d.display_string(),
        "Day(day=2024-05-06, kind=Work, weekday=Mon)".to_string()
    );
}
