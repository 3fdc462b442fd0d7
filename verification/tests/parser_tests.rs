use product_calendar::date::Date;
use product_calendar::day::kind::DayKind;
use product_calendar::parser::ProductCalendarParser;

#[test]
fn test_parser_url() {
    let parser = ProductCalendarParser::new(2024);
    assert_eq!(parser.year, 2024);
    assert_eq!(
        parser.url,
        "https://www.consultant.ru/law/ref/calendar/proizvodstvennye/2024".to_string()
    );
}

#[test]
fn test_month_number() {
    let parser = ProductCalendarParser::new(2024);
    assert_eq!(
        parser.month_number("\u{42f}\u{43d}\u{432}\u{430}\u{440}\u{44c}"),
        Some(1)
    );
    assert_eq!(
        parser.month_number("\u{414}\u{435}\u{43a}\u{430}\u{431}\u{440}\u{44c}"),
        Some(12)
    );
    assert_eq!(parser.month_number("January"), None);
    assert_eq!(parser.month_number(""), None);
}

#[test]
fn test_to_date_cleans_filler() {
    let parser = ProductCalendarParser::new(2024);
    assert_eq!(
        parser.to_date("8\u{a0}", 3),
        Some(Date::new(2024, 3, 8).unwrap())
    );
    assert_eq!(
        parser.to_date("11*\u{a0}", 6),
        Some(Date::new(2024, 6, 11).unwrap())
    );
    assert_eq!(parser.to_date("31", 2), None);
    assert_eq!(parser.to_date("", 2), None);
    assert_eq!(parser.to_date("x7", 2), None);
}

#[test]
fn test_collect_days() {
    let parser = ProductCalendarParser::new(2024);
    let texts = vec![
        "1\u{a0}".to_string(),
        "2\u{a0}".to_string(),
        "notaday".to_string(),
        "8\u{a0}".to_string(),
    ];
    let days = parser.collect_days(&texts, 1, DayKind::Holiday);
    assert_eq!(days.len(), 3);
    assert_eq!(days[0].get_date(), Date::new(2024, 1, 1).unwrap());
    assert_eq!(days[1].get_date(), Date::new(2024, 1, 2).unwrap());
    assert_eq!(days[2].get_date(), Date::new(2024, 1, 8).unwrap());
    for d in days {
        assert_eq!(d.get_kind(), DayKind::Holiday);
    }
}
