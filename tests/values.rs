use attendance::date::Date;
use attendance::errors::InputParseError;
use attendance::range::DateRange;
use attendance::subject::Subject;

fn date(y: u16, m: u8, d: u8) -> Date {
    Date::new(y, m, d).unwrap()
}

#[test]
fn date_parse_canonical() {
    assert_eq!(Date::parse("2026-01-05"), Ok(date(2026, 1, 5)));
}

#[test]
fn date_parse_unpadded_and_plus_sign() {
    assert_eq!(Date::parse("2026-1-5"), Ok(date(2026, 1, 5)));
    assert_eq!(Date::parse("+2026-01-05"), Ok(date(2026, 1, 5)));
}

#[test]
fn date_parse_accepts_any_day_up_to_31() {
    assert_eq!(Date::parse("2026-02-31"), Ok(date(2026, 2, 31)));
}

#[test]
fn date_parse_errors() {
    assert_eq!(Date::parse("2026-13-40"), Err(InputParseError::MonthOutOfRange));
    assert_eq!(Date::parse("2026-12-40"), Err(InputParseError::DayOutOfRange));
    assert_eq!(Date::parse("2026-00-10"), Err(InputParseError::MonthOutOfRange));
    assert_eq!(Date::parse("2026-12-00"), Err(InputParseError::DayOutOfRange));
    assert_eq!(Date::parse("2026"), Err(InputParseError::MissingMonth));
    assert_eq!(Date::parse("2026-01"), Err(InputParseError::MissingDay));
    assert_eq!(Date::parse("2026-01-01-01"), Err(InputParseError::TooManyComponents));
    assert_eq!(Date::parse("year-01-01"), Err(InputParseError::InvalidYear));
    assert_eq!(Date::parse(""), Err(InputParseError::InvalidYear));
    assert_eq!(Date::parse("2026-x-01"), Err(InputParseError::InvalidMonth));
    assert_eq!(Date::parse("2026-01-"), Err(InputParseError::InvalidDay));
    assert_eq!(Date::parse("65536-01-01"), Err(InputParseError::InvalidYear));
    assert_eq!(Date::parse("2026-256-01"), Err(InputParseError::InvalidMonth));
}

#[test]
fn date_parse_largest_year() {
    assert_eq!(Date::parse("65535-12-31"), Ok(date(65535, 12, 31)));
}

#[test]
fn date_new_rejects_out_of_range() {
    assert_eq!(Date::new(2026, 13, 1), None);
    assert_eq!(Date::new(2026, 1, 32), None);
}

#[test]
fn date_render_pads() {
    assert_eq!(date(2026, 1, 5).render(), "2026-01-05");
    assert_eq!(date(7, 12, 31).render(), "0007-12-31");
    assert_eq!(date(12345, 3, 9).render(), "12345-03-09");
}

#[test]
fn date_round_trip() {
    for d in [date(0, 1, 1), date(2026, 2, 31), date(9999, 12, 31), date(65535, 6, 15)] {
        assert_eq!(Date::parse(&d.render()), Ok(d));
    }
    for t in ["2026-01-01", "0000-12-31", "1999-02-28"] {
        assert_eq!(Date::parse(t).unwrap().render(), t);
    }
}

#[test]
fn date_order_matches_text_order() {
    let ds = [date(2025, 12, 31), date(2026, 1, 1), date(2026, 1, 2), date(2026, 2, 1), date(999, 9, 9)];
    for a in ds.iter() {
        for b in ds.iter() {
            let before = a.at_or_before(b) && a != b;
            assert_eq!(before, a.render() < b.render());
        }
    }
}

#[test]
fn subject_parse_and_render() {
    assert_eq!(Subject::parse("Dms"), Ok(Subject::Dms));
    assert_eq!(Subject::parse("JavaLab"), Ok(Subject::JavaLab));
    assert_eq!(Subject::parse("dms"), Err(InputParseError::UnknownSubject));
    assert_eq!(Subject::parse(" Dms"), Err(InputParseError::UnknownSubject));
    assert_eq!(Subject::parse(""), Err(InputParseError::UnknownSubject));
    assert_eq!(Subject::MpiLab.render(), "MpiLab");
}

#[test]
fn subject_round_trip() {
    let all = [
        Subject::Dms,
        Subject::Tc,
        Subject::Mpi,
        Subject::Dbms,
        Subject::Toc,
        Subject::Dccn,
        Subject::MpiLab,
        Subject::DbmsLab,
        Subject::NpLab,
        Subject::LinuxLab,
        Subject::JavaLab,
    ];
    for s in all {
        assert_eq!(Subject::parse(&s.render()), Ok(s));
        assert_eq!(Subject::parse(s.name()).unwrap().render(), s.name());
    }
}

#[test]
fn range_new_fails_iff_start_after_end() {
    let a = date(2026, 1, 1);
    let b = date(2026, 1, 2);
    assert_eq!(DateRange::new(a, b), Ok(DateRange { start: a, end: b }));
    assert_eq!(DateRange::new(a, a), Ok(DateRange { start: a, end: a }));
    assert_eq!(DateRange::new(b, a), Err(InputParseError::StartAfterEnd));
}

#[test]
fn range_contains_is_inclusive() {
    let r = DateRange::new(date(2026, 1, 1), date(2026, 1, 3)).unwrap();
    assert!(r.contains(date(2026, 1, 1)));
    assert!(r.contains(date(2026, 1, 2)));
    assert!(r.contains(date(2026, 1, 3)));
    assert!(!r.contains(date(2025, 12, 31)));
    assert!(!r.contains(date(2026, 1, 4)));
}

#[test]
fn range_parse_and_render() {
    let r = DateRange::parse("2026-01-01..2026-01-07").unwrap();
    assert_eq!(r, DateRange { start: date(2026, 1, 1), end: date(2026, 1, 7) });
    assert_eq!(r.render(), "2026-01-01..2026-01-07");
    assert_eq!(DateRange::parse(&r.render()), Ok(r));
}

#[test]
fn range_parse_errors() {
    assert_eq!(DateRange::parse("2026-01-01"), Err(InputParseError::MissingRangeDelimiter));
    assert_eq!(DateRange::parse("2026-01-07..2026-01-01"), Err(InputParseError::StartAfterEnd));
    assert_eq!(DateRange::parse("2026-13-01..2026-01-01"), Err(InputParseError::MonthOutOfRange));
    assert_eq!(DateRange::parse("2026-01-01..2026-01"), Err(InputParseError::MissingDay));
    assert_eq!(DateRange::parse("2026-01-01...2026-01-02"), Err(InputParseError::InvalidYear));
}
