use beckon::datetime::{
    civil_from_days, days_from_civil, epoch_seconds, epoch_to_date, epoch_to_make_time, format_epoch,
    parse_iso,
};

#[test]
fn civil_dates_round_trip() {
    assert_eq!(civil_from_days(0), (1970, 1, 1));
    for &(y, m, d) in &[(1970, 1, 1), (2000, 2, 29), (2026, 6, 13), (2027, 1, 1)] {
        assert_eq!(civil_from_days(days_from_civil(y, m, d)), (y, m, d));
    }
}

#[test]
fn make_time_formats_utc() {
    let (secs, _) = parse_iso("2026-06-13T14:30:00Z").unwrap();
    assert_eq!(epoch_to_make_time(secs), "20260613T143000Z");
    assert_eq!(epoch_to_date(secs), "20260613");
    assert_eq!(format_epoch(secs), "2026-06-13 14:30");
}

#[test]
fn parse_iso_date_and_time() {
    let (_, has_time) = parse_iso("2026-06-13").unwrap();
    assert!(!has_time);
    let (secs, has_time) = parse_iso("2026-06-13T09:05").unwrap();
    assert!(has_time);
    assert_eq!(secs - days_from_civil(2026, 6, 13) * 86_400, 9 * 3600 + 5 * 60);
    assert!(parse_iso("not-a-date").is_err());
}

#[test]
fn clock_readings_become_epoch_seconds() {
    assert_eq!(epoch_seconds(Some(1_781_308_800)), 1_781_308_800);
    assert_eq!(epoch_seconds(None), 0);
    assert_eq!(epoch_seconds(Some(u64::MAX)), -1);
}

#[test]
fn display_text_parses_back() {
    let secs: i64 = 1_781_361_065;
    let shown = format_epoch(secs);
    assert_eq!(shown, "2026-06-13 14:31");
    assert_eq!(parse_iso(&shown), Ok((secs - secs.rem_euclid(60), true)));
    assert_eq!(parse_iso(&shown[..10]), Ok((secs - secs.rem_euclid(86_400), false)));
}
