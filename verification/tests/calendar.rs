use beckon::calendar::{build_vevent, parse_events};

#[test]
fn parse_events_handles_folding() {
    let ics = "BEGIN:VEVENT\r\nUID:abc\r\nSUMMARY:Team sy\r\n nc\r\nDTSTART:20260615T090000Z\r\nDTEND:20260615T093000Z\r\nLOCATION:Room 4\r\nEND:VEVENT\r\n";
    let events = parse_events(ics);
    assert_eq!(events.len(), 1);
    let ev = &events[0];
    assert_eq!(ev.summary, "Team sync");
    assert_eq!(ev.uid.as_deref(), Some("abc"));
    assert_eq!(ev.location.as_deref(), Some("Room 4"));
    assert!(!ev.all_day);
    assert_eq!(ev.sort_key, "20260615090000");
}

#[test]
fn all_day_detection() {
    let ics = "BEGIN:VEVENT\r\nUID:x\r\nDTSTART;VALUE=DATE:20260620\r\nSUMMARY:Holiday\r\nEND:VEVENT\r\n";
    let ev = &parse_events(ics)[0];
    assert!(ev.all_day);
}

#[test]
fn build_vevent_timed_and_all_day() {
    let timed = build_vevent("u1", "2026-06-20T15:00:00", false, None, "Meet; greet", None, None).unwrap();
    assert!(timed.contains("DTSTART:20260620T150000Z\r\n"));
    assert!(timed.contains("DTEND:20260620T160000Z\r\n")); // +1h default
    assert!(timed.contains("SUMMARY:Meet\\; greet\r\n")); // escaped semicolon

    let allday = build_vevent("u2", "2026-06-20", true, None, "Trip", None, None).unwrap();
    assert!(allday.contains("DTSTART;VALUE=DATE:20260620\r\n"));
    assert!(allday.contains("DTEND;VALUE=DATE:20260621\r\n")); // next day default
}
