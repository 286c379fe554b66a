use beckon::ical::{
    components, dt_property, escape, format_dt, set_property, sort_key, unescape, unfold,
};

#[test]
fn format_dt_variants() {
    assert_eq!(format_dt("20260613", true), "2026-06-13");
    assert_eq!(format_dt("20260613T143000Z", false), "2026-06-13 14:30 UTC");
    assert_eq!(format_dt("20260613T143000", false), "2026-06-13 14:30");
}

#[test]
fn components_handles_folding() {
    // A folded DESCRIPTION (continuation line begins with a space). RFC 5545
    // unfolding removes the CRLF *and* the continuation's leading space.
    let ics = "BEGIN:VEVENT\r\nUID:abc\r\nSUMMARY:Team sy\r\n nc\r\nEND:VEVENT\r\n";
    let comps = components(ics, "VEVENT");
    assert_eq!(comps.len(), 1);
    assert!(comps[0].iter().any(|l| l == "SUMMARY:Team sync"));
    assert!(comps[0].iter().any(|l| l == "UID:abc"));
}

#[test]
fn sort_key_orders_dated_before_undated() {
    let dated = sort_key(&Some("20260615T090000Z".to_string()));
    let undated = sort_key(&None);
    assert_eq!(dated, "20260615090000");
    assert!(dated < undated);
}

#[test]
fn set_property_replaces_before_end() {
    let mut lines = unfold("BEGIN:VTODO\r\nUID:u\r\nSUMMARY:Old\r\nEND:VTODO\r\n");
    set_property(&mut lines, "SUMMARY", Some("SUMMARY:New".to_string()));
    let out = lines.join("\r\n");
    assert!(out.contains("SUMMARY:New"));
    assert!(!out.contains("SUMMARY:Old"));
    assert!(out.contains("UID:u")); // untouched
    assert!(out.find("SUMMARY:New").unwrap() < out.find("END:VTODO").unwrap());
}

#[test]
fn set_property_inserts_before_outer_end_past_nested_block() {
    // A VEVENT carrying a VALARM: the new line must land before END:VEVENT,
    // not the nested END:VALARM.
    let mut lines = unfold(
        "BEGIN:VEVENT\r\nUID:u\r\nBEGIN:VALARM\r\nACTION:DISPLAY\r\nEND:VALARM\r\nEND:VEVENT\r\n",
    );
    set_property(&mut lines, "SUMMARY", Some("SUMMARY:New".to_string()));
    let out = lines.join("\r\n");
    assert!(out.find("SUMMARY:New").unwrap() > out.find("END:VALARM").unwrap());
    assert!(out.find("SUMMARY:New").unwrap() < out.find("END:VEVENT").unwrap());
}

#[test]
fn written_dates_read_back_as_given() {
    let day = dt_property("DTSTART", "2024-02-29").unwrap();
    assert_eq!(day, "DTSTART;VALUE=DATE:20240229");
    assert_eq!(format_dt("20240229", true), "2024-02-29");
    let timed = dt_property("DTEND", "1999-12-31T23:59:07Z").unwrap();
    assert_eq!(timed, "DTEND:19991231T235907Z");
    assert_eq!(format_dt("19991231T235907Z", false), "1999-12-31 23:59 UTC");
}

#[test]
fn escape_round_trip_drops_carriage_returns() {
    assert_eq!(escape("Meet; greet"), "Meet\\; greet");
    assert_eq!(unescape("Meet\\; greet"), "Meet; greet");
    assert_eq!(unescape(&escape("a\r\nb,c\\d")), "a\nb,c\\d");
}

#[test]
fn unfold_then_join_gives_plain_text_back() {
    assert_eq!(unfold("A:1\r\n B\r\n\tC\r\nD:2"), vec!["A:1BC".to_string(), "D:2".to_string()]);
    let text = "BEGIN:VEVENT\r\nUID:u\r\nEND:VEVENT\r\n";
    assert_eq!(unfold(text).join("\r\n"), text);
}

#[test]
fn earlier_instants_sort_first() {
    let a = sort_key(&Some("20260613T143005Z".to_string()));
    let b = sort_key(&Some("20260613T143006Z".to_string()));
    let c = sort_key(&Some("20270101T000000Z".to_string()));
    assert_eq!(a, "20260613143005");
    assert!(a < b && b < c);
}
