use beckon::calendar::start_is_all_day;
use beckon::datetime::{date_end_in_range, iso_in_range, iso_shift_in_range};
use beckon::eds::{format_uid, not_found_reply, object_found};
use beckon::settings::set_toolset;

#[test]
fn iso_range_checks() {
    assert!(iso_in_range("2026-06-13"));
    assert!(iso_in_range("not-a-date"));
    assert!(!iso_in_range("9223372036854775807-01-01"));
    assert!(iso_in_range("2026-06-13T10:00:00Z"));
    assert!(!iso_in_range("2026-06-13T9223372036854775807"));
    assert!(iso_shift_in_range("2026-06-13", 604_800));
    assert!(date_end_in_range("2026-06-13"));
}

#[test]
fn all_day_starts_have_no_time() {
    assert_eq!(start_is_all_day("2026-06-20"), Ok(true));
    assert_eq!(start_is_all_day("2026-06-20T15:00:00"), Ok(false));
    assert!(start_is_all_day("20-06").is_err());
}

#[test]
fn object_lookup_replies() {
    assert!(object_found(&Ok("BEGIN:VEVENT".to_string())));
    assert!(!object_found(&Ok(String::new())));
    assert!(!object_found(&Err("GetObject: no".to_string())));
    assert_eq!(not_found_reply("u1"), "no object with uid \"u1\" found");
}

#[test]
fn toolset_checkbox_updates_list() {
    let mut enabled = vec!["bash".to_string(), "mail".to_string()];
    set_toolset(&mut enabled, "bash", false);
    assert_eq!(enabled, vec!["mail"]);
    set_toolset(&mut enabled, "calendar", true);
    assert_eq!(enabled, vec!["mail", "calendar"]);
    set_toolset(&mut enabled, "mail", true);
    assert_eq!(enabled, vec!["calendar", "mail"]);
}

#[test]
fn uids_with_different_counters_differ() {
    assert_eq!(format_uid(1_781_308_800, 42, 0), "beckon-1781308800-42-0@beckon");
    assert_ne!(format_uid(1_781_308_800, 42, 0), format_uid(1_781_308_800, 42, 1));
    assert_ne!(format_uid(12, 42, 3), format_uid(1, 242, 3 + 1));
}
