use beckon::calendar::{
    check_event_changes, edit_event, event_created_reply, event_deleted_reply, event_modified_reply,
    event_window, events_report, occurrence_query, parse_events, Event,
};
use beckon::eds::{source_note, Source};
use beckon::mail::{account_note, folder_note, messages_report, no_store_reply, Message};
use beckon::tasks::{
    check_task_changes, edit_task, parse_tasks, task_created_reply, task_deleted_reply,
    task_modified_reply, tasks_report, Task,
};
use beckon::text::matches_filter;

fn event(summary: &str, start: &str, calendar: &str) -> Event {
    let ics = format!("BEGIN:VEVENT\r\nUID:{summary}-uid\r\nSUMMARY:{summary}\r\nDTSTART:{start}\r\nEND:VEVENT\r\n");
    let mut ev = parse_events(&ics).remove(0);
    ev.calendar = calendar.to_string();
    ev
}

fn task(summary: &str, status: &str, list: &str) -> Task {
    let ics = format!("BEGIN:VTODO\r\nUID:{summary}-uid\r\nSUMMARY:{summary}\r\nSTATUS:{status}\r\nEND:VTODO\r\n");
    let mut t = parse_tasks(&ics).remove(0);
    t.list = list.to_string();
    t
}

fn message(subject: &str, date: i64) -> Message {
    Message {
        subject: subject.to_string(),
        from: "Ann <ann@example.com>".to_string(),
        folder: "INBOX".to_string(),
        account: "Work".to_string(),
        date,
        unread: false,
        attachment: false,
    }
}

#[test]
fn events_are_listed_in_time_order() {
    let events = vec![
        event("Later", "20260616T090000Z", "Home"),
        event("Earlier", "20260615T090000Z", "Work"),
    ];
    let out = events_report(events, &vec![], 0, 0);
    let first = out.find("• Earlier  [Work]").unwrap();
    let second = out.find("• Later  [Home]").unwrap();
    assert!(first < second);
    assert!(out.contains("    2026-06-15 09:00 UTC\n"));
    assert!(out.contains("    uid: Earlier-uid\n"));
}

#[test]
fn empty_event_listing_names_the_range_and_notes() {
    let notes = vec!["- Birthdays (b1): timed out".to_string()];
    let out = events_report(vec![], &notes, 1_781_308_800, 1_781_913_600);
    assert_eq!(
        out,
        "No events found between 2026-06-13 00:00 UTC and 2026-06-20 00:00 UTC.\nNotes (calendars that could not be read):\n- Birthdays (b1): timed out"
    );
}

#[test]
fn event_window_defaults() {
    assert_eq!(event_window(None, None, 1000), Ok((1000, 1000 + 7 * 86_400)));
    assert_eq!(event_window(Some("2026-06-13"), None, 0), Ok((1_781_308_800, 1_781_308_800 + 604_800)));
    assert_eq!(event_window(Some("2026-06-13"), Some("2026-06-14"), 0), Ok((1_781_308_800, 1_781_395_200)));
    assert!(event_window(Some("not-a-date"), None, 0).is_err());
}

#[test]
fn occurrence_query_uses_make_time() {
    assert_eq!(
        occurrence_query(1_781_308_800, 1_781_395_200),
        "(occur-in-time-range? (make-time \"20260613T000000Z\") (make-time \"20260614T000000Z\"))"
    );
}

#[test]
fn tasks_listing_hides_completed_unless_asked() {
    let tasks = || vec![task("Open", "NEEDS-ACTION", "Inbox"), task("Done", "COMPLETED", "Inbox")];
    let open_only = tasks_report(tasks(), &vec![], false);
    assert!(open_only.contains("• [ ] Open  [Inbox]"));
    assert!(!open_only.contains("Done"));
    let all = tasks_report(tasks(), &vec![], true);
    assert!(all.contains("• [x] Done  [Inbox]"));
    assert_eq!(tasks_report(vec![task("Done", "COMPLETED", "Inbox")], &vec![], false), "No open tasks found.");
    assert_eq!(tasks_report(vec![], &vec![], true), "No tasks found.");
}

#[test]
fn messages_listed_newest_first_up_to_limit() {
    let msgs = vec![message("old", 100), message("newest", 300), message("middle", 200)];
    let out = messages_report(msgs, 2, false, &vec![]);
    assert!(out.starts_with("2 message(s):\n\n• newest\n"));
    assert!(out.find("newest").unwrap() < out.find("middle").unwrap());
    assert!(!out.contains("old"));
    assert_eq!(messages_report(vec![], 20, false, &vec![]), "No matching messages found.");
    let noted = messages_report(vec![], 20, true, &vec![folder_note("Work", "Spam", "no such table")]);
    assert_eq!(noted, "No matching messages found.\nNotes (sources that could not be read):\n- Work / Spam: no such table");
}

#[test]
fn message_shows_account_when_several() {
    let out = messages_report(vec![message("hi", 0)], 20, true, &vec![]);
    assert!(out.contains("  ·  Work / INBOX  ·  1970-01-01 00:00\n"));
}

#[test]
fn notes_and_replies() {
    let src = Source { uid: "cal-1".to_string(), name: "Personal".to_string() };
    assert_eq!(source_note(&src, "not found"), "- Personal (cal-1): not found");
    assert_eq!(account_note("Work", "locked"), "- Work: locked");
    assert!(no_store_reply().starts_with("No local mail store found"));
    assert_eq!(event_created_reply("Lunch", "Personal", "u1"), "Created \"Lunch\" in Personal (uid: u1).");
    assert_eq!(event_modified_reply("u1", "Personal"), "Modified event u1 in Personal.");
    assert_eq!(event_deleted_reply("u1", "Personal"), "Deleted event u1 from Personal.");
    assert_eq!(task_created_reply("Pay", "Tasks", "t1"), "Created task \"Pay\" in Tasks (uid: t1).");
    assert_eq!(task_modified_reply("t1", "Tasks"), "Modified task t1 in Tasks.");
    assert_eq!(task_deleted_reply("t1", "Tasks"), "Deleted task t1 from Tasks.");
}

#[test]
fn modify_requests_must_change_something() {
    let refusal = "nothing to modify: provide at least one field to change".to_string();
    assert_eq!(check_event_changes(None, None, None, None, None), Err(refusal.clone()));
    assert!(check_event_changes(None, None, None, Some("Room 2"), None).is_ok());
    assert_eq!(check_task_changes(None, None, None, None), Err(refusal));
    assert!(check_task_changes(None, None, None, Some(true)).is_ok());
}

#[test]
fn edit_event_sets_given_fields() {
    let existing = "BEGIN:VEVENT\r\nUID:u\r\nSUMMARY:Old\r\nDTSTART:20260101T100000Z\r\nEND:VEVENT\r\n";
    let out = edit_event(existing, Some("New; title"), Some("2026-06-20"), None, Some("Room 1"), None).unwrap();
    assert!(out.contains("SUMMARY:New\\; title"));
    assert!(out.contains("DTSTART;VALUE=DATE:20260620"));
    assert!(!out.contains("DTSTART:20260101T100000Z"));
    assert!(out.contains("LOCATION:Room 1"));
    assert!(out.find("LOCATION:Room 1").unwrap() < out.find("END:VEVENT").unwrap());
    assert!(edit_event(existing, None, Some("garbage"), None, None, None).is_err());
}

#[test]
fn edit_task_clears_due_and_completes() {
    let existing = "BEGIN:VTODO\r\nUID:t\r\nSUMMARY:Pay\r\nDUE;VALUE=DATE:20260625\r\nEND:VTODO\r\n";
    let out = edit_task(existing, None, Some(""), None, Some(true), 1_781_308_800).unwrap();
    assert!(!out.contains("DUE"));
    assert!(out.contains("STATUS:COMPLETED"));
    assert!(out.contains("PERCENT-COMPLETE:100"));
    assert!(out.contains("COMPLETED:20260613T000000Z"));
    let reopened = edit_task(&out, None, None, None, Some(false), 0).unwrap();
    assert!(reopened.contains("STATUS:NEEDS-ACTION"));
    assert!(!reopened.contains("\nCOMPLETED:"));
}

#[test]
fn edit_changes_only_the_named_fields() {
    let event = "BEGIN:VEVENT\r\nUID:u\r\nSUMMARY:Old\r\nLOCATION:Here\r\nX-CUSTOM;A=1:keep\r\nEND:VEVENT\r\n";
    assert_eq!(
        edit_event(event, Some("New"), None, None, None, None).unwrap(),
        "BEGIN:VEVENT\r\nUID:u\r\nLOCATION:Here\r\nX-CUSTOM;A=1:keep\r\nSUMMARY:New\r\nEND:VEVENT\r\n"
    );
    let task = "BEGIN:VTODO\r\nUID:t\r\nSUMMARY:Pay\r\nDUE;VALUE=DATE:20260625\r\nEND:VTODO\r\n";
    assert_eq!(
        edit_task(task, None, None, Some("Rent"), None, 0).unwrap(),
        "BEGIN:VTODO\r\nUID:t\r\nSUMMARY:Pay\r\nDUE;VALUE=DATE:20260625\r\nDESCRIPTION:Rent\r\nEND:VTODO\r\n"
    );
}

#[test]
fn source_filter_is_case_insensitive() {
    assert!(matches_filter("Work Calendar", Some("WORK")));
    assert!(matches_filter("Ärzte", Some("ärz")));
    assert!(!matches_filter("Personal", Some("work")));
    assert!(matches_filter("Anything", None));
}
