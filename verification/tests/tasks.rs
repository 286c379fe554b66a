use beckon::ical::unfold;
use beckon::tasks::{build_vtodo, parse_tasks, set_completion};

#[test]
fn parse_tasks_reads_fields() {
    let ics = "BEGIN:VTODO\r\nUID:t1\r\nSUMMARY:Buy mi\r\n lk\r\nDUE;VALUE=DATE:20260620\r\nSTATUS:NEEDS-ACTION\r\nEND:VTODO\r\n";
    let tasks = parse_tasks(ics);
    assert_eq!(tasks.len(), 1);
    let t = &tasks[0];
    assert_eq!(t.summary, "Buy milk");
    assert_eq!(t.uid.as_deref(), Some("t1"));
    assert!(t.due_all_day);
    assert!(!t.completed());
}

#[test]
fn completed_detection() {
    let ics = "BEGIN:VTODO\r\nUID:t\r\nSUMMARY:Done\r\nSTATUS:COMPLETED\r\nEND:VTODO\r\n";
    assert!(parse_tasks(ics)[0].completed());
}

#[test]
fn build_vtodo_defaults_to_open() {
    let v = build_vtodo("u1", "Pay; rent", Some("2026-06-25"), Some("via bank")).unwrap();
    assert!(v.contains("SUMMARY:Pay\\; rent\r\n")); // escaped semicolon
    assert!(v.contains("STATUS:NEEDS-ACTION\r\n"));
    assert!(v.contains("DUE;VALUE=DATE:20260625\r\n"));
    assert!(v.contains("DESCRIPTION:via bank\r\n"));
}

#[test]
fn set_completion_toggles_trio() {
    let mut lines = unfold("BEGIN:VTODO\r\nUID:u\r\nSTATUS:NEEDS-ACTION\r\nPERCENT-COMPLETE:0\r\nEND:VTODO\r\n");
    set_completion(&mut lines, true);
    let done = lines.join("\r\n");
    assert!(done.contains("STATUS:COMPLETED"));
    assert!(done.contains("PERCENT-COMPLETE:100"));
    assert!(done.contains("COMPLETED:"));

    set_completion(&mut lines, false);
    let open = lines.join("\r\n");
    assert!(open.contains("STATUS:NEEDS-ACTION"));
    assert!(open.contains("PERCENT-COMPLETE:0"));
    assert!(!open.contains("\nCOMPLETED:") && !open.starts_with("COMPLETED:"));
}
