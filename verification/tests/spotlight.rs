use beckon::spotlight::{
    accepts_message, escape_action, pretty_args, pretty_or_raw, system_message, ChatEvent,
    EscapeAction, TurnLog,
};

#[test]
fn pretty_args_formats_json() {
    assert_eq!(pretty_args("{\"command\":\"ls\"}"), "{\n  \"command\": \"ls\"\n}");
    assert_eq!(pretty_args("not json"), "not json");
    assert_eq!(pretty_or_raw("raw", None), "raw");
    assert_eq!(pretty_or_raw("raw", Some("nice".to_string())), "nice");
}

#[test]
fn turn_log_keeps_answer_unless_failed() {
    let mut log = TurnLog::new();
    assert!(log.record(&ChatEvent::Reasoning("hmm".to_string())));
    assert!(log.record(&ChatEvent::Delta("Hel".to_string())));
    assert!(log.record(&ChatEvent::ToolCall));
    assert!(log.record(&ChatEvent::Delta("lo".to_string())));
    assert!(!log.record(&ChatEvent::Done));
    assert_eq!(log.reply(), Some("Hello".to_string()));

    let mut failed = TurnLog::new();
    failed.record(&ChatEvent::Delta("partial".to_string()));
    assert!(!failed.record(&ChatEvent::Error("network".to_string())));
    assert_eq!(failed.reply(), None);
    assert_eq!(TurnLog::new().reply(), None);
}

#[test]
fn escape_and_entry_rules() {
    assert_eq!(escape_action(false, 0), EscapeAction::Close);
    assert_eq!(escape_action(true, 0), EscapeAction::Clear);
    assert_eq!(escape_action(false, 2), EscapeAction::Clear);
    assert_eq!(system_message("  Be brief.  "), Some("Be brief.".to_string()));
    assert_eq!(system_message(" \n "), None);
    assert!(accepts_message("hi", false));
    assert!(!accepts_message("hi", true));
    assert!(!accepts_message("", false));
}
