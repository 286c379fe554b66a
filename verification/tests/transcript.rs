use beckon::transcript::{FadeQueue, ran_title, running_title, thought_title, tool_body, Settle, Trailing, Transcript};

#[test]
fn same_kind_extends_new_kind_opens() {
    let mut turn = Transcript::new();
    let step = turn.push_reasoning();
    assert!(step.open_block && step.settle == Settle::Nothing && !step.busy);
    let step = turn.push_reasoning();
    assert!(!step.open_block);
    let step = turn.push_answer();
    assert!(step.open_block);
    assert_eq!(step.settle, Settle::CollapseReasoning);
    assert_eq!(turn.trailing, Trailing::Answer);
    let step = turn.push_answer();
    assert!(!step.open_block);
    let step = turn.push_tool_call();
    assert!(step.open_block);
    assert_eq!(step.settle, Settle::SnapAnswer);
    assert!(turn.tool_pending);
    assert!(turn.push_tool_result());
    assert!(!turn.push_tool_result());
    assert!(!turn.show_error());
}

#[test]
fn collapsed_trace_is_not_collapsed_again() {
    let mut turn = Transcript::new();
    turn.push_reasoning();
    turn.push_tool_call();
    turn.push_tool_result();
    let step = turn.push_reasoning();
    assert_eq!(step.settle, Settle::Nothing);
    assert_eq!(turn.finish(), (false, true));
}

#[test]
fn error_trails_partial_answer() {
    let mut turn = Transcript::new();
    turn.push_answer();
    assert!(turn.show_error());
    assert_eq!(turn.finish(), (true, false));
    turn.clear();
    assert_eq!(turn.trailing, Trailing::NoBlock);
    assert!(!turn.show_error());
}

#[test]
fn titles() {
    assert_eq!(thought_title(0), "Thought for a moment");
    assert_eq!(thought_title(12), "Thought for 12s");
    assert_eq!(running_title("bash"), "Running bash…");
    assert_eq!(ran_title("bash"), "Ran bash");
}

#[test]
fn tool_body_omits_trivial_parts() {
    assert_eq!(tool_body(" {} ", " out \n"), (None, Some("out".to_string())));
    assert_eq!(tool_body("{\"a\": 1}", ""), (Some("{\"a\": 1}".to_string()), None));
    assert_eq!(tool_body("", "  "), (None, None));
}

#[test]
fn fade_queue_settles_expired_chunks_in_order() {
    let mut q = FadeQueue::new();
    assert!(q.is_empty());
    q.push("Hel".to_string(), 1000);
    q.push("lo".to_string(), 1100);
    assert!(!q.settle(1200));
    assert_eq!(q.full_text(), "Hello");
    assert!(q.settle(1250));
    assert_eq!(q.settled, "Hel");
    assert_eq!(q.pending.len(), 1);
    assert_eq!(q.full_text(), "Hello");
    assert!(q.settle(5000));
    assert_eq!(q.settled, "Hello");
    assert!(q.pending.is_empty());
    assert!(!q.is_empty());
}
