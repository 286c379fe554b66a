use beckon::config::{Config, Service};
use beckon::tools::{
    catalog, combine_output, dispatch_index, exposed_name, sanitize, toolset_named, truncate,
    Toolset, MAX_OUTPUT_BYTES,
};

#[test]
fn truncate_cuts_on_char_boundary() {
    let mut short = "fits".to_string();
    truncate(&mut short, 10);
    assert_eq!(short, "fits");
    let mut text = "héllo".to_string(); // 'é' is two bytes
    truncate(&mut text, 2);
    assert_eq!(text, "h\n[output truncated]");
    let mut exact = "abc".to_string();
    truncate(&mut exact, 3);
    assert_eq!(exact, "abc");
}

#[test]
fn combine_output_joins_streams_and_status() {
    assert_eq!(combine_output("out", "err", Some(1)), "out\nerr\n[exit status: 1]");
    assert_eq!(combine_output("out\n", "err", Some(0)), "out\nerr\n[exit status: 0]");
    assert_eq!(combine_output("", "", None), "\n[terminated by signal]");
    assert_eq!(combine_output("x", "", Some(-2)), "x\n[exit status: -2]");
    let long = "y".repeat(MAX_OUTPUT_BYTES + 5);
    assert!(combine_output(&long, "", Some(0)).ends_with("\n[output truncated]\n[exit status: 0]"));
}

#[test]
fn tool_names_stay_unambiguous() {
    assert_eq!(sanitize("my server.v2"), "my_server_v2");
    let taken = vec!["bash".to_string(), "search".to_string()];
    assert_eq!(exposed_name(&taken, "search", "web-1"), "search__web_1");
    assert_eq!(exposed_name(&taken, "fetch", "web-1"), "fetch");
}

#[test]
fn exposed_names_stay_distinct_when_fallbacks_collide() {
    let taken = vec!["t".to_string(), "t__a_b".to_string()];
    assert_eq!(exposed_name(&taken, "t", "a.b"), "t__a_b_2");
    let more = vec!["t".to_string(), "t__a_b".to_string(), "t__a_b_2".to_string()];
    assert_eq!(exposed_name(&more, "t", "a_b"), "t__a_b_3");
}

#[test]
fn toolsets_and_dispatch() {
    assert_eq!(toolset_named("bash"), Some(Toolset::Bash));
    assert_eq!(toolset_named("calendar"), Some(Toolset::Calendar));
    assert_eq!(toolset_named("mail"), Some(Toolset::Mail));
    assert_eq!(toolset_named("tasks"), Some(Toolset::Tasks));
    assert_eq!(toolset_named("weather"), None);
    let names = vec!["bash".to_string(), "search".to_string(), "search".to_string()];
    assert_eq!(dispatch_index(&names, "search"), Ok(1));
    assert_eq!(dispatch_index(&names, "nope"), Err("unknown tool: nope".to_string()));
    let list = catalog();
    assert_eq!(list.iter().map(|t| t.name).collect::<Vec<_>>(), vec!["bash", "calendar", "tasks", "mail"]);
}

#[test]
fn services_and_defaults() {
    let config = Config::default();
    assert!(config.enabled);
    assert_eq!(config.shortcut, "<Control><Shift>space");
    assert_eq!(config.current_service().map(|s| s.name.as_str()), Some("ChatGPT"));
    let first_default = config.current_service().unwrap();
    assert_eq!(first_default.url_for("hello%20world"), "https://chatgpt.com/?q=hello%20world");
    assert_eq!(config.services.len(), 3);
    let custom = Config {
        enabled: true,
        selected_service: "Missing".to_string(),
        shortcut: String::new(),
        start_on_login: false,
        services: vec![Service::new("A", "https://a/?q={q}&again={q}")],
    };
    let first = custom.current_service().unwrap();
    assert_eq!(first.name, "A");
    assert_eq!(first.url_for("x"), "https://a/?q=x&again=x");
    let empty = Config { services: vec![], ..custom };
    assert!(empty.current_service().is_none());
}
