use beckon::mcp::{McpServerConfig, McpStatus, McpTransport, ServerState, ToolMeta};
use beckon::settings::{
    check_server_form, format_env, merge_models, parse_env, remove_server, save_server,
    server_from_form, set_server_enabled, split_args, status_text,
};

fn server(name: &str, enabled: bool) -> McpServerConfig {
    McpServerConfig {
        name: name.to_string(),
        enabled,
        transport: McpTransport::Stdio,
        command: "run".to_string(),
        args: vec![],
        env: vec![],
        url: String::new(),
        auth_token: String::new(),
    }
}

fn tool(name: &str) -> ToolMeta {
    ToolMeta {
        server: "s".to_string(),
        name: name.to_string(),
        description: String::new(),
        input_schema: serde_json::Value::Null,
    }
}

fn state(name: &str, status: McpStatus, tools: usize) -> ServerState {
    ServerState { name: name.to_string(), status, tools: (0..tools).map(|i| tool(&format!("t{i}"))).collect() }
}

#[test]
fn status_text_covers_each_state() {
    let snapshot = vec![
        state("ready1", McpStatus::Ready, 1),
        state("ready3", McpStatus::Ready, 3),
        state("wait", McpStatus::Connecting, 0),
        state("bad", McpStatus::Error("could not start: no such file".to_string()), 0),
    ];
    assert_eq!(status_text(&server("x", false), &snapshot), ("Disabled".to_string(), None));
    assert_eq!(status_text(&server("ready1", true), &snapshot), ("1 tool".to_string(), None));
    assert_eq!(status_text(&server("ready3", true), &snapshot), ("3 tools".to_string(), None));
    assert_eq!(status_text(&server("wait", true), &snapshot), ("Connecting…".to_string(), None));
    assert_eq!(
        status_text(&server("bad", true), &snapshot),
        ("Error".to_string(), Some("could not start: no such file".to_string()))
    );
    assert_eq!(status_text(&server("unknown", true), &snapshot), ("Connecting…".to_string(), None));
    assert_eq!(status_text(&server("zero", true), &[state("zero", McpStatus::Ready, 0)]), ("0 tools".to_string(), None));
}

#[test]
fn split_args_on_white_space() {
    assert_eq!(split_args("  -y  @scope/server\t--flag \n"), vec!["-y", "@scope/server", "--flag"]);
    assert!(split_args("   ").is_empty());
    assert_eq!(split_args("one"), vec!["one"]);
}

#[test]
fn parse_env_skips_invalid_lines_and_sorts() {
    let env = parse_env("  ZED = last \nno equals here\n=empty key\nAPI_KEY=abc=def\r\nAPI_KEY=second\n\n");
    assert_eq!(
        env,
        vec![("API_KEY".to_string(), "second".to_string()), ("ZED".to_string(), "last".to_string())]
    );
    assert!(parse_env("").is_empty());
}

#[test]
fn format_env_writes_key_value_lines() {
    let env = vec![("A".to_string(), "1".to_string()), ("B".to_string(), "x y".to_string())];
    assert_eq!(format_env(&env), "A=1\nB=x y");
    assert_eq!(format_env(&vec![]), "");
}

#[test]
fn env_text_round_trips() {
    let env = vec![
        ("HOME".to_string(), "/home/u".to_string()),
        ("TOKEN".to_string(), "a=b".to_string()),
        ("Z".to_string(), String::new()),
    ];
    assert_eq!(parse_env(&format_env(&env)), env);
}

#[test]
fn server_form_flags_bad_fields() {
    let servers = vec![server("files", true), server("web", true)];
    let check = check_server_form(&servers, None, "files", false, "", "");
    assert!(check.name_bad && check.command_bad && !check.url_bad);
    let check = check_server_form(&servers, Some(0), "files", true, "", "");
    assert!(!check.name_bad && check.url_bad && !check.command_bad);
    let check = check_server_form(&servers, None, "", true, "", "https://x");
    assert!(check.name_bad && !check.url_bad);
}

#[test]
fn server_from_form_builds_config() {
    let mut existing = server("files", false);
    existing.command = "old".to_string();
    let servers = vec![existing];
    let made = server_from_form(
        &servers,
        Some(0),
        "  files ",
        false,
        " npx ",
        "-y  fs-server",
        "B=2\nA=1",
        "",
        "tok",
    )
    .ok()
    .expect("form is valid");
    assert_eq!(made.name, "files");
    assert!(!made.enabled);
    assert_eq!(made.transport, McpTransport::Stdio);
    assert_eq!(made.command, "npx");
    assert_eq!(made.args, vec!["-y", "fs-server"]);
    assert_eq!(made.env, vec![("A".to_string(), "1".to_string()), ("B".to_string(), "2".to_string())]);
    assert_eq!(made.auth_token, "tok");

    let refused = server_from_form(&servers, None, "files", true, "", "", "", " ", "");
    match refused {
        Err(check) => assert!(check.name_bad && check.url_bad && !check.command_bad),
        Ok(_) => panic!("duplicate name and empty URL must be refused"),
    }
    let fresh = server_from_form(&servers, None, "web", true, "", "", "", "https://e/mcp", "").ok().unwrap();
    assert!(fresh.enabled);
    assert_eq!(fresh.transport, McpTransport::Http);
    assert_eq!(fresh.url, "https://e/mcp");
}

#[test]
fn server_list_edits() {
    let mut list = vec![server("a", true), server("b", true)];
    save_server(&mut list, Some(1), server("b2", true));
    assert_eq!(list.iter().map(|s| s.name.as_str()).collect::<Vec<_>>(), vec!["a", "b2"]);
    save_server(&mut list, Some(9), server("c", true));
    save_server(&mut list, None, server("d", true));
    assert_eq!(list.iter().map(|s| s.name.as_str()).collect::<Vec<_>>(), vec!["a", "b2", "c", "d"]);
    set_server_enabled(&mut list, 0, false);
    assert!(!list[0].enabled && list[1].enabled);
    remove_server(&mut list, 1);
    remove_server(&mut list, 7);
    assert_eq!(list.iter().map(|s| s.name.as_str()).collect::<Vec<_>>(), vec!["a", "c", "d"]);
}

#[test]
fn merge_models_keeps_configured_model() {
    assert!(merge_models(vec![], "gpt").is_none());
    let (list, selected) = merge_models(vec!["a".to_string(), "b".to_string()], "mine").unwrap();
    assert_eq!(list, vec!["mine", "a", "b"]);
    assert_eq!(selected, Some(0));
    let (list, selected) = merge_models(vec!["a".to_string(), "b".to_string()], "b").unwrap();
    assert_eq!(list, vec!["a", "b"]);
    assert_eq!(selected, Some(1));
    let (list, selected) = merge_models(vec!["a".to_string()], "").unwrap();
    assert_eq!(list, vec!["a"]);
    assert_eq!(selected, None);
}
