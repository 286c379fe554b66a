use beckon::mcp::{
    connect_plan, flatten_result, mcp_tool_entries, same_config, ConnectAction, ConnectPlan,
    McpManager, McpServerConfig, McpStatus, McpTransport, ServerState, ToolMeta, ToolOutput,
};

fn stdio(name: &str, command: &str) -> McpServerConfig {
    McpServerConfig {
        name: name.to_string(),
        enabled: true,
        transport: McpTransport::Stdio,
        command: command.to_string(),
        args: vec![],
        env: vec![],
        url: String::new(),
        auth_token: String::new(),
    }
}

fn http(name: &str, url: &str, token: &str) -> McpServerConfig {
    McpServerConfig {
        name: name.to_string(),
        enabled: true,
        transport: McpTransport::Http,
        command: String::new(),
        args: vec![],
        env: vec![],
        url: url.to_string(),
        auth_token: token.to_string(),
    }
}

fn tool(server: &str, name: &str) -> ToolMeta {
    ToolMeta {
        server: server.to_string(),
        name: name.to_string(),
        description: String::new(),
        input_schema: serde_json::Value::Null,
    }
}

fn status_of(reg: &McpManager, name: &str) -> Option<String> {
    reg.snapshot().iter().find(|s| s.name == name).map(|s| match &s.status {
        McpStatus::Connecting => "connecting".to_string(),
        McpStatus::Ready => format!("ready:{}", s.tools.len()),
        McpStatus::Error(m) => format!("error:{m}"),
    })
}

#[test]
fn reload_connects_enabled_named_servers() {
    let mut reg = McpManager::new();
    let mut off = stdio("off", "x");
    off.enabled = false;
    let plan = reg.reload(&[stdio("a", "run-a"), off, stdio("", "nameless"), stdio("b", "run-b")]);
    let names: Vec<&str> = plan.connect.iter().map(|c| c.name.as_str()).collect();
    assert_eq!(names, vec!["a", "b"]);
    assert!(plan.drop.is_empty());
    assert_eq!(status_of(&reg, "a").as_deref(), Some("connecting"));
    assert_eq!(status_of(&reg, "b").as_deref(), Some("connecting"));
    assert_eq!(status_of(&reg, "off"), None);
    assert_eq!(reg.snapshot().len(), 2);
}

#[test]
fn later_duplicate_name_wins() {
    let mut reg = McpManager::new();
    let plan = reg.reload(&[stdio("a", "first"), stdio("a", "second")]);
    assert_eq!(plan.connect.len(), 1);
    assert_eq!(plan.connect[0].command, "second");
}

#[test]
fn connected_success_marks_ready_and_keeps_connection() {
    let mut reg = McpManager::new();
    reg.reload(&[stdio("a", "run-a")]);
    let action = reg.connected(stdio("a", "run-a"), Ok(vec![tool("a", "t1"), tool("a", "t2")]));
    assert_eq!(action, ConnectAction::Keep);
    assert_eq!(status_of(&reg, "a").as_deref(), Some("ready:2"));
    assert!(reg.check_call("a").is_ok());
    // An unchanged reload leaves the live connection alone.
    let plan = reg.reload(&[stdio("a", "run-a")]);
    assert!(plan.connect.is_empty());
    assert!(plan.drop.is_empty());
    assert_eq!(status_of(&reg, "a").as_deref(), Some("ready:2"));
}

#[test]
fn changed_config_reconnects_and_removed_server_is_forgotten() {
    let mut reg = McpManager::new();
    reg.reload(&[stdio("a", "run-a"), stdio("b", "run-b")]);
    reg.connected(stdio("a", "run-a"), Ok(vec![]));
    reg.connected(stdio("b", "run-b"), Ok(vec![]));
    let plan = reg.reload(&[stdio("a", "run-a2")]);
    assert_eq!(plan.drop, vec!["a".to_string(), "b".to_string()]);
    assert_eq!(plan.connect.len(), 1);
    assert_eq!(plan.connect[0].command, "run-a2");
    assert_eq!(status_of(&reg, "a").as_deref(), Some("connecting"));
    assert_eq!(status_of(&reg, "b"), None);
    assert!(reg.check_call("a").is_err());
}

#[test]
fn stale_result_changes_nothing() {
    let mut reg = McpManager::new();
    reg.reload(&[stdio("a", "new")]);
    let action = reg.connected(stdio("a", "old"), Ok(vec![tool("a", "t")]));
    assert_eq!(action, ConnectAction::Stale);
    assert_eq!(status_of(&reg, "a").as_deref(), Some("connecting"));
    assert!(reg.check_call("a").is_err());
}

#[test]
fn failed_connect_shows_error() {
    let mut reg = McpManager::new();
    reg.reload(&[stdio("a", "run-a")]);
    reg.connected(stdio("a", "run-a"), Ok(vec![]));
    let action = reg.connected(stdio("a", "run-a"), Err("initialize failed: boom".to_string()));
    assert_eq!(action, ConnectAction::Failed);
    assert_eq!(status_of(&reg, "a").as_deref(), Some("error:initialize failed: boom"));
    assert!(reg.check_call("a").is_err());
}

#[test]
fn call_on_unconnected_server_is_refused() {
    let reg = McpManager::new();
    assert_eq!(reg.check_call("files"), Err("MCP server 'files' is not connected".to_string()));
}

#[test]
fn connect_plan_requires_command_or_url() {
    assert_eq!(connect_plan(&stdio("a", "")).err(), Some("no command set for stdio server".to_string()));
    assert_eq!(connect_plan(&http("h", "", "")).err(), Some("no URL set for HTTP server".to_string()));
    match connect_plan(&http("h", "https://example.com/mcp", "tok")) {
        Ok(ConnectPlan::Remote { url, auth }) => {
            assert_eq!(url, "https://example.com/mcp");
            assert_eq!(auth.as_deref(), Some("tok"));
        }
        _ => panic!("expected a remote plan"),
    }
    match connect_plan(&http("h", "https://example.com/mcp", "")) {
        Ok(ConnectPlan::Remote { auth, .. }) => assert!(auth.is_none()),
        _ => panic!("expected a remote plan"),
    }
    let mut s = stdio("a", "npx");
    s.args = vec!["-y".to_string(), "server".to_string()];
    match connect_plan(&s) {
        Ok(ConnectPlan::Launch { command, args, .. }) => {
            assert_eq!(command, "npx");
            assert_eq!(args, vec!["-y".to_string(), "server".to_string()]);
        }
        _ => panic!("expected a launch plan"),
    }
}

#[test]
fn flatten_result_joins_text_blocks() {
    let out = ToolOutput {
        structured: None,
        content: vec![Some("one".to_string()), None, Some("two".to_string())],
        is_error: None,
    };
    assert_eq!(flatten_result(out), Ok("one\n[non-text content omitted]\ntwo".to_string()));
}

#[test]
fn flatten_result_prefers_structured_and_reports_errors() {
    let out = ToolOutput {
        structured: Some("{\"a\":1}".to_string()),
        content: vec![Some("ignored".to_string())],
        is_error: Some(true),
    };
    assert_eq!(flatten_result(out), Err("{\"a\":1}".to_string()));
    let out = ToolOutput { structured: None, content: vec![], is_error: Some(false) };
    assert_eq!(flatten_result(out), Ok(String::new()));
}

#[test]
fn flatten_result_truncates_long_output() {
    let out = ToolOutput { structured: Some("x".repeat(20_000)), content: vec![], is_error: None };
    let text = flatten_result(out).unwrap();
    assert!(text.ends_with("\n[output truncated]"));
    assert_eq!(text.len(), 10_240 + "\n[output truncated]".len());
}

#[test]
fn tool_entries_disambiguate_colliding_names() {
    let states = vec![
        ServerState { name: "one".to_string(), status: McpStatus::Ready, tools: vec![tool("one", "search"), tool("one", "bash")] },
        ServerState { name: "two".to_string(), status: McpStatus::Connecting, tools: vec![tool("two", "x")] },
        ServerState { name: "my-srv".to_string(), status: McpStatus::Ready, tools: vec![tool("my-srv", "search")] },
    ];
    let taken = vec!["bash".to_string()];
    let entries = mcp_tool_entries(&taken, &states);
    let names: Vec<&str> = entries.iter().map(|e| e.exposed.as_str()).collect();
    assert_eq!(names, vec!["search", "bash__one", "search__my_srv"]);
    let places: Vec<(usize, usize)> = entries.iter().map(|e| (e.state, e.tool)).collect();
    assert_eq!(places, vec![(0, 0), (0, 1), (2, 0)]);
}

#[test]
fn same_config_compares_every_field() {
    let a = stdio("a", "run");
    let mut b = stdio("a", "run");
    assert!(same_config(&a, &b));
    b.env = vec![("K".to_string(), "V".to_string())];
    assert!(!same_config(&a, &b));
    assert!(same_config(&b, &b.clone()));
}
