use rayclaw::json::{self, Json};
use rayclaw::maps::{self, NameMap};
use rayclaw::mcp::{
    backoff_ms, default_transport, extract_sse_data, matching_reply, try_match_sse_event,
    JsonRpcError, JsonRpcResponse, McpConfig, McpHttpInner, McpManager, McpServer,
    McpServerConfig, McpToolInfo, McpTransport, RetryStep, SseReader, StdioAttempts, StdioRead,
};
use std::sync::Arc;

fn value(text: &str) -> Json {
    json::parse(text).unwrap()
}

fn config() -> McpServerConfig {
    McpServerConfig {
        transport: default_transport(),
        protocol_version: None,
        request_timeout_secs: None,
        max_retries: None,
        health_interval_secs: None,
        command: "npx".into(),
        args: vec!["-y".into()],
        env: maps::collect(vec![("A".into(), "1".into())]),
        endpoint: String::new(),
        headers: NameMap::new(),
    }
}

fn http_config() -> McpServerConfig {
    McpServerConfig {
        transport: " HTTP ".into(),
        endpoint: "http://localhost:8080/mcp".into(),
        headers: maps::collect(vec![("X-Custom".into(), "val".into())]),
        command: String::new(),
        ..config()
    }
}

fn header<'a>(headers: &'a [(String, String)], name: &str) -> Option<&'a str> {
    headers.iter().find(|h| h.0 == name).map(|h| h.1.as_str())
}

/// Reads chunks as a program does: until one holds the reply, or to the end.
fn read_stream(chunks: &[&[u8]], request_id: u64) -> Result<Json, String> {
    let mut reader = SseReader::new(request_id);
    for chunk in chunks {
        if let Some(reply) = reader.on_chunk(chunk) {
            return Ok(reply);
        }
    }
    reader.finish()
}

#[test]
fn test_tool_not_found_error_detection() {
    assert!(McpServer::is_tool_not_found_error("Tool not found"));
    assert!(McpServer::is_tool_not_found_error("unknown tool: x"));
    assert!(!McpServer::is_tool_not_found_error("permission denied"));
}

#[test]
fn test_extract_sse_data() {
    let event = "event: message\ndata: {\"jsonrpc\":\"2.0\",\"id\":1,\"result\":{\"ok\":true}}";
    let data = extract_sse_data(event).unwrap();
    let val: serde_json::Value = serde_json::from_str(&data).unwrap();
    assert_eq!(val["id"], 1);
    assert_eq!(val["result"]["ok"], true);
}

#[test]
fn test_extract_sse_data_no_data_line() {
    let event = "event: ping";
    assert!(extract_sse_data(event).is_none());
}

#[test]
fn test_read_sse_stream_single_event() {
    let body = b"event: message\ndata: {\"jsonrpc\":\"2.0\",\"id\":1,\"result\":{\"ok\":true}}\n\n";
    let val = read_stream(&[body], 1).unwrap();
    assert_eq!(val.get_u64("id"), Some(1));
    assert_eq!(val.get("result").unwrap().get_bool("ok"), Some(true));
}

#[test]
fn test_read_sse_stream_matches_request_id() {
    let body = b"event: message\ndata: {\"jsonrpc\":\"2.0\",\"id\":1,\"result\":{\"first\":true}}\n\nevent: message\ndata: {\"jsonrpc\":\"2.0\",\"id\":2,\"result\":{\"second\":true}}\n\n";
    let val = read_stream(&[body], 2).unwrap();
    assert_eq!(val.get("result").unwrap().get_bool("second"), Some(true));
}

#[test]
fn test_read_sse_stream_no_match() {
    assert!(read_stream(&[b"event: ping\n\n"], 1).is_err());
}

#[test]
fn test_try_match_sse_event_matching_id() {
    let event = "event: message\ndata: {\"jsonrpc\":\"2.0\",\"id\":5,\"result\":{\"ok\":true}}";
    let val = try_match_sse_event(event, 5).unwrap();
    assert_eq!(val.get_u64("id"), Some(5));
    assert_eq!(val.get("result").unwrap().get_bool("ok"), Some(true));
}

#[test]
fn test_try_match_sse_event_wrong_id() {
    let event = "event: message\ndata: {\"jsonrpc\":\"2.0\",\"id\":3,\"result\":{\"ok\":true}}";
    assert!(try_match_sse_event(event, 99).is_none());
}

#[test]
fn test_try_match_sse_event_no_data() {
    let event = "event: ping";
    assert!(try_match_sse_event(event, 1).is_none());
}

#[test]
fn test_try_match_sse_event_invalid_json() {
    let event = "data: not-valid-json";
    assert!(try_match_sse_event(event, 1).is_none());
}

#[test]
fn test_try_match_sse_event_no_id_field() {
    let event = "data: {\"jsonrpc\":\"2.0\",\"method\":\"notifications/progress\"}";
    assert!(try_match_sse_event(event, 1).is_none());
}

#[test]
fn test_build_request_includes_session_id() {
    let inner = McpHttpInner {
        endpoint: "http://localhost:8080/mcp".to_string(),
        headers: maps::collect(vec![("X-Custom".to_string(), "val".to_string())]),
        session_id: Some("test-session-123".to_string()),
        next_id: 1,
    };
    let headers = inner.request_headers();
    assert_eq!(header(&headers, "Mcp-Session-Id"), Some("test-session-123"));
    assert_eq!(header(&headers, "X-Custom"), Some("val"));
    assert!(header(&headers, "Accept").unwrap().contains("text/event-stream"));
}

#[test]
fn test_build_request_no_session_id() {
    let inner = McpHttpInner {
        endpoint: "http://localhost:8080/mcp".to_string(),
        headers: NameMap::new(),
        session_id: None,
        next_id: 1,
    };
    assert!(header(&inner.request_headers(), "Mcp-Session-Id").is_none());
}

#[test]
fn test_read_sse_stream_chunked_event_split_across_chunks() {
    let val = read_stream(
        &[
            b"event: message\n",
            b"data: {\"jsonrpc\":\"2.0\",\"id\":1,\"result\":{\"ok\":true}}\n\n",
        ],
        1,
    )
    .unwrap();
    assert_eq!(val.get_u64("id"), Some(1));
    assert_eq!(val.get("result").unwrap().get_bool("ok"), Some(true));
}

#[test]
fn test_read_sse_stream_data_line_split_mid_json() {
    let val = read_stream(
        &[
            b"data: {\"jsonrpc\":\"2.0\",",
            b"\"id\":3,\"result\":{\"v\":42}}\n\n",
        ],
        3,
    )
    .unwrap();
    assert_eq!(val.get("result").unwrap().get_u64("v"), Some(42));
}

#[test]
fn test_read_sse_stream_skips_non_matching_then_matches() {
    let val = read_stream(
        &[
            b"event: message\ndata: {\"jsonrpc\":\"2.0\",\"id\":1,\"result\":{\"a\":1}}\n\n",
            b"event: message\n",
            b"data: {\"jsonrpc\":\"2.0\",\"id\":2,\"result\":{\"b\":2}}\n\n",
        ],
        2,
    )
    .unwrap();
    assert_eq!(val.get("result").unwrap().get_u64("b"), Some(2));
}

#[test]
fn test_read_sse_stream_trailing_buffer_no_double_newline() {
    let val = read_stream(
        &[b"data: {\"jsonrpc\":\"2.0\",\"id\":7,\"result\":{\"tail\":true}}"],
        7,
    )
    .unwrap();
    assert_eq!(val.get("result").unwrap().get_bool("tail"), Some(true));
}

#[test]
fn stream_without_reply_ends_in_error() {
    let end = "SSE stream ended without a matching JSON-RPC response";
    assert_eq!(read_stream(&[], 1), Err(end.to_string()));
    assert_eq!(read_stream(&[b"  \n"], 1), Err(end.to_string()));
    assert_eq!(read_stream(&[b"data: {\"id\":2}"], 1), Err(end.to_string()));
}

#[test]
fn stream_is_the_same_however_it_is_cut() {
    let body = b"data: {\"id\":1}\n\ndata: {\"id\":4,\"result\":null}\n\ndata: {\"id\":4}\n\n";
    let whole = read_stream(&[body], 4).unwrap();
    for cut in 0..body.len() {
        let (a, b) = body.split_at(cut);
        assert_eq!(read_stream(&[a, b], 4).unwrap(), whole);
    }
}

#[test]
fn data_lines_that_are_empty_are_passed_over() {
    assert_eq!(extract_sse_data("data:\n  data:  x \ndata: y"), Some("x".to_string()));
    assert_eq!(extract_sse_data("data:\ndata: "), None);
}

#[test]
fn reply_is_matched_by_its_number() {
    assert!(matching_reply(value("{\"id\":3}"), 3).is_some());
    assert!(matching_reply(value("{\"id\":\"3\"}"), 3).is_none());
    assert!(matching_reply(value("{\"id\":-3}"), 3).is_none());
    assert!(matching_reply(value("[3]"), 3).is_none());
}

#[test]
fn connection_of_a_child_process() {
    let server = McpServer::connect("demo", &config(), None).ok().unwrap();
    assert_eq!(server.name, "demo");
    assert_eq!(server.requested_protocol, "2025-11-05");
    assert_eq!(server.protocol_version(), "2025-11-05");
    assert_eq!(server.request_timeout_secs, 120);
    assert_eq!(server.max_retries, 2);
    assert!(server.tools_snapshot().is_empty());
    let spec = server.respawn().ok().unwrap();
    assert_eq!(spec.command, "npx");
    assert_eq!(spec.args, vec!["-y"]);
    assert_eq!(*spec.env.entries(), vec![("A".to_string(), "1".to_string())]);
    assert_eq!(config().health_interval(), Some(60));
    let never = McpServerConfig { health_interval_secs: Some(0), ..config() };
    assert_eq!(never.health_interval(), None);
    let often = McpServerConfig { health_interval_secs: Some(15), ..config() };
    assert_eq!(often.health_interval(), Some(15));
}

#[test]
fn connection_over_http() {
    let cfg = McpServerConfig {
        max_retries: Some(3),
        request_timeout_secs: Some(9),
        ..http_config()
    };
    let server = McpServer::connect("remote", &cfg, Some("2024-01-01")).ok().unwrap();
    assert_eq!(server.requested_protocol, "2024-01-01");
    assert_eq!(server.max_retries, 3);
    assert_eq!(server.request_timeout_secs, 9);
    match &server.transport {
        McpTransport::StreamableHttp(inner) => {
            assert_eq!(inner.endpoint, "http://localhost:8080/mcp");
            assert_eq!(inner.headers.get("X-Custom").map(|v| v.as_str()), Some("val"));
            assert!(inner.session_id.is_none());
        }
        McpTransport::Stdio { .. } => panic!("not over HTTP"),
    }
    assert_eq!(
        server.respawn().err(),
        Some("No stdio spawn spec available for reconnect".to_string())
    );
    let own = McpServerConfig { protocol_version: Some("1".into()), ..http_config() };
    let server = McpServer::connect("remote", &own, Some("2")).ok().unwrap();
    assert_eq!(server.requested_protocol, "1");
}

#[test]
fn configurations_that_do_not_do() {
    let no_command = McpServerConfig { command: " ".into(), ..config() };
    assert_eq!(
        McpServer::connect("a", &no_command, None).err(),
        Some("MCP server 'a' requires `command` when transport=stdio".to_string())
    );
    let no_endpoint = McpServerConfig { endpoint: String::new(), ..http_config() };
    assert_eq!(
        McpServer::connect("a", &no_endpoint, None).err(),
        Some("MCP server 'a' requires `endpoint` when transport=streamable_http".to_string())
    );
    let other = McpServerConfig { transport: "Carrier".into(), ..config() };
    assert_eq!(
        McpServer::connect("a", &other, None).err(),
        Some("MCP server 'a' has unsupported transport 'carrier'".to_string())
    );
    let unnamed = McpServerConfig { transport: String::new(), ..config() };
    assert!(McpServer::connect("a", &unnamed, None).is_ok());
}

#[test]
fn requests_are_numbered() {
    let mut server = McpServer::connect("demo", &config(), None).ok().unwrap();
    let first = server.begin_request("tools/list", Some(value("{}")));
    assert_eq!(first.id, Some(1));
    assert_eq!(
        first.to_line(),
        "{\"id\":1,\"jsonrpc\":\"2.0\",\"method\":\"tools/list\",\"params\":{}}\n"
    );
    assert_eq!(server.begin_request("x", None).id, Some(2));
    server.on_respawned();
    assert_eq!(server.begin_request("x", None).id, Some(1));
    let note = McpServer::notification("notifications/initialized", None);
    assert_eq!(
        note.to_line(),
        "{\"jsonrpc\":\"2.0\",\"method\":\"notifications/initialized\"}\n"
    );
}

#[test]
fn protocol_is_negotiated() {
    let mut server = McpServer::connect("demo", &config(), None).ok().unwrap();
    assert_eq!(
        server.initialize_params("1.2.3"),
        value(
            "{\"protocolVersion\":\"2025-11-05\",\"capabilities\":{},\"clientInfo\":{\"name\":\"rayclaw\",\"version\":\"1.2.3\"}}"
        )
        .reordered(&["protocolVersion", "capabilities", "clientInfo"])
    );
    server.on_initialized(&value("{\"protocolVersion\":\"2024-11-05\"}"));
    assert_eq!(server.protocol_version(), "2024-11-05");
    server.on_initialized(&value("{}"));
    assert_eq!(server.protocol_version(), "2025-11-05");
}

/// The members of an object in another order.
trait Reordered {
    fn reordered(self, keys: &[&str]) -> Json;
}

impl Reordered for Json {
    fn reordered(self, keys: &[&str]) -> Json {
        Json::Object(
            keys.iter()
                .map(|k| (k.to_string(), self.get(k).unwrap().clone()))
                .collect(),
        )
    }
}

fn reply(id: Option<&str>, result: Option<&str>, error: Option<(i64, &str)>) -> JsonRpcResponse {
    JsonRpcResponse {
        id: id.map(value),
        result: result.map(value),
        error: error.map(|e| JsonRpcError { code: e.0, message: e.1.into() }),
    }
}

#[test]
fn lines_of_a_child_process() {
    let server = McpServer::connect("demo", &config(), None).ok().unwrap();
    let line = |r| StdioRead::Line("{}\n".into(), r);
    // What is no reply, or the reply to another request, is passed over.
    assert_eq!(server.on_stdio_read(4, line(None)), None);
    assert_eq!(server.on_stdio_read(4, line(Some(reply(Some("5"), Some("1"), None)))), None);
    assert_eq!(server.on_stdio_read(4, line(Some(reply(None, None, None)))), None);
    assert_eq!(
        server.on_stdio_read(
            4,
            StdioRead::Line(" \n".into(), Some(reply(Some("4"), Some("1"), None)))
        ),
        None
    );
    // What has the number, or none at all, is the reply.
    assert_eq!(
        server.on_stdio_read(4, line(Some(reply(Some("4"), Some("[1]"), None)))),
        Some(Ok(value("[1]")))
    );
    assert_eq!(
        server.on_stdio_read(4, line(Some(reply(Some("4"), None, None)))),
        Some(Ok(Json::Null))
    );
    assert_eq!(
        server.on_stdio_read(4, line(Some(reply(Some("\"x\""), Some("true"), None)))),
        Some(Ok(Json::Bool(true)))
    );
    assert_eq!(
        server.on_stdio_read(4, line(Some(reply(None, None, Some((-32601, "no such method")))))),
        Some(Err("MCP error (-32601): no such method".to_string()))
    );
    // Without a line there is an error.
    assert_eq!(
        server.on_stdio_read(4, StdioRead::TimedOut),
        Some(Err("MCP server response timeout (120s)".to_string()))
    );
    assert_eq!(
        server.on_stdio_read(4, StdioRead::Failed("gone".into())),
        Some(Err("Read error: gone".to_string()))
    );
    assert_eq!(
        server.on_stdio_read(4, StdioRead::Closed),
        Some(Err("MCP server closed connection".to_string()))
    );
    let hasty = McpServerConfig { request_timeout_secs: Some(0), ..config() };
    let hasty = McpServer::connect("demo", &hasty, None).ok().unwrap();
    assert_eq!(
        hasty.on_stdio_read(4, StdioRead::TimedOut),
        Some(Err("MCP server response timeout (0ns)".to_string()))
    );
}

#[test]
fn characters_may_be_cut_between_chunks() {
    let stream = "data: {\"id\":1,\"result\":\"\u{e9}\u{4e2d}\"}\n\n".as_bytes();
    for cut in 0..=stream.len() {
        let reply = read_stream(&[&stream[..cut], &stream[cut..]], 1).ok().unwrap();
        assert_eq!(reply.get_str("result"), Some("\u{e9}\u{4e2d}"));
    }
}

#[test]
fn waits_double_up_to_a_limit() {
    let waits: Vec<u64> = (0..10).map(backoff_ms).collect();
    assert_eq!(
        waits,
        vec![200, 400, 800, 1600, 3200, 6400, 12800, 25600, 51200, 51200]
    );
}

#[test]
fn process_is_started_again_for_errors_of_the_connection() {
    for err in [
        "Write error: x",
        "READ ERROR",
        "MCP server closed connection",
        "MCP server response timeout (120s)",
        "Broken pipe",
    ] {
        assert!(McpServer::should_attempt_reconnect(err), "{err}");
    }
    assert!(!McpServer::should_attempt_reconnect("MCP error (1): no"));
}

#[test]
fn tries_are_limited() {
    let mut tries = StdioAttempts::new(2);
    for wait in [200, 400] {
        match tries.on_reply(Err("Read error: x".into())) {
            RetryStep::Reconnect(ms) => assert_eq!(ms, wait),
            RetryStep::Done(_) => panic!("given up"),
        }
        assert_eq!(tries.on_reconnected("demo", Ok(())), None);
    }
    match tries.on_reply(Err("Read error: x".into())) {
        RetryStep::Done(r) => assert_eq!(r, Err("Read error: x".to_string())),
        RetryStep::Reconnect(_) => panic!("one try too many"),
    }
}

#[test]
fn tries_end_at_an_answer() {
    let mut tries = StdioAttempts::new(2);
    match tries.on_reply(Ok(Json::Null)) {
        RetryStep::Done(r) => assert_eq!(r, Ok(Json::Null)),
        RetryStep::Reconnect(_) => panic!("answered"),
    }
    match tries.on_reply(Err("MCP error (1): no".into())) {
        RetryStep::Done(r) => assert_eq!(r, Err("MCP error (1): no".to_string())),
        RetryStep::Reconnect(_) => panic!("answered"),
    }
    match tries.on_reply(Err("Broken pipe".into())) {
        RetryStep::Reconnect(_) => {}
        RetryStep::Done(_) => panic!("given up"),
    }
    assert_eq!(
        tries.on_reconnected("demo", Err("no program".into())),
        Some("Broken pipe; reconnect failed for 'demo': no program".to_string())
    );
}

#[test]
fn replies_over_http() {
    let mut server = McpServer::connect("remote", &http_config(), None).ok().unwrap();
    server.on_session(Some("s1".into()));
    server.on_session(None);
    match &server.transport {
        McpTransport::StreamableHttp(inner) => {
            assert_eq!(inner.session_id.as_deref(), Some("s1"));
        }
        McpTransport::Stdio { .. } => panic!("not over HTTP"),
    }
    assert_eq!(McpServer::check_http_status(true, "200 OK", ""), Ok(()));
    assert_eq!(
        McpServer::check_http_status(false, "404 Not Found", "gone"),
        Err("HTTP MCP request failed with 404 Not Found: gone".to_string())
    );
    assert_eq!(McpServer::check_notified(true, "202 Accepted"), Ok(()));
    assert_eq!(
        McpServer::check_notified(false, "500 Internal Server Error"),
        Err("HTTP notification failed with status 500 Internal Server Error".to_string())
    );
    assert!(McpServer::is_event_stream("text/event-stream; charset=utf-8"));
    assert!(!McpServer::is_event_stream("application/json"));
    let body = || value("{\"id\":1,\"result\":[2]}");
    assert_eq!(
        McpServer::read_http_body(body(), Some(reply(Some("1"), Some("[2]"), None))),
        Ok(value("[2]"))
    );
    assert_eq!(McpServer::read_http_body(body(), None), Ok(value("[2]")));
    assert_eq!(McpServer::read_http_body(value("[1]"), None), Ok(value("[1]")));
    assert_eq!(
        McpServer::read_http_body(body(), Some(reply(None, None, Some((7, "bad"))))),
        Err("MCP error (7): bad".to_string())
    );
}

#[test]
fn tools_are_listed_and_kept() {
    let mut server = McpServer::connect("demo", &config(), None).ok().unwrap();
    assert!(server.refresh_tools_cache(false, 0).is_none());
    assert!(server.must_list_before_call("read", 0));
    let listed = value(
        "{\"tools\":[{\"name\":\"read\",\"description\":\"d\",\"inputSchema\":{\"a\":1}},{}]}",
    );
    let tools = server.on_tools_listed(Ok(listed), 1000).unwrap();
    assert_eq!(tools.len(), 2);
    assert_eq!(tools[0].server_name, "demo");
    assert_eq!(tools[0].name, "read");
    assert_eq!(tools[0].description, "d");
    assert_eq!(tools[0].input_schema, value("{\"a\":1}"));
    assert_eq!(tools[1].name, "");
    assert_eq!(tools[1].description, "");
    assert_eq!(
        tools[1].input_schema,
        value("{\"properties\":{},\"type\":\"object\"}").reordered(&["type", "properties"])
    );
    // The list is fresh for five minutes.
    assert_eq!(server.refresh_tools_cache(false, 300_999).unwrap().len(), 2);
    assert!(server.refresh_tools_cache(false, 301_000).is_none());
    assert!(server.refresh_tools_cache(true, 1000).is_none());
    assert!(!server.must_list_before_call("read", 1000));
    assert!(server.must_list_before_call("write", 1000));
    assert!(server.must_list_before_call("read", 301_000));
    // What cannot be read changes nothing.
    assert_eq!(
        server.on_tools_listed(Ok(value("{}")), 2000).err(),
        Some("No tools in response".to_string())
    );
    assert_eq!(
        server.on_tools_listed(Ok(value("{\"tools\":1}")), 2000).err(),
        Some("tools is not an array".to_string())
    );
    assert_eq!(server.health_probe(Err("down".into()), 2000), Err("down".to_string()));
    assert_eq!(server.tools_snapshot().len(), 2);
    assert_eq!(server.tools_cache_updated_at, Some(1000));
    assert_eq!(server.health_probe(Ok(value("{\"tools\":[]}")), 3000), Ok(()));
    assert!(server.tools_snapshot().is_empty());
    assert!(server.is_cache_fresh(3000));
}

#[test]
fn results_of_tools() {
    let mut server = McpServer::connect("demo", &config(), None).ok().unwrap();
    server.on_tools_listed(Ok(value("{\"tools\":[{\"name\":\"read\"}]}")), 5).unwrap();
    let texts = "[{\"text\":\"a\"},{\"type\":\"image\"},{\"text\":\"b\"}]";
    let (res, stale) = server.call_tool(Ok(value(&format!("{{\"content\":{texts}}}"))));
    assert_eq!(res, Ok("a\nb".to_string()));
    assert!(!stale);
    let (res, stale) =
        server.call_tool(Ok(value(&format!("{{\"content\":{texts},\"isError\":true}}"))));
    assert_eq!(res, Err("a\nb".to_string()));
    assert!(!stale);
    let (res, _) = server.call_tool(Ok(value("{\"x\":1}")));
    assert_eq!(res, Ok("{\n  \"x\": 1\n}".to_string()));
    assert_eq!(server.tools_snapshot().len(), 1);
    // A tool that is not there makes the list be forgotten.
    let (res, stale) = server.call_tool(Err("Unknown tool: read".into()));
    assert_eq!(res, Err("Unknown tool: read".to_string()));
    assert!(stale);
    assert!(server.tools_snapshot().is_empty());
    assert!(!server.is_cache_fresh(5));
    let (_, stale) = server.call_tool(Ok(value(
        "{\"content\":[{\"text\":\"tool not found\"}],\"isError\":true}",
    )));
    assert!(stale);
    assert_eq!(
        McpServer::call_params("read", value("[1]")),
        value("{\"name\":\"read\",\"arguments\":[1]}").reordered(&["name", "arguments"])
    );
}

#[test]
fn tools_of_all_servers() {
    let tool = |server: &str, name: &str| McpToolInfo {
        server_name: server.into(),
        name: name.into(),
        description: String::new(),
        input_schema: Json::Null,
    };
    let mut manager: McpManager<&str> = McpManager::new();
    assert!(manager.servers().is_empty());
    manager.push(Arc::new("a"));
    manager.push(Arc::new("b"));
    manager.push(Arc::new("c"));
    let all = manager.all_tools(&vec![
        vec![tool("a", "x"), tool("a", "y")],
        vec![],
        vec![tool("c", "z")],
    ]);
    let names: Vec<(&str, &str)> = all.iter().map(|t| (*t.0, t.1.name.as_str())).collect();
    assert_eq!(names, vec![("a", "x"), ("a", "y"), ("c", "z")]);
    assert!(Arc::ptr_eq(&all[0].0, &manager.servers()[0]));
}

// -- configuration ------------------------------------------------------------

fn pairs(value: Option<&Json>) -> NameMap<String> {
    match value {
        Some(Json::Object(members)) => maps::collect(
            members
                .iter()
                .map(|(k, v)| (k.clone(), v.as_str().unwrap().to_string()))
                .collect(),
        ),
        _ => NameMap::new(),
    }
}

fn texts(value: Option<&Vec<Json>>) -> Vec<String> {
    value
        .map(|items| items.iter().map(|v| v.as_str().unwrap().to_string()).collect())
        .unwrap_or_default()
}

fn read_server(j: &Json) -> McpServerConfig {
    McpServerConfig {
        transport: j.get_str("transport").map(String::from).unwrap_or_else(default_transport),
        protocol_version: j.get_str("protocol_version").map(String::from),
        request_timeout_secs: j.get_u64("request_timeout_secs"),
        max_retries: j.get_u64("max_retries").map(|n| n as u32),
        health_interval_secs: j.get_u64("health_interval_secs"),
        command: j.get_str_or_empty("command"),
        args: texts(j.get_array("args")),
        env: pairs(j.get("env")),
        endpoint: j.get_str_or_empty("endpoint"),
        headers: pairs(j.get("headers")),
    }
}

/// A configuration, read as a program reads it.
fn read_config(text: &str) -> McpConfig {
    let j = value(text);
    let mut config = McpConfig::new(j.get_str("default_protocol_version").map(String::from));
    if let Some(Json::Object(members)) = j.get("mcpServers") {
        for (name, described) in members {
            config.describe(name, read_server(described));
        }
    }
    config
}

fn server<'a>(config: &'a McpConfig, name: &str) -> Option<&'a McpServerConfig> {
    config.mcp_servers.get(name)
}

#[test]
fn test_mcp_config_defaults() {
    let json = r#"{
      "mcpServers": {
        "demo": {
          "command": "npx",
          "args": ["-y", "@modelcontextprotocol/server-filesystem", "."]
        }
      }
    }"#;

    let cfg = read_config(json);
    let server = server(&cfg, "demo").unwrap();
    assert_eq!(server.transport, "stdio");
    assert!(server.protocol_version.is_none());
    assert!(server.max_retries.is_none());
    assert!(McpServer::connect("demo", server, None).is_ok());
}

#[test]
fn test_mcp_http_config_parse() {
    let json = r#"{
      "default_protocol_version": "2025-11-05",
      "mcpServers": {
        "remote": {
          "transport": "streamable_http",
          "endpoint": "http://127.0.0.1:8080/mcp",
          "headers": {"Authorization": "Bearer test"},
          "max_retries": 3,
          "health_interval_secs": 15
        }
      }
    }"#;

    let cfg = read_config(json);
    let remote = server(&cfg, "remote").unwrap();
    assert_eq!(remote.transport, "streamable_http");
    assert_eq!(remote.endpoint, "http://127.0.0.1:8080/mcp");
    assert_eq!(remote.max_retries, Some(3));
    assert_eq!(remote.health_interval_secs, Some(15));
    assert_eq!(remote.health_interval(), Some(15));
    assert_eq!(cfg.default_protocol_version.unwrap(), "2025-11-05");
}

#[test]
fn a_server_is_described_once() {
    let mut cfg = McpConfig::new(None);
    cfg.describe("a", config());
    cfg.describe("b", http_config());
    cfg.describe("a", http_config());
    assert_eq!(cfg.mcp_servers.entries().len(), 2);
    assert_eq!(server(&cfg, "a").unwrap().transport, " HTTP ");
    assert!(server(&cfg, "c").is_none());
    // Of two values under a name the later one counts.
    let map = maps::collect(vec![
        ("k".into(), "1".into()),
        ("l".into(), "2".into()),
        ("k".into(), "3".into()),
    ]);
    assert_eq!(map.entries().len(), 2);
    assert_eq!(map.get("k").map(|v| v.as_str()), Some("3"));
    assert_eq!(map.get("l").map(|v| v.as_str()), Some("2"));
    assert!(map.get("m").is_none());
}
