use rayclaw::json::{self, Json};
use rayclaw::tools::acp::{
    end_session_result, job_status_result, list_sessions_result, make_acp_tools,
    make_acp_tools_with_callback, new_session_result, prompt_result, submit_job_result, AcpCall,
    AcpKind, AcpTool, AgentToolCall, JobSummary, PromptResult, SessionInfo, SessionSummary,
};
use rayclaw::tools::{tool_risk, ToolRisk};
use std::sync::Arc;

fn tools() -> Vec<AcpTool<(), ()>> {
    make_acp_tools(Arc::new(()))
}

fn value(text: &str) -> Json {
    json::parse(text).unwrap()
}

fn texts(schema: &Json, key: &str) -> Vec<String> {
    schema
        .get_array(key)
        .unwrap()
        .iter()
        .map(|v| v.as_str().unwrap().to_string())
        .collect()
}

#[test]
fn test_tool_names_unique() {
    let tools = tools();
    let names: Vec<String> = tools.iter().map(|t| t.name()).collect();
    assert_eq!(names.len(), 6);
    let mut sorted = names.clone();
    sorted.sort();
    sorted.dedup();
    assert_eq!(sorted.len(), 6, "Tool names must be unique");
}

#[test]
fn test_tool_definitions_valid() {
    for tool in &tools() {
        let def = tool.definition();
        assert!(!def.name.is_empty());
        assert!(!def.description.is_empty());
        assert!(def.input_schema.get("type").is_some());
        assert!(def.name.len() <= 64);
        assert!(def
            .name
            .chars()
            .all(|c| c.is_alphanumeric() || c == '_' || c == '-'));
    }
}

#[test]
fn test_tool_names_match() {
    let expected = vec![
        "acp_new_session",
        "acp_prompt",
        "acp_end_session",
        "acp_list_sessions",
        "acp_submit_job",
        "acp_job_status",
    ];
    let names: Vec<String> = tools().iter().map(|t| t.name()).collect();
    assert_eq!(names, expected);
}

#[test]
fn test_new_session_missing_agent_param() {
    let result = AcpKind::NewSession.plan(&value("{}"), None).err().unwrap();
    assert!(result.is_error);
    assert!(result.content.contains("Missing"));
}

#[test]
fn test_prompt_missing_params() {
    let r1 = AcpKind::Prompt.plan(&value("{\"message\":\"hello\"}"), None).err().unwrap();
    assert!(r1.is_error);
    assert!(r1.content.contains("session_id"));
    let r2 = AcpKind::Prompt.plan(&value("{\"session_id\":\"abc\"}"), None).err().unwrap();
    assert!(r2.is_error);
    assert!(r2.content.contains("message"));
}

#[test]
fn test_list_sessions_empty() {
    assert!(AcpKind::ListSessions.plan(&value("{}"), None).is_ok());
    let result = list_sessions_result(&Vec::new(), &Vec::new());
    assert!(!result.is_error);
    let parsed: serde_json::Value = serde_json::from_str(&result.content).unwrap();
    assert_eq!(parsed["sessions"].as_array().unwrap().len(), 0);
    assert!(parsed["available_agents"].as_array().unwrap().is_empty());
}

#[test]
fn test_tool_schemas_have_required_fields() {
    for tool in &tools() {
        let def = tool.definition();
        let schema = &def.input_schema;
        assert_eq!(
            schema.get("type").and_then(|v| v.as_str()),
            Some("object"),
            "Tool '{}' schema must be type=object",
            def.name
        );
        assert!(
            schema.get("properties").is_some(),
            "Tool '{}' schema must have properties",
            def.name
        );
    }
}

#[test]
fn test_tool_schemas_required_params_are_in_properties() {
    for tool in &tools() {
        let def = tool.definition();
        let props = def.input_schema.get("properties").unwrap();
        for req_field in &texts(&def.input_schema, "required") {
            assert!(
                props.get(req_field).is_some(),
                "Tool '{}': required field '{}' not found in properties",
                def.name,
                req_field
            );
        }
    }
}

#[test]
fn test_tool_descriptions_reasonable_length() {
    for tool in &tools() {
        let def = tool.definition();
        assert!(
            def.description.len() >= 10,
            "Tool '{}' description too short ({})",
            def.name,
            def.description.len()
        );
        assert!(
            def.description.len() <= 1024,
            "Tool '{}' description too long ({})",
            def.name,
            def.description.len()
        );
    }
}

#[test]
fn test_acp_new_session_schema_details() {
    let def = AcpKind::NewSession.definition();
    let props = def.input_schema.get("properties").unwrap();
    assert!(props.get("agent").is_some(), "Must have 'agent' param");
    assert!(
        props.get("workspace").is_some(),
        "Must have 'workspace' param"
    );
    assert!(
        props.get("auto_approve").is_some(),
        "Must have 'auto_approve' param"
    );
    let required = texts(&def.input_schema, "required");
    assert!(
        required.contains(&"agent".to_string()),
        "'agent' must be required"
    );
    assert!(
        !required.contains(&"workspace".to_string()),
        "'workspace' should be optional"
    );
}

#[test]
fn test_acp_prompt_schema_details() {
    let def = AcpKind::Prompt.definition();
    let props = def.input_schema.get("properties").unwrap();
    assert!(props.get("session_id").is_some());
    assert!(props.get("message").is_some());
    assert!(props.get("timeout_secs").is_some());
    let required = texts(&def.input_schema, "required");
    assert!(required.contains(&"session_id".to_string()));
    assert!(required.contains(&"message".to_string()));
    assert!(!required.contains(&"timeout_secs".to_string()));
}

#[test]
fn test_end_session_missing_param() {
    let result = AcpKind::EndSession.plan(&value("{}"), None).err().unwrap();
    assert!(result.is_error);
    assert!(result.content.contains("session_id"));
}

#[test]
fn test_list_sessions_ignores_extra_params() {
    let call = AcpKind::ListSessions.plan(&value("{\"unexpected\":\"param\"}"), None);
    assert!(matches!(call, Ok(AcpCall::ListSessions)));
}

#[test]
fn test_tool_risk_levels() {
    assert_eq!(tool_risk("acp_prompt"), ToolRisk::High);
    assert_eq!(tool_risk("acp_submit_job"), ToolRisk::High);
    assert_eq!(tool_risk("acp_new_session"), ToolRisk::Medium);
    assert_eq!(tool_risk("acp_end_session"), ToolRisk::Low);
    assert_eq!(tool_risk("acp_list_sessions"), ToolRisk::Low);
    assert_eq!(tool_risk("acp_job_status"), ToolRisk::Low);
}

#[test]
fn test_submit_job_missing_params() {
    let r1 = AcpKind::SubmitJob.plan(&value("{\"message\":\"hello\"}"), None).err().unwrap();
    assert!(r1.is_error);
    assert!(r1.content.contains("session_id"));
    let r2 = AcpKind::SubmitJob.plan(&value("{\"session_id\":\"abc\"}"), None).err().unwrap();
    assert!(r2.is_error);
    assert!(r2.content.contains("message"));
}

#[test]
fn test_job_status_missing_param() {
    let result = AcpKind::JobStatus.plan(&value("{}"), None).err().unwrap();
    assert!(result.is_error);
    assert!(result.content.contains("job_id"));
}

#[test]
fn test_submit_job_schema_details() {
    let def = AcpKind::SubmitJob.definition();
    let props = def.input_schema.get("properties").unwrap();
    assert!(props.get("session_id").is_some());
    assert!(props.get("message").is_some());
    assert!(props.get("timeout_secs").is_some());
    let required = texts(&def.input_schema, "required");
    assert!(required.contains(&"session_id".to_string()));
    assert!(required.contains(&"message".to_string()));
    assert!(!required.contains(&"timeout_secs".to_string()));
}

#[test]
fn test_job_status_schema_details() {
    let def = AcpKind::JobStatus.definition();
    assert!(def.input_schema.get("properties").unwrap().get("job_id").is_some());
    assert!(texts(&def.input_schema, "required").contains(&"job_id".to_string()));
}

#[test]
fn inputs_become_calls() {
    match AcpKind::NewSession.plan(
        &value("{\"agent\":\"a\",\"workspace\":\"/w\",\"auto_approve\":true}"),
        None,
    ) {
        Ok(AcpCall::NewSession { agent, workspace, auto_approve }) => {
            assert_eq!(agent, "a");
            assert_eq!(workspace.as_deref(), Some("/w"));
            assert_eq!(auto_approve, Some(true));
        }
        _ => panic!("no session"),
    }
    match AcpKind::SubmitJob.plan(
        &value("{\"session_id\":\"s\",\"message\":\"m\",\"timeout_secs\":5}"),
        Some(-7),
    ) {
        Ok(AcpCall::SubmitJob { session_id, message, timeout_secs, chat_id }) => {
            assert_eq!(session_id, "s");
            assert_eq!(message, "m");
            assert_eq!(timeout_secs, Some(5));
            assert_eq!(chat_id, Some(-7));
        }
        _ => panic!("no job"),
    }
    match AcpKind::Prompt.plan(&value("{\"session_id\":\"s\",\"message\":\"m\"}"), Some(1)) {
        Ok(AcpCall::Prompt { session_id, message, timeout_secs }) => {
            assert_eq!((session_id.as_str(), message.as_str()), ("s", "m"));
            assert_eq!(timeout_secs, None);
        }
        _ => panic!("no prompt"),
    }
    match AcpKind::EndSession.plan(&value("{\"session_id\":\"s\"}"), None) {
        Ok(AcpCall::EndSession { session_id }) => assert_eq!(session_id, "s"),
        _ => panic!("no end"),
    }
    match AcpKind::JobStatus.plan(&value("{\"job_id\":\"j\"}"), None) {
        Ok(AcpCall::JobStatus { job_id }) => assert_eq!(job_id, "j"),
        _ => panic!("no status"),
    }
}

#[test]
fn callback_is_with_the_tool_for_jobs() {
    let manager = Arc::new(5u8);
    let tools = make_acp_tools_with_callback(manager.clone(), Some("done"));
    for tool in &tools {
        assert!(Arc::ptr_eq(&tool.manager, &manager));
        assert_eq!(tool.on_complete.is_some(), tool.kind == AcpKind::SubmitJob);
    }
}

#[test]
fn reports() {
    let opened = new_session_result(Ok(SessionInfo {
        session_id: "s".into(),
        agent_id: "a".into(),
        workspace: "/w".into(),
    }));
    assert!(!opened.is_error);
    assert_eq!(
        opened.content,
        "{\"agent\":\"a\",\"session_id\":\"s\",\"status\":\"active\",\"workspace\":\"/w\"}"
    );
    let done = prompt_result(Ok(PromptResult {
        completed: true,
        messages: vec!["m".into()],
        tool_calls: vec![AgentToolCall { name: "bash".into(), input: value("[1]") }],
        files_changed: vec!["f".into()],
        duration_ms: 12,
        context_reset: false,
    }));
    assert_eq!(
        done.content,
        "{\"completed\":true,\"duration_ms\":12,\"files_changed\":[\"f\"],\"messages\":[\"m\"],\"tool_calls\":[{\"input\":[1],\"tool\":\"bash\"}]}"
    );
    let reset = prompt_result(Ok(PromptResult {
        completed: false,
        messages: vec![],
        tool_calls: vec![],
        files_changed: vec![],
        duration_ms: 0,
        context_reset: true,
    }));
    assert!(reset.content.contains("\"context_reset\":true"));
    assert!(reset.content.contains("Previous conversation context was lost."));
    assert_eq!(
        end_session_result("s", Ok(())).content,
        "{\"session_id\":\"s\",\"status\":\"ended\"}"
    );
    let listed = list_sessions_result(
        &vec![SessionSummary {
            session_id: "s".into(),
            agent_id: "a".into(),
            workspace: "/w".into(),
            status: "Idle".into(),
            created_at: "t".into(),
            idle_secs: 3,
        }],
        &vec!["a".into(), "b".into()],
    );
    assert_eq!(
        listed.content,
        "{\"available_agents\":[\"a\",\"b\"],\"sessions\":[{\"agent\":\"a\",\"created_at\":\"t\",\"idle_secs\":3,\"session_id\":\"s\",\"status\":\"Idle\",\"workspace\":\"/w\"}]}"
    );
    let job = submit_job_result("s", Ok("j".into()));
    let parsed = value(&job.content);
    assert_eq!(parsed.get_str("job_id"), Some("j"));
    assert_eq!(parsed.get_str("status"), Some("submitted"));
    assert_eq!(parsed.get_str("session_id"), Some("s"));
    let status = job_status_result(Ok(JobSummary {
        id: "j".into(),
        session_id: "s".into(),
        agent_id: "a".into(),
        status: "Failed".into(),
        created_at: "t".into(),
        completed_at: None,
        duration_ms: Some(7),
        error: Some("e".into()),
    }));
    assert_eq!(
        status.content,
        "{\"agent\":\"a\",\"created_at\":\"t\",\"duration_ms\":7,\"error\":\"e\",\"job_id\":\"j\",\"session_id\":\"s\",\"status\":\"Failed\"}"
    );
}

#[test]
fn failures_of_the_manager() {
    let cases = [
        (new_session_result(Err("e".into())), "Failed to create ACP session: e"),
        (prompt_result(Err("e".into())), "ACP prompt failed: e"),
        (end_session_result("s", Err("e".into())), "Failed to end ACP session: e"),
        (submit_job_result("s", Err("e".into())), "Failed to submit ACP job: e"),
        (job_status_result(Err("e".into())), "Failed to get job status: e"),
    ];
    for (result, content) in cases {
        assert!(result.is_error);
        assert_eq!(result.content, content);
        assert_eq!(result.error_type.as_deref(), Some("acp_error"));
    }
}
