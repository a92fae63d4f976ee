//! Tools that hand coding tasks to external agents.
//!
//! A manager runs the agents. A tool reads from its input what the manager is to
//! do, and reports what came of it.

use crate::handles;
use crate::json;
use crate::json::{Fields, Json, JsonV};
use crate::text;
use crate::tools;
use crate::tools::{ToolDefinition, ToolResult, ToolResultV};
use std::sync::Arc;
use vstd::prelude::*;

verus! {

broadcast use vstd::string::group_string_axioms;

/// Which of the tools it is.
#[derive(Debug, Clone, Copy, PartialEq, Eq, Structural)]
pub enum AcpKind {
    NewSession,
    Prompt,
    EndSession,
    ListSessions,
    SubmitJob,
    JobStatus,
}

/// A tool, the manager that it works with, and for jobs what is to be called when
/// one is done.
pub struct AcpTool<M, C> {
    pub kind: AcpKind,
    pub manager: Arc<M>,
    pub on_complete: Option<C>,
}

/// The name of a tool.
pub open spec fn name_of(kind: AcpKind) -> Seq<char> {
    match kind {
        AcpKind::NewSession => "acp_new_session"@,
        AcpKind::Prompt => "acp_prompt"@,
        AcpKind::EndSession => "acp_end_session"@,
        AcpKind::ListSessions => "acp_list_sessions"@,
        AcpKind::SubmitJob => "acp_submit_job"@,
        AcpKind::JobStatus => "acp_job_status"@,
    }
}

/// What a model is told that a tool does.
pub open spec fn description_of(kind: AcpKind) -> Seq<char> {
    match kind {
        AcpKind::NewSession => "Create a new ACP agent session. Spawns an external Coding Agent as a subprocess. The agent can autonomously read/write files, run commands, and complete coding tasks in the given workspace. Returns a session_id to use with acp_prompt and acp_end_session."@,
        AcpKind::Prompt => "Send a coding task to an active ACP agent session and wait for completion. The agent will autonomously execute the task (read/write files, run commands, etc.) and return the results including output messages, tool calls made, and files changed."@,
        AcpKind::EndSession => "End an ACP agent session and terminate the agent subprocess. Call this when you're done with the coding agent to free resources."@,
        AcpKind::ListSessions => "List all active ACP agent sessions with their status, agent type, workspace, and creation time."@,
        AcpKind::SubmitJob => "Submit a long-running coding task to an ACP agent as an async job. Returns a job_id immediately without waiting for completion. The agent executes in the background and the result is pushed to the chat when done. Use acp_job_status to check progress."@,
        AcpKind::JobStatus => "Check the status of an async ACP job submitted via acp_submit_job. Returns the current status (running/completed/failed) and result if available."@,
    }
}

/// The parameters of a tool.
pub open spec fn properties_of(kind: AcpKind) -> JsonV {
    match kind {
        AcpKind::NewSession => json::obj3(
            "agent"@,
            tools::param("string"@, "Agent name from acp.json config"@),
            "workspace"@,
            tools::param(
                "string"@,
                "Working directory for the agent. Defaults to the agent's configured workspace."@,
            ),
            "auto_approve"@,
            tools::param(
                "boolean"@,
                "Auto-approve the agent's tool calls. Defaults to the config setting."@,
            ),
        ),
        AcpKind::Prompt => json::obj3(
            "session_id"@,
            tools::param("string"@, "Session ID returned by acp_new_session"@),
            "message"@,
            tools::param("string"@, "The coding task or instruction to send to the agent"@),
            "timeout_secs"@,
            tools::param(
                "integer"@,
                "Max seconds to wait for completion. Defaults to config value (300s)."@,
            ),
        ),
        AcpKind::EndSession => json::obj1(
            "session_id"@,
            tools::param("string"@, "Session ID returned by acp_new_session"@),
        ),
        AcpKind::ListSessions => JsonV::Object(Seq::empty()),
        AcpKind::SubmitJob => json::obj3(
            "session_id"@,
            tools::param("string"@, "Session ID returned by acp_new_session"@),
            "message"@,
            tools::param("string"@, "The coding task or instruction to send to the agent"@),
            "timeout_secs"@,
            tools::param(
                "integer"@,
                "Max seconds for execution. Defaults to config value (300s)."@,
            ),
        ),
        AcpKind::JobStatus => json::obj1(
            "job_id"@,
            tools::param("string"@, "Job ID returned by acp_submit_job"@),
        ),
    }
}

/// The parameters that a tool cannot do without.
pub open spec fn required_of(kind: AcpKind) -> Seq<Seq<char>> {
    match kind {
        AcpKind::NewSession => Seq::empty().push("agent"@),
        AcpKind::Prompt => Seq::empty().push("session_id"@).push("message"@),
        AcpKind::EndSession => Seq::empty().push("session_id"@),
        AcpKind::ListSessions => Seq::empty(),
        AcpKind::SubmitJob => Seq::empty().push("session_id"@).push("message"@),
        AcpKind::JobStatus => Seq::empty().push("job_id"@),
    }
}

impl AcpKind {
    /// The name of the tool.
    pub fn name(&self) -> (res: String)
        ensures
            res@ == name_of(*self),
    {
        match self {
            AcpKind::NewSession => text::owned("acp_new_session"),
            AcpKind::Prompt => text::owned("acp_prompt"),
            AcpKind::EndSession => text::owned("acp_end_session"),
            AcpKind::ListSessions => text::owned("acp_list_sessions"),
            AcpKind::SubmitJob => text::owned("acp_submit_job"),
            AcpKind::JobStatus => text::owned("acp_job_status"),
        }
    }

    fn description(&self) -> (res: String)
        ensures
            res@ == description_of(*self),
    {
        match self {
            AcpKind::NewSession => text::owned(
                "Create a new ACP agent session. Spawns an external Coding Agent as a subprocess. The agent can autonomously read/write files, run commands, and complete coding tasks in the given workspace. Returns a session_id to use with acp_prompt and acp_end_session.",
            ),
            AcpKind::Prompt => text::owned(
                "Send a coding task to an active ACP agent session and wait for completion. The agent will autonomously execute the task (read/write files, run commands, etc.) and return the results including output messages, tool calls made, and files changed.",
            ),
            AcpKind::EndSession => text::owned(
                "End an ACP agent session and terminate the agent subprocess. Call this when you're done with the coding agent to free resources.",
            ),
            AcpKind::ListSessions => text::owned(
                "List all active ACP agent sessions with their status, agent type, workspace, and creation time.",
            ),
            AcpKind::SubmitJob => text::owned(
                "Submit a long-running coding task to an ACP agent as an async job. Returns a job_id immediately without waiting for completion. The agent executes in the background and the result is pushed to the chat when done. Use acp_job_status to check progress.",
            ),
            AcpKind::JobStatus => text::owned(
                "Check the status of an async ACP job submitted via acp_submit_job. Returns the current status (running/completed/failed) and result if available.",
            ),
        }
    }

    fn properties(&self) -> (res: Json)
        ensures
            res@ == properties_of(*self),
    {
        match self {
            AcpKind::NewSession => Fields::new().with(
                "agent",
                tools::schema_param("string", "Agent name from acp.json config"),
            ).with(
                "workspace",
                tools::schema_param(
                    "string",
                    "Working directory for the agent. Defaults to the agent's configured workspace.",
                ),
            ).with(
                "auto_approve",
                tools::schema_param(
                    "boolean",
                    "Auto-approve the agent's tool calls. Defaults to the config setting.",
                ),
            ).object(),
            AcpKind::Prompt => Fields::new().with(
                "session_id",
                tools::schema_param("string", "Session ID returned by acp_new_session"),
            ).with(
                "message",
                tools::schema_param("string", "The coding task or instruction to send to the agent"),
            ).with(
                "timeout_secs",
                tools::schema_param(
                    "integer",
                    "Max seconds to wait for completion. Defaults to config value (300s).",
                ),
            ).object(),
            AcpKind::EndSession => Fields::new().with(
                "session_id",
                tools::schema_param("string", "Session ID returned by acp_new_session"),
            ).object(),
            AcpKind::ListSessions => Fields::new().object(),
            AcpKind::SubmitJob => Fields::new().with(
                "session_id",
                tools::schema_param("string", "Session ID returned by acp_new_session"),
            ).with(
                "message",
                tools::schema_param("string", "The coding task or instruction to send to the agent"),
            ).with(
                "timeout_secs",
                tools::schema_param(
                    "integer",
                    "Max seconds for execution. Defaults to config value (300s).",
                ),
            ).object(),
            AcpKind::JobStatus => Fields::new().with(
                "job_id",
                tools::schema_param("string", "Job ID returned by acp_submit_job"),
            ).object(),
        }
    }

    fn required(&self) -> (res: Vec<String>)
        ensures
            text::strs(res@) == required_of(*self),
    {
        let mut out: Vec<String> = Vec::new();
        match self {
            AcpKind::NewSession => {
                out.push(text::owned("agent"));
            },
            AcpKind::Prompt => {
                out.push(text::owned("session_id"));
                out.push(text::owned("message"));
            },
            AcpKind::EndSession => {
                out.push(text::owned("session_id"));
            },
            AcpKind::ListSessions => {},
            AcpKind::SubmitJob => {
                out.push(text::owned("session_id"));
                out.push(text::owned("message"));
            },
            AcpKind::JobStatus => {
                out.push(text::owned("job_id"));
            },
        }
        assert(text::strs(out@) =~= required_of(*self));
        out
    }

    /// What a model is told of the tool.
    pub fn definition(&self) -> (res: ToolDefinition)
        ensures
            res.name@ == name_of(*self),
            res.description@ == description_of(*self),
            res.input_schema@ == tools::object_schema(properties_of(*self), required_of(*self)),
    {
        let properties = self.properties();
        let required = self.required();
        ToolDefinition {
            name: self.name(),
            description: self.description(),
            input_schema: tools::schema_object(properties, &required),
        }
    }
}

/// Every parameter that a tool cannot do without is described in its schema.
pub proof fn law_required_is_described(kind: AcpKind)
    ensures
        tools::required_are_described(
            tools::object_schema(properties_of(kind), required_of(kind)),
        ),
{
    reveal_strlit("type");
    reveal_strlit("properties");
    reveal_strlit("required");
    reveal_strlit("session_id");
    reveal_strlit("message");
    reveal_with_fuel(json::member_from, 5);
    let schema = tools::object_schema(properties_of(kind), required_of(kind));
    assert("type"@.len() == 4);
    assert("properties"@.len() == 10);
    assert("required"@.len() == 8);
    assert("session_id"@.len() == 10);
    assert("message"@.len() == 7);
    assert(schema.get("properties"@) == Some(properties_of(kind)));
    assert(schema.items("required"@) == Some(tools::text_items(required_of(kind))));
    let required = tools::text_items(required_of(kind));
    assert forall|i: int| 0 <= i < required.len() implies (#[trigger] required[i]).as_text() is Some
        && properties_of(kind).get(required[i].as_text()->Some_0) is Some by {
        assert(required[i] == json::jstr(required_of(kind)[i]));
    }
}

/// No two tools have one name.
pub proof fn law_names_differ(a: AcpKind, b: AcpKind)
    ensures
        name_of(a) == name_of(b) ==> a == b,
{
    reveal_strlit("acp_new_session");
    reveal_strlit("acp_prompt");
    reveal_strlit("acp_end_session");
    reveal_strlit("acp_list_sessions");
    reveal_strlit("acp_submit_job");
    reveal_strlit("acp_job_status");
    assert("acp_new_session"@.len() == 15);
    assert("acp_prompt"@.len() == 10);
    assert("acp_end_session"@.len() == 15);
    assert("acp_list_sessions"@.len() == 17);
    assert("acp_submit_job"@.len() == 14);
    assert("acp_job_status"@.len() == 14);
    assert("acp_new_session"@[4] == 'n' && "acp_end_session"@[4] == 'e');
    assert("acp_submit_job"@[4] == 's' && "acp_job_status"@[4] == 'j');
}

impl<M, C> AcpTool<M, C> {
    /// One of the tools.
    pub fn new(kind: AcpKind, manager: Arc<M>, on_complete: Option<C>) -> (res: AcpTool<M, C>)
        ensures
            res.kind == kind,
            res.manager == manager,
            res.on_complete == on_complete,
    {
        AcpTool { kind, manager, on_complete }
    }

    /// The name of the tool.
    pub fn name(&self) -> (res: String)
        ensures
            res@ == name_of(self.kind),
    {
        self.kind.name()
    }

    /// What a model is told of the tool.
    pub fn definition(&self) -> (res: ToolDefinition)
        ensures
            res.name@ == name_of(self.kind),
            res.description@ == description_of(self.kind),
            res.input_schema@ == tools::object_schema(
                properties_of(self.kind),
                required_of(self.kind),
            ),
    {
        self.kind.definition()
    }
}

/// The tools in the order in which they are offered.
pub open spec fn kinds() -> Seq<AcpKind> {
    Seq::empty().push(AcpKind::NewSession).push(AcpKind::Prompt).push(AcpKind::EndSession).push(
        AcpKind::ListSessions,
    ).push(AcpKind::SubmitJob).push(AcpKind::JobStatus)
}

/// Whether `v` are the tools on one manager, in their order, and the callback is
/// with the one that submits jobs.
pub open spec fn is_tool_set<M, C>(
    v: Seq<AcpTool<M, C>>,
    manager: Arc<M>,
    on_job_complete: Option<C>,
) -> bool {
    &&& v.len() == kinds().len()
    &&& forall|i: int|
        0 <= i < v.len() ==> {
            &&& (#[trigger] v[i]).kind == kinds()[i]
            &&& v[i].manager == manager
            &&& v[i].on_complete == if v[i].kind == AcpKind::SubmitJob {
                on_job_complete
            } else {
                None
            }
        }
}

/// All tools, on one manager.
pub fn make_acp_tools<M, C>(manager: Arc<M>) -> (res: Vec<AcpTool<M, C>>)
    ensures
        is_tool_set(res@, manager, None),
{
    make_acp_tools_with_callback(manager, None)
}

/// All tools, on one manager, with what is to be called when a job is done.
pub fn make_acp_tools_with_callback<M, C>(
    manager: Arc<M>,
    on_job_complete: Option<C>,
) -> (res: Vec<AcpTool<M, C>>)
    ensures
        is_tool_set(res@, manager, on_job_complete),
{
    let mut out: Vec<AcpTool<M, C>> = Vec::new();
    out.push(AcpTool::new(AcpKind::NewSession, handles::share(&manager), None));
    out.push(AcpTool::new(AcpKind::Prompt, handles::share(&manager), None));
    out.push(AcpTool::new(AcpKind::EndSession, handles::share(&manager), None));
    out.push(AcpTool::new(AcpKind::ListSessions, handles::share(&manager), None));
    out.push(AcpTool::new(AcpKind::SubmitJob, handles::share(&manager), on_job_complete));
    out.push(AcpTool::new(AcpKind::JobStatus, manager, None));
    out
}

// ---------------------------------------------------------------------------
// What the manager is to do
// ---------------------------------------------------------------------------

/// What the manager is to do.
#[derive(Debug)]
pub enum AcpCall {
    NewSession { agent: String, workspace: Option<String>, auto_approve: Option<bool> },
    Prompt { session_id: String, message: String, timeout_secs: Option<u64> },
    EndSession { session_id: String },
    ListSessions,
    SubmitJob {
        session_id: String,
        message: String,
        timeout_secs: Option<u64>,
        chat_id: Option<i64>,
    },
    JobStatus { job_id: String },
}

/// The mathematical form of an `AcpCall`.
pub enum AcpCallV {
    NewSession {
        agent: Seq<char>,
        workspace: Option<Seq<char>>,
        auto_approve: Option<bool>,
    },
    Prompt { session_id: Seq<char>, message: Seq<char>, timeout_secs: Option<u64> },
    EndSession { session_id: Seq<char> },
    ListSessions,
    SubmitJob {
        session_id: Seq<char>,
        message: Seq<char>,
        timeout_secs: Option<u64>,
        chat_id: Option<i64>,
    },
    JobStatus { job_id: Seq<char> },
}

impl AcpCall {
    pub open spec fn view(self) -> AcpCallV {
        match self {
            AcpCall::NewSession { agent, workspace, auto_approve } => AcpCallV::NewSession {
                agent: agent@,
                workspace: text::opt(workspace),
                auto_approve,
            },
            AcpCall::Prompt { session_id, message, timeout_secs } => AcpCallV::Prompt {
                session_id: session_id@,
                message: message@,
                timeout_secs,
            },
            AcpCall::EndSession { session_id } => AcpCallV::EndSession { session_id: session_id@ },
            AcpCall::ListSessions => AcpCallV::ListSessions,
            AcpCall::SubmitJob { session_id, message, timeout_secs, chat_id } =>
            AcpCallV::SubmitJob {
                session_id: session_id@,
                message: message@,
                timeout_secs,
                chat_id,
            },
            AcpCall::JobStatus { job_id } => AcpCallV::JobStatus { job_id: job_id@ },
        }
    }
}

/// What is said where a parameter is missing.
pub open spec fn missing(param: Seq<char>) -> ToolResultV {
    tools::failed("Missing required parameter: "@ + param)
}

/// What the manager is to do for an input, or what is missing from the input.
pub open spec fn planned(kind: AcpKind, input: JsonV, chat_id: Option<i64>) -> Result<
    AcpCallV,
    ToolResultV,
> {
    match kind {
        AcpKind::NewSession => match input.text("agent"@) {
            None => Err(missing("agent"@)),
            Some(agent) => Ok(
                AcpCallV::NewSession {
                    agent,
                    workspace: input.text("workspace"@),
                    auto_approve: input.flag("auto_approve"@),
                },
            ),
        },
        AcpKind::Prompt => match (input.text("session_id"@), input.text("message"@)) {
            (None, _) => Err(missing("session_id"@)),
            (Some(_), None) => Err(missing("message"@)),
            (Some(session_id), Some(message)) => Ok(
                AcpCallV::Prompt { session_id, message, timeout_secs: input.count("timeout_secs"@) },
            ),
        },
        AcpKind::EndSession => match input.text("session_id"@) {
            None => Err(missing("session_id"@)),
            Some(session_id) => Ok(AcpCallV::EndSession { session_id }),
        },
        AcpKind::ListSessions => Ok(AcpCallV::ListSessions),
        AcpKind::SubmitJob => match (input.text("session_id"@), input.text("message"@)) {
            (None, _) => Err(missing("session_id"@)),
            (Some(_), None) => Err(missing("message"@)),
            (Some(session_id), Some(message)) => Ok(
                AcpCallV::SubmitJob {
                    session_id,
                    message,
                    timeout_secs: input.count("timeout_secs"@),
                    chat_id,
                },
            ),
        },
        AcpKind::JobStatus => match input.text("job_id"@) {
            None => Err(missing("job_id"@)),
            Some(job_id) => Ok(AcpCallV::JobStatus { job_id }),
        },
    }
}

fn missing_param(param: &str) -> (res: ToolResult)
    ensures
        res@ == missing(param@),
{
    ToolResult::error(text::cat("Missing required parameter: ", param))
}

fn own(s: Option<&str>) -> (res: Option<String>)
    ensures
        text::opt(res) == json::opt_str(s),
{
    match s {
        Some(t) => Some(t.to_owned()),
        None => None,
    }
}

impl AcpKind {
    /// What the manager is to do for an input, or what is missing from the input.
    /// `chat_id` is the chat of whoever calls.
    pub fn plan(&self, input: &Json, chat_id: Option<i64>) -> (res: Result<AcpCall, ToolResult>)
        ensures
            match res {
                Ok(call) => planned(*self, input@, chat_id) == Ok::<AcpCallV, ToolResultV>(call@),
                Err(e) => planned(*self, input@, chat_id) == Err::<AcpCallV, ToolResultV>(e@),
            },
    {
        match self {
            AcpKind::NewSession => match input.get_str("agent") {
                None => Err(missing_param("agent")),
                Some(agent) => Ok(
                    AcpCall::NewSession {
                        agent: agent.to_owned(),
                        workspace: own(input.get_str("workspace")),
                        auto_approve: input.get_bool("auto_approve"),
                    },
                ),
            },
            AcpKind::Prompt => match input.get_str("session_id") {
                None => Err(missing_param("session_id")),
                Some(session_id) => match input.get_str("message") {
                    None => Err(missing_param("message")),
                    Some(message) => Ok(
                        AcpCall::Prompt {
                            session_id: session_id.to_owned(),
                            message: message.to_owned(),
                            timeout_secs: input.get_u64("timeout_secs"),
                        },
                    ),
                },
            },
            AcpKind::EndSession => match input.get_str("session_id") {
                None => Err(missing_param("session_id")),
                Some(session_id) => Ok(
                    AcpCall::EndSession { session_id: session_id.to_owned() },
                ),
            },
            AcpKind::ListSessions => Ok(AcpCall::ListSessions),
            AcpKind::SubmitJob => match input.get_str("session_id") {
                None => Err(missing_param("session_id")),
                Some(session_id) => match input.get_str("message") {
                    None => Err(missing_param("message")),
                    Some(message) => Ok(
                        AcpCall::SubmitJob {
                            session_id: session_id.to_owned(),
                            message: message.to_owned(),
                            timeout_secs: input.get_u64("timeout_secs"),
                            chat_id,
                        },
                    ),
                },
            },
            AcpKind::JobStatus => match input.get_str("job_id") {
                None => Err(missing_param("job_id")),
                Some(job_id) => Ok(AcpCall::JobStatus { job_id: job_id.to_owned() }),
            },
        }
    }
}

// ---------------------------------------------------------------------------
// What came of it
// ---------------------------------------------------------------------------

/// A session that was opened.
pub struct SessionInfo {
    pub session_id: String,
    pub agent_id: String,
    pub workspace: String,
}

/// A tool that an agent called.
pub struct AgentToolCall {
    pub name: String,
    pub input: Json,
}

/// What an agent did for a prompt.
pub struct PromptResult {
    pub completed: bool,
    pub messages: Vec<String>,
    pub tool_calls: Vec<AgentToolCall>,
    pub files_changed: Vec<String>,
    pub duration_ms: u64,
    pub context_reset: bool,
}

/// A session that is open.
pub struct SessionSummary {
    pub session_id: String,
    pub agent_id: String,
    pub workspace: String,
    pub status: String,
    pub created_at: String,
    pub idle_secs: u64,
}

/// How a job stands.
pub struct JobSummary {
    pub id: String,
    pub session_id: String,
    pub agent_id: String,
    pub status: String,
    pub created_at: String,
    pub completed_at: Option<String>,
    pub duration_ms: Option<u64>,
    pub error: Option<String>,
}

/// What is said of a session that was opened.
pub open spec fn opened(info: SessionInfo) -> JsonV {
    json::obj4(
        "session_id"@,
        json::jstr(info.session_id@),
        "agent"@,
        json::jstr(info.agent_id@),
        "workspace"@,
        json::jstr(info.workspace@),
        "status"@,
        json::jstr("active"@),
    )
}

/// The tools that an agent called.
pub open spec fn called(calls: Seq<AgentToolCall>) -> Seq<JsonV> {
    Seq::new(
        calls.len(),
        |i: int| json::obj2("tool"@, json::jstr(calls[i].name@), "input"@, calls[i].input@),
    )
}

/// What is said of what an agent did for a prompt.
pub open spec fn done(result: PromptResult) -> JsonV {
    let members = Seq::empty().push(("completed"@, JsonV::Bool(result.completed))).push(
        ("messages"@, JsonV::Array(tools::text_items(text::strs(result.messages@)))),
    ).push(("tool_calls"@, JsonV::Array(called(result.tool_calls@)))).push(
        ("files_changed"@, JsonV::Array(tools::text_items(text::strs(result.files_changed@)))),
    ).push(("duration_ms"@, json::num(result.duration_ms)));
    JsonV::Object(
        if result.context_reset {
            members.push(("context_reset"@, JsonV::Bool(true))).push(
                (
                    "context_reset_notice"@,
                    json::jstr(
                        "Agent process crashed and was restarted. Previous conversation context was lost."@,
                    ),
                ),
            )
        } else {
            members
        },
    )
}

/// What is said of a session that is open.
pub open spec fn open_session(s: SessionSummary) -> JsonV {
    JsonV::Object(
        Seq::empty().push(("session_id"@, json::jstr(s.session_id@))).push(
            ("agent"@, json::jstr(s.agent_id@)),
        ).push(("workspace"@, json::jstr(s.workspace@))).push(
            ("status"@, json::jstr(s.status@)),
        ).push(("created_at"@, json::jstr(s.created_at@))).push(
            ("idle_secs"@, json::num(s.idle_secs)),
        ),
    )
}

/// What is said of all sessions that are open.
pub open spec fn open_sessions(sessions: Seq<SessionSummary>, agents: Seq<Seq<char>>) -> JsonV {
    json::obj2(
        "sessions"@,
        JsonV::Array(Seq::new(sessions.len(), |i: int| open_session(sessions[i]))),
        "available_agents"@,
        JsonV::Array(tools::text_items(agents)),
    )
}

/// What is said of a job that was submitted.
pub open spec fn submitted(session_id: Seq<char>, job_id: Seq<char>) -> JsonV {
    json::obj4(
        "job_id"@,
        json::jstr(job_id),
        "status"@,
        json::jstr("submitted"@),
        "session_id"@,
        json::jstr(session_id),
        "message"@,
        json::jstr(
            "Job submitted. Results will be pushed to the chat when complete. Use acp_job_status to check progress."@,
        ),
    )
}

/// An optional text as a JSON string.
pub open spec fn opt_jstr(t: Option<Seq<char>>) -> Option<JsonV> {
    match t {
        Some(s) => Some(json::jstr(s)),
        None => None,
    }
}

/// An optional number as a JSON number.
pub open spec fn opt_num(n: Option<u64>) -> Option<JsonV> {
    match n {
        Some(n) => Some(json::num(n)),
        None => None,
    }
}

/// What is said of how a job stands.
pub open spec fn job_state(job: JobSummary) -> JsonV {
    let members = Seq::empty().push(("job_id"@, json::jstr(job.id@))).push(
        ("session_id"@, json::jstr(job.session_id@)),
    ).push(("agent"@, json::jstr(job.agent_id@))).push(("status"@, json::jstr(job.status@))).push(
        ("created_at"@, json::jstr(job.created_at@)),
    );
    JsonV::Object(
        json::and_opt(
            json::and_opt(
                json::and_opt(members, "completed_at"@, opt_jstr(text::opt(job.completed_at))),
                "duration_ms"@,
                opt_num(job.duration_ms),
            ),
            "error"@,
            opt_jstr(text::opt(job.error)),
        ),
    )
}

/// What is said where the manager could not do what it was to do.
pub open spec fn acp_failure(what: Seq<char>, why: Seq<char>) -> ToolResultV {
    tools::failed(what + ": "@ + why).of_type("acp_error"@)
}

fn acp_error(what: &str, why: &str) -> (res: ToolResult)
    ensures
        res@ == acp_failure(what@, why@),
{
    ToolResult::error(text::cat3(what, ": ", why)).with_error_type("acp_error")
}

/// The report on a session that was opened.
pub fn session_report(info: &SessionInfo) -> (res: Json)
    ensures
        res@ == opened(*info),
{
    Fields::new().text("session_id", info.session_id.as_str()).text(
        "agent",
        info.agent_id.as_str(),
    ).text("workspace", info.workspace.as_str()).text("status", "active").object()
}

/// The report on what an agent did for a prompt.
pub fn prompt_report(result: &PromptResult) -> (res: Json)
    ensures
        res@ == done(*result),
{
    let ghost want = called(result.tool_calls@);
    let mut calls: Vec<Json> = Vec::new();
    let mut i: usize = 0;
    while i < result.tool_calls.len()
        invariant
            i <= result.tool_calls@.len(),
            want == called(result.tool_calls@),
            json::values(calls@) == want.take(i as int),
        decreases result.tool_calls@.len() - i,
    {
        let ghost before = json::values(calls@);
        let call = &result.tool_calls[i];
        calls.push(
            Fields::new().text("tool", call.name.as_str()).with("input", call.input.copy()).object(),
        );
        assert(json::values(calls@) =~= before.push(want[i as int]));
        assert(want.take(i + 1) =~= want.take(i as int).push(want[i as int]));
        i += 1;
    }
    assert(want.take(result.tool_calls@.len() as int) =~= want);
    let mut fields = Fields::new().with("completed", Json::Bool(result.completed)).with(
        "messages",
        tools::text_array(&result.messages),
    ).with("tool_calls", json::array(calls)).with(
        "files_changed",
        tools::text_array(&result.files_changed),
    ).with("duration_ms", json::number(result.duration_ms));
    if result.context_reset {
        fields = fields.with("context_reset", Json::Bool(true)).text(
            "context_reset_notice",
            "Agent process crashed and was restarted. Previous conversation context was lost.",
        );
    }
    fields.object()
}

/// The report on a session that was ended.
pub fn end_report(session_id: &str) -> (res: Json)
    ensures
        res@ == json::obj2(
            "status"@,
            json::jstr("ended"@),
            "session_id"@,
            json::jstr(session_id@),
        ),
{
    Fields::new().text("status", "ended").text("session_id", session_id).object()
}

/// The report on all sessions that are open.
pub fn sessions_report(sessions: &Vec<SessionSummary>, agents: &Vec<String>) -> (res: Json)
    ensures
        res@ == open_sessions(sessions@, text::strs(agents@)),
{
    let ghost want = Seq::new(sessions@.len(), |i: int| open_session(sessions@[i]));
    let mut entries: Vec<Json> = Vec::new();
    let mut i: usize = 0;
    while i < sessions.len()
        invariant
            i <= sessions@.len(),
            want == Seq::new(sessions@.len(), |i: int| open_session(sessions@[i])),
            json::values(entries@) == want.take(i as int),
        decreases sessions@.len() - i,
    {
        let ghost before = json::values(entries@);
        let s = &sessions[i];
        entries.push(
            Fields::new().text("session_id", s.session_id.as_str()).text(
                "agent",
                s.agent_id.as_str(),
            ).text("workspace", s.workspace.as_str()).text("status", s.status.as_str()).text(
                "created_at",
                s.created_at.as_str(),
            ).with("idle_secs", json::number(s.idle_secs)).object(),
        );
        assert(json::values(entries@) =~= before.push(want[i as int]));
        assert(want.take(i + 1) =~= want.take(i as int).push(want[i as int]));
        i += 1;
    }
    assert(want.take(sessions@.len() as int) =~= want);
    Fields::new().with("sessions", json::array(entries)).with(
        "available_agents",
        tools::text_array(agents),
    ).object()
}

/// The report on a job that was submitted.
pub fn submit_report(session_id: &str, job_id: &str) -> (res: Json)
    ensures
        res@ == submitted(session_id@, job_id@),
{
    Fields::new().text("job_id", job_id).text("status", "submitted").text(
        "session_id",
        session_id,
    ).text(
        "message",
        "Job submitted. Results will be pushed to the chat when complete. Use acp_job_status to check progress.",
    ).object()
}

/// The report on how a job stands.
pub fn job_report(job: &JobSummary) -> (res: Json)
    ensures
        res@ == job_state(*job),
{
    let completed_at = match &job.completed_at {
        Some(t) => Some(json::string(t.as_str())),
        None => None,
    };
    let duration_ms = match job.duration_ms {
        Some(n) => Some(json::number(n)),
        None => None,
    };
    let error = match &job.error {
        Some(t) => Some(json::string(t.as_str())),
        None => None,
    };
    Fields::new().text("job_id", job.id.as_str()).text(
        "session_id",
        job.session_id.as_str(),
    ).text("agent", job.agent_id.as_str()).text("status", job.status.as_str()).text(
        "created_at",
        job.created_at.as_str(),
    ).with_opt("completed_at", completed_at).with_opt("duration_ms", duration_ms).with_opt(
        "error",
        error,
    ).object()
}

/// The result of opening a session.
pub fn new_session_result(reply: Result<SessionInfo, String>) -> (res: ToolResult)
    ensures
        res@ == match reply {
            Ok(info) => tools::succeeded(json::text_of(opened(info))),
            Err(e) => acp_failure("Failed to create ACP session"@, e@),
        },
{
    match reply {
        Ok(info) => ToolResult::success(session_report(&info).to_text()),
        Err(e) => acp_error("Failed to create ACP session", e.as_str()),
    }
}

/// The result of a prompt.
pub fn prompt_result(reply: Result<PromptResult, String>) -> (res: ToolResult)
    ensures
        res@ == match reply {
            Ok(result) => tools::succeeded(json::text_of(done(result))),
            Err(e) => acp_failure("ACP prompt failed"@, e@),
        },
{
    match reply {
        Ok(result) => ToolResult::success(prompt_report(&result).to_text()),
        Err(e) => acp_error("ACP prompt failed", e.as_str()),
    }
}

/// The result of ending a session.
pub fn end_session_result(session_id: &str, reply: Result<(), String>) -> (res: ToolResult)
    ensures
        res@ == match reply {
            Ok(_) => tools::succeeded(
                json::text_of(
                    json::obj2(
                        "status"@,
                        json::jstr("ended"@),
                        "session_id"@,
                        json::jstr(session_id@),
                    ),
                ),
            ),
            Err(e) => acp_failure("Failed to end ACP session"@, e@),
        },
{
    match reply {
        Ok(_) => ToolResult::success(end_report(session_id).to_text()),
        Err(e) => acp_error("Failed to end ACP session", e.as_str()),
    }
}

/// The result of listing the sessions.
pub fn list_sessions_result(sessions: &Vec<SessionSummary>, agents: &Vec<String>) -> (res:
    ToolResult)
    ensures
        res@ == tools::succeeded(json::text_of(open_sessions(sessions@, text::strs(agents@)))),
{
    ToolResult::success(sessions_report(sessions, agents).to_text())
}

/// The result of submitting a job.
pub fn submit_job_result(session_id: &str, reply: Result<String, String>) -> (res: ToolResult)
    ensures
        res@ == match reply {
            Ok(job_id) => tools::succeeded(json::text_of(submitted(session_id@, job_id@))),
            Err(e) => acp_failure("Failed to submit ACP job"@, e@),
        },
{
    match reply {
        Ok(job_id) => ToolResult::success(submit_report(session_id, job_id.as_str()).to_text()),
        Err(e) => acp_error("Failed to submit ACP job", e.as_str()),
    }
}

/// The result of asking how a job stands.
pub fn job_status_result(reply: Result<JobSummary, String>) -> (res: ToolResult)
    ensures
        res@ == match reply {
            Ok(job) => tools::succeeded(json::text_of(job_state(job))),
            Err(e) => acp_failure("Failed to get job status"@, e@),
        },
{
    match reply {
        Ok(job) => ToolResult::success(job_report(&job).to_text()),
        Err(e) => acp_error("Failed to get job status", e.as_str()),
    }
}

// ---------------------------------------------------------------------------
// What holds of the tools
// ---------------------------------------------------------------------------

/// What a call to the manager says comes from the input as it stands there, whatever else
/// the input holds. A call is made if and only if every parameter that the tool requires
/// is there as a text; where one is not, the result names the first of them.
pub proof fn law_call_is_as_asked(kind: AcpKind, input: JsonV, chat_id: Option<i64>)
    ensures
        planned(kind, input, chat_id) is Ok <==> forall|i: int|
            0 <= i < required_of(kind).len() ==> input.text(#[trigger] required_of(kind)[i]) is Some,
        planned(kind, input, chat_id) matches Err(e) ==> e.is_error && exists|i: int|
            0 <= i < required_of(kind).len() && input.text(#[trigger] required_of(kind)[i]) is None
                && required_of(kind)[i].is_suffix_of(e.content) && forall|j: int|
                0 <= j < i ==> input.text(#[trigger] required_of(kind)[j]) is Some,
        match planned(kind, input, chat_id) {
            Ok(AcpCallV::NewSession { agent, workspace, auto_approve }) => kind
                == AcpKind::NewSession && input.get("agent"@) == Some(JsonV::Text(agent))
                && workspace == input.text("workspace"@) && auto_approve == input.flag(
                "auto_approve"@,
            ),
            Ok(AcpCallV::Prompt { session_id, message, timeout_secs }) => kind == AcpKind::Prompt
                && input.get("session_id"@) == Some(JsonV::Text(session_id)) && input.get(
                "message"@,
            ) == Some(JsonV::Text(message)) && timeout_secs == input.count("timeout_secs"@),
            Ok(AcpCallV::EndSession { session_id }) => kind == AcpKind::EndSession && input.get(
                "session_id"@,
            ) == Some(JsonV::Text(session_id)),
            Ok(AcpCallV::ListSessions) => kind == AcpKind::ListSessions,
            Ok(AcpCallV::SubmitJob { session_id, message, timeout_secs, chat_id: chat }) => kind
                == AcpKind::SubmitJob && input.get("session_id"@) == Some(JsonV::Text(session_id))
                && input.get("message"@) == Some(JsonV::Text(message)) && timeout_secs
                == input.count("timeout_secs"@) && chat == chat_id,
            Ok(AcpCallV::JobStatus { job_id }) => kind == AcpKind::JobStatus && input.get(
                "job_id"@,
            ) == Some(JsonV::Text(job_id)),
            Err(_) => true,
        },
{
    let asked = required_of(kind);
    match kind {
        AcpKind::NewSession => {
            assert(asked[0] == "agent"@);
            lemma_missing("agent"@);
        },
        AcpKind::Prompt => {
            assert(asked[0] == "session_id"@ && asked[1] == "message"@);
            lemma_missing("session_id"@);
            lemma_missing("message"@);
        },
        AcpKind::EndSession => {
            assert(asked[0] == "session_id"@);
            lemma_missing("session_id"@);
        },
        AcpKind::ListSessions => {},
        AcpKind::SubmitJob => {
            assert(asked[0] == "session_id"@ && asked[1] == "message"@);
            lemma_missing("session_id"@);
            lemma_missing("message"@);
        },
        AcpKind::JobStatus => {
            assert(asked[0] == "job_id"@);
            lemma_missing("job_id"@);
        },
    }
}

proof fn lemma_missing(param: Seq<char>)
    ensures
        missing(param).is_error,
        param.is_suffix_of(missing(param).content),
{
    let said = missing(param).content;
    assert(said.subrange(said.len() - param.len(), said.len() as int) =~= param);
}

/// What a tool requires: a session and a message to work, an agent to open a session, a
/// session to end it, a job to ask after it.
pub proof fn law_required(kind: AcpKind)
    ensures
        required_of(kind).contains("session_id"@) <==> kind == AcpKind::Prompt || kind
            == AcpKind::SubmitJob || kind == AcpKind::EndSession,
        required_of(kind).contains("message"@) <==> kind == AcpKind::Prompt || kind
            == AcpKind::SubmitJob,
        required_of(kind).contains("agent"@) <==> kind == AcpKind::NewSession,
        required_of(kind).contains("job_id"@) <==> kind == AcpKind::JobStatus,
        required_of(kind).len() == match kind {
            AcpKind::ListSessions => 0nat,
            AcpKind::Prompt | AcpKind::SubmitJob => 2,
            _ => 1,
        },
{

    reveal_strlit("session_id");
    reveal_strlit("message");
    reveal_strlit("agent");
    reveal_strlit("job_id");
    assert("agent"@.len() == 5);
    assert("job_id"@.len() == 6);
    assert("message"@.len() == 7);
    assert("session_id"@.len() == 10);
    let asked = required_of(kind);
    match kind {
        AcpKind::NewSession => {
            assert(asked[0] == "agent"@);
        },
        AcpKind::Prompt => {
            assert(asked[0] == "session_id"@ && asked[1] == "message"@);
        },
        AcpKind::EndSession => {
            assert(asked[0] == "session_id"@);
        },
        AcpKind::ListSessions => {},
        AcpKind::SubmitJob => {
            assert(asked[0] == "session_id"@ && asked[1] == "message"@);
        },
        AcpKind::JobStatus => {
            assert(asked[0] == "job_id"@);
        },
    }
}

/// A prompt or a job is of high risk, opening a session of medium, all else of low.
pub proof fn law_risk(kind: AcpKind)
    ensures
        tools::risk_of(name_of(kind)) == match kind {
            AcpKind::Prompt | AcpKind::SubmitJob => tools::ToolRisk::High,
            AcpKind::NewSession => tools::ToolRisk::Medium,
            _ => tools::ToolRisk::Low,
        },
{
    reveal_strlit("acp_new_session");
    reveal_strlit("acp_prompt");
    reveal_strlit("acp_end_session");
    reveal_strlit("acp_list_sessions");
    reveal_strlit("acp_submit_job");
    reveal_strlit("acp_job_status");
    assert("acp_prompt"@.len() == 10);
    assert("acp_submit_job"@.len() == 14 && "acp_submit_job"@[4] == 's');
    assert("acp_job_status"@.len() == 14 && "acp_job_status"@[4] == 'j');
    assert("acp_new_session"@.len() == 15 && "acp_new_session"@[4] == 'n');
    assert("acp_end_session"@.len() == 15 && "acp_end_session"@[4] == 'e');
    assert("acp_list_sessions"@.len() == 17);
}

/// The report on a prompt tells all that the agent did: every message, every call with
/// its input and every changed file, in their order; and whether it lost its context.
pub proof fn law_prompt_report(result: PromptResult, i: int)
    ensures
        ({
            let told = done(result);
            &&& told.get("completed"@) == Some(JsonV::Bool(result.completed))
            &&& told.get("duration_ms"@) == Some(json::num(result.duration_ms))
            &&& told.items("messages"@) matches Some(all) && all.len() == result.messages@.len()
                && (0 <= i < all.len() ==> all[i] == JsonV::Text(result.messages@[i]@))
            &&& told.items("files_changed"@) matches Some(all) && all.len()
                == result.files_changed@.len() && (0 <= i < all.len() ==> all[i] == JsonV::Text(
                result.files_changed@[i]@,
            ))
            &&& told.items("tool_calls"@) matches Some(all) && all.len()
                == result.tool_calls@.len() && (0 <= i < all.len() ==> all[i].get("tool"@) == Some(
                JsonV::Text(result.tool_calls@[i].name@),
            ) && all[i].get("input"@) == Some(result.tool_calls@[i].input@))
            &&& told.get("context_reset"@) == if result.context_reset {
                Some(JsonV::Bool(true))
            } else {
                None
            }
        }),
{
    reveal_strlit("completed");
    reveal_strlit("messages");
    reveal_strlit("tool_calls");
    reveal_strlit("files_changed");
    reveal_strlit("duration_ms");
    reveal_strlit("context_reset");
    reveal_strlit("context_reset_notice");
    reveal_strlit("tool");
    reveal_strlit("input");
    assert("tool"@.len() == 4);
    assert("input"@.len() == 5);
    assert("messages"@.len() == 8);
    assert("completed"@.len() == 9);
    assert("tool_calls"@.len() == 10);
    assert("duration_ms"@.len() == 11);
    assert("files_changed"@.len() == 13 && "files_changed"@[0] == 'f');
    assert("context_reset"@.len() == 13 && "context_reset"@[0] == 'c');
    assert("context_reset_notice"@.len() == 20);
    reveal_with_fuel(json::member_from, 8);
    match done(result) {
        JsonV::Object(m) => {
            assert(m[0].0 == "completed"@);
            assert(m[1].0 == "messages"@);
            assert(m[2].0 == "tool_calls"@);
            assert(m[3].0 == "files_changed"@);
            assert(m[4].0 == "duration_ms"@);
            if result.context_reset {
                assert(m[5].0 == "context_reset"@ && m[6].0 == "context_reset_notice"@);
            }
        },
        _ => {},
    }
}

/// The report on the open sessions lists each of them, in their order and with all that
/// is known of it, and each of the agents.
pub proof fn law_sessions_report(sessions: Seq<SessionSummary>, agents: Seq<Seq<char>>, i: int)
    ensures
        open_sessions(sessions, agents).items("sessions"@) matches Some(all) && all.len()
            == sessions.len() && (0 <= i < all.len() ==> {
            &&& all[i].get("session_id"@) == Some(JsonV::Text(sessions[i].session_id@))
            &&& all[i].get("agent"@) == Some(JsonV::Text(sessions[i].agent_id@))
            &&& all[i].get("workspace"@) == Some(JsonV::Text(sessions[i].workspace@))
            &&& all[i].get("status"@) == Some(JsonV::Text(sessions[i].status@))
            &&& all[i].get("created_at"@) == Some(JsonV::Text(sessions[i].created_at@))
            &&& all[i].get("idle_secs"@) == Some(json::num(sessions[i].idle_secs))
        }),
        open_sessions(sessions, agents).items("available_agents"@) matches Some(all) && all.len()
            == agents.len() && (0 <= i < all.len() ==> all[i] == JsonV::Text(agents[i])),
{
    reveal_strlit("session_id");
    reveal_strlit("agent");
    reveal_strlit("workspace");
    reveal_strlit("status");
    reveal_strlit("created_at");
    reveal_strlit("idle_secs");
    reveal_strlit("sessions");
    reveal_strlit("available_agents");
    assert("agent"@.len() == 5);
    assert("status"@.len() == 6);
    assert("sessions"@.len() == 8);
    assert("workspace"@.len() == 9 && "workspace"@[0] == 'w');
    assert("idle_secs"@.len() == 9 && "idle_secs"@[0] == 'i');
    assert("session_id"@.len() == 10 && "session_id"@[0] == 's');
    assert("created_at"@.len() == 10 && "created_at"@[0] == 'c');
    assert("available_agents"@.len() == 16);
    reveal_with_fuel(json::member_from, 7);
    if 0 <= i < sessions.len() {
        match open_session(sessions[i]) {
            JsonV::Object(m) => {
                assert(m[0].0 == "session_id"@);
                assert(m[1].0 == "agent"@);
                assert(m[2].0 == "workspace"@);
                assert(m[3].0 == "status"@);
                assert(m[4].0 == "created_at"@);
                assert(m[5].0 == "idle_secs"@);
            },
            _ => {},
        }
    }
}

/// The reports on a session that was opened, on a job that was handed over and on how a
/// job stands tell what is known of it, and of the job when and how it ended where it
/// has.
pub proof fn law_reports(info: SessionInfo, session_id: Seq<char>, job_id: Seq<char>, job: JobSummary)
    ensures
        opened(info).get("session_id"@) == Some(JsonV::Text(info.session_id@)),
        opened(info).get("agent"@) == Some(JsonV::Text(info.agent_id@)),
        opened(info).get("workspace"@) == Some(JsonV::Text(info.workspace@)),
        opened(info).get("status"@) == Some(JsonV::Text("active"@)),
        submitted(session_id, job_id).get("job_id"@) == Some(JsonV::Text(job_id)),
        submitted(session_id, job_id).get("session_id"@) == Some(JsonV::Text(session_id)),
        submitted(session_id, job_id).get("status"@) == Some(JsonV::Text("submitted"@)),
        job_state(job).get("job_id"@) == Some(JsonV::Text(job.id@)),
        job_state(job).get("session_id"@) == Some(JsonV::Text(job.session_id@)),
        job_state(job).get("agent"@) == Some(JsonV::Text(job.agent_id@)),
        job_state(job).get("status"@) == Some(JsonV::Text(job.status@)),
        job_state(job).get("created_at"@) == Some(JsonV::Text(job.created_at@)),
        job_state(job).get("completed_at"@) == match job.completed_at {
            Some(t) => Some(JsonV::Text(t@)),
            None => None,
        },
        job_state(job).get("duration_ms"@) == match job.duration_ms {
            Some(n) => Some(json::num(n)),
            None => None,
        },
        job_state(job).get("error"@) == match job.error {
            Some(t) => Some(JsonV::Text(t@)),
            None => None,
        },
{
    reveal_strlit("job_id");
    reveal_strlit("session_id");
    reveal_strlit("agent");
    reveal_strlit("status");
    reveal_strlit("created_at");
    reveal_strlit("completed_at");
    reveal_strlit("duration_ms");
    reveal_strlit("error");
    reveal_strlit("workspace");
    reveal_strlit("message");
    assert("agent"@.len() == 5 && "agent"@[0] == 'a');
    assert("error"@.len() == 5 && "error"@[0] == 'e');
    assert("job_id"@.len() == 6 && "job_id"@[0] == 'j');
    assert("status"@.len() == 6 && "status"@[0] == 's');
    assert("message"@.len() == 7);
    assert("workspace"@.len() == 9);
    assert("session_id"@.len() == 10 && "session_id"@[0] == 's');
    assert("created_at"@.len() == 10 && "created_at"@[0] == 'c');
    assert("duration_ms"@.len() == 11);
    assert("completed_at"@.len() == 12);
    reveal_with_fuel(json::member_from, 9);
    match job_state(job) {
        JsonV::Object(m) => {
            assert(m[0].0 == "job_id"@);
            assert(m[1].0 == "session_id"@);
            assert(m[2].0 == "agent"@);
            assert(m[3].0 == "status"@);
            assert(m[4].0 == "created_at"@);
        },
        _ => {},
    }
}

/// A failure of the manager is told with what failed and why, and marked as its own.
pub proof fn law_acp_failure(what: Seq<char>, why: Seq<char>)
    ensures
        acp_failure(what, why).is_error,
        acp_failure(what, why).error_type == Some("acp_error"@),
        what.is_prefix_of(acp_failure(what, why).content),
        why.is_suffix_of(acp_failure(what, why).content),
{
    let said = acp_failure(what, why).content;
    assert(said.subrange(0, what.len() as int) =~= what);
    assert(said.subrange(said.len() - why.len(), said.len() as int) =~= why);
}

/// Each of the tools is there, and once.
pub proof fn law_all_kinds(kind: AcpKind)
    ensures
        exists|i: int|
            0 <= i < kinds().len() && #[trigger] kinds()[i] == kind && forall|j: int|
                0 <= j < kinds().len() && #[trigger] kinds()[j] == kind ==> j == i,
        kinds().len() == 6,
{
    let all = kinds();
    assert(all[0] == AcpKind::NewSession && all[1] == AcpKind::Prompt && all[2]
        == AcpKind::EndSession && all[3] == AcpKind::ListSessions && all[4] == AcpKind::SubmitJob
        && all[5] == AcpKind::JobStatus);
    let i: int = match kind {
        AcpKind::NewSession => 0,
        AcpKind::Prompt => 1,
        AcpKind::EndSession => 2,
        AcpKind::ListSessions => 3,
        AcpKind::SubmitJob => 4,
        AcpKind::JobStatus => 5,
    };
    assert(all[i] == kind);
}

/// Every tool works with the one manager, and only the one for jobs knows what is to be
/// called when one is done.
pub proof fn law_tool_set<M, C>(
    v: Seq<AcpTool<M, C>>,
    manager: Arc<M>,
    on_job_complete: Option<C>,
    i: int,
)
    requires
        is_tool_set(v, manager, on_job_complete),
        0 <= i < v.len(),
    ensures
        v.len() == 6,
        v[i].manager == manager,
        v[i].kind == AcpKind::SubmitJob ==> v[i].on_complete == on_job_complete,
        v[i].kind != AcpKind::SubmitJob ==> v[i].on_complete is None,
{
}

} // verus!
