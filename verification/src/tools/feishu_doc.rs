//! The tool for documents in Feishu: which request an input asks for, and what
//! the reply to it gives.

use crate::channels::feishu;
use crate::channels::feishu::FeishuChannelConfig;
use crate::json;
use crate::json::{Fields, Json, JsonV};
use crate::text;
use crate::tools;
use crate::tools::{ToolDefinition, ToolResult, ToolResultV};
use vstd::prelude::*;

verus! {

broadcast use vstd::string::group_string_axioms;

/// The tool for documents in Feishu.
pub struct FeishuDocTool {
    app_id: String,
    app_secret: String,
    base_url: String,
}

/// How a request is made.
#[derive(Debug, Clone, Copy, PartialEq, Eq, Structural)]
pub enum DocMethod {
    Get,
    Post,
    Patch,
    Delete,
}

/// Which part of a reply is handed back.
#[derive(Debug, Clone, Copy, PartialEq, Eq, Structural)]
pub enum DocPart {
    Content,
    Document,
    Block,
    Data,
}

/// A request to the web API.
pub struct DocRequest {
    pub method: DocMethod,
    pub path: String,
    pub body: Option<Json>,
    pub part: DocPart,
}

/// The mathematical form of a `DocRequest`.
pub struct DocRequestV {
    pub method: DocMethod,
    pub path: Seq<char>,
    pub body: Option<JsonV>,
    pub part: DocPart,
}

impl DocRequest {
    pub open spec fn view(self) -> DocRequestV {
        DocRequestV {
            method: self.method,
            path: self.path@,
            body: match self.body {
                Some(j) => Some(j@),
                None => None,
            },
            part: self.part,
        }
    }
}

/// The path of a document.
pub open spec fn doc_path(id: Seq<char>) -> Seq<char> {
    "/open-apis/docx/v1/documents/"@ + id
}

/// The path of a block of a document.
pub open spec fn block_path(id: Seq<char>, block: Seq<char>) -> Seq<char> {
    doc_path(id) + "/blocks/"@ + block
}

/// The number of blocks on a page that an input asks for, in the range of the
/// API's own numbers.
pub open spec fn page_size_of(input: JsonV) -> nat {
    match input.count("page_size"@) {
        Some(n) => n as nat % 0x1_0000_0000,
        None => 50,
    }
}

/// What is said where an action lacks something.
pub open spec fn lacks(action: Seq<char>, what: Seq<char>) -> ToolResultV {
    tools::failed(action + " requires "@ + what)
}

/// The request that an action on a document makes.
pub open spec fn request_on_document(action: Seq<char>, id: Seq<char>, input: JsonV) -> DocRequestV {
    if action == "read_doc"@ {
        DocRequestV {
            method: DocMethod::Get,
            path: doc_path(id) + "/raw_content"@,
            body: None,
            part: DocPart::Content,
        }
    } else if action == "get_meta"@ {
        DocRequestV {
            method: DocMethod::Get,
            path: doc_path(id),
            body: None,
            part: DocPart::Document,
        }
    } else {
        DocRequestV {
            method: DocMethod::Get,
            path: doc_path(id) + "/blocks?page_size="@ + text::digits(page_size_of(input)) + (
            match input.text("page_token"@) {
                Some(token) => "&page_token="@ + token,
                None => Seq::empty(),
            }),
            body: None,
            part: DocPart::Data,
        }
    }
}

/// The request that an action on a block makes, or what it lacks.
pub open spec fn request_on_block(
    action: Seq<char>,
    id: Seq<char>,
    block: Seq<char>,
    input: JsonV,
) -> Result<DocRequestV, ToolResultV> {
    if action == "get_block"@ {
        Ok(
            DocRequestV {
                method: DocMethod::Get,
                path: block_path(id, block),
                body: None,
                part: DocPart::Block,
            },
        )
    } else if action == "create_block"@ {
        match input.get("children"@) {
            None => Err(lacks(action, "children array"@)),
            Some(children) => Ok(
                DocRequestV {
                    method: DocMethod::Post,
                    path: block_path(id, block) + "/children"@,
                    body: Some(
                        JsonV::Object(
                            json::and_opt(
                                Seq::empty().push(("children"@, children)),
                                "index"@,
                                match input.whole("index"@) {
                                    Some(n) => Some(json::int_view(n)),
                                    None => None,
                                },
                            ),
                        ),
                    ),
                    part: DocPart::Data,
                },
            ),
        }
    } else if action == "update_block"@ {
        match input.get("update_body"@) {
            None => Err(lacks(action, "update_body object"@)),
            Some(body) => Ok(
                DocRequestV {
                    method: DocMethod::Patch,
                    path: block_path(id, block),
                    body: Some(body),
                    part: DocPart::Data,
                },
            ),
        }
    } else {
        Ok(
            DocRequestV {
                method: DocMethod::Delete,
                path: block_path(id, block) + "/children"@,
                body: None,
                part: DocPart::Data,
            },
        )
    }
}

/// The request that makes a document.
pub open spec fn request_for_document(input: JsonV) -> DocRequestV {
    DocRequestV {
        method: DocMethod::Post,
        path: "/open-apis/docx/v1/documents"@,
        body: Some(
            JsonV::Object(
                json::and_opt(
                    Seq::empty().push(
                        (
                            "title"@,
                            json::jstr(
                                match input.text("title"@) {
                                    Some(t) => t,
                                    None => "Untitled"@,
                                },
                            ),
                        ),
                    ),
                    "folder_token"@,
                    match input.text("folder_token"@) {
                        Some(t) => Some(json::jstr(t)),
                        None => None,
                    },
                ),
            ),
        ),
        part: DocPart::Document,
    }
}

/// Whether an action is one on a document.
pub open spec fn is_on_document(action: Seq<char>) -> bool {
    action == "read_doc"@ || action == "get_meta"@ || action == "list_blocks"@
}

/// Whether an action is one on a block.
pub open spec fn is_on_block(action: Seq<char>) -> bool {
    action == "get_block"@ || action == "create_block"@ || action == "update_block"@ || action
        == "delete_block"@
}

/// The request that an input asks for, or what is wrong with the input.
pub open spec fn doc_plan(input: JsonV) -> Result<DocRequestV, ToolResultV> {
    match input.text("action"@) {
        None => Err(tools::failed("Missing required parameter: action"@)),
        Some(action) => if is_on_document(action) {
            match input.text("document_id"@) {
                None => Err(lacks(action, "document_id"@)),
                Some(id) => Ok(request_on_document(action, id, input)),
            }
        } else if is_on_block(action) {
            match (input.text("document_id"@), input.text("block_id"@)) {
                (None, _) => Err(lacks(action, "document_id"@)),
                (Some(_), None) => Err(lacks(action, "block_id"@)),
                (Some(id), Some(block)) => request_on_block(action, id, block, input),
            }
        } else if action == "create_doc"@ {
            Ok(request_for_document(input))
        } else {
            Err(
                tools::failed(
                    "Unknown action: "@ + action
                        + ". Valid: read_doc, get_meta, list_blocks, get_block, create_doc, create_block, update_block, delete_block"@,
                ),
            )
        },
    }
}

/// Whether a reply grants what was asked; else what it says.
pub open spec fn api_outcome(status: Seq<char>, body: JsonV) -> Result<JsonV, Seq<char>> {
    let code = match body.whole("code"@) {
        Some(n) => n,
        None => -1i64,
    };
    if code == 0 {
        Ok(body)
    } else {
        Err(
            "Feishu API error: code="@ + text::signed(code as int) + " msg="@ + (match body.text(
                "msg"@,
            ) {
                Some(m) => m,
                None => "unknown"@,
            }) + " status="@ + status,
        )
    }
}

/// The part of a reply that is handed back; null where it is not there.
pub open spec fn part_of(part: DocPart, body: JsonV) -> JsonV {
    let found = match part {
        DocPart::Content => body.at2("data"@, "content"@),
        DocPart::Document => body.at2("data"@, "document"@),
        DocPart::Block => body.at2("data"@, "block"@),
        DocPart::Data => body.get("data"@),
    };
    match found {
        Some(j) => j,
        None => JsonV::Null,
    }
}

fn lacks_what(action: &str, what: &str) -> (res: ToolResult)
    ensures
        res@ == lacks(action@, what@),
{
    ToolResult::error(text::cat3(action, " requires ", what))
}

fn path_of_doc(id: &str) -> (res: String)
    ensures
        res@ == doc_path(id@),
{
    text::cat("/open-apis/docx/v1/documents/", id)
}

fn path_of_block(id: &str, block: &str) -> (res: String)
    ensures
        res@ == block_path(id@, block@),
{
    let doc = path_of_doc(id);
    text::cat3(doc.as_str(), "/blocks/", block)
}

fn plan_on_document(action: &str, id: &str, input: &Json) -> (res: DocRequest)
    ensures
        res@ == request_on_document(action@, id@, input@),
{
    let base = path_of_doc(id);
    if text::same(action, "read_doc") {
        DocRequest {
            method: DocMethod::Get,
            path: text::cat(base.as_str(), "/raw_content"),
            body: None,
            part: DocPart::Content,
        }
    } else if text::same(action, "get_meta") {
        DocRequest { method: DocMethod::Get, path: base, body: None, part: DocPart::Document }
    } else {
        let size: u64 = match input.get_u64("page_size") {
            Some(n) => n % 0x1_0000_0000,
            None => 50,
        };
        let digits = text::decimal(size);
        let mut path = text::cat3(base.as_str(), "/blocks?page_size=", digits.as_str());
        if let Some(token) = input.get_str("page_token") {
            let more = text::cat("&page_token=", token);
            path.append(more.as_str());
        } else {
            assert(path@ + Seq::<char>::empty() =~= path@);
        }
        DocRequest { method: DocMethod::Get, path, body: None, part: DocPart::Data }
    }
}

fn plan_on_block(action: &str, id: &str, block: &str, input: &Json) -> (res: Result<
    DocRequest,
    ToolResult,
>)
    ensures
        match res {
            Ok(r) => request_on_block(action@, id@, block@, input@) == Ok::<
                DocRequestV,
                ToolResultV,
            >(r@),
            Err(e) => request_on_block(action@, id@, block@, input@) == Err::<
                DocRequestV,
                ToolResultV,
            >(e@),
        },
{
    let base = path_of_block(id, block);
    if text::same(action, "get_block") {
        Ok(DocRequest { method: DocMethod::Get, path: base, body: None, part: DocPart::Block })
    } else if text::same(action, "create_block") {
        match input.get("children") {
            None => Err(lacks_what(action, "children array")),
            Some(children) => {
                let index = match input.get_i64("index") {
                    Some(n) => Some(json::integer(n)),
                    None => None,
                };
                let body = Fields::new().with("children", children.copy()).with_opt(
                    "index",
                    index,
                ).object();
                Ok(
                    DocRequest {
                        method: DocMethod::Post,
                        path: text::cat(base.as_str(), "/children"),
                        body: Some(body),
                        part: DocPart::Data,
                    },
                )
            },
        }
    } else if text::same(action, "update_block") {
        match input.get("update_body") {
            None => Err(lacks_what(action, "update_body object")),
            Some(body) => Ok(
                DocRequest {
                    method: DocMethod::Patch,
                    path: base,
                    body: Some(body.copy()),
                    part: DocPart::Data,
                },
            ),
        }
    } else {
        Ok(
            DocRequest {
                method: DocMethod::Delete,
                path: text::cat(base.as_str(), "/children"),
                body: None,
                part: DocPart::Data,
            },
        )
    }
}

fn plan_for_document(input: &Json) -> (res: DocRequest)
    ensures
        res@ == request_for_document(input@),
{
    let title = match input.get_str("title") {
        Some(t) => t,
        None => "Untitled",
    };
    let folder = match input.get_str("folder_token") {
        Some(t) => Some(json::string(t)),
        None => None,
    };
    let body = Fields::new().text("title", title).with_opt("folder_token", folder).object();
    DocRequest {
        method: DocMethod::Post,
        path: text::owned("/open-apis/docx/v1/documents"),
        body: Some(body),
        part: DocPart::Document,
    }
}

/// The request that an input asks for, or what is wrong with the input.
pub fn plan(input: &Json) -> (res: Result<DocRequest, ToolResult>)
    ensures
        match res {
            Ok(r) => doc_plan(input@) == Ok::<DocRequestV, ToolResultV>(r@),
            Err(e) => doc_plan(input@) == Err::<DocRequestV, ToolResultV>(e@),
        },
{
    let action = match input.get_str("action") {
        Some(a) => a,
        None => {
            return Err(ToolResult::error(text::owned("Missing required parameter: action")));
        },
    };
    let on_document = text::same(action, "read_doc") || text::same(action, "get_meta")
        || text::same(action, "list_blocks");
    let on_block = text::same(action, "get_block") || text::same(action, "create_block")
        || text::same(action, "update_block") || text::same(action, "delete_block");
    if on_document {
        match input.get_str("document_id") {
            None => Err(lacks_what(action, "document_id")),
            Some(id) => Ok(plan_on_document(action, id, input)),
        }
    } else if on_block {
        match input.get_str("document_id") {
            None => Err(lacks_what(action, "document_id")),
            Some(id) => match input.get_str("block_id") {
                None => Err(lacks_what(action, "block_id")),
                Some(block) => plan_on_block(action, id, block, input),
            },
        }
    } else if text::same(action, "create_doc") {
        Ok(plan_for_document(input))
    } else {
        Err(
            ToolResult::error(
                text::cat3(
                    "Unknown action: ",
                    action,
                    ". Valid: read_doc, get_meta, list_blocks, get_block, create_doc, create_block, update_block, delete_block",
                ),
            ),
        )
    }
}

/// Whether a reply grants what was asked; else what it says.
pub fn check_api_reply(status: &str, body: Json) -> (res: Result<Json, String>)
    ensures
        match res {
            Ok(j) => api_outcome(status@, body@) == Ok::<JsonV, Seq<char>>(j@),
            Err(e) => api_outcome(status@, body@) == Err::<JsonV, Seq<char>>(e@),
        },
{
    let code: i64 = match body.get_i64("code") {
        Some(n) => n,
        None => -1,
    };
    if code == 0 {
        return Ok(body);
    }
    let digits = text::decimal_signed(code);
    let msg = match body.get_str("msg") {
        Some(m) => m,
        None => "unknown",
    };
    let mut e = text::cat4("Feishu API error: code=", digits.as_str(), " msg=", msg);
    e.append(" status=");
    e.append(status);
    Err(e)
}

/// The part of a reply that is handed back; null where it is not there.
pub fn pick_part(part: DocPart, body: &Json) -> (res: Json)
    ensures
        res@ == part_of(part, body@),
{
    let found = match part {
        DocPart::Content => body.at2("data", "content"),
        DocPart::Document => body.at2("data", "document"),
        DocPart::Block => body.at2("data", "block"),
        DocPart::Data => body.get("data"),
    };
    match found {
        Some(j) => j.copy(),
        None => Json::Null,
    }
}

/// The result of a request: the part of the reply that it was for, or the error.
/// `reply` is the status and the body that came back, or why none did.
pub fn finish(part: DocPart, reply: Result<(String, Json), String>) -> (res: ToolResult)
    ensures
        res@ == match reply {
            Err(e) => tools::failed(e@),
            Ok(r) => match api_outcome(r.0@, r.1@) {
                Err(e) => tools::failed(e),
                Ok(body) => tools::succeeded(json::indented_text_of(part_of(part, body))),
            },
        },
{
    match reply {
        Err(e) => ToolResult::error(e),
        Ok(r) => match check_api_reply(r.0.as_str(), r.1) {
            Err(e) => ToolResult::error(e),
            Ok(body) => ToolResult::success(pick_part(part, &body).to_indented_text()),
        },
    }
}

/// The actions that the tool knows.
pub open spec fn action_names() -> Seq<Seq<char>> {
    Seq::empty().push("read_doc"@).push("get_meta"@).push("list_blocks"@).push("get_block"@).push(
        "create_doc"@,
    ).push("create_block"@).push("update_block"@).push("delete_block"@)
}

/// The parameters of the tool.
pub open spec fn doc_properties() -> JsonV {
    JsonV::Object(
        Seq::empty().push(
            (
                "action"@,
                json::obj3(
                    "type"@,
                    json::jstr("string"@),
                    "enum"@,
                    JsonV::Array(tools::text_items(action_names())),
                    "description"@,
                    json::jstr(
                        "The operation to perform:\n- read_doc: Read full document raw content\n- get_meta: Get document metadata (title, owner, revision)\n- list_blocks: List all blocks in a document (paginated)\n- get_block: Get a single block by ID\n- create_doc: Create a new empty document\n- create_block: Insert child blocks under a parent block\n- update_block: Update a block's content\n- delete_block: Delete a block's children"@,
                    ),
                ),
            ),
        ).push(
            (
                "document_id"@,
                tools::param(
                    "string"@,
                    "The document ID (required for all actions except create_doc)"@,
                ),
            ),
        ).push(
            (
                "block_id"@,
                tools::param(
                    "string"@,
                    "The block ID (required for get_block, create_block, update_block, delete_block)"@,
                ),
            ),
        ).push(("title"@, tools::param("string"@, "Document title (for create_doc)"@))).push(
            (
                "folder_token"@,
                tools::param(
                    "string"@,
                    "Optional folder token to create the document in (for create_doc)"@,
                ),
            ),
        ).push(
            (
                "children"@,
                tools::param(
                    "array"@,
                    "Array of block definitions to insert (for create_block). Each block follows Feishu docx block schema."@,
                ),
            ),
        ).push(
            (
                "index"@,
                tools::param(
                    "integer"@,
                    "Insert position index (for create_block, 0-based). Omit to append."@,
                ),
            ),
        ).push(
            (
                "update_body"@,
                tools::param(
                    "object"@,
                    "Block update payload (for update_block). Follow Feishu docx PATCH block schema."@,
                ),
            ),
        ).push(
            ("page_token"@, tools::param("string"@, "Pagination token (for list_blocks)"@)),
        ).push(
            (
                "page_size"@,
                tools::param(
                    "integer"@,
                    "Number of blocks per page (for list_blocks, default 50, max 500)"@,
                ),
            ),
        ),
    )
}

/// The actions that the tool knows.
fn actions() -> (res: Vec<String>)
    ensures
        text::strs(res@) == action_names(),
{
    let mut out: Vec<String> = Vec::new();
    out.push(text::owned("read_doc"));
    out.push(text::owned("get_meta"));
    out.push(text::owned("list_blocks"));
    out.push(text::owned("get_block"));
    out.push(text::owned("create_doc"));
    out.push(text::owned("create_block"));
    out.push(text::owned("update_block"));
    out.push(text::owned("delete_block"));
    assert(text::strs(out@) =~= action_names());
    out
}

/// The parameters of the tool.
fn properties() -> (res: Json)
    ensures
        res@ == doc_properties(),
{
    let names = actions();
    let action = Fields::new().text("type", "string").with("enum", tools::text_array(&names)).text(
        "description",
        "The operation to perform:\n- read_doc: Read full document raw content\n- get_meta: Get document metadata (title, owner, revision)\n- list_blocks: List all blocks in a document (paginated)\n- get_block: Get a single block by ID\n- create_doc: Create a new empty document\n- create_block: Insert child blocks under a parent block\n- update_block: Update a block's content\n- delete_block: Delete a block's children",
    ).object();
    Fields::new().with("action", action).with(
        "document_id",
        tools::schema_param("string", "The document ID (required for all actions except create_doc)"),
    ).with(
        "block_id",
        tools::schema_param(
            "string",
            "The block ID (required for get_block, create_block, update_block, delete_block)",
        ),
    ).with("title", tools::schema_param("string", "Document title (for create_doc)")).with(
        "folder_token",
        tools::schema_param(
            "string",
            "Optional folder token to create the document in (for create_doc)",
        ),
    ).with(
        "children",
        tools::schema_param(
            "array",
            "Array of block definitions to insert (for create_block). Each block follows Feishu docx block schema.",
        ),
    ).with(
        "index",
        tools::schema_param(
            "integer",
            "Insert position index (for create_block, 0-based). Omit to append.",
        ),
    ).with(
        "update_body",
        tools::schema_param(
            "object",
            "Block update payload (for update_block). Follow Feishu docx PATCH block schema.",
        ),
    ).with("page_token", tools::schema_param("string", "Pagination token (for list_blocks)")).with(
        "page_size",
        tools::schema_param(
            "integer",
            "Number of blocks per page (for list_blocks, default 50, max 500)",
        ),
    ).object()
}

impl FeishuDocTool {
    /// The id of the app whose rights the tool uses.
    pub closed spec fn app(&self) -> Seq<char> {
        self.app_id@
    }

    /// The secret of the app.
    pub closed spec fn secret(&self) -> Seq<char> {
        self.app_secret@
    }

    /// The address of the web API.
    pub closed spec fn base(&self) -> Seq<char> {
        self.base_url@
    }

    /// The tool, where the channel is configured.
    pub fn new(config: Option<&FeishuChannelConfig>) -> (res: Option<FeishuDocTool>)
        ensures
            match (res, config) {
                (Some(tool), Some(cfg)) => tool.app() == cfg.app_id@ && tool.secret()
                    == cfg.app_secret@ && tool.base() == feishu::domain_url(cfg.domain@),
                (None, None) => true,
                _ => false,
            },
    {
        match config {
            Some(cfg) => Some(
                FeishuDocTool {
                    app_id: cfg.app_id.clone(),
                    app_secret: cfg.app_secret.clone(),
                    base_url: feishu::resolve_domain(cfg.domain.as_str()),
                },
            ),
            None => None,
        }
    }

    /// The id of the app whose rights the tool uses.
    pub fn app_id(&self) -> (res: &String)
        ensures
            res@ == self.app(),
    {
        &self.app_id
    }

    /// The secret of the app.
    pub fn app_secret(&self) -> (res: &String)
        ensures
            res@ == self.secret(),
    {
        &self.app_secret
    }

    /// The address of the web API.
    pub fn base_url(&self) -> (res: &String)
        ensures
            res@ == self.base(),
    {
        &self.base_url
    }

    /// The name of the tool.
    pub fn name(&self) -> (res: String)
        ensures
            res@ == "feishu_doc"@,
    {
        text::owned("feishu_doc")
    }

    /// What a model is told of the tool.
    pub fn definition(&self) -> (res: ToolDefinition)
        ensures
            res.name@ == "feishu_doc"@,
            res.description@
                == "Feishu document operations: read, create, and edit documents via the Feishu/Lark docx API. Supports reading document content, getting metadata, listing/creating/updating/deleting blocks, and creating new documents."@,
            res.input_schema@ == tools::object_schema(
                doc_properties(),
                Seq::empty().push("action"@),
            ),
    {
        let mut required: Vec<String> = Vec::new();
        required.push(text::owned("action"));
        assert(text::strs(required@) =~= Seq::empty().push("action"@));
        ToolDefinition {
            name: text::owned("feishu_doc"),
            description: text::owned(
                "Feishu document operations: read, create, and edit documents via the Feishu/Lark docx API. Supports reading document content, getting metadata, listing/creating/updating/deleting blocks, and creating new documents.",
            ),
            input_schema: tools::schema_object(properties(), &required),
        }
    }

    /// The address of a request.
    pub fn url(&self, request: &DocRequest) -> (res: String)
        ensures
            res@ == self.base() + request@.path,
    {
        text::cat(self.base_url.as_str(), request.path.as_str())
    }
}

/// Every action that the tool tells of is one that an input can ask for: no input
/// with such an action is answered that the action is unknown.
pub proof fn law_actions_are_known(i: int)
    requires
        0 <= i < action_names().len(),
    ensures
        ({
            let action = action_names()[i];
            is_on_document(action) || is_on_block(action) || action == "create_doc"@
        }),
{
}

// ---------------------------------------------------------------------------
// What holds of the requests
// ---------------------------------------------------------------------------

/// A request is made if and only if the action is known and what it needs is there: a
/// document for all but the making of one, a block for what is done to blocks, children
/// to insert and the change to make.
pub proof fn law_request_is_made(input: JsonV)
    ensures
        doc_plan(input) is Ok <==> {
            &&& input.text("action"@) is Some
            &&& action_names().contains(input.text("action"@)->0)
            &&& input.text("action"@) != Some("create_doc"@) ==> input.text("document_id"@) is Some
            &&& input.text("action"@) == Some("get_block"@) || input.text("action"@) == Some(
                "create_block"@,
            ) || input.text("action"@) == Some("update_block"@) || input.text("action"@) == Some(
                "delete_block"@,
            ) ==> input.text("block_id"@) is Some
            &&& input.text("action"@) == Some("create_block"@) ==> input.get("children"@) is Some
            &&& input.text("action"@) == Some("update_block"@) ==> input.get("update_body"@) is Some
        },
        doc_plan(input) matches Err(e) ==> e.is_error,
{
    reveal_strlit("read_doc");
    reveal_strlit("get_meta");
    reveal_strlit("list_blocks");
    reveal_strlit("get_block");
    reveal_strlit("create_doc");
    reveal_strlit("create_block");
    reveal_strlit("update_block");
    reveal_strlit("delete_block");
    assert("read_doc"@.len() == 8 && "read_doc"@[0] == 'r');
    assert("get_meta"@.len() == 8 && "get_meta"@[0] == 'g');
    assert("get_block"@.len() == 9);
    assert("create_doc"@.len() == 10);
    assert("list_blocks"@.len() == 11);
    assert("create_block"@.len() == 12 && "create_block"@[0] == 'c');
    assert("update_block"@.len() == 12 && "update_block"@[0] == 'u');
    assert("delete_block"@.len() == 12 && "delete_block"@[0] == 'd');
    let names = action_names();
    assert(names[0] == "read_doc"@);
    assert(names[1] == "get_meta"@);
    assert(names[2] == "list_blocks"@);
    assert(names[3] == "get_block"@);
    assert(names[4] == "create_doc"@);
    assert(names[5] == "create_block"@);
    assert(names[6] == "update_block"@);
    assert(names[7] == "delete_block"@);
    if input.text("action"@) is Some {
        let action = input.text("action"@)->0;
        assert(names.contains(action) <==> is_on_document(action) || is_on_block(action) || action
            == "create_doc"@);
    }
}

/// The request goes to the document that is named, and to the block of it that is named
/// where it is about one; with the method of the action, and with the children, the
/// change or the title that the input holds.
pub proof fn law_request_is_as_asked(input: JsonV)
    requires
        doc_plan(input) is Ok,
    ensures
        ({
            let r = doc_plan(input)->Ok_0;
            let action = input.text("action"@)->0;
            let document = "/open-apis/docx/v1/documents/"@ + input.text("document_id"@)->0;
            let block = document + "/blocks/"@ + input.text("block_id"@)->0;
            &&& action == "read_doc"@ ==> r.method == DocMethod::Get && r.path == document
                + "/raw_content"@ && r.body is None && r.part == DocPart::Content
            &&& action == "get_meta"@ ==> r.method == DocMethod::Get && r.path == document
                && r.body is None && r.part == DocPart::Document
            &&& action == "list_blocks"@ ==> r.method == DocMethod::Get && r.body is None && r.part
                == DocPart::Data && (document + "/blocks?page_size="@).is_prefix_of(r.path)
            &&& action == "get_block"@ ==> r.method == DocMethod::Get && r.path == block
                && r.body is None && r.part == DocPart::Block
            &&& action == "create_doc"@ ==> r.method == DocMethod::Post && r.path
                == "/open-apis/docx/v1/documents"@ && r.part == DocPart::Document
            &&& action == "create_block"@ ==> r.method == DocMethod::Post && r.path == block
                + "/children"@ && r.part == DocPart::Data && r.body is Some && r.body->0.get(
                "children"@,
            ) == input.get("children"@) && r.body->0.get("index"@) == (
            match input.whole("index"@) {
                Some(n) => Some(json::int_view(n)),
                None => None,
            })
            &&& action == "update_block"@ ==> r.method == DocMethod::Patch && r.path == block
                && r.part == DocPart::Data && r.body == input.get("update_body"@)
            &&& action == "delete_block"@ ==> r.method == DocMethod::Delete && r.path == block
                + "/children"@ && r.part == DocPart::Data && r.body is None
        }),
{
    reveal_strlit("read_doc");
    reveal_strlit("get_meta");
    reveal_strlit("list_blocks");
    reveal_strlit("get_block");
    reveal_strlit("create_doc");
    reveal_strlit("create_block");
    reveal_strlit("update_block");
    reveal_strlit("delete_block");
    reveal_strlit("children");
    reveal_strlit("index");
    assert("index"@.len() == 5);
    assert("read_doc"@.len() == 8 && "read_doc"@[0] == 'r');
    assert("get_meta"@.len() == 8 && "get_meta"@[0] == 'g');
    assert("children"@.len() == 8 && "children"@[0] == 'c');
    assert("get_block"@.len() == 9);
    assert("create_doc"@.len() == 10);
    assert("list_blocks"@.len() == 11);
    assert("create_block"@.len() == 12 && "create_block"@[0] == 'c');
    assert("update_block"@.len() == 12 && "update_block"@[0] == 'u');
    assert("delete_block"@.len() == 12 && "delete_block"@[0] == 'd');
    reveal_with_fuel(json::member_from, 3);
    let document = "/open-apis/docx/v1/documents/"@ + input.text("document_id"@)->0;
    let front = document + "/blocks?page_size="@;
    let r = doc_plan(input)->Ok_0;
    if input.text("action"@) == Some("list_blocks"@) {
        assert(r.path.subrange(0, front.len() as int) =~= front);
    }
}

/// The list of blocks is asked for in pages of the size that is given, fifty where none
/// is, and behind the page that is given.
pub proof fn law_pages(id: Seq<char>, input: JsonV)
    ensures
        ({
            let path = request_on_document("list_blocks"@, id, input).path;
            let front = "/open-apis/docx/v1/documents/"@ + id + "/blocks?page_size="@;
            let size: int = match input.get("page_size"@) {
                Some(JsonV::Number(json::JsonNumberV::Unsigned(n))) => n as int % 0x1_0000_0000,
                _ => 50,
            };
            path == match input.get("page_token"@) {
                Some(JsonV::Text(token)) => front + text::digits(size as nat) + "&page_token="@
                    + token,
                _ => front + text::digits(size as nat),
            }
        }),
{
    reveal_strlit("read_doc");
    reveal_strlit("get_meta");
    reveal_strlit("list_blocks");
    reveal_strlit("get_block");
    reveal_strlit("create_doc");
    reveal_strlit("create_block");
    reveal_strlit("update_block");
    reveal_strlit("delete_block");
    assert("read_doc"@.len() == 8 && "read_doc"@[0] == 'r');
    assert("get_meta"@.len() == 8 && "get_meta"@[0] == 'g');
    assert("get_block"@.len() == 9);
    assert("create_doc"@.len() == 10);
    assert("list_blocks"@.len() == 11);
    assert("create_block"@.len() == 12 && "create_block"@[0] == 'c');
    assert("update_block"@.len() == 12 && "update_block"@[0] == 'u');
    assert("delete_block"@.len() == 12 && "delete_block"@[0] == 'd');
    let path = request_on_document("list_blocks"@, id, input).path;
    let front = "/open-apis/docx/v1/documents/"@ + id + "/blocks?page_size="@;
    let size = text::digits(page_size_of(input));
    match input.text("page_token"@) {
        Some(token) => {
            assert(path =~= front + size + "&page_token="@ + token);
        },
        None => {
            assert(path =~= front + size);
        },
    }
}

/// A new document has the title that is given, and stands in the folder that is given
/// where one is.
pub proof fn law_new_document(input: JsonV)
    ensures
        ({
            let body = request_for_document(input).body->0;
            &&& input.get("title"@) matches Some(JsonV::Text(t)) ==> body.get("title"@) == Some(
                JsonV::Text(t),
            )
            &&& !(input.get("title"@) matches Some(JsonV::Text(t))) ==> body.get("title"@) == Some(
                JsonV::Text("Untitled"@),
            )
            &&& body.get("folder_token"@) == (match input.get("folder_token"@) {
                Some(JsonV::Text(t)) => Some(JsonV::Text(t)),
                _ => None,
            })
        }),
{
    reveal_strlit("title");
    reveal_strlit("folder_token");
    assert("title"@.len() == 5);
    assert("folder_token"@.len() == 12);
    reveal_with_fuel(json::member_from, 3);
}

/// A reply counts if and only if its code is zero, and is then handed on whole; else the
/// code, its words and the status are told. Of a reply the part that was asked for is
/// given as it stands.
pub proof fn law_outcome(status: Seq<char>, body: JsonV)
    ensures
        api_outcome(status, body) is Ok <==> body.whole("code"@) == Some(0i64),
        api_outcome(status, body) matches Ok(b) ==> b == body,
        api_outcome(status, body) matches Err(e) ==> status.is_suffix_of(e),
        api_outcome(status, body) matches Err(e) ==> body.get("msg"@) matches Some(JsonV::Text(msg))
            ==> text::contains(e, msg),
        api_outcome(status, body) matches Err(e) ==> body.whole("code"@) matches Some(code)
            ==> text::contains(e, text::signed(code as int)),
        body.at2("data"@, "content"@) matches Some(v) ==> part_of(DocPart::Content, body) == v,
        body.at2("data"@, "document"@) matches Some(v) ==> part_of(DocPart::Document, body) == v,
        body.at2("data"@, "block"@) matches Some(v) ==> part_of(DocPart::Block, body) == v,
        body.get("data"@) matches Some(v) ==> part_of(DocPart::Data, body) == v,
        body.get("data"@) is None ==> forall|part: DocPart| #[trigger]
            part_of(part, body) == JsonV::Null,
{
    let code = match body.whole("code"@) {
        Some(n) => n,
        None => -1i64,
    };
    let front = "Feishu API error: code="@;
    let number = text::signed(code as int);
    let msg = match body.text("msg"@) {
        Some(m) => m,
        None => "unknown"@,
    };
    if code != 0 {
        let e = front + number + " msg="@ + msg + " status="@ + status;
        assert(e.subrange(e.len() - status.len(), e.len() as int) =~= status);
        text::lemma_middle_is_contained(front, number, " msg="@ + msg + " status="@ + status);
        assert(e =~= front + number + (" msg="@ + msg + " status="@ + status));
        text::lemma_middle_is_contained(front + number + " msg="@, msg, " status="@ + status);
        assert(e =~= (front + number + " msg="@) + msg + (" status="@ + status));
    }
}

/// Where something is missing, the result names the action and what it lacks; an action
/// that is not known is named.
pub proof fn law_refusals_say_why(input: JsonV)
    ensures
        doc_plan(input) matches Err(e) ==> input.text("action"@) matches Some(action)
            ==> text::contains(e.content, action),
        doc_plan(input) matches Err(e) ==> (input.text("action"@) is Some && action_names().contains(
            input.text("action"@)->0,
        ) && input.text("document_id"@) is None ==> "document_id"@.is_suffix_of(e.content)),
        doc_plan(input) matches Err(e) ==> (input.text("action"@) is Some && is_on_block(
            input.text("action"@)->0,
        ) && input.text("document_id"@) is Some && input.text("block_id"@) is None
            ==> "block_id"@.is_suffix_of(e.content)),
{
    law_request_is_made(input);
    if input.text("action"@) is Some {
        let action = input.text("action"@)->0;
        lemma_lack_is_told(action, "document_id"@);
        lemma_lack_is_told(action, "block_id"@);
        lemma_lack_is_told(action, "children array"@);
        lemma_lack_is_told(action, "update_body object"@);
        text::lemma_middle_is_contained(
            "Unknown action: "@,
            action,
            ". Valid: read_doc, get_meta, list_blocks, get_block, create_doc, create_block, update_block, delete_block"@,
        );
        lemma_known_actions(action);
    }
}

proof fn lemma_known_actions(action: Seq<char>)
    ensures
        action_names().contains(action) ==> is_on_document(action) || is_on_block(action) || action
            == "create_doc"@,
{
}

proof fn lemma_lack_is_told(action: Seq<char>, what: Seq<char>)
    ensures
        text::contains(lacks(action, what).content, action),
        what.is_suffix_of(lacks(action, what).content),
{
    let said = lacks(action, what).content;
    text::lemma_middle_is_contained(Seq::empty(), action, " requires "@ + what);
    assert(said =~= Seq::<char>::empty() + action + (" requires "@ + what));
    assert(said.subrange(said.len() - what.len(), said.len() as int) =~= what);
}

} // verus!
