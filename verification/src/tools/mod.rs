//! Tools that a model can call: what a tool is called and takes, and what it
//! gives back.

use crate::json;
use crate::json::{Fields, Json, JsonV};
use crate::text;
use vstd::prelude::*;

pub mod acp;
pub mod feishu_doc;

verus! {

broadcast use vstd::string::group_string_axioms;

/// How much harm a tool can do.
#[derive(Debug, Clone, Copy, PartialEq, Eq, Structural)]
pub enum ToolRisk {
    Low,
    Medium,
    High,
}

/// How much harm a tool of this name can do.
pub open spec fn risk_of(name: Seq<char>) -> ToolRisk {
    if name == "acp_prompt"@ || name == "acp_submit_job"@ {
        ToolRisk::High
    } else if name == "acp_new_session"@ {
        ToolRisk::Medium
    } else {
        ToolRisk::Low
    }
}

/// How much harm a tool of this name can do.
pub fn tool_risk(name: &str) -> (res: ToolRisk)
    ensures
        res == risk_of(name@),
{
    if text::same(name, "acp_prompt") || text::same(name, "acp_submit_job") {
        ToolRisk::High
    } else if text::same(name, "acp_new_session") {
        ToolRisk::Medium
    } else {
        ToolRisk::Low
    }
}

/// What a model is told of a tool.
#[derive(Debug)]
pub struct ToolDefinition {
    pub name: String,
    pub description: String,
    pub input_schema: Json,
}

/// The mathematical form of a `ToolDefinition`.
pub struct DefinitionV {
    pub name: Seq<char>,
    pub description: Seq<char>,
    pub input_schema: JsonV,
}

impl ToolDefinition {
    pub open spec fn view(self) -> DefinitionV {
        DefinitionV {
            name: self.name@,
            description: self.description@,
            input_schema: self.input_schema@,
        }
    }
}

/// What a call of a tool gives back.
#[derive(Debug)]
pub struct ToolResult {
    pub content: String,
    pub is_error: bool,
    /// What sort of error it is, where it is of a sort.
    pub error_type: Option<String>,
}

/// The mathematical form of a `ToolResult`.
pub struct ToolResultV {
    pub content: Seq<char>,
    pub is_error: bool,
    pub error_type: Option<Seq<char>>,
}

/// The result of a call that did what was asked.
pub open spec fn succeeded(content: Seq<char>) -> ToolResultV {
    ToolResultV { content, is_error: false, error_type: None }
}

/// The result of a call that failed.
pub open spec fn failed(content: Seq<char>) -> ToolResultV {
    ToolResultV { content, is_error: true, error_type: None }
}

impl ToolResultV {
    /// The same with a sort of error.
    pub open spec fn of_type(self, error_type: Seq<char>) -> ToolResultV {
        ToolResultV { error_type: Some(error_type), ..self }
    }
}

impl ToolResult {
    pub open spec fn view(self) -> ToolResultV {
        ToolResultV {
            content: self.content@,
            is_error: self.is_error,
            error_type: text::opt(self.error_type),
        }
    }

    /// The result of a call that did what was asked.
    pub fn success(content: String) -> (res: ToolResult)
        ensures
            res@ == succeeded(content@),
    {
        ToolResult { content, is_error: false, error_type: None }
    }

    /// The result of a call that failed.
    pub fn error(content: String) -> (res: ToolResult)
        ensures
            res@ == failed(content@),
    {
        ToolResult { content, is_error: true, error_type: None }
    }

    /// The same with a sort of error.
    pub fn with_error_type(self, error_type: &str) -> (res: ToolResult)
        ensures
            res@ == self@.of_type(error_type@),
    {
        ToolResult {
            content: self.content,
            is_error: self.is_error,
            error_type: Some(error_type.to_owned()),
        }
    }
}

/// The schema of a parameter.
pub open spec fn param(kind: Seq<char>, description: Seq<char>) -> JsonV {
    json::obj2("type"@, json::jstr(kind), "description"@, json::jstr(description))
}

/// The schema of a parameter.
pub fn schema_param(kind: &str, description: &str) -> (res: Json)
    ensures
        res@ == param(kind@, description@),
{
    Fields::new().text("type", kind).text("description", description).object()
}

/// Texts as JSON strings.
pub open spec fn text_items(texts: Seq<Seq<char>>) -> Seq<JsonV> {
    Seq::new(texts.len(), |i: int| json::jstr(texts[i]))
}

/// An array of texts.
pub fn text_array(texts: &Vec<String>) -> (res: Json)
    ensures
        res@ == JsonV::Array(text_items(text::strs(texts@))),
{
    let ghost want = text_items(text::strs(texts@));
    let mut items: Vec<Json> = Vec::new();
    let mut i: usize = 0;
    while i < texts.len()
        invariant
            i <= texts@.len(),
            want == text_items(text::strs(texts@)),
            json::values(items@) == want.take(i as int),
        decreases texts@.len() - i,
    {
        let ghost before = json::values(items@);
        items.push(json::string(texts[i].as_str()));
        assert(json::values(items@) =~= before.push(want[i as int]));
        assert(want.take(i + 1) =~= want.take(i as int).push(want[i as int]));
        i += 1;
    }
    assert(want.take(texts@.len() as int) =~= want);
    json::array(items)
}

/// The schema of an object with these properties, some of which are required.
pub open spec fn object_schema(properties: JsonV, required: Seq<Seq<char>>) -> JsonV {
    json::obj3(
        "type"@,
        json::jstr("object"@),
        "properties"@,
        properties,
        "required"@,
        JsonV::Array(text_items(required)),
    )
}

/// The schema of an object with these properties, some of which are required.
pub fn schema_object(properties: Json, required: &Vec<String>) -> (res: Json)
    ensures
        res@ == object_schema(properties@, text::strs(required@)),
{
    let names = text_array(required);
    Fields::new().text("type", "object").with("properties", properties).with(
        "required",
        names,
    ).object()
}

/// Whether every name that a schema requires is one of its properties.
pub open spec fn required_are_described(schema: JsonV) -> bool {
    match (schema.get("properties"@), schema.items("required"@)) {
        (Some(properties), Some(required)) => forall|i: int|
            0 <= i < required.len() ==> (#[trigger] required[i]).as_text() is Some
                && properties.get(required[i].as_text()->Some_0) is Some,
        _ => false,
    }
}

// ---------------------------------------------------------------------------
// What holds of results and schemas
// ---------------------------------------------------------------------------

/// A result holds the whole text, and is an error where it was made as one.
pub proof fn law_results(content: Seq<char>, kind: Seq<char>)
    ensures
        succeeded(content).content == content && !succeeded(content).is_error && succeeded(
            content,
        ).error_type is None,
        failed(content).content == content && failed(content).is_error && failed(
            content,
        ).error_type is None,
        failed(content).of_type(kind).content == content && failed(content).of_type(kind).is_error
            && failed(content).of_type(kind).error_type == Some(kind),
{
}

/// The schema of an input is that of an object with the given properties; it requires
/// each of the given parameters, in their order, and no others.
pub proof fn law_schema(properties: JsonV, required: Seq<Seq<char>>, i: int)
    ensures
        object_schema(properties, required).get("type"@) == Some(JsonV::Text("object"@)),
        object_schema(properties, required).get("properties"@) == Some(properties),
        object_schema(properties, required).items("required"@) matches Some(all) && all.len()
            == required.len() && (0 <= i < all.len() ==> all[i] == JsonV::Text(required[i])),
{
    reveal_strlit("type");
    reveal_strlit("properties");
    reveal_strlit("required");
    assert("type"@.len() == 4);
    assert("required"@.len() == 8);
    assert("properties"@.len() == 10);
    reveal_with_fuel(json::member_from, 4);
}

/// A parameter says its kind and what it is for.
pub proof fn law_param(kind: Seq<char>, description: Seq<char>)
    ensures
        param(kind, description).get("type"@) == Some(JsonV::Text(kind)),
        param(kind, description).get("description"@) == Some(JsonV::Text(description)),
{
    reveal_strlit("type");
    reveal_strlit("description");
    assert("type"@.len() == 4);
    assert("description"@.len() == 11);
    reveal_with_fuel(json::member_from, 3);
}

} // verus!
