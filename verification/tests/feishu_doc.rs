use rayclaw::channels::feishu::FeishuChannelConfig;
use rayclaw::json::{self, Json};
use rayclaw::tools::feishu_doc::{
    check_api_reply, finish, pick_part, plan, DocMethod, DocPart, DocRequest, FeishuDocTool,
};

fn value(text: &str) -> Json {
    json::parse(text).unwrap()
}

fn asked(input: &str) -> DocRequest {
    plan(&value(input)).ok().unwrap()
}

fn refused(input: &str) -> String {
    let result = plan(&value(input)).err().unwrap();
    assert!(result.is_error);
    result.content
}

fn tool() -> FeishuDocTool {
    FeishuDocTool::new(Some(&FeishuChannelConfig {
        app_id: "i".into(),
        app_secret: "s".into(),
        connection_mode: "websocket".into(),
        domain: "lark".into(),
        allowed_chats: Vec::new(),
        webhook_path: "/".into(),
        verification_token: None,
        encrypt_key: None,
    }))
    .unwrap()
}

#[test]
fn tool_of_a_channel() {
    assert!(FeishuDocTool::new(None).is_none());
    let tool = tool();
    assert_eq!(tool.app_id(), "i");
    assert_eq!(tool.app_secret(), "s");
    assert_eq!(tool.base_url(), "https://open.larksuite.com");
    assert_eq!(tool.name(), "feishu_doc");
    let def = tool.definition();
    assert_eq!(def.name, "feishu_doc");
    assert_eq!(def.input_schema.get_array("required").unwrap(), &vec![json::string("action")]);
    let action = def.input_schema.at2("properties", "action").unwrap();
    assert_eq!(action.get_array("enum").unwrap().len(), 8);
    for key in [
        "action",
        "document_id",
        "block_id",
        "title",
        "folder_token",
        "children",
        "index",
        "update_body",
        "page_token",
        "page_size",
    ] {
        assert!(def.input_schema.at2("properties", key).is_some(), "{key}");
    }
    // Every action that the schema names is one that an input can ask for.
    for name in action.get_array("enum").unwrap() {
        let input = format!(
            "{{\"action\":{},\"document_id\":\"d\",\"block_id\":\"b\",\"children\":[],\"update_body\":{{}}}}",
            name.to_text()
        );
        assert!(plan(&value(&input)).is_ok(), "{input}");
    }
}

#[test]
fn requests_on_documents() {
    let read = asked("{\"action\":\"read_doc\",\"document_id\":\"d\"}");
    assert_eq!(read.method, DocMethod::Get);
    assert_eq!(read.path, "/open-apis/docx/v1/documents/d/raw_content");
    assert_eq!(read.part, DocPart::Content);
    assert!(read.body.is_none());
    assert_eq!(
        tool().url(&read),
        "https://open.larksuite.com/open-apis/docx/v1/documents/d/raw_content"
    );
    let meta = asked("{\"action\":\"get_meta\",\"document_id\":\"d\"}");
    assert_eq!(meta.path, "/open-apis/docx/v1/documents/d");
    assert_eq!(meta.part, DocPart::Document);
    let list = asked("{\"action\":\"list_blocks\",\"document_id\":\"d\"}");
    assert_eq!(list.path, "/open-apis/docx/v1/documents/d/blocks?page_size=50");
    let page = asked(
        "{\"action\":\"list_blocks\",\"document_id\":\"d\",\"page_size\":4294967297,\"page_token\":\"t\"}",
    );
    assert_eq!(page.path, "/open-apis/docx/v1/documents/d/blocks?page_size=1&page_token=t");
    assert_eq!(page.part, DocPart::Data);
    let new = asked("{\"action\":\"create_doc\",\"title\":\"T\",\"folder_token\":\"f\"}");
    assert_eq!(new.method, DocMethod::Post);
    assert_eq!(new.path, "/open-apis/docx/v1/documents");
    assert_eq!(new.body.unwrap().to_text(), "{\"folder_token\":\"f\",\"title\":\"T\"}");
    let plain = asked("{\"action\":\"create_doc\"}");
    assert_eq!(plain.body.unwrap().to_text(), "{\"title\":\"Untitled\"}");
    assert_eq!(plain.part, DocPart::Document);
}

#[test]
fn requests_on_blocks() {
    let get = asked("{\"action\":\"get_block\",\"document_id\":\"d\",\"block_id\":\"b\"}");
    assert_eq!(get.method, DocMethod::Get);
    assert_eq!(get.path, "/open-apis/docx/v1/documents/d/blocks/b");
    assert_eq!(get.part, DocPart::Block);
    let create = asked(
        "{\"action\":\"create_block\",\"document_id\":\"d\",\"block_id\":\"b\",\"children\":[1],\"index\":-1}",
    );
    assert_eq!(create.method, DocMethod::Post);
    assert_eq!(create.path, "/open-apis/docx/v1/documents/d/blocks/b/children");
    assert_eq!(create.body.unwrap().to_text(), "{\"children\":[1],\"index\":-1}");
    let update = asked(
        "{\"action\":\"update_block\",\"document_id\":\"d\",\"block_id\":\"b\",\"update_body\":{\"x\":1}}",
    );
    assert_eq!(update.method, DocMethod::Patch);
    assert_eq!(update.path, "/open-apis/docx/v1/documents/d/blocks/b");
    assert_eq!(update.body.unwrap(), value("{\"x\":1}"));
    let delete = asked("{\"action\":\"delete_block\",\"document_id\":\"d\",\"block_id\":\"b\"}");
    assert_eq!(delete.method, DocMethod::Delete);
    assert_eq!(delete.path, "/open-apis/docx/v1/documents/d/blocks/b/children");
    assert_eq!(delete.part, DocPart::Data);
}

#[test]
fn inputs_that_are_refused() {
    assert_eq!(refused("{}"), "Missing required parameter: action");
    assert_eq!(refused("{\"action\":\"read_doc\"}"), "read_doc requires document_id");
    assert_eq!(refused("{\"action\":\"list_blocks\"}"), "list_blocks requires document_id");
    assert_eq!(
        refused("{\"action\":\"get_block\",\"block_id\":\"b\"}"),
        "get_block requires document_id"
    );
    assert_eq!(
        refused("{\"action\":\"delete_block\",\"document_id\":\"d\"}"),
        "delete_block requires block_id"
    );
    assert_eq!(
        refused("{\"action\":\"create_block\",\"document_id\":\"d\",\"block_id\":\"b\"}"),
        "create_block requires children array"
    );
    assert_eq!(
        refused("{\"action\":\"update_block\",\"document_id\":\"d\",\"block_id\":\"b\"}"),
        "update_block requires update_body object"
    );
    assert_eq!(
        refused("{\"action\":\"burn\"}"),
        "Unknown action: burn. Valid: read_doc, get_meta, list_blocks, get_block, create_doc, create_block, update_block, delete_block"
    );
}

#[test]
fn replies() {
    let body = value("{\"code\":0,\"data\":{\"content\":\"c\",\"document\":{\"id\":1}}}");
    assert_eq!(pick_part(DocPart::Content, &body), json::string("c"));
    assert_eq!(pick_part(DocPart::Document, &body), value("{\"id\":1}"));
    assert_eq!(pick_part(DocPart::Block, &body), Json::Null);
    assert_eq!(
        pick_part(DocPart::Data, &body),
        value("{\"content\":\"c\",\"document\":{\"id\":1}}")
    );
    assert_eq!(
        check_api_reply("200 OK", value("{\"code\":3,\"msg\":\"m\"}")),
        Err("Feishu API error: code=3 msg=m status=200 OK".to_string())
    );
    assert_eq!(
        check_api_reply("500 Oops", value("{}")),
        Err("Feishu API error: code=-1 msg=unknown status=500 Oops".to_string())
    );
    let done = finish(DocPart::Document, Ok(("200 OK".into(), body)));
    assert!(!done.is_error);
    assert_eq!(done.content, "{\n  \"id\": 1\n}");
    let failed = finish(DocPart::Data, Err("HTTP error: x".into()));
    assert!(failed.is_error);
    assert_eq!(failed.content, "HTTP error: x");
    assert!(failed.error_type.is_none());
    let refused = finish(DocPart::Data, Ok(("200 OK".into(), value("{\"code\":1}"))));
    assert!(refused.is_error);
}
