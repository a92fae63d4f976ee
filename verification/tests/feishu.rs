use rayclaw::channels::feishu::{
    adapter_token, build_card, build_card_content, build_interactive_card_body,
    build_message_body, card_messages, check_reply, default_connection_mode, default_domain,
    default_webhook_path, extract_image_keys, extract_service_id, get_token, get_ws_endpoint,
    is_image_extension, is_text_extension, looks_like_text, messages_url, parse_message_content,
    read_content, read_image_keys, resolve_bot_open_id, resolve_domain, resolve_file_type,
    sanitize_filename, split_markdown_chunks, token_request, token_url, ws_endpoint_request,
    FeishuAdapter, FeishuChannelConfig, TokenState, FEISHU_CARD_MARKDOWN_MAX_BYTES,
    FILE_MAX_IMAGE_BYTES, FILE_MAX_INLINE_BYTES,
};
use rayclaw::channels::feishu_attach::{
    attachment_kind, attachment_message, caption_message, check_attachment_reply,
    describe_attachment, plan_upload, read_uploaded_key, AttachmentKind,
};
use rayclaw::json::{self, Json};

fn value(text: &str) -> Json {
    json::parse(text).unwrap()
}

fn config() -> FeishuChannelConfig {
    FeishuChannelConfig {
        app_id: "id".into(),
        app_secret: "secret".into(),
        connection_mode: default_connection_mode(),
        domain: default_domain(),
        allowed_chats: Vec::new(),
        webhook_path: default_webhook_path(),
        verification_token: None,
        encrypt_key: None,
    }
}

#[test]
fn configuration() {
    let cfg = config();
    assert_eq!(cfg.connection_mode, "websocket");
    assert_eq!(cfg.domain, "feishu");
    assert_eq!(cfg.webhook_path, "/feishu/events");
    assert!(!cfg.is_webhook());
    assert!(FeishuChannelConfig { connection_mode: "webhook".into(), ..config() }.is_webhook());
    assert!(cfg.allows_chat("any"));
    let some = FeishuChannelConfig { allowed_chats: vec!["a".into(), "b".into()], ..config() };
    assert!(some.allows_chat("b"));
    assert!(!some.allows_chat("c"));
}

#[test]
fn domains() {
    assert_eq!(resolve_domain("feishu"), "https://open.feishu.cn");
    assert_eq!(resolve_domain("lark"), "https://open.larksuite.com");
    assert_eq!(resolve_domain("https://x.example//"), "https://x.example");
    assert_eq!(resolve_domain(""), "");
    let adapter = FeishuAdapter::new("i".into(), "s".into(), "lark".into(), 5);
    assert_eq!(adapter.base_url, "https://open.larksuite.com");
    assert_eq!(adapter.name(), "feishu");
    assert_eq!(adapter.token.current(0), None);
}

#[test]
fn extensions() {
    for ext in ["txt", "MD", "Rs", "dockerfile", "pl"] {
        assert!(is_text_extension(ext), "{ext}");
        assert!(!is_image_extension(ext), "{ext}");
    }
    for ext in ["png", "JPG", "svg", "tiff"] {
        assert!(is_image_extension(ext), "{ext}");
        assert!(!is_text_extension(ext), "{ext}");
    }
    assert!(!is_text_extension("exe"));
    assert!(!is_text_extension(""));
    assert_eq!(FILE_MAX_INLINE_BYTES, 512 * 1024);
    assert_eq!(FILE_MAX_IMAGE_BYTES, 5 * 1024 * 1024);
}

#[test]
fn bytes_that_look_like_text() {
    assert!(looks_like_text(b""));
    assert!(looks_like_text("häß".as_bytes()));
    assert!(!looks_like_text(&[65, 0, 66]));
    let mut late = vec![65u8; 8192];
    late.push(0);
    assert!(looks_like_text(&late));
    late[8191] = 0;
    assert!(!looks_like_text(&late));
}

#[test]
fn upload_types() {
    for (ext, kind) in [
        ("OGG", "opus"),
        ("flac", "opus"),
        ("mov", "mp4"),
        ("pdf", "pdf"),
        ("docx", "doc"),
        ("xls", "xls"),
        ("pptx", "ppt"),
        ("zip", "stream"),
        ("", "stream"),
    ] {
        assert_eq!(resolve_file_type(ext), kind, "{ext}");
    }
}

#[test]
fn file_names() {
    assert_eq!(sanitize_filename("报告 1.pdf"), "报告 1.pdf");
    assert_eq!(sanitize_filename("../a\\b\u{0}\u{7f}\n.txt"), "..ab.txt");
    assert_eq!(sanitize_filename(" \t/ "), "attachment.bin");
    assert_eq!(sanitize_filename("  x  "), "x");
}

#[test]
fn cards() {
    assert_eq!(
        build_card_content("# hi", None),
        "{\"body\":{\"elements\":[{\"content\":\"# hi\",\"tag\":\"markdown\"}]},\"schema\":\"2.0\"}"
    );
    let titled = build_card("x", Some("T"));
    assert_eq!(titled.at3("header", "title", "content").unwrap().as_str(), Some("T"));
    assert_eq!(titled.at2("header", "template").unwrap().as_str(), Some("blue"));
    let body = build_interactive_card_body("oc_1", "x");
    assert_eq!(body.get_str("receive_id"), Some("oc_1"));
    assert_eq!(body.get_str("msg_type"), Some("interactive"));
    assert_eq!(body.get_str("content"), Some(build_card_content("x", None).as_str()));
    let plain = build_message_body("r", "text", "c");
    assert_eq!(plain.to_text(), "{\"content\":\"c\",\"msg_type\":\"text\",\"receive_id\":\"r\"}");
    assert_eq!(
        messages_url("https://h"),
        "https://h/open-apis/im/v1/messages?receive_id_type=chat_id"
    );
}

#[test]
fn markdown_chunks() {
    assert_eq!(split_markdown_chunks("short", 10), vec!["short"]);
    assert_eq!(split_markdown_chunks("aaa\nbbb\nccc", 8), vec!["aaa\nbbb\n", "ccc"]);
    assert_eq!(split_markdown_chunks("aaaabbbb", 4), vec!["aaaa", "bbbb"]);
    // A character is never cut, and what is cut is put together again.
    let text = "é".repeat(7);
    let parts = split_markdown_chunks(&text, 5);
    assert_eq!(parts.concat(), text);
    assert!(parts.iter().all(|p| p.len() <= 5));
    let long = "x".repeat(FEISHU_CARD_MARKDOWN_MAX_BYTES + 1);
    let messages = card_messages("r", &long);
    assert_eq!(messages.len(), 2);
    assert_eq!(messages[1], build_interactive_card_body("r", "x"));
}

#[test]
fn replies_of_the_api() {
    assert_eq!(check_reply(&value("{\"code\":0}"), "x"), Ok(()));
    assert_eq!(
        check_reply(&value("{\"code\":99,\"msg\":\"no\"}"), "Feishu send_message"),
        Err("Feishu send_message error: code=99 msg=no".to_string())
    );
    assert_eq!(
        check_reply(&value("{}"), "x"),
        Err("x error: code=-1 msg=unknown".to_string())
    );
}

#[test]
fn tokens() {
    assert_eq!(token_request("i", "s").to_text(), "{\"app_id\":\"i\",\"app_secret\":\"s\"}");
    assert_eq!(
        token_url("https://h"),
        "https://h/open-apis/auth/v3/tenant_access_token/internal"
    );
    let granted = value("{\"code\":0,\"tenant_access_token\":\"t\",\"expire\":1000}");
    assert_eq!(adapter_token(&granted), Ok(("t".to_string(), 700)));
    assert_eq!(get_token(&granted), Ok("t".to_string()));
    let silent = value("{\"code\":0,\"tenant_access_token\":\"t\"}");
    assert_eq!(adapter_token(&silent), Ok(("t".to_string(), 6900)));
    let short = value("{\"code\":0,\"tenant_access_token\":\"t\",\"expire\":10}");
    assert_eq!(adapter_token(&short), Ok(("t".to_string(), 0)));
    let empty = value("{\"code\":0}");
    assert_eq!(
        adapter_token(&empty),
        Err("Missing tenant_access_token in response".to_string())
    );
    assert_eq!(get_token(&empty), Err("Missing tenant_access_token".to_string()));
    let refused = value("{\"code\":7,\"msg\":\"bad\"}");
    assert_eq!(
        adapter_token(&refused),
        Err("tenant_access_token error: code=7 msg=bad".to_string())
    );
    assert_eq!(get_token(&refused), Err("token error: code=7 msg=bad".to_string()));

    let mut state = TokenState::new(1000);
    assert_eq!(state.current(0), None);
    state.store("t", 700, 1000);
    assert_eq!(state.current(700_999), Some("t".to_string()));
    assert_eq!(state.current(701_000), None);

    let mut adapter = FeishuAdapter::new("i".into(), "s".into(), "feishu".into(), 0);
    assert!(adapter.on_token_reply(&refused, 1).is_err());
    assert_eq!(adapter.token.current(0), None);
    assert_eq!(adapter.on_token_reply(&granted, 1), Ok("t".to_string()));
    assert_eq!(adapter.token.current(700_000), Some("t".to_string()));
    assert_eq!(adapter.token.current(700_001), None);
}

#[test]
fn bot_and_connection() {
    assert_eq!(
        resolve_bot_open_id(&value("{\"code\":0,\"bot\":{\"open_id\":\"ou_1\"}}")),
        Ok("ou_1".to_string())
    );
    assert_eq!(
        resolve_bot_open_id(&value("{\"code\":0,\"bot\":{}}")),
        Err("bot/v3/info: missing bot.open_id".to_string())
    );
    assert_eq!(
        resolve_bot_open_id(&value("{\"code\":3,\"msg\":\"m\"}")),
        Err("bot/v3/info error: code=3 msg=m".to_string())
    );
    assert_eq!(
        ws_endpoint_request("i", "s").to_text(),
        "{\"AppID\":\"i\",\"AppSecret\":\"s\"}"
    );
    assert_eq!(
        get_ws_endpoint(&value(
            "{\"code\":0,\"data\":{\"URL\":\"wss://a\",\"ClientConfig\":{\"PingInterval\":30}}}"
        )),
        Ok(("wss://a".to_string(), Some(30)))
    );
    assert_eq!(
        get_ws_endpoint(&value(
            "{\"code\":0,\"data\":{\"url\":\"wss://b\",\"client_config\":{\"ping_interval\":9}}}"
        )),
        Ok(("wss://b".to_string(), Some(9)))
    );
    assert_eq!(
        get_ws_endpoint(&value("{\"code\":0,\"data\":{\"URL\":\"wss://c\"}}")),
        Ok(("wss://c".to_string(), None))
    );
    assert_eq!(
        get_ws_endpoint(&value("{\"code\":0}")),
        Err("WS endpoint response missing URL".to_string())
    );
    assert_eq!(
        get_ws_endpoint(&value("{\"code\":1,\"msg\":\"m\"}")),
        Err("WS endpoint error: code=1 msg=m".to_string())
    );
}

#[test]
fn service_ids() {
    assert_eq!(extract_service_id("wss://h/p?device_id=1&service_id=33554678&x=y"), 33554678);
    assert_eq!(extract_service_id("wss://h/p?service_id=-5"), -5);
    assert_eq!(extract_service_id("wss://h/p?service_id=+5"), 5);
    assert_eq!(extract_service_id("wss://h/p?service_id=99999999999"), 0);
    assert_eq!(extract_service_id("wss://h/p?service_id=x&service_id=1"), 0);
    assert_eq!(extract_service_id("wss://h/p?a=b"), 0);
    assert_eq!(extract_service_id("wss://h/p"), 0);
    assert_eq!(extract_service_id("wss://h/p?a=b?service_id=4"), 0);
}

#[test]
fn contents_of_messages() {
    assert_eq!(parse_message_content("{\"text\":\"hi\"}", "text"), "hi");
    assert_eq!(parse_message_content("{\"t\":1}", "text"), "{\"t\":1}");
    assert_eq!(parse_message_content("plain", "text"), "plain");
    assert_eq!(parse_message_content("{\"text\":\"hi\"}", "image"), "{\"text\":\"hi\"}");
    let post = "{\"title\":\"T\",\"content\":[[{\"tag\":\"text\",\"text\":\"a\"},{\"tag\":\"a\",\"text\":\"l\",\"href\":\"h\"},{\"tag\":\"a\",\"href\":\"h\"},{\"tag\":\"a\",\"text\":\"l\"}],[{\"tag\":\"at\",\"user_name\":\"bob\"},{\"tag\":\"img\"},{\"tag\":\"x\",\"text\":\"y\"},{\"tag\":\"x\"}]]}";
    assert_eq!(
        parse_message_content(post, "post"),
        "T\na\n[l](h)\nh\nl\n@bob\n[image]\ny"
    );
    let wrapped = format!("{{\"zh_cn\":{post}}}");
    assert_eq!(
        parse_message_content(&wrapped, "post"),
        parse_message_content(post, "post")
    );
    assert_eq!(parse_message_content("{\"content\":[]}", "post"), "{\"content\":[]}");
    assert_eq!(parse_message_content("[]", "post"), "[]");
    assert_eq!(parse_message_content("no", "post"), "no");
    assert_eq!(read_content(&None, "raw", "post"), "raw");
    assert_eq!(read_content(&Some(value("{\"text\":\"x\"}")), "raw", "text"), "x");
}

#[test]
fn images_in_messages() {
    assert_eq!(extract_image_keys("{\"image_key\":\"k\"}", "image"), vec!["k"]);
    assert!(extract_image_keys("{}", "image").is_empty());
    assert!(extract_image_keys("no", "image").is_empty());
    assert!(extract_image_keys("{\"image_key\":\"k\"}", "text").is_empty());
    let lines = "[[{\"tag\":\"img\",\"image_key\":\"a\"},{\"tag\":\"img\"},{\"tag\":\"text\",\"image_key\":\"z\"}],[{\"tag\":\"img\",\"image_key\":\"b\"}]]";
    assert_eq!(extract_image_keys(&format!("{{\"content\":{lines}}}"), "post"), vec!["a", "b"]);
    let two = format!("{{\"en_us\":{{\"content\":{lines}}},\"zh_cn\":{{\"content\":{lines}}}}}");
    assert_eq!(extract_image_keys(&two, "post"), vec!["a", "b", "a", "b"]);
    assert!(read_image_keys(&None, "post").is_empty());
}

#[test]
fn attachments() {
    assert_eq!(attachment_kind("webp"), AttachmentKind::Image);
    assert_eq!(attachment_kind("svg"), AttachmentKind::File);
    assert_eq!(attachment_kind("mp3"), AttachmentKind::Audio);
    assert_eq!(attachment_kind("mkv"), AttachmentKind::Media);

    let image = plan_upload("https://h", "/tmp/a b.PNG");
    assert_eq!(image.kind, AttachmentKind::Image);
    assert_eq!(image.url, "https://h/open-apis/im/v1/images");
    assert_eq!(image.fields, vec![("image_type".to_string(), "message".to_string())]);
    assert_eq!(image.part, "image");
    assert_eq!(image.filename, "a b.PNG");
    let file = plan_upload("https://h", "/tmp/x.docx");
    assert_eq!(file.kind, AttachmentKind::File);
    assert_eq!(file.url, "https://h/open-apis/im/v1/files");
    assert_eq!(
        file.fields,
        vec![
            ("file_type".to_string(), "doc".to_string()),
            ("file_name".to_string(), "x.docx".to_string())
        ]
    );
    assert_eq!(file.part, "file");
    assert_eq!(plan_upload("b", "/").filename, "attachment.bin");

    assert_eq!(
        read_uploaded_key(AttachmentKind::Image, &value("{\"code\":0,\"data\":{\"image_key\":\"k\"}}")),
        Ok("k".to_string())
    );
    assert_eq!(
        read_uploaded_key(AttachmentKind::Image, &value("{\"code\":0}")),
        Err("Missing image_key in upload response".to_string())
    );
    assert_eq!(
        read_uploaded_key(AttachmentKind::Audio, &value("{\"code\":0,\"data\":{\"file_key\":\"k\"}}")),
        Ok("k".to_string())
    );
    assert_eq!(
        read_uploaded_key(AttachmentKind::File, &value("{\"code\":0}")),
        Err("Missing file_key in upload response".to_string())
    );
    assert_eq!(
        read_uploaded_key(AttachmentKind::File, &value("{\"code\":5,\"msg\":\"m\"}")),
        Err("Feishu file upload error: code=5 msg=m".to_string())
    );

    let message = |kind, content: &str| {
        let m = attachment_message(kind, "r", "k");
        assert_eq!(m.get_str("receive_id"), Some("r"));
        assert_eq!(m.get_str("content"), Some(content));
        m.get_str("msg_type").unwrap().to_string()
    };
    assert_eq!(message(AttachmentKind::Image, "{\"image_key\":\"k\"}"), "image");
    assert_eq!(message(AttachmentKind::Audio, "{\"file_key\":\"k\"}"), "audio");
    assert_eq!(
        message(AttachmentKind::Media, "{\"file_key\":\"k\",\"image_key\":\"\"}"),
        "media"
    );
    assert_eq!(message(AttachmentKind::File, "{\"file_key\":\"k\"}"), "file");
    assert_eq!(check_attachment_reply(AttachmentKind::Media, &value("{\"code\":0}")), Ok(()));
    assert_eq!(
        check_attachment_reply(AttachmentKind::Media, &value("{\"code\":2,\"msg\":\"m\"}")),
        Err("Feishu send media message error: code=2 msg=m".to_string())
    );

    assert_eq!(describe_attachment("/a", None), "[attachment:/a]");
    assert_eq!(describe_attachment("/a", Some("c")), "[attachment:/a] c");
    assert_eq!(describe_attachment("/a", Some("")), "[attachment:/a] ");
    assert_eq!(caption_message(Some("c")), Some("c".to_string()));
    assert_eq!(caption_message(Some("")), None);
    assert_eq!(caption_message(None), None);
}
