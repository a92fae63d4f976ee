use rayclaw::channels::feishu::FeishuChannelConfig;
use rayclaw::channels::feishu_events::{
    ack_frame, choose_prompt, encode_image, file_marker, image_for_model, on_binary, on_event,
    on_frame, on_webhook, ping_frame, read_event, read_file_request, resource_url, route_file,
    DedupCache, EventStep, FileRoute, FrameStep, Lookup, MessageRoute, WebhookStep,
    DEDUP_TTL_MS, FRAME_METHOD_CONTROL, FRAME_METHOD_DATA,
};
use rayclaw::channels::pb::{
    decode_bytes, decode_header, decode_varint, encode_bytes_field, encode_sint32_field,
    encode_string_field, encode_tag, encode_varint, encode_varint_field, Frame, Header,
};
use rayclaw::json::{self, Json};

fn value(text: &str) -> Json {
    json::parse(text).unwrap()
}

fn frame(kind: &str, method: i32, payload: &[u8]) -> Frame {
    Frame {
        seq_id: 7,
        log_id: 300,
        service: -3,
        method,
        headers: vec![
            Header { key: "type".into(), value: kind.into() },
            Header { key: "".into(), value: "ü".into() },
        ],
        payload_encoding: "gzip".into(),
        payload_type: "json".into(),
        payload: payload.to_vec(),
        log_id_new: "n".into(),
    }
}

fn varint(n: u64) -> Vec<u8> {
    let mut buf = Vec::new();
    encode_varint(n, &mut buf);
    buf
}

#[test]
fn varints() {
    assert_eq!(varint(0), vec![0]);
    assert_eq!(varint(127), vec![127]);
    assert_eq!(varint(300), vec![0xAC, 0x02]);
    assert_eq!(varint(u64::MAX).len(), 10);
    for n in [0, 1, 127, 128, 16383, 16384, u32::MAX as u64, u64::MAX] {
        let bytes = varint(n);
        let mut pos = 0;
        assert_eq!(decode_varint(&bytes, &mut pos), Ok(n));
        assert_eq!(pos, bytes.len());
    }
    let mut pos = 0;
    assert_eq!(
        decode_varint(&[0x80], &mut pos),
        Err("unexpected EOF in varint".to_string())
    );
    let mut pos = 0;
    assert_eq!(
        decode_varint(&[0x80; 11], &mut pos),
        Err("varint too long".to_string())
    );
}

#[test]
fn fields() {
    let mut buf = Vec::new();
    encode_tag(5, 2, &mut buf);
    assert_eq!(buf, vec![0x2A]);
    buf.clear();
    encode_varint_field(1, 0, &mut buf);
    encode_sint32_field(3, 0, &mut buf);
    encode_bytes_field(8, &[], &mut buf);
    encode_string_field(6, "", &mut buf);
    assert!(buf.is_empty());
    encode_varint_field(1, 5, &mut buf);
    encode_sint32_field(3, -1, &mut buf);
    encode_string_field(6, "ab", &mut buf);
    assert_eq!(
        buf,
        vec![0x08, 5, 0x18, 0xFF, 0xFF, 0xFF, 0xFF, 0x0F, 0x32, 2, b'a', b'b']
    );
    let mut pos = 9;
    assert_eq!(decode_bytes(&buf, &mut pos), Ok(&b"ab"[..]));
    let mut pos = 0;
    assert_eq!(
        decode_bytes(&[5, 1], &mut pos),
        Err("unexpected EOF in length-delimited field".to_string())
    );
}

#[test]
fn frames_are_read_back() {
    let sent = frame("event", FRAME_METHOD_DATA, b"{}");
    let got = Frame::decode(&sent.encode()).ok().unwrap();
    assert_eq!(got.seq_id, 7);
    assert_eq!(got.log_id, 300);
    assert_eq!(got.service, -3);
    assert_eq!(got.method, 1);
    assert_eq!(got.headers.len(), 2);
    assert_eq!(got.header("type"), Some("event"));
    assert_eq!(got.header(""), Some("ü"));
    assert_eq!(got.header("none"), None);
    assert_eq!(got.payload_encoding, "gzip");
    assert_eq!(got.payload_type, "json");
    assert_eq!(got.payload, b"{}");
    assert_eq!(got.log_id_new, "n");
    assert_eq!(got.encode(), sent.encode());
}

#[test]
fn frames_in_a_row_are_merged() {
    let first = frame("event", FRAME_METHOD_DATA, b"{}").encode();
    // A second frame with a number, a header and a payload of its own.
    let mut header = Vec::new();
    encode_string_field(1, "k", &mut header);
    encode_string_field(2, "v", &mut header);
    let mut second = Vec::new();
    encode_varint_field(1, 4, &mut second);
    encode_varint_field(1, 9, &mut second);
    encode_bytes_field(5, &header, &mut second);
    encode_bytes_field(8, b"new", &mut second);
    let data: Vec<u8> = [first, second].concat();
    let got = Frame::decode(&data).ok().unwrap();
    assert_eq!(got.seq_id, 9);
    assert_eq!(got.log_id, 300);
    assert_eq!(got.service, -3);
    assert_eq!(got.headers.len(), 3);
    assert_eq!(got.header("type"), Some("event"));
    assert_eq!(got.header("k"), Some("v"));
    assert_eq!(got.payload_type, "json");
    assert_eq!(got.payload, b"new");
    // A field that holds no bytes is taken as well.
    let empty = [&data[..], &[0x42, 0]].concat();
    assert_eq!(Frame::decode(&empty).ok().unwrap().payload, b"");
}

#[test]
fn frames_with_other_fields() {
    // Unknown fields of every wire type are passed over.
    let data = [0x50, 1, 0x52, 1, 9, 0x55, 1, 2, 3, 4, 0x51, 1, 2, 3, 4, 5, 6, 7, 8, 0x08, 9];
    assert_eq!(Frame::decode(&data).ok().unwrap().seq_id, 9);
    assert_eq!(
        Frame::decode(&[0x55, 1]).err(),
        Some("unexpected EOF in fixed32".to_string())
    );
    assert_eq!(
        Frame::decode(&[0x51, 1]).err(),
        Some("unexpected EOF in fixed64".to_string())
    );
    assert_eq!(
        Frame::decode(&[0x53]).err(),
        Some("unexpected wire type 3 for field 10".to_string())
    );
    assert_eq!(
        decode_header(&[0x0D]).err(),
        Some("unexpected wire type 5 in Header".to_string())
    );
    assert_eq!(Frame::decode(&[]).ok().unwrap().headers.len(), 0);
    // What is not UTF-8 is repaired.
    assert_eq!(Frame::decode(&[0x32, 1, 0xFF]).ok().unwrap().payload_encoding, "\u{fffd}");
}

#[test]
fn pings_and_acknowledgements() {
    let ping = ping_frame(42);
    assert_eq!(ping.method, FRAME_METHOD_CONTROL);
    assert_eq!(ping.service, 42);
    assert_eq!(ping.header("type"), Some("ping"));
    assert!(ping.payload.is_empty());
    let ack = ack_frame(&frame("event", FRAME_METHOD_DATA, b"x"));
    assert_eq!(ack.payload, b"{\"StatusCode\":0}");
    assert_eq!((ack.seq_id, ack.log_id, ack.service, ack.method), (7, 300, -3, 1));
    assert_eq!(ack.headers.len(), 2);
    assert_eq!(ack.payload_encoding, "");
    assert_eq!(ack.payload_type, "");
    assert_eq!(ack.log_id_new, "n");
}

#[test]
fn binary_messages() {
    let event = frame("event", FRAME_METHOD_DATA, b"{\"a\":1}");
    let ack = ack_frame(&event).encode();
    match on_binary(&event.encode()) {
        FrameStep::Handle(bytes, got) => {
            assert_eq!(bytes, ack);
            assert_eq!(got, value("{\"a\":1}"));
        }
        _ => panic!("not handled"),
    }
    let broken = frame("event", FRAME_METHOD_DATA, b"{");
    match on_binary(&broken.encode()) {
        FrameStep::Acknowledge(bytes) => assert_eq!(bytes, ack_frame(&broken).encode()),
        _ => panic!("not acknowledged"),
    }
    let pong = frame("pong", FRAME_METHOD_CONTROL, b"");
    assert!(matches!(on_binary(&pong.encode()), FrameStep::Ignore));
    let other = frame("card", FRAME_METHOD_DATA, b"{}");
    assert!(matches!(on_binary(&other.encode()), FrameStep::Ignore));
    assert!(matches!(on_frame(&event, None), FrameStep::Acknowledge(_)));
    match on_binary(&[0x80]) {
        FrameStep::Malformed(e) => assert_eq!(e, "unexpected EOF in varint"),
        _ => panic!("read"),
    }
}

#[test]
fn repeated_deliveries() {
    let mut cache = DedupCache::new();
    assert!(!cache.is_duplicate_message("", 0, true));
    assert_eq!(cache.lookup("a", 0), Lookup::AskStore);
    assert!(!cache.is_duplicate_message("a", 0, false));
    assert_eq!(cache.lookup("a", 1), Lookup::Seen);
    assert!(cache.is_duplicate_message("a", DEDUP_TTL_MS - 1, false));
    assert_eq!(cache.entries.len(), 1);
    // After six hours the store is asked again.
    assert_eq!(cache.lookup("a", DEDUP_TTL_MS), Lookup::AskStore);
    assert!(cache.entries.is_empty());
    assert!(cache.is_duplicate_message("a", DEDUP_TTL_MS, true));
    assert!(cache.is_duplicate_message("a", DEDUP_TTL_MS, false));
    assert_eq!(cache.lookup("", 0), Lookup::Untracked);
}

fn event(sender: &str, sender_type: &str, message: &str) -> Json {
    value(&format!(
        "{{\"header\":{{\"event_type\":\"im.message.receive_v1\"}},\"event\":{{\"sender\":{{\"sender_id\":{{\"open_id\":\"{sender}\"}},\"sender_type\":\"{sender_type}\"}},\"message\":{message}}}}}"
    ))
}

#[test]
fn events() {
    let full = "{\"chat_id\":\"oc\",\"chat_type\":\"group\",\"message_type\":\"post\",\"content\":\"{}\",\"message_id\":\"om\",\"mentions\":[{},{\"id\":{\"open_id\":\"bot\"}}]}";
    let got = read_event(&event("ou", "user", full), "bot").unwrap();
    assert_eq!(got.chat_id, "oc");
    assert_eq!(got.sender, "ou");
    assert_eq!(got.message_type, "post");
    assert_eq!(got.content, "{}");
    assert_eq!(got.message_id, "om");
    assert!(!got.is_dm);
    assert!(got.is_mentioned);
    assert!(!read_event(&event("ou", "user", full), "other").unwrap().is_mentioned);
    let bare = read_event(&event("ou", "user", "{}"), "bot").unwrap();
    assert_eq!(bare.message_type, "text");
    assert_eq!(bare.chat_id, "");
    assert!(bare.is_dm);
    assert!(!bare.is_mentioned);
    assert!(read_event(&event("bot", "user", full), "bot").is_none());
    assert!(read_event(&event("ou", "bot", full), "bot").is_none());
    assert!(read_event(&value("{\"header\":{\"event_type\":\"x\"}}"), "bot").is_none());
    assert!(read_event(&value("[]"), "bot").is_none());
}

#[test]
fn events_lead_to_steps() {
    let config = FeishuChannelConfig {
        app_id: "id".into(),
        app_secret: "secret".into(),
        connection_mode: "websocket".into(),
        domain: "feishu".into(),
        allowed_chats: vec!["oc".into()],
        webhook_path: "/".into(),
        verification_token: None,
        encrypt_key: None,
    };
    let mut cache = DedupCache::new();
    let mut step = |sender: &str, chat: &str, id: &str, kind: &str, content: &str, known: bool| {
        let quoted = json::string(content).to_text();
        let message = format!(
            "{{\"chat_id\":\"{chat}\",\"message_type\":\"{kind}\",\"content\":{quoted},\"message_id\":\"{id}\"}}"
        );
        on_event(&event(sender, "user", &message), "bot", &config, &mut cache, 0, known)
    };
    match step("ou", "oc", "1", "text", "{\"text\":\"hi\"}", false) {
        EventStep::Prompt(message, text, keys) => {
            assert_eq!(message.sender, "ou");
            assert_eq!(text, "hi");
            assert!(keys.is_empty());
        }
        _ => panic!("no prompt"),
    }
    // The second delivery, and one that the store knows.
    assert!(matches!(step("ou", "oc", "1", "text", "{\"text\":\"hi\"}", false), EventStep::Drop));
    assert!(matches!(step("ou", "oc", "2", "text", "{\"text\":\"hi\"}", true), EventStep::Drop));
    match step("ou", "oc", "3", "image", "{\"image_key\":\"k\"}", false) {
        EventStep::Prompt(_, text, keys) => {
            assert_eq!(text, "Please analyze this image.");
            assert_eq!(keys, vec!["k"]);
        }
        _ => panic!("no prompt"),
    }
    match step("ou", "oc", "4", "file", "{\"file_key\":\"f\",\"file_name\":\"a.TXT\"}", false) {
        EventStep::File(message, file) => {
            assert_eq!(message.message_id, "4");
            assert_eq!(file.file_key, "f");
            assert_eq!(file.ext, "txt");
        }
        _ => panic!("no file"),
    }
    // The bot itself, another chat, no chat, nothing to say, no file.
    assert!(matches!(step("bot", "oc", "5", "text", "{\"text\":\"hi\"}", false), EventStep::Drop));
    assert!(matches!(step("ou", "od", "6", "text", "{\"text\":\"hi\"}", false), EventStep::Drop));
    assert!(matches!(step("ou", "", "7", "text", "{\"text\":\"hi\"}", false), EventStep::Drop));
    assert!(matches!(step("ou", "oc", "8", "text", "{\"text\":\" \"}", false), EventStep::Drop));
    assert!(matches!(step("ou", "oc", "9", "file", "{}", false), EventStep::Drop));
}

#[test]
fn images_for_the_model() {
    assert!(image_for_model(&Vec::new()).is_none());
    assert!(image_for_model(&vec![None, Some(vec![1])]).is_none());
    assert_eq!(image_for_model(&vec![Some(vec![2]), Some(vec![1])]), Some(&vec![2]));
    assert_eq!(encode_image(b"abcd"), "YWJjZA==");
}

#[test]
fn routes() {
    let message = |kind: &str, content: &str| {
        let quoted = json::string(content).to_text();
        read_event(
            &event(
                "ou",
                "user",
                &format!("{{\"chat_id\":\"oc\",\"message_type\":\"{kind}\",\"content\":{quoted}}}"),
            ),
            "bot",
        )
        .unwrap()
    };
    match message("text", "{\"text\":\"hi\"}").route() {
        MessageRoute::Content(text, keys) => {
            assert_eq!(text, "hi");
            assert!(keys.is_empty());
        }
        _ => panic!("no content"),
    }
    match message("image", "{\"image_key\":\"k\"}").route() {
        MessageRoute::Content(text, keys) => {
            assert_eq!(text, "{\"image_key\":\"k\"}");
            assert_eq!(keys, vec!["k"]);
        }
        _ => panic!("no content"),
    }
    match message("file", "{\"file_key\":\"k\",\"file_name\":\"A.TXT\"}").route() {
        MessageRoute::File(f) => {
            assert_eq!(f.file_key, "k");
            assert_eq!(f.file_name, "A.TXT");
            assert_eq!(f.ext, "txt");
        }
        _ => panic!("no file"),
    }
    assert!(matches!(message("file", "{}").route(), MessageRoute::Drop));
    assert!(matches!(message("file", "no").route(), MessageRoute::Drop));
    assert!(matches!(message("text", "").route(), MessageRoute::Drop));
    let unnamed = read_file_request(&Some(value("{\"file_key\":\"k\"}"))).unwrap();
    assert_eq!(unnamed.file_name, "unknown");
    assert_eq!(unnamed.ext, "");
    assert!(read_file_request(&None).is_none());
}

#[test]
fn prompts() {
    let look = Some("Please analyze this image.".to_string());
    assert_eq!(choose_prompt("text", " hi ", false, true), Some(" hi ".to_string()));
    assert_eq!(choose_prompt("post", "  ", true, true), look);
    assert_eq!(choose_prompt("image", " {\"image_key\":1}", true, true), look);
    assert_eq!(choose_prompt("post", "{x", true, true), Some("{x".to_string()));
    assert_eq!(choose_prompt("image", "{x", false, true), Some("{x".to_string()));
    assert_eq!(choose_prompt("text", " ", false, true), None);
    assert_eq!(choose_prompt("text", "hi", false, false), None);
    assert_eq!(choose_prompt("post", "", true, false), None);
}

#[test]
fn downloaded_files() {
    match route_file("a.png", "png", &[0, 1]) {
        FileRoute::Image(text) => assert_eq!(text, "Please analyze this image file: a.png"),
        _ => panic!("no image"),
    }
    match route_file("a.rs", "rs", b"fn") {
        FileRoute::Inline(text) => assert_eq!(
            text,
            "The user sent a file `a.rs` (2 bytes). Here is its content:\n\n```rs\nfn\n```"
        ),
        _ => panic!("not shown"),
    }
    // Bytes that are no UTF-8 are repaired.
    match route_file("a.txt", "TXT", &[0x41, 0xFF]) {
        FileRoute::Inline(text) => assert!(text.ends_with("```TXT\nA\u{fffd}\n```")),
        _ => panic!("not shown"),
    }
    // A file is shown as text where both its name and its bytes are those of text.
    assert!(matches!(route_file("a.txt", "txt", &[0x61, 0x00]), FileRoute::Marker(false)));
    assert!(matches!(route_file("a", "", b"plain"), FileRoute::Marker(false)));
    assert!(matches!(route_file("a.bin", "bin", &[0]), FileRoute::Marker(false)));
    let large = vec![65u8; 512 * 1024 + 1];
    assert!(matches!(route_file("a.txt", "txt", &large), FileRoute::Marker(false)));
    let huge = vec![65u8; 1024 * 1024];
    assert!(matches!(route_file("a.txt", "txt", &huge), FileRoute::Marker(true)));
    assert_eq!(
        file_marker("a.bin", "1.5KB", "bin"),
        "The user sent a file that cannot be displayed inline.\n[FILE: a.bin | size=1.5KB | ext=bin]"
    );
    assert_eq!(
        resource_url("https://h", "om", "k", "image"),
        "https://h/open-apis/im/v1/messages/om/resources/k?type=image"
    );
}

#[test]
fn webhook_calls() {
    let answer = |body: &str, token: Option<&str>| match on_webhook(
        &value(body),
        &token.map(String::from),
    ) {
        WebhookStep::Answer(a) => a.to_text(),
        WebhookStep::Handle(a) => format!("handle {}", a.to_text()),
    };
    assert_eq!(answer("{\"challenge\":\"c\"}", None), "{\"challenge\":\"c\"}");
    assert_eq!(answer("{\"challenge\":\"c\"}", Some("")), "{\"challenge\":\"c\"}");
    assert_eq!(
        answer("{\"challenge\":\"c\",\"token\":\"t\"}", Some("t")),
        "{\"challenge\":\"c\"}"
    );
    assert_eq!(answer("{\"challenge\":\"c\"}", Some("t")), "{\"error\":\"invalid token\"}");
    assert_eq!(answer("{\"event\":{}}", Some("t")), "handle {\"code\":0}");
}
