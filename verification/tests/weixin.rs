use rayclaw::channels::weixin::{
    accept_message, aes_ecb_encrypt, aes_ecb_padded_size, api_url, attachment_messages,
    bot_message, build_base_info, build_cdn_media, build_headers, build_headers_with,
    cdn_upload_url, default_base_url, default_cdn_base_url, describe_attachment,
    empty_updates, ensure_trailing_slash, extract_text, finish_upload, get_config_request,
    get_updates_request, get_upload_url_request, media_item, media_type_for_extension,
    plan_attachment, plan_upload, plan_upload_with, random_wechat_uin, send_message_request,
    send_typing_request, split_text_chunks, sync_buf_path, text_item, text_messages,
    upload_param, wechat_uin, CdnAttempts, CdnReply, CdnStep, CdnUploadResult, GetUpdatesResp,
    Inbound, MessageItem, PollOutcome, PollState, PollStep, TextItem, WeixinAdapter,
    WeixinChannelConfig, WeixinMessage, ITEM_TYPE_FILE, ITEM_TYPE_IMAGE, ITEM_TYPE_TEXT,
    ITEM_TYPE_VIDEO, MSG_STATE_FINISH, MSG_TYPE_BOT, MSG_TYPE_USER, SESSION_PAUSE_MS,
    UPLOAD_MEDIA_TYPE_FILE, UPLOAD_MEDIA_TYPE_IMAGE, UPLOAD_MEDIA_TYPE_VIDEO,
};
use rayclaw::json::Json;

// -- aes_ecb_padded_size ------------------------------------------------------

#[test]
fn test_aes_ecb_padded_size_zero() {
    assert_eq!(aes_ecb_padded_size(0), 16);
}

#[test]
fn test_aes_ecb_padded_size_15() {
    assert_eq!(aes_ecb_padded_size(15), 16);
}

#[test]
fn test_aes_ecb_padded_size_16() {
    assert_eq!(aes_ecb_padded_size(16), 32);
}

#[test]
fn test_aes_ecb_padded_size_31() {
    assert_eq!(aes_ecb_padded_size(31), 32);
}

#[test]
fn test_aes_ecb_padded_size_100() {
    assert_eq!(aes_ecb_padded_size(100), 112);
}

// -- aes_ecb_encrypt ----------------------------------------------------------

#[test]
fn test_aes_ecb_encrypt_basic() {
    let key: [u8; 16] = [0x42; 16];
    let plaintext = b"hello world!";
    let ciphertext = aes_ecb_encrypt(plaintext, &key);
    assert_eq!(
        ciphertext.len() as u64,
        aes_ecb_padded_size(plaintext.len() as u64)
    );
    assert!(ciphertext.iter().any(|&b| b != 0));
    assert_ne!(&ciphertext[..plaintext.len()], plaintext);
}

#[test]
fn test_aes_ecb_encrypt_deterministic() {
    let key: [u8; 16] = [0xAB; 16];
    let plaintext = b"same input same output";
    let ct1 = aes_ecb_encrypt(plaintext, &key);
    let ct2 = aes_ecb_encrypt(plaintext, &key);
    assert_eq!(ct1, ct2);
}

#[test]
fn test_aes_ecb_encrypt_different_keys() {
    let key1: [u8; 16] = [0x01; 16];
    let key2: [u8; 16] = [0x02; 16];
    let plaintext = b"test data for encryption";
    let ct1 = aes_ecb_encrypt(plaintext, &key1);
    let ct2 = aes_ecb_encrypt(plaintext, &key2);
    assert_ne!(ct1, ct2);
}

#[test]
fn test_aes_ecb_encrypt_empty() {
    let key: [u8; 16] = [0xFF; 16];
    let ciphertext = aes_ecb_encrypt(b"", &key);
    assert_eq!(ciphertext.len(), 16);
}

#[test]
fn test_aes_ecb_encrypt_large_file() {
    let key: [u8; 16] = [0x55; 16];
    let plaintext = vec![0xAA; 4096];
    let ciphertext = aes_ecb_encrypt(&plaintext, &key);
    assert_eq!(ciphertext.len() as u64, aes_ecb_padded_size(4096));
}

#[test]
fn other_bytes_are_enciphered_otherwise() {
    let key = [7u8; 16];
    let texts: [&[u8]; 5] = [b"", b"\x10", b"hello", b"hellp", &[16u8; 16]];
    for (i, a) in texts.iter().enumerate() {
        for b in &texts[i + 1..] {
            assert_ne!(aes_ecb_encrypt(a, &key), aes_ecb_encrypt(b, &key));
        }
    }
}

#[test]
fn aes_known_block() {
    // A known block, followed by one block of padding.
    let key: [u8; 16] = [0, 1, 2, 3, 4, 5, 6, 7, 8, 9, 10, 11, 12, 13, 14, 15];
    let plaintext: [u8; 16] = [
        0x00, 0x11, 0x22, 0x33, 0x44, 0x55, 0x66, 0x77, 0x88, 0x99, 0xaa, 0xbb, 0xcc, 0xdd, 0xee,
        0xff,
    ];
    let ciphertext = aes_ecb_encrypt(&plaintext, &key);
    assert_eq!(ciphertext.len(), 32);
    assert_eq!(
        &ciphertext[..16],
        &[
            0x69, 0xc4, 0xe0, 0xd8, 0x6a, 0x7b, 0x04, 0x30, 0xd8, 0xcd, 0xb7, 0x80, 0x70, 0xb4,
            0xc5, 0x5a
        ]
    );
    // What is encrypted depends on the blocks alone.
    let padding = aes_ecb_encrypt(&[], &key);
    assert_eq!(&ciphertext[16..], &padding[..]);
}

// -- media_type_for_extension -------------------------------------------------

#[test]
fn test_media_type_image_extensions() {
    for ext in ["png", "jpg", "jpeg", "gif", "bmp", "webp"] {
        let (upload, item) = media_type_for_extension(ext);
        assert_eq!(upload, UPLOAD_MEDIA_TYPE_IMAGE, "ext={ext}");
        assert_eq!(item, ITEM_TYPE_IMAGE, "ext={ext}");
    }
}

#[test]
fn test_media_type_video_extensions() {
    for ext in ["mp4", "mov", "avi", "mkv", "webm"] {
        let (upload, item) = media_type_for_extension(ext);
        assert_eq!(upload, UPLOAD_MEDIA_TYPE_VIDEO, "ext={ext}");
        assert_eq!(item, ITEM_TYPE_VIDEO, "ext={ext}");
    }
}

#[test]
fn test_media_type_file_extensions() {
    for ext in [
        "pdf", "md", "doc", "docx", "zip", "txt", "xls", "ppt", "csv", "",
    ] {
        let (upload, item) = media_type_for_extension(ext);
        assert_eq!(upload, UPLOAD_MEDIA_TYPE_FILE, "ext={ext}");
        assert_eq!(item, ITEM_TYPE_FILE, "ext={ext}");
    }
}

// -- build_cdn_media ----------------------------------------------------------

#[test]
fn test_build_cdn_media() {
    let upload = CdnUploadResult {
        filekey: "abc123".into(),
        download_encrypted_query_param: "some_param".into(),
        aeskey_hex: "00112233445566778899aabbccddeeff".into(),
        file_size: 1024,
        file_size_ciphertext: 1040,
    };
    let media = build_cdn_media(&upload);
    assert_eq!(media.encrypt_query_param.as_deref(), Some("some_param"));
    assert_eq!(media.encrypt_type, Some(1));
    assert!(media.aes_key.is_some());
    let decoded = base64::Engine::decode(
        &base64::engine::general_purpose::STANDARD,
        media.aes_key.as_ref().unwrap(),
    )
    .unwrap();
    assert_eq!(
        String::from_utf8(decoded).unwrap(),
        "00112233445566778899aabbccddeeff"
    );
}

// -- split_text_chunks --------------------------------------------------------

#[test]
fn test_split_text_short() {
    let chunks = split_text_chunks("hello", 4000);
    assert_eq!(chunks, vec!["hello"]);
}

#[test]
fn test_split_text_exact_boundary() {
    let text = "a".repeat(4000);
    let chunks = split_text_chunks(&text, 4000);
    assert_eq!(chunks.len(), 1);
}

#[test]
fn test_split_text_over_boundary() {
    let text = "a".repeat(4001);
    let chunks = split_text_chunks(&text, 4000);
    assert_eq!(chunks.len(), 2);
    assert_eq!(chunks[0].len(), 4000);
    assert_eq!(chunks[1].len(), 1);
}

#[test]
fn chunks_break_at_lines() {
    assert_eq!(split_text_chunks("one\ntwo\nthree", 8), vec!["one\ntwo\n", "three"]);
    assert_eq!(split_text_chunks("", 10), vec![""]);
}

#[test]
fn chunks_are_the_text() {
    let text = "héé\nllo wörld\n".repeat(20);
    for max in [0, 1, 2, 3, 7, 20, 1000] {
        let parts = split_text_chunks(&text, max);
        assert_eq!(parts.concat(), text, "max={max}");
    }
    assert!(split_text_chunks(&text, 7).iter().all(|p| p.len() <= 7));
}

// -- configuration and headers ------------------------------------------------

fn config() -> WeixinChannelConfig {
    WeixinChannelConfig {
        bot_token: "tok".into(),
        base_url: default_base_url(),
        cdn_base_url: default_cdn_base_url(),
        route_tag: None,
        account_id: None,
    }
}

#[test]
fn weixin_configuration() {
    assert_eq!(config().base_url, "https://ilinkai.weixin.qq.com");
    assert_eq!(config().cdn_base_url, "https://novac2c.cdn.weixin.qq.com/c2c");
    assert!(config().has_token());
    assert!(!WeixinChannelConfig { bot_token: " \n".into(), ..config() }.has_token());
    assert_eq!(sync_buf_path("/data"), "/data/weixin_sync.json");
    assert_eq!(ensure_trailing_slash("https://h"), "https://h/");
    assert_eq!(ensure_trailing_slash("https://h/"), "https://h/");
    assert_eq!(api_url("https://h", "ilink/bot/getupdates"), "https://h/ilink/bot/getupdates");
}

#[test]
fn marks_of_requests() {
    // The number 0x04030201 in decimal, in base 64.
    assert_eq!(wechat_uin(&vec![1, 2, 3, 4]), "NjczMDU5ODU=");
    let decode = |s: String| {
        let bytes =
            base64::Engine::decode(&base64::engine::general_purpose::STANDARD, s).unwrap();
        String::from_utf8(bytes).unwrap()
    };
    assert_eq!(decode(wechat_uin(&vec![1, 2, 3, 4])), "67305985");
    assert!(decode(random_wechat_uin()).parse::<u32>().is_ok());
    assert_ne!(random_wechat_uin(), random_wechat_uin());
}

#[test]
fn headers_of_requests() {
    let pair = |k: &str, v: &str| (k.to_string(), v.to_string());
    assert_eq!(
        build_headers_with("tok", Some("r"), "u"),
        vec![
            pair("Content-Type", "application/json"),
            pair("AuthorizationType", "ilink_bot_token"),
            pair("Authorization", "Bearer tok"),
            pair("X-WECHAT-UIN", "u"),
            pair("SKRouteTag", "r"),
        ]
    );
    assert_eq!(build_headers_with("", Some(""), "u").len(), 3);
    assert_eq!(build_headers("tok", None).len(), 4);
}

// -- messages -----------------------------------------------------------------

fn text_of(json: &Json) -> String {
    json.to_text()
}

#[test]
fn requests() {
    assert_eq!(build_base_info("1").channel_version, "1");
    let message = bot_message("u", "c".into(), text_item("hi"), Some("ct"));
    assert_eq!(message.message_type, Some(MSG_TYPE_BOT));
    assert_eq!(message.message_state, Some(MSG_STATE_FINISH));
    assert_eq!(
        text_of(&send_message_request(&message, "1")),
        "{\"base_info\":{\"channel_version\":\"1\"},\"msg\":{\"client_id\":\"c\",\"context_token\":\"ct\",\"from_user_id\":\"\",\"item_list\":[{\"text_item\":{\"text\":\"hi\"},\"type\":1}],\"message_state\":2,\"message_type\":2,\"to_user_id\":\"u\"}}"
    );
    assert_eq!(
        text_of(&get_updates_request("b", "1")),
        "{\"base_info\":{\"channel_version\":\"1\"},\"get_updates_buf\":\"b\"}"
    );
    assert_eq!(
        text_of(&get_config_request("u", Some("ct"), "1")),
        "{\"base_info\":{\"channel_version\":\"1\"},\"context_token\":\"ct\",\"ilink_user_id\":\"u\"}"
    );
    assert_eq!(
        text_of(&get_config_request("u", None, "1")),
        "{\"base_info\":{\"channel_version\":\"1\"},\"ilink_user_id\":\"u\"}"
    );
    assert_eq!(
        text_of(&send_typing_request("u", "t", "1")),
        "{\"base_info\":{\"channel_version\":\"1\"},\"ilink_user_id\":\"u\",\"status\":1,\"typing_ticket\":\"t\"}"
    );
}

#[test]
fn texts_are_sent_in_pieces() {
    let messages = text_messages("u", &"a".repeat(4001), None);
    assert_eq!(messages.len(), 2);
    assert_eq!(extract_text(&messages[0]).len(), 4000);
    assert_eq!(extract_text(&messages[1]), "a");
    assert_ne!(messages[0].client_id, messages[1].client_id);
    assert_eq!(messages[0].to_user_id.as_deref(), Some("u"));
    assert!(messages[0].context_token.is_none());
    assert_eq!(messages[0].client_id.as_ref().unwrap().len(), 36);
}

#[test]
fn text_of_a_message() {
    let message = |items: Option<Vec<MessageItem>>| WeixinMessage {
        item_list: items,
        ..WeixinMessage::default()
    };
    assert_eq!(extract_text(&message(None)), "");
    let other = MessageItem {
        item_type: Some(ITEM_TYPE_IMAGE),
        text_item: Some(TextItem { text: Some("no".into()) }),
        ..MessageItem::default()
    };
    let empty = MessageItem { item_type: Some(ITEM_TYPE_TEXT), ..MessageItem::default() };
    assert_eq!(extract_text(&message(Some(vec![other, empty, text_item("yes")]))), "yes");
}

#[test]
fn what_is_remembered_of_users() {
    let mut adapter = WeixinAdapter::new(&config());
    assert_eq!(adapter.name(), "weixin");
    assert_eq!(adapter.bot_token, "tok");
    adapter.set_context_token("u", "ct");
    adapter.set_typing_ticket("u", "tt");
    assert_eq!(adapter.get_context_token("u"), Some("ct".to_string()));
    assert_eq!(adapter.get_typing_ticket("u"), Some("tt".to_string()));
    assert_eq!(adapter.get_context_token("v"), None);
    adapter.set_context_token("u", "new");
    assert_eq!(adapter.get_context_token("u"), Some("new".to_string()));
}

#[test]
fn tokens_of_users_are_echoed() {
    let mut adapter = WeixinAdapter::new(&config());
    let inbound = |token: Option<&str>| Inbound {
        from_user_id: "u".into(),
        text: "hi".into(),
        context_token: token.map(String::from),
        message_id: None,
    };
    assert!(adapter.texts_to("u", "a")[0].context_token.is_none());
    adapter.remember(&inbound(Some("ct")));
    // A message without a token leaves the one before.
    adapter.remember(&inbound(None));
    let messages = adapter.texts_to("u", &"a".repeat(4001));
    assert_eq!(messages.len(), 2);
    assert!(messages.iter().all(|m| m.context_token.as_deref() == Some("ct")));
    let messages = adapter.attachment_to("u", Some("cap"), text_item("file"));
    assert_eq!(messages.len(), 2);
    assert!(messages.iter().all(|m| m.context_token.as_deref() == Some("ct")));
    assert!(adapter.texts_to("v", "a")[0].context_token.is_none());
}

// -- uploads ------------------------------------------------------------------

#[test]
fn uploads_are_planned() {
    let plan = plan_upload_with(b"hello", &(0..16).collect(), &vec![0xAB; 16]);
    assert_eq!(plan.filekey, "000102030405060708090a0b0c0d0e0f");
    assert_eq!(plan.aeskey, [0xAB; 16]);
    assert_eq!(plan.aeskey_hex, "ab".repeat(16));
    assert_eq!(plan.rawsize, 5);
    assert_eq!(plan.rawfilemd5, "5d41402abc4b2a76b9719d911017c592");
    assert_eq!(plan.filesize, 16);
    assert_eq!(aes_ecb_encrypt(b"hello", &plan.aeskey).len() as u64, plan.filesize);
    assert_eq!(
        text_of(&get_upload_url_request(&plan, UPLOAD_MEDIA_TYPE_FILE, "u", "1")),
        "{\"aeskey\":\"abababababababababababababababab\",\"base_info\":{\"channel_version\":\"1\"},\"filekey\":\"000102030405060708090a0b0c0d0e0f\",\"filesize\":16,\"media_type\":3,\"no_need_thumb\":true,\"rawfilemd5\":\"5d41402abc4b2a76b9719d911017c592\",\"rawsize\":5,\"to_user_id\":\"u\"}"
    );
    let other = plan_upload(b"hello");
    assert_eq!(other.filekey.len(), 32);
    assert_ne!(other.aeskey, plan_upload(b"hello").aeskey);
    assert_eq!(
        cdn_upload_url("https://c", "a b/ü", "k-_.~"),
        "https://c/upload?encrypted_query_param=a%20b%2F%C3%BC&filekey=k-_.~"
    );
    assert_eq!(upload_param(Some("p".into())), Ok("p".to_string()));
    assert_eq!(
        upload_param(None),
        Err("getUploadUrl: no upload_param in response".to_string())
    );
}

#[test]
fn uploads_are_tried_again() {
    let answered = |status, words: &str, param: Option<&str>| {
        CdnReply::Answered(status, words.into(), "b".into(), param.map(String::from))
    };
    let mut attempts = CdnAttempts::new();
    assert!(matches!(attempts.on_reply(answered(500, "500 Oops", None)), CdnStep::Retry));
    assert_eq!(
        attempts.last_error.as_deref(),
        Some("CDN upload server error (HTTP 500 Oops): b")
    );
    assert!(matches!(attempts.on_reply(answered(200, "200 OK", None)), CdnStep::Retry));
    match attempts.on_reply(CdnReply::Failed("down".into())) {
        CdnStep::GiveUp(e) => assert_eq!(e, "CDN upload request failed: down"),
        _ => panic!("one attempt too many"),
    }
    let mut attempts = CdnAttempts::new();
    match attempts.on_reply(answered(404, "404 Not Found", Some("p"))) {
        CdnStep::GiveUp(e) => assert_eq!(e, "CDN upload client error (HTTP 404 Not Found): b"),
        _ => panic!("tried again"),
    }
    let mut attempts = CdnAttempts::new();
    match attempts.on_reply(answered(200, "200 OK", Some("p"))) {
        CdnStep::Uploaded(p) => assert_eq!(p, "p"),
        _ => panic!("not uploaded"),
    }
    let mut attempts = CdnAttempts::new();
    attempts.on_reply(CdnReply::Failed("x".into()));
    attempts.on_reply(CdnReply::Failed("x".into()));
    match attempts.on_reply(answered(200, "200 OK", None)) {
        CdnStep::GiveUp(e) => assert_eq!(e, "CDN upload: missing x-encrypted-param header"),
        _ => panic!("one attempt too many"),
    }
}

#[test]
fn weixin_attachments() {
    let image = plan_attachment("/tmp/A.PNG");
    assert_eq!(image.filename, "A.PNG");
    assert_eq!(image.upload_type, UPLOAD_MEDIA_TYPE_IMAGE);
    assert_eq!(image.item_type, ITEM_TYPE_IMAGE);
    assert_eq!(plan_attachment("/").filename, "attachment.bin");
    assert_eq!(plan_attachment("/").item_type, ITEM_TYPE_FILE);

    let plan = plan_upload_with(b"hello", &vec![1; 16], &vec![2; 16]);
    let upload = finish_upload(&plan, "p");
    assert_eq!(upload.file_size, 5);
    assert_eq!(upload.file_size_ciphertext, 16);
    assert_eq!(upload.filekey, plan.filekey);
    let file = media_item(ITEM_TYPE_FILE, &upload, "a.txt");
    assert_eq!(file.file_item.as_ref().unwrap().len.as_deref(), Some("5"));
    assert_eq!(file.file_item.as_ref().unwrap().file_name.as_deref(), Some("a.txt"));
    let picture = media_item(ITEM_TYPE_IMAGE, &upload, "a.png");
    assert_eq!(picture.image_item.as_ref().unwrap().mid_size, Some(16));
    let film = media_item(ITEM_TYPE_VIDEO, &upload, "a.mp4");
    assert_eq!(film.video_item.as_ref().unwrap().video_size, Some(16));

    let messages = attachment_messages("u", Some("ct"), Some("cap"), file);
    assert_eq!(messages.len(), 2);
    assert_eq!(extract_text(&messages[0]), "cap");
    assert_eq!(messages[1].context_token.as_deref(), Some("ct"));
    assert_eq!(attachment_messages("u", None, Some(""), film).len(), 1);
    assert_eq!(describe_attachment("/a", Some("")), "[attachment:/a]");
    assert_eq!(describe_attachment("/a", Some("c")), "[attachment:/a] c");
}

// -- polling ------------------------------------------------------------------

fn user_message(text: &str) -> WeixinMessage {
    WeixinMessage {
        message_id: Some(12),
        from_user_id: Some("u".into()),
        message_type: Some(MSG_TYPE_USER),
        item_list: Some(vec![text_item(text)]),
        context_token: Some("ct".into()),
        ..WeixinMessage::default()
    }
}

#[test]
fn messages_to_answer() {
    let got = accept_message(&user_message("hi")).unwrap();
    assert_eq!(got.from_user_id, "u");
    assert_eq!(got.text, "hi");
    assert_eq!(got.context_token.as_deref(), Some("ct"));
    assert_eq!(got.stored_id(), "12");
    let finished = WeixinMessage { message_state: Some(2), ..user_message("hi") };
    assert!(accept_message(&finished).is_some());
    let generating = WeixinMessage { message_state: Some(1), ..user_message("hi") };
    assert!(accept_message(&generating).is_none());
    let own = WeixinMessage { message_type: Some(MSG_TYPE_BOT), ..user_message("hi") };
    assert!(accept_message(&own).is_none());
    let nobody = WeixinMessage { from_user_id: Some("".into()), ..user_message("hi") };
    assert!(accept_message(&nobody).is_none());
    assert!(accept_message(&user_message(" ")).is_none());
    let unnumbered = WeixinMessage { message_id: None, ..user_message("hi") };
    let got = accept_message(&unnumbered).unwrap();
    assert_eq!(got.stored_id().len(), 36);
    assert_eq!(got.stored_id_or("f".into()), "f");
}

#[test]
fn polling() {
    let mut state = PollState::new("b0".into());
    assert_eq!(state.before_poll(0), PollStep::Poll);
    let updates = GetUpdatesResp {
        msgs: Some(vec![user_message("a"), user_message(" "), user_message("b")]),
        get_updates_buf: Some("b1".into()),
        ..empty_updates("")
    };
    match state.after_poll(&updates, 0) {
        PollOutcome::Updates(new_mark, got) => {
            assert!(new_mark);
            let texts: Vec<&str> = got.iter().map(|m| m.text.as_str()).collect();
            assert_eq!(texts, vec!["a", "b"]);
        }
        PollOutcome::Paused => panic!("paused"),
    }
    assert_eq!(state.get_updates_buf, "b1");
    match state.after_poll(&empty_updates(""), 0) {
        PollOutcome::Updates(new_mark, got) => assert!(!new_mark && got.is_empty()),
        PollOutcome::Paused => panic!("paused"),
    }
    assert_eq!(state.get_updates_buf, "b1");
    // A session that has run out rests for an hour.
    let expired = GetUpdatesResp { errcode: Some(-14), ..empty_updates("b2") };
    assert!(matches!(state.after_poll(&expired, 1000), PollOutcome::Paused));
    assert_eq!(state.get_updates_buf, "b1");
    assert_eq!(state.before_poll(1000), PollStep::Rest(3600));
    assert_eq!(state.before_poll(1000 + SESSION_PAUSE_MS - 1), PollStep::Rest(0));
    assert_eq!(state.before_poll(1000 + SESSION_PAUSE_MS), PollStep::Poll);
    assert!(state.paused_until.is_none());
}
