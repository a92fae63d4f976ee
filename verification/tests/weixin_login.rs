use rayclaw::channels::weixin_login::{
    check_deadline, credentials_path, masked_token, qr_code_url, qr_lines, qr_status_url,
    render_code, waiting_status, write_token_to_config, QrCodeResponse, QrLogin,
    QrStatusResponse, QrStep, WeixinCredentials, QR_MAX_REFRESH,
};

fn creds(token: &str, base_url: &str) -> WeixinCredentials {
    WeixinCredentials {
        bot_token: token.into(),
        base_url: base_url.into(),
        account_id: "a".into(),
        user_id: "u".into(),
        saved_at: "t".into(),
    }
}

const DEFAULT: &str = "https://ilinkai.weixin.qq.com";

#[test]
fn addresses() {
    assert_eq!(credentials_path("/d"), "/d/weixin_credentials.json");
    assert_eq!(qr_code_url("https://h"), "https://h/ilink/bot/get_bot_qrcode?bot_type=3");
    assert_eq!(
        qr_status_url("https://h/", "a+b"),
        "https://h/ilink/bot/get_qrcode_status?qrcode=a%2Bb"
    );
}

#[test]
fn tokens_are_masked() {
    assert_eq!(masked_token("abc"), "abc...");
    assert_eq!(masked_token("abcdefghijkl"), "abcdefgh...");
    assert_eq!(masked_token("abcdefghijklm"), "abcdefgh...jklm");
    assert_eq!(masked_token(""), "...");
}

#[test]
fn token_of_a_section_is_replaced() {
    let before = "a: 1\nchannels:\n  weixin:\n    # bot_token: x\n    base_url: \"b\"\n    bot_token: \"old\"\n    account_id: z\nother:\n  bot_token: \"keep\"\n";
    let after = "a: 1\nchannels:\n  weixin:\n    # bot_token: x\n    base_url: \"b\"\n    bot_token: \"new\"\n    account_id: z\nother:\n  bot_token: \"keep\"\n";
    assert_eq!(write_token_to_config(before, &creds("new", DEFAULT)), after);
    // Only the first token of a section is.
    assert_eq!(
        write_token_to_config(
            "channels:\n  weixin:\n    bot_token: a\n    bot_token: b\n",
            &creds("new", DEFAULT)
        ),
        "channels:\n  weixin:\n    bot_token: \"new\"\n    bot_token: b\n"
    );
    // A section that has no token gets one, and tokens of other sections stay.
    for (before, after) in [
        (
            "channels:\n  weixin:\n    base_url: \"b\"\nother:\n  bot_token: \"keep\"\n",
            "channels:\n  weixin:\n    bot_token: \"T\"\n    base_url: \"b\"\nother:\n  bot_token: \"keep\"\n",
        ),
        (
            "channels:\n  weixin:\n      base_url: \"u\"\n  telegram:\n      bot_token: \"tg\"\n",
            "channels:\n  weixin:\n      bot_token: \"T\"\n      base_url: \"u\"\n  telegram:\n      bot_token: \"tg\"\n",
        ),
        (
            "channels:\n  telegram:\n    bot_token: \"tg\"\n  weixin: # ours\n",
            "channels:\n  telegram:\n    bot_token: \"tg\"\n  weixin: # ours\n    bot_token: \"T\"\n",
        ),
        (
            "channels:\n  weixin:\n    more:\n      bot_token: \"x\"\n",
            "channels:\n  weixin:\n    bot_token: \"T\"\n    more:\n      bot_token: \"x\"\n",
        ),
        (
            "channels:\n  a: 1\nbackup:\n  weixin:\n    bot_token: \"b\"\n",
            "channels:\n  a: 1\n  weixin:\n    bot_token: \"T\"\nbackup:\n  weixin:\n    bot_token: \"b\"\n",
        ),
        (
            "# channels:\n# weixin:\nbot_token: \"b\"\n",
            "# channels:\n# weixin:\nbot_token: \"b\"\n\nchannels:\n  weixin:\n    bot_token: \"T\"\n",
        ),
        // What is written in one line with its key stays.
        ("channels:\n  weixin: {a: b}\n", "channels:\n  weixin: {a: b}\n"),
        ("channels: {}\n", "channels: {}\n"),
    ] {
        assert_eq!(write_token_to_config(before, &creds("T", DEFAULT)), after);
    }
    assert_eq!(
        write_token_to_config(
            "channels:\n\tweixin: # ours\n\n# note\n\t\tbot_token: a\n\ttelegram:\n\t\tbot_token: tg\n",
            &creds("T", DEFAULT)
        ),
        "channels:\n\tweixin: # ours\n\n# note\n\t\tbot_token: \"T\"\n\ttelegram:\n\t\tbot_token: tg\n"
    );
}

#[test]
fn section_is_added() {
    let before = "channels:\n  feishu:\n    app_id: x\n# note\nother: 1\n";
    assert_eq!(
        write_token_to_config(before, &creds("new", DEFAULT)),
        "channels:\n  feishu:\n    app_id: x\n# note\n  weixin:\n    bot_token: \"new\"\nother: 1\n"
    );
    assert_eq!(
        write_token_to_config(before, &creds("new", "https://b")),
        "channels:\n  feishu:\n    app_id: x\n# note\n  weixin:\n    bot_token: \"new\"\n    base_url: \"https://b\"\nother: 1\n"
    );
    assert_eq!(
        write_token_to_config("a: 1\n", &creds("new", DEFAULT)),
        "a: 1\n\nchannels:\n  weixin:\n    bot_token: \"new\"\n"
    );
    assert_eq!(
        write_token_to_config("a: 1", &creds("new", "https://b")),
        "a: 1\nchannels:\n  weixin:\n    bot_token: \"new\"\n    base_url: \"https://b\"\n"
    );
}

#[test]
fn codes_on_the_terminal() {
    let lines = render_code(&vec![true, false, false, true], 2);
    assert_eq!(lines, vec!["  ████", "  █▄▀█", "  ████"]);
    let odd = render_code(&vec![true; 9], 3);
    assert_eq!(odd, vec!["  █████", "  █   █", "  █▄▄▄█", "  █████"]);
    let lines = qr_lines("https://example.org").unwrap();
    // The smallest code for this text has twenty-five modules in a row.
    assert_eq!(lines.len(), 15);
    assert!(lines.iter().all(|l| l.chars().count() == 29));
    // The mark in the corner: a dark frame around a light one.
    assert_eq!(lines[1].chars().take(11).collect::<String>(), "  █ ▄▄▄▄▄ █");
    assert_eq!(qr_lines(&"x".repeat(5000)), Err("data too long".to_string()));
}

fn code(qrcode: Option<&str>, url: Option<&str>) -> QrCodeResponse {
    QrCodeResponse {
        qrcode: qrcode.map(String::from),
        qrcode_img_content: url.map(String::from),
    }
}

fn status(name: &str) -> QrStatusResponse {
    QrStatusResponse { status: Some(name.into()), ..waiting_status() }
}

#[test]
fn login_is_confirmed() {
    let (mut login, shown) = QrLogin::begin(None, code(Some("c"), Some("url"))).ok().unwrap();
    assert_eq!(shown, "url");
    assert_eq!(login.base_url, DEFAULT);
    assert_eq!(login.qrcode, "c");
    assert!(matches!(login.on_status(waiting_status()), QrStep::Wait));
    let silent = QrStatusResponse { status: None, ..waiting_status() };
    assert!(matches!(login.on_status(silent), QrStep::Wait));
    assert!(matches!(login.on_status(status("scaned")), QrStep::Scanned));
    assert!(matches!(login.on_status(status("scaned")), QrStep::StillScanned));
    match login.on_status(status("odd")) {
        QrStep::Unknown(s) => assert_eq!(s, "odd"),
        _ => panic!("known"),
    }
    match login.on_status(status("confirmed")) {
        QrStep::Fail(e) => assert_eq!(e, "Login confirmed but bot_token missing"),
        _ => panic!("confirmed"),
    }
    let half = QrStatusResponse { bot_token: Some("t".into()), ..status("confirmed") };
    match login.on_status(half) {
        QrStep::Fail(e) => assert_eq!(e, "Login confirmed but ilink_bot_id missing"),
        _ => panic!("confirmed"),
    }
    let full = QrStatusResponse {
        bot_token: Some("t".into()),
        ilink_bot_id: Some("i".into()),
        ..status("confirmed")
    };
    match login.on_status(full) {
        QrStep::Confirmed(c) => {
            assert_eq!(c.bot_token, "t");
            assert_eq!(c.account_id, "i");
            assert_eq!(c.base_url, DEFAULT);
            assert_eq!(c.user_id, "");
            assert!(chrono::DateTime::parse_from_rfc3339(&c.saved_at).is_ok());
        }
        _ => panic!("not confirmed"),
    }
}

#[test]
fn login_says_where_it_was() {
    let (mut login, shown) = QrLogin::begin(Some("https://b"), code(Some("c"), None)).ok().unwrap();
    assert_eq!(shown, "c");
    let full = QrStatusResponse {
        bot_token: Some("t".into()),
        ilink_bot_id: Some("i".into()),
        baseurl: Some("https://z".into()),
        ilink_user_id: Some("u".into()),
        ..status("confirmed")
    };
    match login.on_status_at(full, "now".into()) {
        QrStep::Confirmed(c) => {
            assert_eq!(c.base_url, "https://z");
            assert_eq!(c.user_id, "u");
            assert_eq!(c.saved_at, "now");
        }
        _ => panic!("not confirmed"),
    }
}

#[test]
fn logins_run_out_of_time() {
    assert_eq!(check_deadline(5, 5), Ok(()));
    assert_eq!(check_deadline(5, 480_004), Ok(()));
    assert_eq!(check_deadline(5, 4), Ok(()));
    assert_eq!(
        check_deadline(5, 480_005),
        Err("Login timed out. Please try again.".to_string())
    );
}

#[test]
fn codes_run_out() {
    assert_eq!(
        QrLogin::begin(None, code(None, Some("url"))).err(),
        Some("Server returned empty qrcode field".to_string())
    );
    let (mut login, _) = QrLogin::begin(None, code(Some("c"), None)).ok().unwrap();
    login.on_status(status("scaned"));
    for n in 2..=QR_MAX_REFRESH {
        match login.on_status(status("expired")) {
            QrStep::Refresh(k) => assert_eq!(k, n),
            _ => panic!("no refresh"),
        }
        assert_eq!(login.on_refreshed(code(Some("d"), Some("u"))), Ok("u".to_string()));
        assert_eq!(login.qrcode, "d");
        assert!(!login.scanned);
    }
    match login.on_status(status("expired")) {
        QrStep::Fail(e) => assert_eq!(e, "QR code expired too many times. Please try again."),
        _ => panic!("one code too many"),
    }
    // Without a new code the old one and its state stay.
    login.on_status(status("scaned"));
    assert_eq!(
        login.on_refreshed(code(None, None)),
        Err("Server returned empty qrcode on refresh".to_string())
    );
    assert_eq!(login.qrcode, "d");
    assert!(login.scanned);
}
