//! The Feishu channel: configuration, files, cards, replies of the web API and
//! the reading of events.

use crate::channels::chunks;
use crate::json;
use crate::json::{Fields, Json, JsonV};
use crate::text;
use vstd::prelude::*;

verus! {

broadcast use vstd::string::group_string_axioms;

// ---------------------------------------------------------------------------
// Configuration
// ---------------------------------------------------------------------------

/// How to reach Feishu, and which chats to listen to.
#[derive(Debug, Clone)]
pub struct FeishuChannelConfig {
    pub app_id: String,
    pub app_secret: String,
    pub connection_mode: String,
    pub domain: String,
    pub allowed_chats: Vec<String>,
    pub webhook_path: String,
    pub verification_token: Option<String>,
    pub encrypt_key: Option<String>,
}

/// The connection mode where none is configured.
pub fn default_connection_mode() -> (res: String)
    ensures
        res@ == "websocket"@,
{
    text::owned("websocket")
}

/// The domain where none is configured.
pub fn default_domain() -> (res: String)
    ensures
        res@ == "feishu"@,
{
    text::owned("feishu")
}

/// The path of the webhook where none is configured.
pub fn default_webhook_path() -> (res: String)
    ensures
        res@ == "/feishu/events"@,
{
    text::owned("/feishu/events")
}

/// `s` without the slashes at its end.
pub open spec fn without_slashes(s: Seq<char>) -> Seq<char>
    decreases s.len(),
{
    if s.len() > 0 && s.last() == '/' {
        without_slashes(s.drop_last())
    } else {
        s
    }
}

/// The address of the web API of a domain: a known name, or an address.
pub open spec fn domain_url(domain: Seq<char>) -> Seq<char> {
    if domain == "feishu"@ {
        "https://open.feishu.cn"@
    } else if domain == "lark"@ {
        "https://open.larksuite.com"@
    } else {
        without_slashes(domain)
    }
}

/// The address of the web API of a domain.
pub fn resolve_domain(domain: &str) -> (res: String)
    ensures
        res@ == domain_url(domain@),
{
    if text::same(domain, "feishu") {
        return text::owned("https://open.feishu.cn");
    }
    if text::same(domain, "lark") {
        return text::owned("https://open.larksuite.com");
    }
    let v = text::to_chars(domain);
    let mut n: usize = v.len();
    assert(v@.take(n as int) =~= domain@);
    while n > 0 && v[n - 1] == '/'
        invariant
            n <= v@.len(),
            v@ == domain@,
            without_slashes(domain@) == without_slashes(v@.take(n as int)),
        decreases n,
    {
        assert(v@.take(n as int).drop_last() =~= v@.take(n - 1));
        n -= 1;
    }
    let res = text::from_range(&v, 0, n);
    assert(res@ =~= v@.take(n as int));
    res
}

/// Whether this channel runs behind a webhook.
pub open spec fn uses_webhook(mode: Seq<char>) -> bool {
    mode == "webhook"@
}

/// Whether a message of this chat is listened to: every chat where no chats are
/// listed, else those that are.
pub open spec fn chat_allowed(allowed: Seq<Seq<char>>, chat: Seq<char>) -> bool {
    allowed.len() == 0 || allowed.contains(chat)
}

impl FeishuChannelConfig {
    /// Whether this channel runs behind a webhook rather than a long connection.
    pub fn is_webhook(&self) -> (res: bool)
        ensures
            res == uses_webhook(self.connection_mode@),
    {
        text::same(self.connection_mode.as_str(), "webhook")
    }

    /// Whether a message of this chat is listened to.
    pub fn allows_chat(&self, chat: &str) -> (res: bool)
        ensures
            res == chat_allowed(text::strs(self.allowed_chats@), chat@),
    {
        let ghost allowed = text::strs(self.allowed_chats@);
        if self.allowed_chats.len() == 0 {
            return true;
        }
        let mut i: usize = 0;
        while i < self.allowed_chats.len()
            invariant
                i <= self.allowed_chats@.len(),
                allowed == text::strs(self.allowed_chats@),
                forall|j: int| 0 <= j < i ==> allowed[j] != chat@,
            decreases self.allowed_chats@.len() - i,
        {
            if text::same(self.allowed_chats[i].as_str(), chat) {
                assert(allowed[i as int] == chat@);
                return true;
            }
            i += 1;
        }
        false
    }
}

// ---------------------------------------------------------------------------
// Files
// ---------------------------------------------------------------------------

/// The largest text file that is put into a prompt.
pub const FILE_MAX_INLINE_BYTES: usize = 524_288;

/// The largest image file that is handed to the model.
pub const FILE_MAX_IMAGE_BYTES: usize = 5_242_880;

/// The extensions of text files, in lower case.
pub open spec fn names_text(ext: Seq<char>) -> bool {
    ||| ext == "txt"@ || ext == "md"@ || ext == "rs"@ || ext == "py"@ || ext == "js"@
    ||| ext == "ts"@ || ext == "tsx"@ || ext == "jsx"@ || ext == "java"@ || ext == "c"@
    ||| ext == "h"@ || ext == "cpp"@ || ext == "hpp"@ || ext == "go"@ || ext == "rb"@
    ||| ext == "sh"@ || ext == "bash"@ || ext == "zsh"@ || ext == "toml"@ || ext == "yaml"@
    ||| ext == "yml"@ || ext == "json"@ || ext == "xml"@ || ext == "html"@ || ext == "css"@
    ||| ext == "scss"@ || ext == "sql"@ || ext == "csv"@ || ext == "tsv"@ || ext == "log"@
    ||| ext == "ini"@ || ext == "cfg"@ || ext == "conf"@ || ext == "env"@ || ext == "dockerfile"@
    ||| ext == "makefile"@ || ext == "gitignore"@ || ext == "editorconfig"@ || ext == "properties"@
    ||| ext == "gradle"@ || ext == "swift"@ || ext == "kt"@ || ext == "lua"@ || ext == "r"@
    ||| ext == "pl"@
}

/// The extensions of image files, in lower case.
pub open spec fn names_image(ext: Seq<char>) -> bool {
    ||| ext == "png"@ || ext == "jpg"@ || ext == "jpeg"@ || ext == "gif"@ || ext == "bmp"@
    ||| ext == "webp"@ || ext == "tiff"@ || ext == "svg"@
}

/// Whether an extension in lower case is one of text files.
pub fn is_text_name(ext: &str) -> (res: bool)
    ensures
        res == names_text(ext@),
{
    text::same(ext, "txt") || text::same(ext, "md") || text::same(ext, "rs") || text::same(
        ext,
        "py",
    ) || text::same(ext, "js") || text::same(ext, "ts") || text::same(ext, "tsx") || text::same(
        ext,
        "jsx",
    ) || text::same(ext, "java") || text::same(ext, "c") || text::same(ext, "h") || text::same(
        ext,
        "cpp",
    ) || text::same(ext, "hpp") || text::same(ext, "go") || text::same(ext, "rb") || text::same(
        ext,
        "sh",
    ) || text::same(ext, "bash") || text::same(ext, "zsh") || text::same(ext, "toml")
        || text::same(ext, "yaml") || text::same(ext, "yml") || text::same(ext, "json")
        || text::same(ext, "xml") || text::same(ext, "html") || text::same(ext, "css")
        || text::same(ext, "scss") || text::same(ext, "sql") || text::same(ext, "csv")
        || text::same(ext, "tsv") || text::same(ext, "log") || text::same(ext, "ini")
        || text::same(ext, "cfg") || text::same(ext, "conf") || text::same(ext, "env")
        || text::same(ext, "dockerfile") || text::same(ext, "makefile") || text::same(
        ext,
        "gitignore",
    ) || text::same(ext, "editorconfig") || text::same(ext, "properties") || text::same(
        ext,
        "gradle",
    ) || text::same(ext, "swift") || text::same(ext, "kt") || text::same(ext, "lua")
        || text::same(ext, "r") || text::same(ext, "pl")
}

/// Whether an extension in lower case is one of image files.
pub fn is_image_name(ext: &str) -> (res: bool)
    ensures
        res == names_image(ext@),
{
    text::same(ext, "png") || text::same(ext, "jpg") || text::same(ext, "jpeg") || text::same(
        ext,
        "gif",
    ) || text::same(ext, "bmp") || text::same(ext, "webp") || text::same(ext, "tiff")
        || text::same(ext, "svg")
}

/// Whether an extension, in any case, is one of text files.
pub fn is_text_extension(ext: &str) -> (res: bool)
    ensures
        res == names_text(text::lowercase(ext@)),
{
    let lower = ext.to_lowercase();
    is_text_name(lower.as_str())
}

/// Whether an extension, in any case, is one of image files.
pub fn is_image_extension(ext: &str) -> (res: bool)
    ensures
        res == names_image(text::lowercase(ext@)),
{
    let lower = ext.to_lowercase();
    is_image_name(lower.as_str())
}

/// Whether bytes look like text: no zero among the first 8192.
pub open spec fn textual(data: Seq<u8>) -> bool {
    forall|i: int| 0 <= i < data.len() && i < 8192 ==> data[i] != 0
}

/// Whether bytes look like text.
pub fn looks_like_text(data: &[u8]) -> (res: bool)
    ensures
        res == textual(data@),
{
    let mut i: usize = 0;
    while i < data.len() && i < 8192
        invariant
            i <= data@.len(),
            i <= 8192,
            forall|j: int| 0 <= j < i ==> data@[j] != 0,
        decreases data@.len() - i,
    {
        if data[i] == 0 {
            return false;
        }
        i += 1;
    }
    true
}

/// Whether an extension in lower case is one of sound.
pub open spec fn names_audio(ext: Seq<char>) -> bool {
    ||| ext == "opus"@ || ext == "ogg"@ || ext == "mp3"@ || ext == "wav"@ || ext == "m4a"@
    ||| ext == "aac"@ || ext == "flac"@
}

/// Whether an extension in lower case is one of film.
pub open spec fn names_video(ext: Seq<char>) -> bool {
    ||| ext == "mp4"@ || ext == "mov"@ || ext == "avi"@ || ext == "mkv"@ || ext == "webm"@
}

/// The kind that an upload is declared as, by its extension in lower case.
pub open spec fn upload_type(ext: Seq<char>) -> Seq<char> {
    if names_audio(ext) {
        "opus"@
    } else if names_video(ext) {
        "mp4"@
    } else if ext == "pdf"@ {
        "pdf"@
    } else if ext == "doc"@ || ext == "docx"@ {
        "doc"@
    } else if ext == "xls"@ || ext == "xlsx"@ {
        "xls"@
    } else if ext == "ppt"@ || ext == "pptx"@ {
        "ppt"@
    } else {
        "stream"@
    }
}

/// Whether an extension in lower case is one of sound.
pub fn is_audio_name(ext: &str) -> (res: bool)
    ensures
        res == names_audio(ext@),
{
    text::same(ext, "opus") || text::same(ext, "ogg") || text::same(ext, "mp3") || text::same(
        ext,
        "wav",
    ) || text::same(ext, "m4a") || text::same(ext, "aac") || text::same(ext, "flac")
}

/// Whether an extension in lower case is one of film.
pub fn is_video_name(ext: &str) -> (res: bool)
    ensures
        res == names_video(ext@),
{
    text::same(ext, "mp4") || text::same(ext, "mov") || text::same(ext, "avi") || text::same(
        ext,
        "mkv",
    ) || text::same(ext, "webm")
}

/// The kind that an upload is declared as, by its extension in lower case.
pub fn upload_type_of(ext: &str) -> (res: String)
    ensures
        res@ == upload_type(ext@),
{
    if is_audio_name(ext) {
        text::owned("opus")
    } else if is_video_name(ext) {
        text::owned("mp4")
    } else if text::same(ext, "pdf") {
        text::owned("pdf")
    } else if text::same(ext, "doc") || text::same(ext, "docx") {
        text::owned("doc")
    } else if text::same(ext, "xls") || text::same(ext, "xlsx") {
        text::owned("xls")
    } else if text::same(ext, "ppt") || text::same(ext, "pptx") {
        text::owned("ppt")
    } else {
        text::owned("stream")
    }
}

/// The kind that an upload is declared as, by its extension in any case.
pub fn resolve_file_type(ext: &str) -> (res: String)
    ensures
        res@ == upload_type(text::lowercase(ext@)),
{
    let lower = ext.to_lowercase();
    upload_type_of(lower.as_str())
}

/// Whether a character may stand in a file name.
pub open spec fn name_char(c: char) -> bool {
    !text::is_control(c) && c != '/' && c != '\\'
}

/// A name without control characters, path separators and white space at its
/// ends; never empty.
pub open spec fn safe_filename(name: Seq<char>) -> Seq<char> {
    let kept = text::trim(name.filter(|c: char| name_char(c)));
    if kept.len() == 0 {
        "attachment.bin"@
    } else {
        kept
    }
}

/// A name without control characters, path separators and white space at its
/// ends; never empty.
pub fn sanitize_filename(name: &str) -> (res: String)
    ensures
        res@ == safe_filename(name@),
{
    let v = text::to_chars(name);
    let ghost keep = |c: char| name_char(c);
    let mut kept = String::new();
    let mut i: usize = 0;
    assert(v@.take(0).filter(keep) =~= Seq::empty()) by {
        reveal(Seq::filter);
    }
    while i < v.len()
        invariant
            i <= v@.len(),
            keep == (|c: char| name_char(c)),
            kept@ == v@.take(i as int).filter(keep),
        decreases v@.len() - i,
    {
        let c = v[i];
        assert(v@.take(i + 1) =~= v@.take(i as int).push(c));
        assert(v@.take(i + 1).filter(keep) == if keep(c) {
            v@.take(i as int).filter(keep).push(c)
        } else {
            v@.take(i as int).filter(keep)
        }) by {
            reveal(Seq::filter);
            assert(v@.take(i as int).push(c).drop_last() =~= v@.take(i as int));
        }
        if !text::is_control_char(c) && c != '/' && c != '\\' {
            kept.push(c);
        }
        i += 1;
    }
    assert(v@.take(v@.len() as int) =~= name@);
    let trimmed = text::trimmed(kept.as_str());
    if trimmed.as_str().is_empty() {
        text::owned("attachment.bin")
    } else {
        trimmed
    }
}

// ---------------------------------------------------------------------------
// Cards
// ---------------------------------------------------------------------------

/// The largest markdown text of one card, in bytes.
pub const FEISHU_CARD_MARKDOWN_MAX_BYTES: usize = 28_000;

/// A card with one markdown element, under a title or none.
pub open spec fn card(markdown: Seq<char>, title: Option<Seq<char>>) -> JsonV {
    let element = json::obj2("tag"@, json::jstr("markdown"@), "content"@, json::jstr(markdown));
    let body = json::obj1("elements"@, JsonV::Array(seq![element]));
    match title {
        None => json::obj2("schema"@, json::jstr("2.0"@), "body"@, body),
        Some(t) => json::obj3(
            "schema"@,
            json::jstr("2.0"@),
            "body"@,
            body,
            "header"@,
            json::obj2(
                "title"@,
                json::obj2("tag"@, json::jstr("plain_text"@), "content"@, json::jstr(t)),
                "template"@,
                json::jstr("blue"@),
            ),
        ),
    }
}

/// A card with one markdown element, under a title or none.
pub fn build_card(markdown: &str, title: Option<&str>) -> (res: Json)
    ensures
        res@ == card(markdown@, json::opt_str(title)),
{
    let element = Fields::new().text("tag", "markdown").text("content", markdown).object();
    let mut elements: Vec<Json> = Vec::new();
    elements.push(element);
    let row = json::array(elements);
    assert(json::values(elements@) =~= seq![element@]);
    let body = Fields::new().with("elements", row).object();
    let plain = Fields::new().text("schema", "2.0").with("body", body);
    match title {
        Some(t) => {
            let inner = Fields::new().text("tag", "plain_text").text("content", t).object();
            let header = Fields::new().with("title", inner).text("template", "blue").object();
            plain.with("header", header).object()
        },
        None => plain.object(),
    }
}

/// The text of a card with one markdown element, under a title or none.
pub fn build_card_content(markdown: &str, title: Option<&str>) -> (res: String)
    ensures
        res@ == json::text_of(card(markdown@, json::opt_str(title))),
{
    build_card(markdown, title).to_text()
}

/// A message to a chat.
pub open spec fn message_body(
    recipient: Seq<char>,
    msg_type: Seq<char>,
    content: Seq<char>,
) -> JsonV {
    json::obj3(
        "receive_id"@,
        json::jstr(recipient),
        "msg_type"@,
        json::jstr(msg_type),
        "content"@,
        json::jstr(content),
    )
}

/// A message to a chat.
pub fn build_message_body(recipient: &str, msg_type: &str, content: &str) -> (res: Json)
    ensures
        res@ == message_body(recipient@, msg_type@, content@),
{
    Fields::new().text("receive_id", recipient).text("msg_type", msg_type).text(
        "content",
        content,
    ).object()
}

/// The message that shows markdown as a card.
pub open spec fn card_body(recipient: Seq<char>, markdown: Seq<char>) -> JsonV {
    message_body(recipient, "interactive"@, json::text_of(card(markdown, None)))
}

/// The message that shows markdown as a card.
pub fn build_interactive_card_body(recipient: &str, markdown: &str) -> (res: Json)
    ensures
        res@ == card_body(recipient@, markdown@),
{
    let content = build_card_content(markdown, None);
    build_message_body(recipient, "interactive", content.as_str())
}

/// Cuts markdown into chunks of at most `max_bytes` bytes, behind line ends
/// where there are any.
pub fn split_markdown_chunks(text: &str, max_bytes: usize) -> (res: Vec<String>)
    ensures
        text::strs(res@) == chunks::chunks(text@, max_bytes as nat),
{
    chunks::split_chunks(text, max_bytes)
}

/// The messages that carry a text to a chat: a card for each chunk, in order.
pub open spec fn cards_for(recipient: Seq<char>, text: Seq<char>) -> Seq<JsonV> {
    chunks::chunks(text, FEISHU_CARD_MARKDOWN_MAX_BYTES as nat).map_values(
        |chunk: Seq<char>| card_body(recipient, chunk),
    )
}

/// The messages that carry a text to a chat: a card for each chunk, in order.
pub fn card_messages(recipient: &str, text: &str) -> (res: Vec<Json>)
    ensures
        json::values(res@) == cards_for(recipient@, text@),
        json::values(res@) == chunks::chunks(
            text@,
            FEISHU_CARD_MARKDOWN_MAX_BYTES as nat,
        ).map_values(|chunk: Seq<char>| card_body(recipient@, chunk)),
{
    let parts = split_markdown_chunks(text, FEISHU_CARD_MARKDOWN_MAX_BYTES);
    let ghost wanted = text::strs(parts@).map_values(
        |chunk: Seq<char>| card_body(recipient@, chunk),
    );
    let mut out: Vec<Json> = Vec::new();
    let mut i: usize = 0;
    while i < parts.len()
        invariant
            i <= parts@.len(),
            wanted == text::strs(parts@).map_values(
                |chunk: Seq<char>| card_body(recipient@, chunk),
            ),
            json::values(out@) == wanted.take(i as int),
        decreases parts@.len() - i,
    {
        let ghost before = json::values(out@);
        let body = build_interactive_card_body(recipient, parts[i].as_str());
        out.push(body);
        assert(json::values(out@) =~= before.push(body@));
        assert(wanted.take(i + 1) =~= wanted.take(i as int).push(wanted[i as int]));
        i += 1;
    }
    assert(json::values(out@) =~= wanted);
    out
}

/// Where messages to a chat are posted.
pub fn messages_url(base_url: &str) -> (res: String)
    ensures
        res@ == base_url@ + "/open-apis/im/v1/messages?receive_id_type=chat_id"@,
{
    text::cat(base_url, "/open-apis/im/v1/messages?receive_id_type=chat_id")
}

// ---------------------------------------------------------------------------
// Replies of the web API
// ---------------------------------------------------------------------------

/// The code of a reply; one without a code counts as failed.
pub open spec fn reply_code(body: JsonV) -> i64 {
    match body.whole("code"@) {
        Some(code) => code,
        None => -1i64,
    }
}

/// What a reply says went wrong with `what`, if anything did.
pub open spec fn reply_error(body: JsonV, what: Seq<char>) -> Option<Seq<char>> {
    let msg = match body.text("msg"@) {
        Some(m) => m,
        None => "unknown"@,
    };
    if reply_code(body) == 0 {
        None
    } else {
        Some(what + " error: code="@ + text::signed(reply_code(body) as int) + " msg="@ + msg)
    }
}

/// The view of a result whose success is an owned text.
pub open spec fn text_result(r: Result<String, String>) -> Result<Seq<char>, Seq<char>> {
    match r {
        Ok(t) => Ok(t@),
        Err(e) => Err(e@),
    }
}

/// Whether the reply to `what` reports success; if not, what it says.
pub fn check_reply(body: &Json, what: &str) -> (res: Result<(), String>)
    ensures
        match res {
            Ok(()) => reply_error(body@, what@) is None,
            Err(e) => reply_error(body@, what@) == Some(e@),
        },
{
    let code: i64 = match body.get_i64("code") {
        Some(code) => code,
        None => -1,
    };
    if code == 0 {
        return Ok(());
    }
    let number = text::decimal_signed(code);
    let head = text::cat4(what, " error: code=", number.as_str(), " msg=");
    match body.get_str("msg") {
        Some(msg) => Err(text::cat(head.as_str(), msg)),
        None => Err(text::cat(head.as_str(), "unknown")),
    }
}

/// The text under `a` and `b` in a reply that reports success; else what the
/// reply says, or `missing`.
pub open spec fn reply_text(
    body: JsonV,
    what: Seq<char>,
    a: Seq<char>,
    b: Seq<char>,
    missing: Seq<char>,
) -> Result<Seq<char>, Seq<char>> {
    match reply_error(body, what) {
        Some(e) => Err(e),
        None => match body.text2(a, b) {
            Some(t) => Ok(t),
            None => Err(missing),
        },
    }
}

/// The text under `a` and `b` in a reply that reports success.
pub fn read_reply_text(body: &Json, what: &str, a: &str, b: &str, missing: &str) -> (res: Result<
    String,
    String,
>)
    ensures
        text_result(res) == reply_text(body@, what@, a@, b@, missing@),
{
    match check_reply(body, what) {
        Err(e) => Err(e),
        Ok(()) => match body.text2(a, b) {
            Some(t) => Ok(t.to_owned()),
            None => Err(missing.to_owned()),
        },
    }
}

/// The body that asks for an access token.
pub fn token_request(app_id: &str, app_secret: &str) -> (res: Json)
    ensures
        res@ == json::obj2(
            "app_id"@,
            json::jstr(app_id@),
            "app_secret"@,
            json::jstr(app_secret@),
        ),
{
    Fields::new().text("app_id", app_id).text("app_secret", app_secret).object()
}

/// Where access tokens are asked for.
pub fn token_url(base_url: &str) -> (res: String)
    ensures
        res@ == base_url@ + "/open-apis/auth/v3/tenant_access_token/internal"@,
{
    text::cat(base_url, "/open-apis/auth/v3/tenant_access_token/internal")
}

/// The token in a reply, and for how many seconds it is used: five minutes less
/// than it lives, two hours where the reply does not say.
pub open spec fn granted_token(
    body: JsonV,
    what: Seq<char>,
    missing: Seq<char>,
) -> Result<(Seq<char>, u64), Seq<char>> {
    let life: u64 = match body.count("expire"@) {
        Some(n) => n,
        None => 7200,
    };
    match reply_error(body, what) {
        Some(e) => Err(e),
        None => match body.text("tenant_access_token"@) {
            Some(t) => Ok(
                (
                    t,
                    if life >= 300 {
                        (life - 300) as u64
                    } else {
                        0
                    },
                ),
            ),
            None => Err(missing),
        },
    }
}

/// The token in a reply, and for how many seconds it is used.
pub fn read_granted_token(body: &Json, what: &str, missing: &str) -> (res: Result<
    (String, u64),
    String,
>)
    ensures
        match res {
            Ok((token, ttl)) => granted_token(body@, what@, missing@) == Ok::<_, Seq<char>>(
                (token@, ttl),
            ),
            Err(e) => granted_token(body@, what@, missing@) == Err::<(Seq<char>, u64), _>(e@),
        },
{
    match check_reply(body, what) {
        Err(e) => Err(e),
        Ok(()) => match body.get_str("tenant_access_token") {
            None => Err(missing.to_owned()),
            Some(t) => {
                let life: u64 = match body.get_u64("expire") {
                    Some(n) => n,
                    None => 7200,
                };
                let ttl: u64 = if life >= 300 {
                    life - 300
                } else {
                    0
                };
                Ok((t.to_owned(), ttl))
            },
        },
    }
}

/// The token that the adapter asked for.
pub fn adapter_token(body: &Json) -> (res: Result<(String, u64), String>)
    ensures
        match res {
            Ok((token, ttl)) => granted_token(
                body@,
                "tenant_access_token"@,
                "Missing tenant_access_token in response"@,
            ) == Ok::<_, Seq<char>>((token@, ttl)),
            Err(e) => granted_token(
                body@,
                "tenant_access_token"@,
                "Missing tenant_access_token in response"@,
            ) == Err::<(Seq<char>, u64), _>(e@),
        },
{
    read_granted_token(body, "tenant_access_token", "Missing tenant_access_token in response")
}

/// The token that a single task asked for.
pub fn get_token(body: &Json) -> (res: Result<String, String>)
    ensures
        text_result(res) == match granted_token(
            body@,
            "token"@,
            "Missing tenant_access_token"@,
        ) {
            Ok((token, _)) => Ok::<_, Seq<char>>(token),
            Err(e) => Err(e),
        },
{
    match read_granted_token(body, "token", "Missing tenant_access_token") {
        Ok((token, _)) => Ok(token),
        Err(e) => Err(e),
    }
}

/// The token that can be used at a time, of one that can be used until another.
pub open spec fn in_use(token: Seq<char>, expires_at: int, now: int) -> Option<Seq<char>> {
    if token.len() > 0 && now < expires_at {
        Some(token)
    } else {
        None
    }
}

/// Until when a token can be used that is taken into use at a time, for so many seconds.
pub open spec fn use_ends(ttl: int, now: int) -> int {
    now + 1000 * ttl
}

/// The access token in use, and until when, in milliseconds of the adapter's
/// clock.
pub struct TokenState {
    pub token: String,
    pub expires_at: u128,
}

impl TokenState {
    /// No token yet.
    pub fn new(now: u64) -> (res: TokenState)
        ensures
            res.token@.len() == 0,
            res.expires_at == now,
    {
        TokenState { token: String::new(), expires_at: now as u128 }
    }

    /// The token, where there is one that has not run out.
    pub fn current(&self, now: u64) -> (res: Option<String>)
        ensures
            text::opt(res) == in_use(self.token@, self.expires_at as int, now as int),
            text::opt(res) == if self.token@.len() > 0 && now < self.expires_at {
                Some(self.token@)
            } else {
                None
            },
    {
        if !self.token.as_str().is_empty() && (now as u128) < self.expires_at {
            Some(self.token.clone())
        } else {
            None
        }
    }

    /// Takes a new token into use for `ttl` seconds.
    pub fn store(&mut self, token: &str, ttl: u64, now: u64)
        ensures
            final(self).expires_at == use_ends(ttl as int, now as int),
            final(self).token@ == token@,
            final(self).expires_at == now + 1000 * ttl,
    {
        self.token = token.to_owned();
        self.expires_at = now as u128 + 1000 * (ttl as u128);
    }
}

/// The adapter: the app that it works as, where the API is, and the access token
/// in use.
pub struct FeishuAdapter {
    pub app_id: String,
    pub app_secret: String,
    pub base_url: String,
    pub token: TokenState,
}

impl FeishuAdapter {
    /// The adapter for an app; it has no token yet.
    pub fn new(app_id: String, app_secret: String, domain: String, now: u64) -> (res: FeishuAdapter)
        ensures
            res.app_id == app_id,
            res.app_secret == app_secret,
            res.base_url@ == domain_url(domain@),
            res.token.token@.len() == 0,
            res.token.expires_at == now,
    {
        let base_url = resolve_domain(domain.as_str());
        FeishuAdapter { app_id, app_secret, base_url, token: TokenState::new(now) }
    }

    /// The name of the channel.
    pub fn name(&self) -> (res: String)
        ensures
            res@ == "feishu"@,
    {
        text::owned("feishu")
    }

    /// Takes in the reply to a request for a token: the token that it grants is
    /// in use from now on, and a refusal changes nothing.
    pub fn on_token_reply(&mut self, body: &Json, now: u64) -> (res: Result<String, String>)
        ensures
            match granted_token(
                body@,
                "tenant_access_token"@,
                "Missing tenant_access_token in response"@,
            ) {
                Ok((token, ttl)) => {
                    &&& res is Ok
                    &&& res->Ok_0@ == token
                    &&& final(self).token.token@ == token
                    &&& final(self).token.expires_at == now + 1000 * ttl
                    &&& *final(self) == (FeishuAdapter { token: final(self).token, ..*old(self) })
                },
                Err(e) => res is Err && res->Err_0@ == e && *final(self) == *old(self),
            },
    {
        match adapter_token(body) {
            Ok((token, ttl)) => {
                self.token.store(token.as_str(), ttl, now);
                Ok(token)
            },
            Err(e) => Err(e),
        }
    }
}

/// The open id of the bot, from a reply.
pub fn resolve_bot_open_id(body: &Json) -> (res: Result<String, String>)
    ensures
        text_result(res) == reply_text(
            body@,
            "bot/v3/info"@,
            "bot"@,
            "open_id"@,
            "bot/v3/info: missing bot.open_id"@,
        ),
{
    read_reply_text(
        body,
        "bot/v3/info",
        "bot",
        "open_id",
        "bot/v3/info: missing bot.open_id",
    )
}

/// The body that asks where the long connection is.
pub fn ws_endpoint_request(app_id: &str, app_secret: &str) -> (res: Json)
    ensures
        res@ == json::obj2(
            "AppID"@,
            json::jstr(app_id@),
            "AppSecret"@,
            json::jstr(app_secret@),
        ),
{
    Fields::new().text("AppID", app_id).text("AppSecret", app_secret).object()
}

/// The address of the long connection and the seconds between pings, from a
/// reply, under either spelling of the keys.
pub open spec fn ws_endpoint(body: JsonV) -> Result<(Seq<char>, Option<u64>), Seq<char>> {
    let url = match body.at2("data"@, "URL"@) {
        Some(v) => Some(v),
        None => body.at2("data"@, "url"@),
    };
    let ping = match body.at3("data"@, "ClientConfig"@, "PingInterval"@) {
        Some(v) => Some(v),
        None => body.at3("data"@, "client_config"@, "ping_interval"@),
    };
    match reply_error(body, "WS endpoint"@) {
        Some(e) => Err(e),
        None => match url {
            Some(JsonV::Text(u)) => Ok(
                (
                    u,
                    match ping {
                        Some(v) => v.as_count(),
                        None => None,
                    },
                ),
            ),
            _ => Err("WS endpoint response missing URL"@),
        },
    }
}

/// The address of the long connection and the seconds between pings.
pub fn get_ws_endpoint(body: &Json) -> (res: Result<(String, Option<u64>), String>)
    ensures
        match res {
            Ok((url, ping)) => ws_endpoint(body@) == Ok::<_, Seq<char>>((url@, ping)),
            Err(e) => ws_endpoint(body@) == Err::<(Seq<char>, Option<u64>), _>(e@),
        },
{
    match check_reply(body, "WS endpoint") {
        Err(e) => {
            return Err(e);
        },
        Ok(()) => {},
    }
    let url = match body.at2("data", "URL") {
        Some(v) => Some(v),
        None => body.at2("data", "url"),
    };
    let ping = match body.at3("data", "ClientConfig", "PingInterval") {
        Some(v) => Some(v),
        None => body.at3("data", "client_config", "ping_interval"),
    };
    let address = match url {
        Some(v) => v.as_str(),
        None => None,
    };
    match address {
        Some(u) => Ok(
            (
                u.to_owned(),
                match ping {
                    Some(v) => v.as_u64(),
                    None => None,
                },
            ),
        ),
        None => Err(text::owned("WS endpoint response missing URL")),
    }
}

/// The first of the parts from `i` on that begins with `prefix`, without it.
pub open spec fn part_after(parts: Seq<Seq<char>>, prefix: Seq<char>, i: int) -> Option<Seq<char>>
    decreases parts.len() - i,
{
    if i < 0 || i >= parts.len() {
        None
    } else if text::starts(parts[i], prefix) {
        Some(parts[i].skip(prefix.len() as int))
    } else {
        part_after(parts, prefix, i + 1)
    }
}

/// The service id in the query of an address; zero where there is none.
pub open spec fn service_id(url: Seq<char>) -> i32 {
    let parts = text::split(url, '?');
    if parts.len() < 2 {
        0
    } else {
        match part_after(text::split(parts[1], '&'), "service_id="@, 0) {
            Some(v) => match text::i32_value(v) {
                Some(n) => n,
                None => 0,
            },
            None => 0,
        }
    }
}

/// The service id in the query of an address; zero where there is none.
pub fn extract_service_id(url: &str) -> (res: i32)
    ensures
        res == service_id(url@),
{
    let parts = text::split_on(url, '?');
    assert(text::strs(parts@) == text::split(url@, '?'));
    if parts.len() < 2 {
        return 0;
    }
    assert(text::split(url@, '?')[1] == parts@[1]@);
    let fields = text::split_on(parts[1].as_str(), '&');
    let ghost views = text::strs(fields@);
    let mut i: usize = 0;
    while i < fields.len()
        invariant
            i <= fields@.len(),
            views == text::strs(fields@),
            service_id(url@) == match part_after(views, "service_id="@, 0) {
                Some(v) => match text::i32_value(v) {
                    Some(n) => n,
                    None => 0,
                },
                None => 0,
            },
            part_after(views, "service_id="@, 0) == part_after(views, "service_id="@, i as int),
        decreases fields@.len() - i,
    {
        assert(views[i as int] == fields@[i as int]@);
        match text::after_prefix(fields[i].as_str(), "service_id=") {
            Some(v) => {
                assert(part_after(views, "service_id="@, 0) == Some(v@));
                return match text::parse_i32(v.as_str()) {
                    Some(n) => n,
                    None => 0,
                };
            },
            None => {},
        }
        i += 1;
    }
    0
}

// ---------------------------------------------------------------------------
// Contents of messages
// ---------------------------------------------------------------------------

/// What `f` gives for each of the items, in order.
pub open spec fn gather(items: Seq<JsonV>, f: spec_fn(JsonV) -> Seq<Seq<char>>) -> Seq<Seq<char>>
    decreases items.len(),
{
    if items.len() == 0 {
        Seq::empty()
    } else {
        gather(items.drop_last(), f) + f(items.last())
    }
}

/// The text of one element of a rich message, if it has any: text as it is, a
/// link in markdown form, a mention by its name, a place holder for an image.
pub open spec fn element_text(elem: JsonV) -> Option<Seq<char>> {
    let tag = elem.text_or_empty("tag"@);
    let label = elem.text_or_empty("text"@);
    let href = elem.text_or_empty("href"@);
    if tag == "a"@ {
        if href.len() > 0 {
            if label.len() == 0 {
                Some(href)
            } else {
                Some("["@ + label + "]("@ + href + ")"@)
            }
        } else if label.len() > 0 {
            Some(label)
        } else {
            None
        }
    } else if tag == "at"@ {
        match elem.text("user_name"@) {
            Some(name) => Some("@"@ + name),
            None => None,
        }
    } else if tag == "img"@ {
        Some("[image]"@)
    } else {
        elem.text("text"@)
    }
}

/// At most one text as a row of texts.
pub open spec fn as_row(t: Option<Seq<char>>) -> Seq<Seq<char>> {
    match t {
        Some(x) => seq![x],
        None => Seq::empty(),
    }
}

/// The texts of one line of a rich message.
pub open spec fn line_texts(line: JsonV) -> Seq<Seq<char>> {
    match line {
        JsonV::Array(elements) => gather(elements, |e: JsonV| as_row(element_text(e))),
        _ => Seq::empty(),
    }
}

/// The texts of a rich message: its title, where it has one, and those of its
/// lines.
pub open spec fn post_texts(post: JsonV) -> Seq<Seq<char>> {
    let title = post.text_or_empty("title"@);
    let head = if title.len() > 0 {
        seq![title]
    } else {
        Seq::empty()
    };
    head + match post.items("content"@) {
        Some(lines) => gather(lines, |l: JsonV| line_texts(l)),
        None => Seq::empty(),
    }
}

/// The texts of a rich message that stands by itself or under the name of its
/// language.
pub open spec fn rich_texts(v: JsonV) -> Seq<Seq<char>> {
    match v {
        JsonV::Object(m) => if v.get("content"@) is Some {
            post_texts(v)
        } else if m.len() > 0 {
            post_texts(m[0].1)
        } else {
            Seq::empty()
        },
        _ => Seq::empty(),
    }
}

/// The plain text of a message whose content, where it is JSON, is `parsed`.
pub open spec fn content_text(
    parsed: Option<JsonV>,
    content: Seq<char>,
    message_type: Seq<char>,
) -> Seq<char> {
    match parsed {
        None => content,
        Some(v) => if message_type == "text"@ {
            match v.text("text"@) {
                Some(t) => t,
                None => content,
            }
        } else if message_type == "post"@ {
            if rich_texts(v).len() == 0 {
                content
            } else {
                text::join(rich_texts(v), "\n"@)
            }
        } else {
            content
        },
    }
}

/// The text of one element of a rich message.
fn read_element(elem: &Json) -> (res: Option<String>)
    ensures
        text::opt(res) == element_text(elem@),
{
    let tag = elem.get_str_or_empty("tag");
    if text::same(tag.as_str(), "a") {
        let label = elem.get_str_or_empty("text");
        let href = elem.get_str_or_empty("href");
        if !href.as_str().is_empty() {
            if label.as_str().is_empty() {
                Some(href)
            } else {
                Some(text::cat5("[", label.as_str(), "](", href.as_str(), ")"))
            }
        } else if !label.as_str().is_empty() {
            Some(label)
        } else {
            None
        }
    } else if text::same(tag.as_str(), "at") {
        match elem.get_str("user_name") {
            Some(name) => Some(text::cat("@", name)),
            None => None,
        }
    } else if text::same(tag.as_str(), "img") {
        Some(text::owned("[image]"))
    } else {
        match elem.get_str("text") {
            Some(t) => Some(t.to_owned()),
            None => None,
        }
    }
}

/// Appends the texts of one line of a rich message.
fn push_line_texts(line: &Json, out: &mut Vec<String>)
    ensures
        text::strs(final(out)@) == text::strs(old(out)@) + line_texts(line@),
{
    let ghost before = text::strs(out@);
    match line.as_array() {
        Some(elements) => {
            let ghost f = |e: JsonV| as_row(element_text(e));
            let ghost views = json::values(elements@);
            let mut i: usize = 0;
            assert(before + gather(views.take(0), f) =~= before);
            while i < elements.len()
                invariant
                    i <= elements@.len(),
                    f == (|e: JsonV| as_row(element_text(e))),
                    views == json::values(elements@),
                    text::strs(out@) == before + gather(views.take(i as int), f),
                decreases elements@.len() - i,
            {
                let ghost now = text::strs(out@);
                assert(views.take(i + 1).drop_last() =~= views.take(i as int));
                assert(views.take(i + 1).last() == elements@[i as int]@);
                match read_element(&elements[i]) {
                    Some(t) => {
                        out.push(t);
                        assert(text::strs(out@) =~= now + seq![t@]);
                    },
                    None => {},
                }
                assert(text::strs(out@) =~= before + gather(views.take(i + 1), f));
                i += 1;
            }
            assert(views.take(elements@.len() as int) =~= views);
        },
        None => {},
    }
    assert(text::strs(out@) =~= before + line_texts(line@));
}

/// The texts of a rich message.
fn read_post(post: &Json) -> (res: Vec<String>)
    ensures
        text::strs(res@) == post_texts(post@),
{
    let mut out: Vec<String> = Vec::new();
    let title = post.get_str_or_empty("title");
    if !title.as_str().is_empty() {
        out.push(title);
        assert(text::strs(out@) =~= seq![title@]);
    }
    let ghost head = text::strs(out@);
    match post.get_array("content") {
        Some(lines) => {
            let ghost f = |l: JsonV| line_texts(l);
            let ghost views = json::values(lines@);
            let mut i: usize = 0;
            assert(head + gather(views.take(0), f) =~= head);
            while i < lines.len()
                invariant
                    i <= lines@.len(),
                    f == (|l: JsonV| line_texts(l)),
                    views == json::values(lines@),
                    text::strs(out@) == head + gather(views.take(i as int), f),
                decreases lines@.len() - i,
            {
                push_line_texts(&lines[i], &mut out);
                assert(views.take(i + 1).drop_last() =~= views.take(i as int));
                assert(views.take(i + 1).last() == lines@[i as int]@);
                assert(text::strs(out@) =~= head + gather(views.take(i + 1), f));
                i += 1;
            }
            assert(views.take(lines@.len() as int) =~= views);
        },
        None => {},
    }
    assert(text::strs(out@) =~= post_texts(post@));
    out
}

/// The plain text of a message whose content, where it is JSON, is `parsed`.
pub fn read_content(parsed: &Option<Json>, content: &str, message_type: &str) -> (res: String)
    ensures
        res@ == content_text(
            match parsed {
                Some(v) => Some(v@),
                None => None,
            },
            content@,
            message_type@,
        ),
{
    broadcast use json::lemma_view_parts;

    match parsed {
        None => content.to_owned(),
        Some(v) => {
            if text::same(message_type, "text") {
                match v.get_str("text") {
                    Some(t) => t.to_owned(),
                    None => content.to_owned(),
                }
            } else if text::same(message_type, "post") {
                let texts = match v {
                    Json::Object(m) => {
                        if v.get("content").is_some() {
                            read_post(v)
                        } else if m.len() > 0 {
                            assert(json::members(m@)[0].1 == m@[0].1@);
                            read_post(&m[0].1)
                        } else {
                            Vec::new()
                        }
                    },
                    _ => Vec::new(),
                };
                assert(text::strs(texts@) =~= rich_texts(v@));
                if texts.len() == 0 {
                    content.to_owned()
                } else {
                    text::join_strings(&texts, "\n")
                }
            } else {
                content.to_owned()
            }
        },
    }
}

/// The plain text of a message.
pub fn parse_message_content(content: &str, message_type: &str) -> (res: String)
    ensures
        res@ == content_text(json::value_in_text(content@), content@, message_type@),
{
    let parsed = json::parse(content);
    read_content(&parsed, content, message_type)
}

/// The key of the image that an element shows, if it shows one.
pub open spec fn element_image(elem: JsonV) -> Seq<Seq<char>> {
    if elem.text("tag"@) == Some("img"@) {
        as_row(elem.text("image_key"@))
    } else {
        Seq::empty()
    }
}

/// The keys of the images in one line of a rich message.
pub open spec fn line_images(line: JsonV) -> Seq<Seq<char>> {
    match line {
        JsonV::Array(elements) => gather(elements, |e: JsonV| element_image(e)),
        _ => Seq::empty(),
    }
}

/// The keys of the images in the lines under `content`.
pub open spec fn post_images(post: JsonV) -> Seq<Seq<char>> {
    match post.items("content"@) {
        Some(lines) => gather(lines, |l: JsonV| line_images(l)),
        None => Seq::empty(),
    }
}

/// The values of the members of an object.
pub open spec fn member_values(m: Seq<(Seq<char>, JsonV)>) -> Seq<JsonV> {
    Seq::new(m.len(), |i: int| m[i].1)
}

/// The keys of the images of a message whose content, where it is JSON, is
/// `parsed`. A rich message stands by itself or under names of languages.
pub open spec fn image_keys(parsed: Option<JsonV>, message_type: Seq<char>) -> Seq<Seq<char>> {
    match parsed {
        None => Seq::empty(),
        Some(v) => if message_type == "image"@ {
            as_row(v.text("image_key"@))
        } else if message_type == "post"@ {
            let direct = post_images(v);
            if direct.len() > 0 {
                direct
            } else {
                match v {
                    JsonV::Object(m) => gather(member_values(m), |p: JsonV| post_images(p)),
                    _ => Seq::empty(),
                }
            }
        } else {
            Seq::empty()
        },
    }
}

/// Appends the keys of the images in one line of a rich message.
fn push_line_images(line: &Json, out: &mut Vec<String>)
    ensures
        text::strs(final(out)@) == text::strs(old(out)@) + line_images(line@),
{
    let ghost before = text::strs(out@);
    match line.as_array() {
        Some(elements) => {
            let ghost f = |e: JsonV| element_image(e);
            let ghost views = json::values(elements@);
            let mut i: usize = 0;
            assert(before + gather(views.take(0), f) =~= before);
            while i < elements.len()
                invariant
                    i <= elements@.len(),
                    f == (|e: JsonV| element_image(e)),
                    views == json::values(elements@),
                    text::strs(out@) == before + gather(views.take(i as int), f),
                decreases elements@.len() - i,
            {
                let ghost now = text::strs(out@);
                assert(views.take(i + 1).drop_last() =~= views.take(i as int));
                assert(views.take(i + 1).last() == elements@[i as int]@);
                let shows_image = match elements[i].get_str("tag") {
                    Some(tag) => text::same(tag, "img"),
                    None => false,
                };
                if shows_image {
                    match elements[i].get_str("image_key") {
                        Some(key) => {
                            out.push(key.to_owned());
                            assert(text::strs(out@) =~= now + seq![key@]);
                        },
                        None => {},
                    }
                }
                assert(text::strs(out@) =~= before + gather(views.take(i + 1), f));
                i += 1;
            }
            assert(views.take(elements@.len() as int) =~= views);
        },
        None => {},
    }
    assert(text::strs(out@) =~= before + line_images(line@));
}

/// Appends the keys of the images in the lines under `content`.
fn push_post_images(post: &Json, out: &mut Vec<String>)
    ensures
        text::strs(final(out)@) == text::strs(old(out)@) + post_images(post@),
{
    let ghost before = text::strs(out@);
    match post.get_array("content") {
        Some(lines) => {
            let ghost f = |l: JsonV| line_images(l);
            let ghost views = json::values(lines@);
            let mut i: usize = 0;
            assert(before + gather(views.take(0), f) =~= before);
            while i < lines.len()
                invariant
                    i <= lines@.len(),
                    f == (|l: JsonV| line_images(l)),
                    views == json::values(lines@),
                    text::strs(out@) == before + gather(views.take(i as int), f),
                decreases lines@.len() - i,
            {
                push_line_images(&lines[i], out);
                assert(views.take(i + 1).drop_last() =~= views.take(i as int));
                assert(views.take(i + 1).last() == lines@[i as int]@);
                assert(text::strs(out@) =~= before + gather(views.take(i + 1), f));
                i += 1;
            }
            assert(views.take(lines@.len() as int) =~= views);
        },
        None => {},
    }
    assert(text::strs(out@) =~= before + post_images(post@));
}

/// The keys of the images of a message whose content, where it is JSON, is
/// `parsed`.
pub fn read_image_keys(parsed: &Option<Json>, message_type: &str) -> (res: Vec<String>)
    ensures
        text::strs(res@) == image_keys(
            match parsed {
                Some(v) => Some(v@),
                None => None,
            },
            message_type@,
        ),
{
    broadcast use json::lemma_view_parts;

    let mut out: Vec<String> = Vec::new();
    match parsed {
        None => {},
        Some(v) => {
            if text::same(message_type, "image") {
                match v.get_str("image_key") {
                    Some(key) => {
                        out.push(key.to_owned());
                    },
                    None => {},
                }
                assert(text::strs(out@) =~= as_row(v@.text("image_key"@)));
            } else if text::same(message_type, "post") {
                push_post_images(v, &mut out);
                assert(text::strs(out@) =~= post_images(v@));
                if out.len() == 0 {
                    match v {
                        Json::Object(m) => {
                            let ghost f = |p: JsonV| post_images(p);
                            let ghost views = member_values(json::members(m@));
                            let mut i: usize = 0;
                            assert(gather(views.take(0), f) =~= Seq::empty());
                            while i < m.len()
                                invariant
                                    i <= m@.len(),
                                    f == (|p: JsonV| post_images(p)),
                                    views == member_values(json::members(m@)),
                                    text::strs(out@) == gather(views.take(i as int), f),
                                decreases m@.len() - i,
                            {
                                push_post_images(&m[i].1, &mut out);
                                assert(views.take(i + 1).drop_last() =~= views.take(i as int));
                                assert(views.take(i + 1).last() == m@[i as int].1@);
                                i += 1;
                            }
                            assert(views.take(m@.len() as int) =~= views);
                        },
                        _ => {},
                    }
                }
            }
        },
    }
    assert(text::strs(out@) =~= image_keys(
        match parsed {
            Some(v) => Some(v@),
            None => None,
        },
        message_type@,
    ));
    out
}

/// The keys of the images of a message.
pub fn extract_image_keys(content_raw: &str, message_type: &str) -> (res: Vec<String>)
    ensures
        text::strs(res@) == image_keys(json::value_in_text(content_raw@), message_type@),
{
    let parsed = json::parse(content_raw);
    read_image_keys(&parsed, message_type)
}

// ---------------------------------------------------------------------------
// What holds of the channel
// ---------------------------------------------------------------------------

/// The two known domains have their addresses; any other domain is its own address,
/// without the slashes at its end and with all before them.
pub proof fn law_domain(domain: Seq<char>) -> (n: int)
    ensures
        domain_url("feishu"@) == "https://open.feishu.cn"@,
        domain_url("lark"@) == "https://open.larksuite.com"@,
        domain != "feishu"@ && domain != "lark"@ ==> 0 <= n <= domain.len() && domain_url(domain)
            == domain.take(n) && (n > 0 ==> domain[n - 1] != '/') && forall|q: int|
            n <= q < domain.len() ==> #[trigger] domain[q] == '/',
{
    reveal_strlit("feishu");
    reveal_strlit("lark");
    assert("feishu"@.len() != "lark"@.len());
    lemma_slashes(domain)
}

proof fn lemma_slashes(s: Seq<char>) -> (n: int)
    ensures
        0 <= n <= s.len(),
        without_slashes(s) == s.take(n),
        n > 0 ==> s[n - 1] != '/',
        forall|q: int| n <= q < s.len() ==> #[trigger] s[q] == '/',
    decreases s.len(),
{
    if s.len() > 0 && s.last() == '/' {
        let n = lemma_slashes(s.drop_last());
        assert(s.drop_last().take(n) =~= s.take(n));
        assert forall|q: int| n <= q < s.len() implies #[trigger] s[q] == '/' by {
            if q < s.len() - 1 {
                assert(s.drop_last()[q] == '/');
            }
        }
        n
    } else {
        assert(s.take(s.len() as int) =~= s);
        s.len() as int
    }
}

/// Where no chats are listed every chat is listened to; where some are, those at
/// whatever place of the list and no others. Listing more chats shuts none out that is
/// listed.
pub proof fn law_chats(allowed: Seq<Seq<char>>, more: Seq<Seq<char>>, chat: Seq<char>)
    ensures
        allowed.len() == 0 ==> chat_allowed(allowed, chat),
        allowed.len() > 0 ==> (chat_allowed(allowed, chat) <==> exists|i: int|
            0 <= i < allowed.len() && #[trigger] allowed[i] == chat),
        allowed.len() > 0 && chat_allowed(allowed, chat) ==> chat_allowed(allowed + more, chat)
            && chat_allowed(more + allowed, chat),
{
    if allowed.len() > 0 && chat_allowed(allowed, chat) {
        let i = choose|i: int| 0 <= i < allowed.len() && allowed[i] == chat;
        assert((allowed + more)[i] == chat);
        assert((more + allowed)[more.len() + i] == chat);
    }
}

/// A file name that is made safe is not empty, begins and ends with no white space, and
/// holds no control character and no separator of paths. Of all other characters of a
/// name none is lost but white space at its ends, and a name that is safe stays as it
/// is.
pub proof fn law_safe_filename(name: Seq<char>)
    ensures
        safe_filename(name).len() > 0,
        !text::is_white(safe_filename(name)[0]) && !text::is_white(safe_filename(name).last()),
        forall|i: int|
            0 <= i < safe_filename(name).len() ==> {
                let c = #[trigger] safe_filename(name)[i];
                c != '/' && c != '\\' && c as u32 >= 0x20 && !(0x7f <= c as u32 <= 0x9f)
            },
        forall|k: int|
            0 <= k < name.len() && #[trigger] name[k] != '/' && name[k] != '\\' && name[k] as u32
                >= 0x20 && !(0x7f <= name[k] as u32 <= 0x9f) && !text::is_white(name[k])
                ==> safe_filename(name).contains(name[k]),
        name.len() > 0 && !text::is_white(name[0]) && !text::is_white(name.last()) && (forall|k: int|
            0 <= k < name.len() ==> #[trigger] name[k] != '/' && name[k] != '\\' && name[k] as u32
                >= 0x20 && !(0x7f <= name[k] as u32 <= 0x9f)) ==> safe_filename(name) == name,
{
    reveal_strlit("attachment.bin");
    let keep = |c: char| name_char(c);
    let kept = name.filter(keep);
    let at = text::law_trim(kept);
    let safe = safe_filename(name);
    assert forall|i: int| 0 <= i < kept.len() implies name_char(#[trigger] kept[i]) by {
        name.lemma_filter_pred(keep, i);
    }
    if at.0 < at.1 {
        assert(safe[0] == kept[at.0]);
        assert(safe.last() == kept[at.1 - 1]);
        assert forall|i: int| 0 <= i < safe.len() implies name_char(#[trigger] safe[i]) by {
            assert(safe[i] == kept[at.0 + i]);
        }
    } else {
        assert(safe == "attachment.bin"@);
        assert(!text::is_white(safe[0]) && !text::is_white(safe[13]));
        assert forall|i: int| 0 <= i < safe.len() implies name_char(#[trigger] safe[i]) by {}
    }
    assert forall|k: int|
        0 <= k < name.len() && #[trigger] name[k] != '/' && name[k] != '\\' && name[k] as u32
            >= 0x20 && !(0x7f <= name[k] as u32 <= 0x9f) && !text::is_white(
            name[k],
        ) implies safe.contains(name[k]) by {
        assert(keep(name[k]));
        name.lemma_filter_contains(keep, k);
        let i = choose|i: int| 0 <= i < kept.len() && kept[i] == name[k];
        assert(at.0 <= i < at.1);
        assert(safe[i - at.0] == name[k]);
    }
    if name.len() > 0 && !text::is_white(name[0]) && !text::is_white(name.last()) && (forall|k: int|
        0 <= k < name.len() ==> #[trigger] name[k] != '/' && name[k] != '\\' && name[k] as u32
            >= 0x20 && !(0x7f <= name[k] as u32 <= 0x9f)) {
        lemma_all_kept(name);
        assert(kept == name);
        assert(at.0 == 0) by {
            if at.0 > 0 {
                assert(text::is_white(name[0]));
            }
        }
        assert(at.1 == name.len()) by {
            if at.1 < name.len() {
                assert(text::is_white(name[name.len() - 1]));
            }
        }
        assert(safe =~= name);
    }
}

proof fn lemma_all_kept(name: Seq<char>)
    requires
        forall|k: int| 0 <= k < name.len() ==> name_char(#[trigger] name[k]),
    ensures
        name.filter(|c: char| name_char(c)) == name,
    decreases name.len(),
{
    reveal(Seq::filter);
    if name.len() > 0 {
        let front = name.drop_last();
        assert forall|k: int| 0 <= k < front.len() implies name_char(#[trigger] front[k]) by {
            assert(front[k] == name[k]);
        }
        lemma_all_kept(front);
        assert(name_char(name[name.len() - 1]));
        assert(name =~= front.push(name.last()));
    }
}

/// A card holds just the one markdown text, whole, and the title where there is one.
pub proof fn law_card(markdown: Seq<char>, title: Option<Seq<char>>)
    ensures
        card(markdown, title).get("schema"@) == Some(JsonV::Text("2.0"@)),
        card(markdown, title).at2("body"@, "elements"@) matches Some(JsonV::Array(elements))
            && elements.len() == 1 && elements[0].get("tag"@) == Some(JsonV::Text("markdown"@))
            && elements[0].get("content"@) == Some(JsonV::Text(markdown)),
        title is None ==> card(markdown, title).get("header"@) is None,
        title matches Some(t) ==> card(markdown, title).at3("header"@, "title"@, "content"@)
            == Some(JsonV::Text(t)) && card(markdown, title).at3("header"@, "title"@, "tag"@)
            == Some(JsonV::Text("plain_text"@)) && card(markdown, title).at2(
            "header"@,
            "template"@,
        ) == Some(JsonV::Text("blue"@)),
{
    reveal_with_fuel(json::member_from, 4);
    reveal_strlit("schema");
    reveal_strlit("body");
    reveal_strlit("header");
    reveal_strlit("tag");
    reveal_strlit("content");
    reveal_strlit("title");
    reveal_strlit("template");
    assert("schema"@[0] != "header"@[0]);
    assert("schema"@.len() != "body"@.len() && "body"@.len() != "header"@.len());
    assert("tag"@.len() != "content"@.len() && "title"@.len() != "template"@.len());
}

/// A message carries the recipient, its kind and its content.
pub proof fn law_message_body(recipient: Seq<char>, kind: Seq<char>, content: Seq<char>)
    ensures
        message_body(recipient, kind, content).get("receive_id"@) == Some(JsonV::Text(recipient)),
        message_body(recipient, kind, content).get("msg_type"@) == Some(JsonV::Text(kind)),
        message_body(recipient, kind, content).get("content"@) == Some(JsonV::Text(content)),
        card_body(recipient, content).get("receive_id"@) == Some(JsonV::Text(recipient)),
        card_body(recipient, content).get("msg_type"@) == Some(JsonV::Text("interactive"@)),
        card_body(recipient, content).get("content"@) == Some(
            JsonV::Text(json::text_of(card(content, None))),
        ),
{
    reveal_with_fuel(json::member_from, 4);
    reveal_strlit("receive_id");
    reveal_strlit("msg_type");
    reveal_strlit("content");
    assert("receive_id"@.len() != "msg_type"@.len() && "msg_type"@.len() != "content"@.len());
    assert("receive_id"@.len() != "content"@.len());
}

/// A reply reports success if and only if its code is zero; what went wrong is told with
/// the code and the words of the reply.
pub proof fn law_reply(body: JsonV, what: Seq<char>, a: Seq<char>, b: Seq<char>, missing: Seq<char>)
    ensures
        reply_error(body, what) is None <==> body.whole("code"@) == Some(0i64),
        reply_error(body, what) matches Some(e) ==> what.is_prefix_of(e),
        reply_error(body, what) matches Some(e) ==> body.get("msg"@) matches Some(JsonV::Text(msg))
            ==> msg.is_suffix_of(e),
        reply_error(body, what) matches Some(e) ==> body.whole("code"@) matches Some(code)
            ==> text::contains(e, text::signed(code as int)),
        reply_text(body, what, a, b, missing) matches Ok(t) ==> body.whole("code"@) == Some(0i64)
            && body.at2(a, b) == Some(JsonV::Text(t)),
        body.whole("code"@) == Some(0i64) && (body.at2(a, b) matches Some(JsonV::Text(t)))
            ==> reply_text(body, what, a, b, missing) is Ok,
        body.whole("code"@) == Some(0i64) && !(body.at2(a, b) matches Some(JsonV::Text(t)))
            ==> reply_text(body, what, a, b, missing) == Err::<Seq<char>, _>(missing),
        body.whole("code"@) != Some(0i64) ==> reply_text(body, what, a, b, missing) == Err::<
            Seq<char>,
            _,
        >(reply_error(body, what)->0),
{
    if reply_error(body, what) is Some {
        let e = reply_error(body, what)->0;
        let code = text::signed(reply_code(body) as int);
        let msg = match body.text("msg"@) {
            Some(m) => m,
            None => "unknown"@,
        };
        assert(e.subrange(0, what.len() as int) =~= what);
        assert(e.subrange(e.len() - msg.len(), e.len() as int) =~= msg);
        assert(e =~= (what + " error: code="@) + code + (" msg="@ + msg));
        text::lemma_middle_is_contained(what + " error: code="@, code, " msg="@ + msg);
    }
}

/// A token is granted if and only if the reply reports success and holds one; it is used
/// for five minutes less than it lives, and two hours count where the reply does not
/// say.
pub proof fn law_granted_token(body: JsonV, what: Seq<char>, missing: Seq<char>)
    ensures
        granted_token(body, what, missing) is Ok <==> body.whole("code"@) == Some(0i64) && body.get(
            "tenant_access_token"@,
        ) matches Some(JsonV::Text(t)),
        granted_token(body, what, missing) matches Ok((token, ttl)) ==> {
            &&& body.get("tenant_access_token"@) == Some(JsonV::Text(token))
            &&& body.count("expire"@) matches Some(life) ==> ttl <= life && (life >= 300 ==> ttl
                + 5 * 60 == life) && (life < 300 ==> ttl == 0)
            &&& body.count("expire"@) is None ==> ttl + 5 * 60 == 2 * 60 * 60
        },
        granted_token(body, what, missing) matches Err(e) ==> e == missing || reply_error(body, what)
            == Some(e),
        body.whole("code"@) != Some(0i64) ==> granted_token(body, what, missing) == Err::<
            (Seq<char>, u64),
            _,
        >(reply_error(body, what)->0),
{
}

/// The address of the long connection is given if and only if the reply reports success
/// and holds one, under either spelling, the one in capitals before the other; so for
/// the seconds between pings.
pub proof fn law_ws_endpoint(body: JsonV)
    ensures
        ws_endpoint(body) matches Ok((url, ping)) ==> {
            &&& body.whole("code"@) == Some(0i64)
            &&& body.at2("data"@, "URL"@) is Some ==> body.at2("data"@, "URL"@) == Some(
                JsonV::Text(url),
            )
            &&& body.at2("data"@, "URL"@) is None ==> body.at2("data"@, "url"@) == Some(
                JsonV::Text(url),
            )
            &&& body.at3("data"@, "ClientConfig"@, "PingInterval"@) matches Some(v) ==> ping
                == v.as_count()
            &&& body.at3("data"@, "ClientConfig"@, "PingInterval"@) is None && body.at3(
                "data"@,
                "client_config"@,
                "ping_interval"@,
            ) is Some ==> ping == body.at3(
                "data"@,
                "client_config"@,
                "ping_interval"@,
            )->0.as_count()
            &&& body.at3("data"@, "ClientConfig"@, "PingInterval"@) is None && body.at3(
                "data"@,
                "client_config"@,
                "ping_interval"@,
            ) is None ==> ping is None
        },
        body.whole("code"@) == Some(0i64) && (body.at2("data"@, "URL"@) matches Some(JsonV::Text(u)))
            ==> ws_endpoint(body) is Ok,
        body.whole("code"@) == Some(0i64) && body.at2("data"@, "URL"@) is None && (body.at2(
            "data"@,
            "url"@,
        ) matches Some(JsonV::Text(u))) ==> ws_endpoint(body) is Ok,
        body.whole("code"@) != Some(0i64) ==> ws_endpoint(body) is Err,
{
}

/// The service id is the number behind `service_id=` in the first field of a query that
/// begins so, at whatever place it stands; an address without such a field has none.
pub proof fn law_service_id(base: Seq<char>, fields: Seq<Seq<char>>, k: int, n: i32)
    requires
        !base.contains('?'),
        forall|i: int|
            0 <= i < fields.len() ==> !(#[trigger] fields[i]).contains('?') && !fields[i].contains(
                '&',
            ),
    ensures
        service_id(base) == 0,
        0 <= k < fields.len() && fields[k] == "service_id="@ + text::signed(n as int) && (forall|
            i: int,
        |
            0 <= i < k ==> !"service_id="@.is_prefix_of(#[trigger] fields[i])) ==> service_id(
            base + seq!['?'] + text::join(fields, seq!['&']),
        ) == n,
        fields.len() > 0 && (forall|i: int|
            0 <= i < fields.len() ==> !"service_id="@.is_prefix_of(#[trigger] fields[i]))
            ==> service_id(base + seq!['?'] + text::join(fields, seq!['&'])) == 0,
{
    let prefix = "service_id="@;
    text::law_join_then_split(seq![base], '?');
    assert(text::join(seq![base], seq!['?']) == base);
    if fields.len() > 0 {
        let query = text::join(fields, seq!['&']);
        text::lemma_join_without(fields, seq!['&'], '?');
        text::law_join_then_split(fields, '&');
        let both = seq![base, query];
        assert forall|i: int| 0 <= i < both.len() implies !(#[trigger] both[i]).contains('?') by {}
        text::law_join_then_split(both, '?');
        text::law_join_first(base, seq![query], seq!['?']);
        assert(seq![base] + seq![query] =~= both);
        assert(text::join(seq![query], seq!['?']) == query);
        let url = base + seq!['?'] + query;
        assert(text::split(url, '?') == both);
        lemma_part_after(fields, prefix, 0);
        text::law_integer(n as int);
        if 0 <= k < fields.len() && fields[k] == prefix + text::signed(n as int) && (forall|i: int|
            0 <= i < k ==> !prefix.is_prefix_of(#[trigger] fields[i])) {
            assert(fields[k].subrange(0, prefix.len() as int) =~= prefix);
            assert(fields[k].skip(prefix.len() as int) =~= text::signed(n as int));
        }
    }
}

proof fn lemma_part_after(parts: Seq<Seq<char>>, prefix: Seq<char>, i: int)
    requires
        0 <= i,
    ensures
        match part_after(parts, prefix, i) {
            Some(x) => exists|k: int|
                i <= k < parts.len() && prefix.is_prefix_of(#[trigger] parts[k]) && x
                    == parts[k].skip(prefix.len() as int) && forall|j: int|
                    i <= j < k ==> !prefix.is_prefix_of(#[trigger] parts[j]),
            None => forall|k: int|
                i <= k < parts.len() ==> !prefix.is_prefix_of(#[trigger] parts[k]),
        },
    decreases parts.len() - i,
{
    if i < parts.len() {
        text::law_contains(parts[i], prefix);
        if text::starts(parts[i], prefix) {
            assert(prefix.is_prefix_of(parts[i]));
        } else {
            lemma_part_after(parts, prefix, i + 1);
        }
    }
}

/// What is gathered is what each of the items gives, of all of them and in their order.
pub proof fn law_gather(items: Seq<JsonV>, f: spec_fn(JsonV) -> Seq<Seq<char>>)
    ensures
        gather(items, f) == items.map_values(f).flatten(),
    decreases items.len(),
{
    if items.len() > 0 {
        let front = items.drop_last();
        law_gather(front, f);
        front.map_values(f).lemma_flatten_push(f(items.last()));
        assert(front.map_values(f).push(f(items.last())) =~= items.map_values(f));
    }
}

/// What an item gives is among what is gathered.
proof fn lemma_gathered(items: Seq<JsonV>, f: spec_fn(JsonV) -> Seq<Seq<char>>, i: int, t: Seq<char>)
    requires
        0 <= i < items.len(),
        f(items[i]).contains(t),
    ensures
        gather(items, f).contains(t),
    decreases items.len(),
{
    let front = gather(items.drop_last(), f);
    let last = f(items.last());
    if i == items.len() - 1 {
        let k = choose|k: int| 0 <= k < last.len() && last[k] == t;
        assert((front + last)[front.len() + k] == t);
    } else {
        lemma_gathered(items.drop_last(), f, i, t);
        let k = choose|k: int| 0 <= k < front.len() && front[k] == t;
        assert((front + last)[k] == t);
    }
}

/// What is gathered comes of one of the items.
proof fn lemma_gathered_from(
    items: Seq<JsonV>,
    f: spec_fn(JsonV) -> Seq<Seq<char>>,
    t: Seq<char>,
) -> (i: int)
    requires
        gather(items, f).contains(t),
    ensures
        0 <= i < items.len(),
        f(items[i]).contains(t),
    decreases items.len(),
{
    let front = gather(items.drop_last(), f);
    let last = f(items.last());
    let k = choose|k: int| 0 <= k < gather(items, f).len() && gather(items, f)[k] == t;
    if k < front.len() {
        assert(front[k] == t);
        lemma_gathered_from(items.drop_last(), f, t)
    } else {
        assert(last[k - front.len()] == t);
        items.len() - 1
    }
}

/// The element at a place of a rich message.
pub open spec fn element_at(post: JsonV, i: int, j: int) -> Option<JsonV> {
    match post.get("content"@) {
        Some(JsonV::Array(lines)) => if 0 <= i < lines.len() {
            match lines[i] {
                JsonV::Array(elements) => if 0 <= j < elements.len() {
                    Some(elements[j])
                } else {
                    None
                },
                _ => None,
            }
        } else {
            None
        },
        _ => None,
    }
}

/// What an element says: a text is itself, a link shows its label and its address, a
/// mention the name, an image stands as one.
pub proof fn law_element_text(elem: JsonV)
    ensures
        elem.get("tag"@) != Some(JsonV::Text("a"@)) && elem.get("tag"@) != Some(JsonV::Text("at"@))
            && elem.get("tag"@) != Some(JsonV::Text("img"@)) ==> element_text(elem) == elem.text(
            "text"@,
        ),
        elem.get("tag"@) == Some(JsonV::Text("img"@)) ==> element_text(elem) == Some("[image]"@),
        elem.get("tag"@) == Some(JsonV::Text("at"@)) ==> match elem.get("user_name"@) {
            Some(JsonV::Text(name)) => element_text(elem) == Some(seq!['@'] + name),
            _ => element_text(elem) is None,
        },
        elem.get("tag"@) == Some(JsonV::Text("a"@)) ==> match (elem.get("text"@), elem.get("href"@)) {
            (Some(JsonV::Text(label)), Some(JsonV::Text(href))) => element_text(elem)
                == if label.len() > 0 && href.len() > 0 {
                Some(seq!['['] + label + seq![']', '('] + href + seq![')'])
            } else if href.len() > 0 {
                Some(href)
            } else if label.len() > 0 {
                Some(label)
            } else {
                None
            },
            (_, Some(JsonV::Text(href))) => element_text(elem) == if href.len() > 0 {
                Some(href)
            } else {
                None
            },
            (Some(JsonV::Text(label)), _) => element_text(elem) == if label.len() > 0 {
                Some(label)
            } else {
                None
            },
            _ => element_text(elem) is None,
        },
{
    reveal_strlit("");
    reveal_strlit("a");
    reveal_strlit("at");
    reveal_strlit("img");
    reveal_strlit("@");
    reveal_strlit("[");
    reveal_strlit("](");
    reveal_strlit(")");
    assert("@"@ =~= seq!['@'] && "["@ =~= seq!['['] && "]("@ =~= seq![']', '('] && ")"@ =~= seq![
        ')',
    ]);
    assert("a"@.len() == 1 && "at"@.len() == 2 && "img"@.len() == 3);
}

/// The texts of a rich message are its title, where it has one, and what each of the
/// elements of each of its lines says: none is left out, and nothing else is there.
pub proof fn law_post_texts(post: JsonV, i: int, j: int, t: Seq<char>)
    ensures
        element_at(post, i, j) matches Some(elem) && element_text(elem) == Some(t) ==> post_texts(
            post,
        ).contains(t),
        post.get("title"@) matches Some(JsonV::Text(title)) && title.len() > 0 ==> post_texts(
            post,
        ).len() > 0 && post_texts(post)[0] == post.text("title"@)->0,
        post_texts(post).contains(t) ==> post.text("title"@) == Some(t) || exists|x: int, y: int|
            (#[trigger] element_at(post, x, y)) is Some && element_text(
                element_at(post, x, y)->0,
            ) == Some(t),
{
    let f = |l: JsonV| line_texts(l);
    let g = |e: JsonV| as_row(element_text(e));
    let all = post_texts(post);
    match post.items("content"@) {
        Some(lines) => {
            let body = gather(lines, f);
            let head = all.take(all.len() - body.len());
            assert(all =~= head + body);
            if element_at(post, i, j) matches Some(elem) && element_text(elem) == Some(t) {
                match lines[i] {
                    JsonV::Array(elements) => {
                        assert(g(elements[j])[0] == t);
                        lemma_gathered(elements, g, j, t);
                        lemma_gathered(lines, f, i, t);
                        let k = choose|k: int| 0 <= k < body.len() && body[k] == t;
                        assert(all[head.len() + k] == t);
                    },
                    _ => {},
                }
            }
            if all.contains(t) {
                let k = choose|k: int| 0 <= k < all.len() && all[k] == t;
                if k >= head.len() {
                    assert(body[k - head.len()] == t);
                    let x = lemma_gathered_from(lines, f, t);
                    match lines[x] {
                        JsonV::Array(elements) => {
                            let y = lemma_gathered_from(elements, g, t);
                            assert(element_at(post, x, y) == Some(elements[y]));
                        },
                        _ => {},
                    }
                } else {
                    assert(head[k] == t);
                }
            }
        },
        None => {},
    }
}

/// The texts of a rich message stand in the order of its lines and, in a line, of its
/// elements, behind the title.
pub proof fn law_post_order(post: JsonV)
    ensures
        match post.get("content"@) {
            Some(JsonV::Array(lines)) => lines.map_values(
                |l: JsonV| line_texts(l),
            ).flatten().is_suffix_of(post_texts(post)),
            _ => post_texts(post).len() <= 1,
        },
        forall|elements: Seq<JsonV>| #[trigger]
            line_texts(JsonV::Array(elements)) == elements.map_values(
                |e: JsonV| as_row(element_text(e)),
            ).flatten(),
{
    let f = |l: JsonV| line_texts(l);
    match post.items("content"@) {
        Some(lines) => {
            law_gather(lines, f);
            let body = gather(lines, f);
            let all = post_texts(post);
            assert(all.subrange(all.len() - body.len(), all.len() as int) =~= body);
        },
        None => {},
    }
    assert forall|elements: Seq<JsonV>| #[trigger]
        line_texts(JsonV::Array(elements)) == elements.map_values(
            |e: JsonV| as_row(element_text(e)),
        ).flatten() by {
        law_gather(elements, |e: JsonV| as_row(element_text(e)));
    }
}

/// The text of a message: what is under `text` in a plain one, all the texts of a rich
/// one under each other, and the content as it is wherever there is nothing of the
/// kind.
pub proof fn law_content_text(parsed: Option<JsonV>, content: Seq<char>, kind: Seq<char>)
    ensures
        parsed is None ==> content_text(parsed, content, kind) == content,
        kind != "text"@ && kind != "post"@ ==> content_text(parsed, content, kind) == content,
        kind == "text"@ && parsed is Some ==> content_text(parsed, content, kind) == match parsed->0.get(
            "text"@,
        ) {
            Some(JsonV::Text(t)) => t,
            _ => content,
        },
        kind == "post"@ && parsed is Some && parsed->0.get("content"@) is Some && post_texts(
            parsed->0,
        ).len() > 0 ==> content_text(parsed, content, kind) == text::join(
            post_texts(parsed->0),
            seq!['\n'],
        ),
        kind == "post"@ && parsed is Some && parsed->0.get("content"@) is Some && post_texts(
            parsed->0,
        ).len() == 0 ==> content_text(parsed, content, kind) == content,
        forall|name: Seq<char>, post: JsonV|
            #![trigger json::obj1(name, post)]
            kind == "post"@ && parsed == Some(json::obj1(name, post)) && name != "content"@
                && post_texts(post).len() > 0 ==> content_text(parsed, content, kind) == text::join(
                post_texts(post),
                seq!['\n'],
            ),
{
    reveal_strlit("text");
    reveal_strlit("post");
    reveal_strlit("\n");
    assert("\n"@ =~= seq!['\n']);
    assert("text"@[0] != "post"@[0]);
    reveal_with_fuel(json::member_from, 2);
}

/// The image of an image message is the one that it names. Of a rich message, whether it
/// stands by itself or under names of languages, the images are those of each of its
/// elements, and no others; a message of another kind has none.
pub proof fn law_image_keys(v: JsonV, kind: Seq<char>, i: int, j: int, key: Seq<char>)
    ensures
        image_keys(None, kind).len() == 0,
        kind != "image"@ && kind != "post"@ ==> image_keys(Some(v), kind).len() == 0,
        kind == "image"@ ==> match v.get("image_key"@) {
            Some(JsonV::Text(k)) => image_keys(Some(v), kind) == seq![k],
            _ => image_keys(Some(v), kind).len() == 0,
        },
        kind == "post"@ && element_at(v, i, j) is Some && names_picture(element_at(v, i, j)->0, key)
            ==> image_keys(Some(v), kind).contains(key),
        kind == "post"@ && image_keys(Some(v), kind).contains(key) ==> exists|
            post: JsonV,
            x: int,
            y: int,
        |
            (#[trigger] element_at(post, x, y)) is Some && names_picture(
                element_at(post, x, y)->0,
                key,
            ) && (post == v || (v matches JsonV::Object(m) && exists|k: int|
                0 <= k < m.len() && (#[trigger] m[k]).1 == post)),
{
    reveal_strlit("image");
    reveal_strlit("post");
    assert("image"@.len() != "post"@.len());
    if kind == "post"@ {
        let keys = image_keys(Some(v), kind);
        if element_at(v, i, j) matches Some(elem) && names_picture(elem, key) {
            lemma_post_image(v, i, j, key);
        }
        if keys.contains(key) {
            if post_images(v).len() > 0 {
                let at = lemma_post_image_from(v, key);
                assert(element_at(v, at.0, at.1) is Some);
            } else {
                match v {
                    JsonV::Object(m) => {
                        let f = |p: JsonV| post_images(p);
                        let k = lemma_gathered_from(member_values(m), f, key);
                        let post = m[k].1;
                        let at = lemma_post_image_from(post, key);
                        assert(element_at(post, at.0, at.1) is Some);
                        assert(m[k].1 == post);
                    },
                    _ => {},
                }
            }
        }
    }
}

/// Under names of languages the images of every one of them count, where the message
/// itself shows none.
pub proof fn law_images_of_languages(
    m: Seq<(Seq<char>, JsonV)>,
    k: int,
    i: int,
    j: int,
    key: Seq<char>,
)
    requires
        0 <= k < m.len(),
        element_at(m[k].1, i, j) is Some,
        names_picture(element_at(m[k].1, i, j)->0, key),
        !(JsonV::Object(m).get("content"@) matches Some(JsonV::Array(lines))),
    ensures
        image_keys(Some(JsonV::Object(m)), "post"@).contains(key),
{
    reveal_strlit("image");
    reveal_strlit("post");
    assert("image"@.len() != "post"@.len());
    lemma_post_image(m[k].1, i, j, key);
    let f = |p: JsonV| post_images(p);
    assert(member_values(m)[k] == m[k].1);
    assert(f(member_values(m)[k]).contains(key));
    lemma_gathered(member_values(m), f, k, key);
}

/// Whether an element is the image with this key.
pub open spec fn names_picture(elem: JsonV, key: Seq<char>) -> bool {
    elem.get("tag"@) == Some(JsonV::Text("img"@)) && elem.get("image_key"@) == Some(
        JsonV::Text(key),
    )
}

proof fn lemma_post_image(post: JsonV, i: int, j: int, key: Seq<char>)
    requires
        element_at(post, i, j) is Some,
        names_picture(element_at(post, i, j)->0, key),
    ensures
        post_images(post).contains(key),
        post_images(post).len() > 0,
{
    let f = |l: JsonV| line_images(l);
    let g = |e: JsonV| element_image(e);
    match post.items("content"@) {
        Some(lines) => {
            match lines[i] {
                JsonV::Array(elements) => {
                    assert(g(elements[j])[0] == key);
                    lemma_gathered(elements, g, j, key);
                    lemma_gathered(lines, f, i, key);
                },
                _ => {},
            }
        },
        None => {},
    }
}

proof fn lemma_post_image_from(post: JsonV, key: Seq<char>) -> (at: (int, int))
    requires
        post_images(post).contains(key),
    ensures
        element_at(post, at.0, at.1) is Some,
        names_picture(element_at(post, at.0, at.1)->0, key),
{
    let f = |l: JsonV| line_images(l);
    let g = |e: JsonV| element_image(e);
    match post.items("content"@) {
        Some(lines) => {
            let x = lemma_gathered_from(lines, f, key);
            match lines[x] {
                JsonV::Array(elements) => {
                    let y = lemma_gathered_from(elements, g, key);
                    let row = g(elements[y]);
                    let k = choose|k: int| 0 <= k < row.len() && row[k] == key;
                    assert(row[k] == key);
                    (x, y)
                },
                _ => (0, 0),
            }
        },
        None => (0, 0),
    }
}

/// The extensions of text files.
pub open spec fn text_names() -> Seq<Seq<char>> {
    seq![
        "txt"@,
        "md"@,
        "rs"@,
        "py"@,
        "js"@,
        "ts"@,
        "tsx"@,
        "jsx"@,
        "java"@,
        "c"@,
        "h"@,
        "cpp"@,
        "hpp"@,
        "go"@,
        "rb"@,
        "sh"@,
        "bash"@,
        "zsh"@,
        "toml"@,
        "yaml"@,
        "yml"@,
        "json"@,
        "xml"@,
        "html"@,
        "css"@,
        "scss"@,
        "sql"@,
        "csv"@,
        "tsv"@,
        "log"@,
        "ini"@,
        "cfg"@,
        "conf"@,
        "env"@,
        "dockerfile"@,
        "makefile"@,
        "gitignore"@,
        "editorconfig"@,
        "properties"@,
        "gradle"@,
        "swift"@,
        "kt"@,
        "lua"@,
        "r"@,
        "pl"@,
    ]
}

/// The extensions of images.
pub open spec fn image_names() -> Seq<Seq<char>> {
    seq![
        "png"@,
        "jpg"@,
        "jpeg"@,
        "gif"@,
        "bmp"@,
        "webp"@,
        "tiff"@,
        "svg"@,
    ]
}

/// The extensions of sounds.
pub open spec fn audio_names() -> Seq<Seq<char>> {
    seq![
        "opus"@,
        "ogg"@,
        "mp3"@,
        "wav"@,
        "m4a"@,
        "aac"@,
        "flac"@,
    ]
}

/// The extensions of films.
pub open spec fn video_names() -> Seq<Seq<char>> {
    seq![
        "mp4"@,
        "mov"@,
        "avi"@,
        "mkv"@,
        "webm"@,
    ]
}

/// A file is named as text if and only if its extension is one of those.
pub proof fn law_text_names(ext: Seq<char>)
    ensures
        names_text(ext) <==> text_names().contains(ext),
{
    let names = text_names();
    assert(names[0] == "txt"@);
    assert(names[1] == "md"@);
    assert(names[2] == "rs"@);
    assert(names[3] == "py"@);
    assert(names[4] == "js"@);
    assert(names[5] == "ts"@);
    assert(names[6] == "tsx"@);
    assert(names[7] == "jsx"@);
    assert(names[8] == "java"@);
    assert(names[9] == "c"@);
    assert(names[10] == "h"@);
    assert(names[11] == "cpp"@);
    assert(names[12] == "hpp"@);
    assert(names[13] == "go"@);
    assert(names[14] == "rb"@);
    assert(names[15] == "sh"@);
    assert(names[16] == "bash"@);
    assert(names[17] == "zsh"@);
    assert(names[18] == "toml"@);
    assert(names[19] == "yaml"@);
    assert(names[20] == "yml"@);
    assert(names[21] == "json"@);
    assert(names[22] == "xml"@);
    assert(names[23] == "html"@);
    assert(names[24] == "css"@);
    assert(names[25] == "scss"@);
    assert(names[26] == "sql"@);
    assert(names[27] == "csv"@);
    assert(names[28] == "tsv"@);
    assert(names[29] == "log"@);
    assert(names[30] == "ini"@);
    assert(names[31] == "cfg"@);
    assert(names[32] == "conf"@);
    assert(names[33] == "env"@);
    assert(names[34] == "dockerfile"@);
    assert(names[35] == "makefile"@);
    assert(names[36] == "gitignore"@);
    assert(names[37] == "editorconfig"@);
    assert(names[38] == "properties"@);
    assert(names[39] == "gradle"@);
    assert(names[40] == "swift"@);
    assert(names[41] == "kt"@);
    assert(names[42] == "lua"@);
    assert(names[43] == "r"@);
    assert(names[44] == "pl"@);
}

/// A file is named as an image if and only if its extension is one of those.
pub proof fn law_image_names(ext: Seq<char>)
    ensures
        names_image(ext) <==> image_names().contains(ext),
{
    let names = image_names();
    assert(names[0] == "png"@);
    assert(names[1] == "jpg"@);
    assert(names[2] == "jpeg"@);
    assert(names[3] == "gif"@);
    assert(names[4] == "bmp"@);
    assert(names[5] == "webp"@);
    assert(names[6] == "tiff"@);
    assert(names[7] == "svg"@);
}

/// A file is named as a sound if and only if its extension is one of those.
pub proof fn law_audio_names(ext: Seq<char>)
    ensures
        names_audio(ext) <==> audio_names().contains(ext),
{
    let names = audio_names();
    assert(names[0] == "opus"@);
    assert(names[1] == "ogg"@);
    assert(names[2] == "mp3"@);
    assert(names[3] == "wav"@);
    assert(names[4] == "m4a"@);
    assert(names[5] == "aac"@);
    assert(names[6] == "flac"@);
}

/// A file is named as a film if and only if its extension is one of those.
pub proof fn law_video_names(ext: Seq<char>)
    ensures
        names_video(ext) <==> video_names().contains(ext),
{
    let names = video_names();
    assert(names[0] == "mp4"@);
    assert(names[1] == "mov"@);
    assert(names[2] == "avi"@);
    assert(names[3] == "mkv"@);
    assert(names[4] == "webm"@);
}

/// Sounds, films and documents are uploaded as what they are, anything else as a stream.
pub proof fn law_upload_type(ext: Seq<char>)
    ensures
        audio_names().contains(ext) ==> upload_type(ext) == "opus"@,
        video_names().contains(ext) ==> upload_type(ext) == "mp4"@,
        upload_type("pdf"@) == "pdf"@,
        upload_type("doc"@) == "doc"@ && upload_type("docx"@) == "doc"@,
        upload_type("xls"@) == "xls"@ && upload_type("xlsx"@) == "xls"@,
        upload_type("ppt"@) == "ppt"@ && upload_type("pptx"@) == "ppt"@,
        !audio_names().contains(ext) && !video_names().contains(ext) && ext != "pdf"@ && ext
            != "doc"@ && ext != "docx"@ && ext != "xls"@ && ext != "xlsx"@ && ext != "ppt"@ && ext
            != "pptx"@ ==> upload_type(ext) == "stream"@,
{
    law_audio_names(ext);
    law_video_names(ext);
    reveal_strlit("opus");
    reveal_strlit("ogg");
    reveal_strlit("mp3");
    reveal_strlit("wav");
    reveal_strlit("m4a");
    reveal_strlit("aac");
    reveal_strlit("flac");
    reveal_strlit("mp4");
    reveal_strlit("mov");
    reveal_strlit("avi");
    reveal_strlit("mkv");
    reveal_strlit("webm");
    reveal_strlit("pdf");
    reveal_strlit("doc");
    reveal_strlit("docx");
    reveal_strlit("xls");
    reveal_strlit("xlsx");
    reveal_strlit("ppt");
    reveal_strlit("pptx");
    assert("opus"@.len() == 4 && "opus"@[0] == 'o' && "opus"@[1] == 'p' && "opus"@[2] == 'u' && "opus"@[3] == 's');
    assert("ogg"@.len() == 3 && "ogg"@[0] == 'o' && "ogg"@[1] == 'g' && "ogg"@[2] == 'g');
    assert("mp3"@.len() == 3 && "mp3"@[0] == 'm' && "mp3"@[1] == 'p' && "mp3"@[2] == '3');
    assert("wav"@.len() == 3 && "wav"@[0] == 'w' && "wav"@[1] == 'a' && "wav"@[2] == 'v');
    assert("m4a"@.len() == 3 && "m4a"@[0] == 'm' && "m4a"@[1] == '4' && "m4a"@[2] == 'a');
    assert("aac"@.len() == 3 && "aac"@[0] == 'a' && "aac"@[1] == 'a' && "aac"@[2] == 'c');
    assert("flac"@.len() == 4 && "flac"@[0] == 'f' && "flac"@[1] == 'l' && "flac"@[2] == 'a' && "flac"@[3] == 'c');
    assert("mp4"@.len() == 3 && "mp4"@[0] == 'm' && "mp4"@[1] == 'p' && "mp4"@[2] == '4');
    assert("mov"@.len() == 3 && "mov"@[0] == 'm' && "mov"@[1] == 'o' && "mov"@[2] == 'v');
    assert("avi"@.len() == 3 && "avi"@[0] == 'a' && "avi"@[1] == 'v' && "avi"@[2] == 'i');
    assert("mkv"@.len() == 3 && "mkv"@[0] == 'm' && "mkv"@[1] == 'k' && "mkv"@[2] == 'v');
    assert("webm"@.len() == 4 && "webm"@[0] == 'w' && "webm"@[1] == 'e' && "webm"@[2] == 'b' && "webm"@[3] == 'm');
    assert("pdf"@.len() == 3 && "pdf"@[0] == 'p' && "pdf"@[1] == 'd' && "pdf"@[2] == 'f');
    assert("doc"@.len() == 3 && "doc"@[0] == 'd' && "doc"@[1] == 'o' && "doc"@[2] == 'c');
    assert("docx"@.len() == 4 && "docx"@[0] == 'd' && "docx"@[1] == 'o' && "docx"@[2] == 'c' && "docx"@[3] == 'x');
    assert("xls"@.len() == 3 && "xls"@[0] == 'x' && "xls"@[1] == 'l' && "xls"@[2] == 's');
    assert("xlsx"@.len() == 4 && "xlsx"@[0] == 'x' && "xlsx"@[1] == 'l' && "xlsx"@[2] == 's' && "xlsx"@[3] == 'x');
    assert("ppt"@.len() == 3 && "ppt"@[0] == 'p' && "ppt"@[1] == 'p' && "ppt"@[2] == 't');
    assert("pptx"@.len() == 4 && "pptx"@[0] == 'p' && "pptx"@[1] == 'p' && "pptx"@[2] == 't' && "pptx"@[3] == 'x');
}

/// Whether data looks like text rests on all of its first eight kilobytes and on nothing
/// behind them.
pub proof fn law_textual(data: Seq<u8>)
    ensures
        data.take(if data.len() < 8 * 1024 {
            data.len() as int
        } else {
            8192
        }).contains(0) <==> !textual(data),
{
    let n: int = if data.len() < 8 * 1024 {
        data.len() as int
    } else {
        8192
    };
    let head = data.take(n);
    if head.contains(0) {
        let i = choose|i: int| 0 <= i < head.len() && head[i] == 0;
        assert(data[i] == 0);
    }
    if !textual(data) {
        let i = choose|i: int| 0 <= i < data.len() && i < 8192 && data[i] == 0;
        assert(head[i] == 0);
    }
}

/// All of a text reaches the chat: each of the messages goes to it with a card that holds
/// a part of the text, and the parts in a row are the whole of it.
pub proof fn law_whole_text_is_sent(recipient: Seq<char>, text: Seq<char>) -> (parts: Seq<
    Seq<char>,
>)
    ensures
        parts.flatten() == text,
        parts.len() == cards_for(recipient, text).len(),
        forall|i: int|
            0 <= i < parts.len() ==> text::byte_len(#[trigger] parts[i]) <= 28_000,
        forall|i: int|
            0 <= i < parts.len() ==> {
                let sent = #[trigger] cards_for(recipient, text)[i];
                &&& sent.get("receive_id"@) == Some(JsonV::Text(recipient))
                &&& sent.get("content"@) == Some(JsonV::Text(json::text_of(card(parts[i], None))))
            },
{
    let parts = chunks::chunks(text, 28_000);
    chunks::law_chunks_break_at_lines(text, 28_000);
    assert forall|i: int| 0 <= i < parts.len() implies text::byte_len(#[trigger] parts[i])
        <= 28_000 by {
        text::lemma_byte_len_utf8(parts[i]);
        text::lemma_byte_len_bounds(parts[i]);
    }
    assert forall|i: int| 0 <= i < parts.len() implies {
        let sent = #[trigger] cards_for(recipient, text)[i];
        &&& sent.get("receive_id"@) == Some(JsonV::Text(recipient))
        &&& sent.get("content"@) == Some(JsonV::Text(json::text_of(card(parts[i], None))))
    } by {
        law_message_body(recipient, "interactive"@, parts[i]);
    }
    parts
}

/// A token is used from when it was taken into use for as many seconds as it was taken
/// for, and no longer; one that is empty is never used.
pub proof fn law_token_is_used(token: Seq<char>, ttl: int, taken: int, now: int)
    ensures
        token.len() > 0 && now - taken < 1000 * ttl ==> in_use(token, use_ends(ttl, taken), now)
            == Some(token),
        now - taken >= 1000 * ttl ==> in_use(token, use_ends(ttl, taken), now) is None,
        token.len() == 0 ==> in_use(token, use_ends(ttl, taken), now) is None,
{
}

} // verus!
