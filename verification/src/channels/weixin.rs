//! The Weixin channel: configuration, messages, requests, uploads and the
//! polling for updates.

use crate::channels::chunks;
use crate::codec;
use crate::json;
use crate::json::{Fields, Json, JsonNumberV, JsonV};
use crate::maps::NameMap;
use crate::paths;
use crate::stamps;
use crate::text;
use vstd::prelude::*;
use vstd::utf8::*;

verus! {

broadcast use vstd::string::group_string_axioms;

// ---------------------------------------------------------------------------
// Configuration
// ---------------------------------------------------------------------------

/// How to reach Weixin.
#[derive(Debug, Clone)]
pub struct WeixinChannelConfig {
    pub bot_token: String,
    pub base_url: String,
    pub cdn_base_url: String,
    pub route_tag: Option<String>,
    pub account_id: Option<String>,
}

/// The address of the API where none is configured.
pub fn default_base_url() -> (res: String)
    ensures
        res@ == "https://ilinkai.weixin.qq.com"@,
{
    text::owned("https://ilinkai.weixin.qq.com")
}

/// The address of the file store where none is configured.
pub fn default_cdn_base_url() -> (res: String)
    ensures
        res@ == "https://novac2c.cdn.weixin.qq.com/c2c"@,
{
    text::owned("https://novac2c.cdn.weixin.qq.com/c2c")
}

impl WeixinChannelConfig {
    /// Whether there is a token to work with.
    pub fn has_token(&self) -> (res: bool)
        ensures
            res == (text::trim(self.bot_token@).len() > 0),
    {
        !text::is_blank(self.bot_token.as_str())
    }
}

/// The largest text of one message, in bytes.
pub const WEIXIN_TEXT_MAX_CHARS: usize = 4000;

pub const MSG_TYPE_USER: u32 = 1;

pub const MSG_TYPE_BOT: u32 = 2;

pub const MSG_STATE_NEW: u32 = 0;

pub const MSG_STATE_FINISH: u32 = 2;

pub const ITEM_TYPE_TEXT: u32 = 1;

pub const ITEM_TYPE_IMAGE: u32 = 2;

pub const ITEM_TYPE_FILE: u32 = 4;

pub const ITEM_TYPE_VIDEO: u32 = 5;

pub const UPLOAD_MEDIA_TYPE_IMAGE: u32 = 1;

pub const UPLOAD_MEDIA_TYPE_VIDEO: u32 = 2;

pub const UPLOAD_MEDIA_TYPE_FILE: u32 = 3;

pub const TYPING_STATUS_TYPING: u32 = 1;

/// How often a file is offered to the store.
pub const CDN_UPLOAD_MAX_RETRIES: u32 = 3;

/// How long polling rests once the session has run out, in milliseconds.
pub const SESSION_PAUSE_MS: u64 = 3_600_000;

/// Where the mark of the last update is kept.
pub fn sync_buf_path(data_dir: &str) -> (res: String)
    ensures
        res@ == paths::joined(data_dir@, "weixin_sync.json"@),
{
    paths::join(data_dir, "weixin_sync.json")
}

/// `url` with one slash at its end.
pub open spec fn with_slash(url: Seq<char>) -> Seq<char> {
    if url.len() > 0 && url.last() == '/' {
        url
    } else {
        url.push('/')
    }
}

/// `url` with one slash at its end.
pub fn ensure_trailing_slash(url: &str) -> (res: String)
    ensures
        res@ == with_slash(url@),
{
    let v = text::to_chars(url);
    let mut res = url.to_owned();
    if !(v.len() > 0 && v[v.len() - 1] == '/') {
        res.push('/');
    }
    res
}

/// The address of a method of the API.
pub fn api_url(base_url: &str, method: &str) -> (res: String)
    ensures
        res@ == with_slash(base_url@) + method@,
{
    let base = ensure_trailing_slash(base_url);
    text::cat(base.as_str(), method)
}

// ---------------------------------------------------------------------------
// Headers
// ---------------------------------------------------------------------------

/// The number whose bytes, least first, are the first four.
pub open spec fn le_number(bytes: Seq<u8>) -> nat {
    (bytes[0] + 256 * bytes[1] + 65536 * bytes[2] + 16777216 * bytes[3]) as nat
}

/// The mark of a request made of four bytes: their number in decimal, in base 64.
pub open spec fn uin_of(bytes: Seq<u8>) -> Seq<char> {
    codec::base64(encode_utf8(text::digits(le_number(bytes))))
}

/// The mark of a request made of the first four bytes.
pub fn wechat_uin(bytes: &Vec<u8>) -> (res: String)
    requires
        bytes@.len() >= 4,
    ensures
        res@ == uin_of(bytes@),
{
    let n: u64 = bytes[0] as u64 + 256 * (bytes[1] as u64) + 65536 * (bytes[2] as u64) + 16777216
        * (bytes[3] as u64);
    let number = text::decimal(n);
    codec::base64_encode(number.as_str().as_bytes())
}

/// A random mark of a request.
pub fn random_wechat_uin() -> (res: String)
    ensures
        exists|bytes: Seq<u8>| bytes.len() == 16 && res@ == #[trigger] uin_of(bytes),
{
    let bytes = stamps::fresh_bytes();
    wechat_uin(&bytes)
}

/// The headers of a request with this mark. A token or a tag that is empty is
/// left out.
pub open spec fn headers_for(
    token: Seq<char>,
    route_tag: Option<Seq<char>>,
    uin: Seq<char>,
) -> Seq<(Seq<char>, Seq<char>)> {
    let fixed = Seq::empty().push(("Content-Type"@, "application/json"@)).push(
        ("AuthorizationType"@, "ilink_bot_token"@),
    );
    let authorized = if token.len() > 0 {
        fixed.push(("Authorization"@, "Bearer "@ + token))
    } else {
        fixed
    };
    let marked = authorized.push(("X-WECHAT-UIN"@, uin));
    match route_tag {
        Some(tag) => if tag.len() > 0 {
            marked.push(("SKRouteTag"@, tag))
        } else {
            marked
        },
        None => marked,
    }
}

/// Appends a header.
fn push_header(headers: &mut Vec<(String, String)>, name: &str, value: &str)
    ensures
        text::pairs(final(headers)@) == text::pairs(old(headers)@).push((name@, value@)),
{
    let ghost before = text::pairs(headers@);
    headers.push((name.to_owned(), value.to_owned()));
    assert(text::pairs(headers@) =~= before.push((name@, value@)));
}

/// The headers of a request with this mark.
pub fn build_headers_with(token: &str, route_tag: Option<&str>, uin: &str) -> (res: Vec<
    (String, String),
>)
    ensures
        text::pairs(res@) == headers_for(token@, json::opt_str(route_tag), uin@),
{
    let mut headers: Vec<(String, String)> = Vec::new();
    assert(text::pairs(headers@) =~= Seq::empty());
    push_header(&mut headers, "Content-Type", "application/json");
    push_header(&mut headers, "AuthorizationType", "ilink_bot_token");
    if !token.is_empty() {
        let bearer = text::cat("Bearer ", token);
        push_header(&mut headers, "Authorization", bearer.as_str());
    }
    push_header(&mut headers, "X-WECHAT-UIN", uin);
    match route_tag {
        Some(tag) => {
            if !tag.is_empty() {
                push_header(&mut headers, "SKRouteTag", tag);
            }
        },
        None => {},
    }
    headers
}

/// The headers of a request, with a random mark.
pub fn build_headers(token: &str, route_tag: Option<&str>) -> (res: Vec<(String, String)>)
    ensures
        exists|bytes: Seq<u8>|
            bytes.len() == 16 && text::pairs(res@) == headers_for(
                token@,
                json::opt_str(route_tag),
                #[trigger] uin_of(bytes),
            ),
{
    let uin = random_wechat_uin();
    build_headers_with(token, route_tag, uin.as_str())
}

// ---------------------------------------------------------------------------
// Messages
// ---------------------------------------------------------------------------

/// What a client says of itself.
#[derive(Debug, Clone)]
pub struct BaseInfo {
    pub channel_version: String,
}

/// What a client of this version says of itself.
pub fn build_base_info(version: &str) -> (res: BaseInfo)
    ensures
        res.channel_version@ == version@,
{
    BaseInfo { channel_version: version.to_owned() }
}

#[derive(Debug, Clone, Default)]
pub struct TextItem {
    pub text: Option<String>,
}

/// A file in the store.
#[derive(Debug, Clone, Default)]
pub struct CDNMedia {
    pub encrypt_query_param: Option<String>,
    pub aes_key: Option<String>,
    pub encrypt_type: Option<u32>,
}

#[derive(Debug, Clone, Default)]
pub struct ImageItem {
    pub media: Option<CDNMedia>,
    pub mid_size: Option<u64>,
}

#[derive(Debug, Clone, Default)]
pub struct FileItem {
    pub media: Option<CDNMedia>,
    pub file_name: Option<String>,
    pub len: Option<String>,
}

#[derive(Debug, Clone, Default)]
pub struct VideoItem {
    pub media: Option<CDNMedia>,
    pub video_size: Option<u64>,
}

/// One part of a message.
#[derive(Debug, Clone, Default)]
pub struct MessageItem {
    pub item_type: Option<u32>,
    pub text_item: Option<TextItem>,
    pub image_item: Option<ImageItem>,
    pub file_item: Option<FileItem>,
    pub video_item: Option<VideoItem>,
    pub create_time_ms: Option<u64>,
}

/// A message.
#[derive(Debug, Clone, Default)]
pub struct WeixinMessage {
    pub seq: Option<u64>,
    pub message_id: Option<u64>,
    pub from_user_id: Option<String>,
    pub to_user_id: Option<String>,
    pub client_id: Option<String>,
    pub session_id: Option<String>,
    pub group_id: Option<String>,
    pub message_type: Option<u32>,
    pub message_state: Option<u32>,
    pub item_list: Option<Vec<MessageItem>>,
    pub context_token: Option<String>,
}

/// An optional text as JSON.
pub open spec fn opt_text_json(t: Option<String>) -> Option<JsonV> {
    match t {
        Some(s) => Some(JsonV::Text(s@)),
        None => None,
    }
}

/// An optional number as JSON.
pub open spec fn opt_u64_json(n: Option<u64>) -> Option<JsonV> {
    match n {
        Some(x) => Some(json::num(x)),
        None => None,
    }
}

/// An optional small number as JSON.
pub open spec fn opt_u32_json(n: Option<u32>) -> Option<JsonV> {
    match n {
        Some(x) => Some(json::num(x as u64)),
        None => None,
    }
}

fn text_json(t: &Option<String>) -> (res: Option<Json>)
    ensures
        match res {
            Some(j) => opt_text_json(*t) == Some(j@),
            None => opt_text_json(*t) is None,
        },
{
    match t {
        Some(s) => Some(json::string(s.as_str())),
        None => None,
    }
}

fn u64_json(n: Option<u64>) -> (res: Option<Json>)
    ensures
        match res {
            Some(j) => opt_u64_json(n) == Some(j@),
            None => opt_u64_json(n) is None,
        },
{
    match n {
        Some(x) => Some(json::number(x)),
        None => None,
    }
}

fn u32_json(n: Option<u32>) -> (res: Option<Json>)
    ensures
        match res {
            Some(j) => opt_u32_json(n) == Some(j@),
            None => opt_u32_json(n) is None,
        },
{
    match n {
        Some(x) => Some(json::number(x as u64)),
        None => None,
    }
}

/// No members.
pub open spec fn no_members() -> Seq<(Seq<char>, JsonV)> {
    Seq::empty()
}

impl TextItem {
    /// How this part is written; what is not there is left out.
    pub open spec fn json(self) -> JsonV {
        JsonV::Object(json::and_opt(no_members(), "text"@, opt_text_json(self.text)))
    }

    pub fn to_json(&self) -> (res: Json)
        ensures
            res@ == self.json(),
    {
        Fields::new().with_opt("text", text_json(&self.text)).object()
    }
}

impl CDNMedia {
    /// How a file in the store is written.
    pub open spec fn json(self) -> JsonV {
        JsonV::Object(
            json::and_opt(
                json::and_opt(
                    json::and_opt(
                        no_members(),
                        "encrypt_query_param"@,
                        opt_text_json(self.encrypt_query_param),
                    ),
                    "aes_key"@,
                    opt_text_json(self.aes_key),
                ),
                "encrypt_type"@,
                opt_u32_json(self.encrypt_type),
            ),
        )
    }

    pub fn to_json(&self) -> (res: Json)
        ensures
            res@ == self.json(),
    {
        Fields::new().with_opt("encrypt_query_param", text_json(&self.encrypt_query_param)).with_opt(
            "aes_key",
            text_json(&self.aes_key),
        ).with_opt("encrypt_type", u32_json(self.encrypt_type)).object()
    }
}

/// An optional file in the store as JSON.
pub open spec fn opt_media_json(m: Option<CDNMedia>) -> Option<JsonV> {
    match m {
        Some(x) => Some(x.json()),
        None => None,
    }
}

fn media_json(m: &Option<CDNMedia>) -> (res: Option<Json>)
    ensures
        match res {
            Some(j) => opt_media_json(*m) == Some(j@),
            None => opt_media_json(*m) is None,
        },
{
    match m {
        Some(x) => Some(x.to_json()),
        None => None,
    }
}

impl ImageItem {
    pub open spec fn json(self) -> JsonV {
        JsonV::Object(
            json::and_opt(
                json::and_opt(no_members(), "media"@, opt_media_json(self.media)),
                "mid_size"@,
                opt_u64_json(self.mid_size),
            ),
        )
    }

    pub fn to_json(&self) -> (res: Json)
        ensures
            res@ == self.json(),
    {
        Fields::new().with_opt("media", media_json(&self.media)).with_opt(
            "mid_size",
            u64_json(self.mid_size),
        ).object()
    }
}

impl FileItem {
    pub open spec fn json(self) -> JsonV {
        JsonV::Object(
            json::and_opt(
                json::and_opt(
                    json::and_opt(no_members(), "media"@, opt_media_json(self.media)),
                    "file_name"@,
                    opt_text_json(self.file_name),
                ),
                "len"@,
                opt_text_json(self.len),
            ),
        )
    }

    pub fn to_json(&self) -> (res: Json)
        ensures
            res@ == self.json(),
    {
        Fields::new().with_opt("media", media_json(&self.media)).with_opt(
            "file_name",
            text_json(&self.file_name),
        ).with_opt("len", text_json(&self.len)).object()
    }
}

impl VideoItem {
    pub open spec fn json(self) -> JsonV {
        JsonV::Object(
            json::and_opt(
                json::and_opt(no_members(), "media"@, opt_media_json(self.media)),
                "video_size"@,
                opt_u64_json(self.video_size),
            ),
        )
    }

    pub fn to_json(&self) -> (res: Json)
        ensures
            res@ == self.json(),
    {
        Fields::new().with_opt("media", media_json(&self.media)).with_opt(
            "video_size",
            u64_json(self.video_size),
        ).object()
    }
}

impl MessageItem {
    /// How a part of a message is written; what is not there is left out.
    pub open spec fn json(self) -> JsonV {
        let m1 = json::and_opt(no_members(), "type"@, opt_u32_json(self.item_type));
        let m2 = json::and_opt(
            m1,
            "text_item"@,
            match self.text_item {
                Some(x) => Some(x.json()),
                None => None,
            },
        );
        let m3 = json::and_opt(
            m2,
            "image_item"@,
            match self.image_item {
                Some(x) => Some(x.json()),
                None => None,
            },
        );
        let m4 = json::and_opt(
            m3,
            "file_item"@,
            match self.file_item {
                Some(x) => Some(x.json()),
                None => None,
            },
        );
        let m5 = json::and_opt(
            m4,
            "video_item"@,
            match self.video_item {
                Some(x) => Some(x.json()),
                None => None,
            },
        );
        JsonV::Object(json::and_opt(m5, "create_time_ms"@, opt_u64_json(self.create_time_ms)))
    }

    pub fn to_json(&self) -> (res: Json)
        ensures
            res@ == self.json(),
    {
        let text_part = match &self.text_item {
            Some(x) => Some(x.to_json()),
            None => None,
        };
        let image_part = match &self.image_item {
            Some(x) => Some(x.to_json()),
            None => None,
        };
        let file_part = match &self.file_item {
            Some(x) => Some(x.to_json()),
            None => None,
        };
        let video_part = match &self.video_item {
            Some(x) => Some(x.to_json()),
            None => None,
        };
        Fields::new().with_opt("type", u32_json(self.item_type)).with_opt(
            "text_item",
            text_part,
        ).with_opt("image_item", image_part).with_opt("file_item", file_part).with_opt(
            "video_item",
            video_part,
        ).with_opt("create_time_ms", u64_json(self.create_time_ms)).object()
    }
}

/// The parts of a message as JSON.
pub open spec fn items_json(items: Seq<MessageItem>) -> Seq<JsonV> {
    Seq::new(items.len(), |i: int| items[i].json())
}

fn items_to_json(items: &Vec<MessageItem>) -> (res: Json)
    ensures
        res@ == JsonV::Array(items_json(items@)),
{
    let mut out: Vec<Json> = Vec::new();
    let mut i: usize = 0;
    while i < items.len()
        invariant
            i <= items@.len(),
            json::values(out@) == items_json(items@).take(i as int),
        decreases items@.len() - i,
    {
        let ghost before = json::values(out@);
        let item = items[i].to_json();
        out.push(item);
        assert(json::values(out@) =~= before.push(item@));
        assert(items_json(items@).take(i + 1) =~= items_json(items@).take(i as int).push(
            items@[i as int].json(),
        ));
        i += 1;
    }
    assert(json::values(out@) =~= items_json(items@));
    json::array(out)
}

impl WeixinMessage {
    /// How a message is written; what is not there is left out.
    pub open spec fn json(self) -> JsonV {
        let m1 = json::and_opt(no_members(), "seq"@, opt_u64_json(self.seq));
        let m2 = json::and_opt(m1, "message_id"@, opt_u64_json(self.message_id));
        let m3 = json::and_opt(m2, "from_user_id"@, opt_text_json(self.from_user_id));
        let m4 = json::and_opt(m3, "to_user_id"@, opt_text_json(self.to_user_id));
        let m5 = json::and_opt(m4, "client_id"@, opt_text_json(self.client_id));
        let m6 = json::and_opt(m5, "session_id"@, opt_text_json(self.session_id));
        let m7 = json::and_opt(m6, "group_id"@, opt_text_json(self.group_id));
        let m8 = json::and_opt(m7, "message_type"@, opt_u32_json(self.message_type));
        let m9 = json::and_opt(m8, "message_state"@, opt_u32_json(self.message_state));
        let m10 = json::and_opt(
            m9,
            "item_list"@,
            match self.item_list {
                Some(items) => Some(JsonV::Array(items_json(items@))),
                None => None,
            },
        );
        JsonV::Object(json::and_opt(m10, "context_token"@, opt_text_json(self.context_token)))
    }

    pub fn to_json(&self) -> (res: Json)
        ensures
            res@ == self.json(),
    {
        let items = match &self.item_list {
            Some(items) => Some(items_to_json(items)),
            None => None,
        };
        Fields::new().with_opt("seq", u64_json(self.seq)).with_opt(
            "message_id",
            u64_json(self.message_id),
        ).with_opt("from_user_id", text_json(&self.from_user_id)).with_opt(
            "to_user_id",
            text_json(&self.to_user_id),
        ).with_opt("client_id", text_json(&self.client_id)).with_opt(
            "session_id",
            text_json(&self.session_id),
        ).with_opt("group_id", text_json(&self.group_id)).with_opt(
            "message_type",
            u32_json(self.message_type),
        ).with_opt("message_state", u32_json(self.message_state)).with_opt(
            "item_list",
            items,
        ).with_opt("context_token", text_json(&self.context_token)).object()
    }
}

/// What a client says of itself, as JSON.
pub open spec fn base_info_json(version: Seq<char>) -> JsonV {
    json::obj1("channel_version"@, json::jstr(version))
}

impl BaseInfo {
    pub fn to_json(&self) -> (res: Json)
        ensures
            res@ == base_info_json(self.channel_version@),
    {
        Fields::new().text("channel_version", self.channel_version.as_str()).object()
    }
}

/// The body that sends a message.
pub fn send_message_request(msg: &WeixinMessage, version: &str) -> (res: Json)
    ensures
        res@ == json::obj2("msg"@, msg.json(), "base_info"@, base_info_json(version@)),
{
    let info = build_base_info(version);
    Fields::new().with("msg", msg.to_json()).with("base_info", info.to_json()).object()
}

/// The body that asks for updates behind a mark.
pub fn get_updates_request(get_updates_buf: &str, version: &str) -> (res: Json)
    ensures
        res@ == json::obj2(
            "get_updates_buf"@,
            json::jstr(get_updates_buf@),
            "base_info"@,
            base_info_json(version@),
        ),
{
    let info = build_base_info(version);
    Fields::new().text("get_updates_buf", get_updates_buf).with(
        "base_info",
        info.to_json(),
    ).object()
}

/// The body that asks for the settings of a user.
pub fn get_config_request(user_id: &str, context_token: Option<&str>, version: &str) -> (res: Json)
    ensures
        res@ == JsonV::Object(
            json::and_opt(
                no_members().push(("ilink_user_id"@, json::jstr(user_id@))).push(
                    ("base_info"@, base_info_json(version@)),
                ),
                "context_token"@,
                match json::opt_str(context_token) {
                    Some(t) => Some(JsonV::Text(t)),
                    None => None,
                },
            ),
        ),
{
    let info = build_base_info(version);
    let token = match context_token {
        Some(t) => Some(json::string(t)),
        None => None,
    };
    Fields::new().text("ilink_user_id", user_id).with("base_info", info.to_json()).with_opt(
        "context_token",
        token,
    ).object()
}

/// The body that shows the bot as typing.
pub fn send_typing_request(user_id: &str, typing_ticket: &str, version: &str) -> (res: Json)
    ensures
        res@ == json::obj4(
            "ilink_user_id"@,
            json::jstr(user_id@),
            "typing_ticket"@,
            json::jstr(typing_ticket@),
            "status"@,
            json::num(TYPING_STATUS_TYPING as u64),
            "base_info"@,
            base_info_json(version@),
        ),
{
    let info = build_base_info(version);
    Fields::new().text("ilink_user_id", user_id).text("typing_ticket", typing_ticket).with(
        "status",
        json::number(TYPING_STATUS_TYPING as u64),
    ).with("base_info", info.to_json()).object()
}

/// A message of the bot with one part.
pub open spec fn bot_message_json(
    to: Seq<char>,
    client_id: Seq<char>,
    item: JsonV,
    context_token: Option<Seq<char>>,
) -> JsonV {
    JsonV::Object(
        json::and_opt(
            no_members().push(("from_user_id"@, json::jstr(Seq::empty()))).push(
                ("to_user_id"@, json::jstr(to)),
            ).push(("client_id"@, json::jstr(client_id))).push(
                ("message_type"@, json::num(MSG_TYPE_BOT as u64)),
            ).push(("message_state"@, json::num(MSG_STATE_FINISH as u64))).push(
                ("item_list"@, JsonV::Array(seq![item])),
            ),
            "context_token"@,
            match context_token {
                Some(t) => Some(JsonV::Text(t)),
                None => None,
            },
        ),
    )
}

/// A part that holds a text.
pub open spec fn text_item_json(t: Seq<char>) -> JsonV {
    json::obj2(
        "type"@,
        json::num(ITEM_TYPE_TEXT as u64),
        "text_item"@,
        json::obj1("text"@, json::jstr(t)),
    )
}

/// A message of the bot with one part.
pub fn bot_message(to: &str, client_id: String, item: MessageItem, context_token: Option<&str>) ->
    (res: WeixinMessage)
    ensures
        res.json() == bot_message_json(
            to@,
            client_id@,
            item.json(),
            json::opt_str(context_token),
        ),
{
    let mut items: Vec<MessageItem> = Vec::new();
    items.push(item);
    assert(items_json(items@) =~= seq![item.json()]);
    WeixinMessage {
        seq: None,
        message_id: None,
        from_user_id: Some(String::new()),
        to_user_id: Some(to.to_owned()),
        client_id: Some(client_id),
        session_id: None,
        group_id: None,
        message_type: Some(MSG_TYPE_BOT),
        message_state: Some(MSG_STATE_FINISH),
        item_list: Some(items),
        context_token: match context_token {
            Some(t) => Some(t.to_owned()),
            None => None,
        },
    }
}

/// A part that holds a text.
pub fn text_item(t: &str) -> (res: MessageItem)
    ensures
        res.json() == text_item_json(t@),
{
    MessageItem {
        item_type: Some(ITEM_TYPE_TEXT),
        text_item: Some(TextItem { text: Some(t.to_owned()) }),
        image_item: None,
        file_item: None,
        video_item: None,
        create_time_ms: None,
    }
}

/// Cuts a text into chunks of at most `max_chars` bytes, behind line ends where
/// there are any.
pub fn split_text_chunks(text: &str, max_chars: usize) -> (res: Vec<String>)
    ensures
        text::strs(res@) == chunks::chunks(text@, max_chars as nat),
{
    chunks::split_chunks(text, max_chars)
}

/// Whether a message of the bot, under an id of the length that ids have, carries
/// one part to a user.
pub open spec fn carries(
    msg: WeixinMessage,
    to: Seq<char>,
    item: JsonV,
    context_token: Option<Seq<char>>,
) -> bool {
    exists|id: Seq<char>|
        id.len() == 36 && msg.json() == #[trigger] bot_message_json(to, id, item, context_token)
}

/// A message of the bot with one part, under a fresh id.
pub fn new_bot_message(to: &str, item: MessageItem, context_token: Option<&str>) -> (res:
    WeixinMessage)
    ensures
        carries(res, to@, item.json(), json::opt_str(context_token)),
{
    let id = stamps::fresh_id();
    let ghost id_view = id@;
    let ghost item_view = item.json();
    let res = bot_message(to, id, item, context_token);
    assert(res.json() == bot_message_json(to@, id_view, item_view, json::opt_str(context_token)));
    res
}

/// Whether the messages carry a text to a user, chunk by chunk.
pub open spec fn carry_text(
    msgs: Seq<WeixinMessage>,
    to: Seq<char>,
    text: Seq<char>,
    context_token: Option<Seq<char>>,
) -> bool {
    let parts = chunks::chunks(text, WEIXIN_TEXT_MAX_CHARS as nat);
    &&& msgs.len() == parts.len()
    &&& forall|i: int|
        0 <= i < msgs.len() ==> carries(
            #[trigger] msgs[i],
            to,
            text_item_json(parts[i]),
            context_token,
        )
}

/// The messages that carry a text to a user: one for each chunk, each with an id
/// of its own.
pub fn text_messages(to: &str, text: &str, context_token: Option<&str>) -> (res: Vec<
    WeixinMessage,
>)
    ensures
        carry_text(res@, to@, text@, json::opt_str(context_token)),
        ({
            let parts = chunks::chunks(text@, WEIXIN_TEXT_MAX_CHARS as nat);
            &&& res@.len() == parts.len()
            &&& forall|i: int|
                0 <= i < parts.len() ==> carries(
                    #[trigger] res@[i],
                    to@,
                    text_item_json(parts[i]),
                    json::opt_str(context_token),
                )
        }),
{
    let parts = split_text_chunks(text, WEIXIN_TEXT_MAX_CHARS);
    let ghost views = text::strs(parts@);
    let mut out: Vec<WeixinMessage> = Vec::new();
    let mut i: usize = 0;
    while i < parts.len()
        invariant
            i <= parts@.len(),
            out@.len() == i,
            views == text::strs(parts@),
            forall|j: int|
                0 <= j < i ==> carries(
                    #[trigger] out@[j],
                    to@,
                    text_item_json(views[j]),
                    json::opt_str(context_token),
                ),
        decreases parts@.len() - i,
    {
        let item = text_item(parts[i].as_str());
        let msg = new_bot_message(to, item, context_token);
        out.push(msg);
        assert(views[i as int] == parts@[i as int]@);
        i += 1;
    }
    out
}

/// The text of the first of the parts from `i` on that holds one.
pub open spec fn first_text(items: Seq<MessageItem>, i: int) -> Seq<char>
    decreases items.len() - i,
{
    if i < 0 || i >= items.len() {
        Seq::empty()
    } else if items[i].item_type == Some(ITEM_TYPE_TEXT) && items[i].text_item is Some
        && items[i].text_item->0.text is Some {
        items[i].text_item->0.text->0@
    } else {
        first_text(items, i + 1)
    }
}

/// The text of a message: that of its first part that holds one.
pub open spec fn message_text(msg: WeixinMessage) -> Seq<char> {
    match msg.item_list {
        Some(items) => first_text(items@, 0),
        None => Seq::empty(),
    }
}

/// The text of a message.
pub fn extract_text(msg: &WeixinMessage) -> (res: String)
    ensures
        res@ == message_text(*msg),
{
    match &msg.item_list {
        None => String::new(),
        Some(items) => {
            let mut i: usize = 0;
            while i < items.len()
                invariant
                    i <= items@.len(),
                    msg.item_list == Some(*items),
                    first_text(items@, 0) == first_text(items@, i as int),
                decreases items@.len() - i,
            {
                let is_text = match items[i].item_type {
                    Some(t) => t == ITEM_TYPE_TEXT,
                    None => false,
                };
                if is_text {
                    match &items[i].text_item {
                        Some(part) => {
                            match &part.text {
                                Some(t) => {
                                    return t.clone();
                                },
                                None => {},
                            }
                        },
                        None => {},
                    }
                }
                i += 1;
            }
            String::new()
        },
    }
}

// ---------------------------------------------------------------------------
// What is remembered of users
// ---------------------------------------------------------------------------

/// The adapter: where the API is, and what is remembered of users.
pub struct WeixinAdapter {
    pub base_url: String,
    pub cdn_base_url: String,
    pub bot_token: String,
    pub route_tag: Option<String>,
    /// What each user's messages named, to be named in every message to them.
    pub context_tokens: NameMap<String>,
    /// What shows each user that an answer is being written.
    pub typing_tickets: NameMap<String>,
}

impl WeixinAdapter {
    /// No user has two tokens or two tickets.
    pub open spec fn wf(&self) -> bool {
        self.context_tokens.wf() && self.typing_tickets.wf()
    }

    /// The adapter that a configuration describes; nothing is remembered yet.
    pub fn new(config: &WeixinChannelConfig) -> (res: WeixinAdapter)
        ensures
            res.wf(),
            res.base_url@ == config.base_url@,
            res.cdn_base_url@ == config.cdn_base_url@,
            res.bot_token@ == config.bot_token@,
            text::opt(res.route_tag) == text::opt(config.route_tag),
            forall|user: Seq<char>| (#[trigger] res.context_tokens.of(user)) is None,
            forall|user: Seq<char>| (#[trigger] res.typing_tickets.of(user)) is None,
    {
        WeixinAdapter {
            base_url: config.base_url.clone(),
            cdn_base_url: config.cdn_base_url.clone(),
            bot_token: config.bot_token.clone(),
            route_tag: match &config.route_tag {
                Some(t) => Some(t.clone()),
                None => None,
            },
            context_tokens: NameMap::new(),
            typing_tickets: NameMap::new(),
        }
    }

    /// The name of the channel.
    pub fn name(&self) -> (res: String)
        ensures
            res@ == "weixin"@,
    {
        text::owned("weixin")
    }

    /// Remembers the context token of a user.
    pub fn set_context_token(&mut self, user_id: &str, token: &str)
        requires
            old(self).wf(),
        ensures
            final(self).wf(),
            forall|other: Seq<char>|
                text::opt(#[trigger] final(self).context_tokens.of(other)) == if other == user_id@ {
                    Some(token@)
                } else {
                    text::opt(old(self).context_tokens.of(other))
                },
            *final(self) == (WeixinAdapter {
                context_tokens: final(self).context_tokens,
                ..*old(self)
            }),
    {
        self.context_tokens.set(user_id, token.to_owned());
    }

    /// The context token of a user.
    pub fn get_context_token(&self, user_id: &str) -> (res: Option<String>)
        ensures
            text::opt(res) == text::opt(self.context_tokens.of(user_id@)),
    {
        match self.context_tokens.get(user_id) {
            Some(token) => Some(token.clone()),
            None => None,
        }
    }

    /// Remembers the typing ticket of a user.
    pub fn set_typing_ticket(&mut self, user_id: &str, ticket: &str)
        requires
            old(self).wf(),
        ensures
            final(self).wf(),
            forall|other: Seq<char>|
                text::opt(#[trigger] final(self).typing_tickets.of(other)) == if other == user_id@ {
                    Some(ticket@)
                } else {
                    text::opt(old(self).typing_tickets.of(other))
                },
            *final(self) == (WeixinAdapter {
                typing_tickets: final(self).typing_tickets,
                ..*old(self)
            }),
    {
        self.typing_tickets.set(user_id, ticket.to_owned());
    }

    /// The typing ticket of a user.
    pub fn get_typing_ticket(&self, user_id: &str) -> (res: Option<String>)
        ensures
            text::opt(res) == text::opt(self.typing_tickets.of(user_id@)),
    {
        match self.typing_tickets.get(user_id) {
            Some(ticket) => Some(ticket.clone()),
            None => None,
        }
    }
}

// ---------------------------------------------------------------------------
// Uploads
// ---------------------------------------------------------------------------

/// Enciphers the bytes of a file: filled up to whole blocks, block by block. No
/// other bytes become the same under the key.
pub fn aes_ecb_encrypt(plaintext: &[u8], key: &[u8; 16]) -> (res: Vec<u8>)
    ensures
        codec::enciphers(plaintext@, key@, res@),
        forall|other: Seq<u8>| #[trigger]
            codec::enciphers(other, key@, res@) ==> other == plaintext@,
{
    let res = codec::aes_encrypt(plaintext, key);
    assert forall|other: Seq<u8>| #[trigger] codec::enciphers(other, key@, res@) implies other
        == plaintext@ by {
        let a = codec::padded(other);
        let b = codec::padded(plaintext@);
        assert forall|j: int| 0 <= j < a.len() implies a[j] == b[j] by {
            let i = j / 16;
            assert(a.len() % 16 == 0);
            assert(0 <= 16 * i && 16 * i + 16 <= a.len());
            let block = a.subrange(16 * i, 16 * i + 16);
            assert(res@.subrange(16 * i, 16 * i + 16) == codec::aes_block(key@, block));
            assert(block == b.subrange(16 * i, 16 * i + 16));
            assert(block[j - 16 * i] == a[j]);
            assert(b.subrange(16 * i, 16 * i + 16)[j - 16 * i] == b[j]);
        }
        assert(a =~= b);
        codec::lemma_padded_once(other, plaintext@);
    }
    res
}

/// The size of an enciphered file: the next multiple of sixteen above its own.
pub open spec fn padded_size(n: nat) -> nat {
    (n / 16 + 1) * 16
}

/// The size of an enciphered file.
pub fn aes_ecb_padded_size(plaintext_size: u64) -> (res: u64)
    requires
        padded_size(plaintext_size as nat) <= u64::MAX,
    ensures
        res == padded_size(plaintext_size as nat),
{
    (plaintext_size / 16 + 1) * 16
}

/// The size that is announced for an upload is the size of what is uploaded.
pub proof fn law_announced_size(plaintext: Seq<u8>)
    ensures
        codec::padded(plaintext).len() == padded_size(plaintext.len()),
        codec::padded(plaintext).len() % 16 == 0,
        plaintext.len() < codec::padded(plaintext).len() <= plaintext.len() + 16,
{
}

/// What an upload is announced with.
pub struct UploadPlan {
    pub filekey: String,
    pub aeskey: [u8; 16],
    pub aeskey_hex: String,
    pub rawsize: u64,
    pub rawfilemd5: String,
    pub filesize: u64,
}

/// The announcement of an upload with this file key and this cipher key.
pub fn plan_upload_with(plaintext: &[u8], filekey_bytes: &Vec<u8>, key_bytes: &Vec<u8>) -> (res:
    UploadPlan)
    requires
        key_bytes@.len() == 16,
        padded_size(plaintext@.len()) <= u64::MAX,
    ensures
        res.filekey@ == codec::hex(filekey_bytes@),
        res.aeskey@ == key_bytes@,
        res.aeskey_hex@ == codec::hex(key_bytes@),
        res.rawsize == plaintext@.len(),
        res.rawfilemd5@ == codec::md5_text(plaintext@),
        res.filesize == codec::padded(plaintext@).len(),
{
    let rawsize: u64 = plaintext.len() as u64;
    let filesize: u64 = aes_ecb_padded_size(rawsize);
    proof {
        law_announced_size(plaintext@);
    }
    let aeskey: [u8; 16] = [
        key_bytes[0],
        key_bytes[1],
        key_bytes[2],
        key_bytes[3],
        key_bytes[4],
        key_bytes[5],
        key_bytes[6],
        key_bytes[7],
        key_bytes[8],
        key_bytes[9],
        key_bytes[10],
        key_bytes[11],
        key_bytes[12],
        key_bytes[13],
        key_bytes[14],
        key_bytes[15],
    ];
    assert(aeskey@ =~= key_bytes@);
    UploadPlan {
        filekey: codec::hex_encode(filekey_bytes.as_slice()),
        aeskey,
        aeskey_hex: codec::hex_encode(key_bytes.as_slice()),
        rawsize,
        rawfilemd5: codec::md5_hex(plaintext),
        filesize,
    }
}

/// The announcement of an upload with random keys.
pub fn plan_upload(plaintext: &[u8]) -> (res: UploadPlan)
    requires
        padded_size(plaintext@.len()) <= u64::MAX,
    ensures
        res.aeskey_hex@ == codec::hex(res.aeskey@),
        res.rawsize == plaintext@.len(),
        res.rawfilemd5@ == codec::md5_text(plaintext@),
        res.filesize == codec::padded(plaintext@).len(),
        exists|bytes: Seq<u8>| bytes.len() == 16 && res.filekey@ == #[trigger] codec::hex(bytes),
{
    let filekey_bytes = stamps::fresh_bytes();
    let key_bytes = stamps::fresh_bytes();
    plan_upload_with(plaintext, &filekey_bytes, &key_bytes)
}

/// The members of the body that asks where to upload.
pub open spec fn upload_url_json(
    plan: UploadPlan,
    media_type: u32,
    to: Seq<char>,
    version: Seq<char>,
) -> JsonV {
    JsonV::Object(
        no_members().push(("filekey"@, json::jstr(plan.filekey@))).push(
            ("media_type"@, json::num(media_type as u64)),
        ).push(("to_user_id"@, json::jstr(to))).push(("rawsize"@, json::num(plan.rawsize))).push(
            ("rawfilemd5"@, json::jstr(plan.rawfilemd5@)),
        ).push(("filesize"@, json::num(plan.filesize))).push(
            ("no_need_thumb"@, JsonV::Bool(true)),
        ).push(("aeskey"@, json::jstr(plan.aeskey_hex@))).push(
            ("base_info"@, base_info_json(version)),
        ),
    )
}

/// The body that asks where to upload.
pub fn get_upload_url_request(plan: &UploadPlan, media_type: u32, to: &str, version: &str) -> (res:
    Json)
    ensures
        res@ == upload_url_json(*plan, media_type, to@, version@),
{
    let info = build_base_info(version);
    Fields::new().text("filekey", plan.filekey.as_str()).with(
        "media_type",
        json::number(media_type as u64),
    ).text("to_user_id", to).with("rawsize", json::number(plan.rawsize)).text(
        "rawfilemd5",
        plan.rawfilemd5.as_str(),
    ).with("filesize", json::number(plan.filesize)).with("no_need_thumb", Json::Bool(true)).text(
        "aeskey",
        plan.aeskey_hex.as_str(),
    ).with("base_info", info.to_json()).object()
}

/// Where an enciphered file is posted.
pub fn cdn_upload_url(cdn_base_url: &str, upload_param: &str, filekey: &str) -> (res: String)
    ensures
        res@ == cdn_base_url@ + "/upload?encrypted_query_param="@ + codec::percent(
            encode_utf8(upload_param@),
        ) + "&filekey="@ + codec::percent(encode_utf8(filekey@)),
{
    let param = codec::url_encode(upload_param);
    let key = codec::url_encode(filekey);
    text::cat5(
        cdn_base_url,
        "/upload?encrypted_query_param=",
        param.as_str(),
        "&filekey=",
        key.as_str(),
    )
}

/// What came of an attempt to upload.
pub enum CdnReply {
    /// The store answered: its status as a number and in words, its body, and
    /// the parameter to download with.
    Answered(u16, String, String, Option<String>),
    /// The request failed, for this reason.
    Failed(String),
}

/// What to do after an attempt.
pub enum CdnStep {
    Retry,
    /// The file is there, under this parameter.
    Uploaded(String),
    GiveUp(String),
}

/// The attempts made so far, and why the last of them failed.
pub struct CdnAttempts {
    pub made: u32,
    pub last_error: Option<String>,
}

/// What one attempt amounts to: the parameter; or an error, and whether another
/// attempt makes sense.
pub open spec fn attempt_result(reply: CdnReply) -> Result<Seq<char>, (Seq<char>, bool)> {
    match reply {
        CdnReply::Answered(status, words, body, param) => if 400 <= status < 500 {
            Err(("CDN upload client error (HTTP "@ + words@ + "): "@ + body@, false))
        } else if !(200 <= status < 300) {
            Err(("CDN upload server error (HTTP "@ + words@ + "): "@ + body@, true))
        } else {
            match param {
                Some(p) => Ok(p@),
                None => Err(("CDN upload: missing x-encrypted-param header"@, true)),
            }
        },
        CdnReply::Failed(e) => Err(("CDN upload request failed: "@ + e@, true)),
    }
}

/// Whether another attempt follows one that came to this, the attempt of this number.
pub open spec fn tries_again(made: nat, reply: CdnReply) -> bool {
    attempt_result(reply) matches Err((_, again)) && again && made < CDN_UPLOAD_MAX_RETRIES
}

impl CdnAttempts {
    /// Whether the attempts are within their number.
    pub open spec fn wf(self) -> bool {
        self.made < CDN_UPLOAD_MAX_RETRIES
    }

    /// No attempts yet.
    pub fn new() -> (res: CdnAttempts)
        ensures
            res.wf(),
            res.made == 0,
            res.last_error is None,
    {
        CdnAttempts { made: 0, last_error: None }
    }

    /// Takes in what came of an attempt. A parameter ends the upload well, an
    /// error of the client's ends it badly, and so does the last attempt.
    pub fn on_reply(&mut self, reply: CdnReply) -> (res: CdnStep)
        requires
            old(self).wf(),
        ensures
            final(self).made == old(self).made + 1,
            res is Retry <==> tries_again(final(self).made as nat, reply),
            match attempt_result(reply) {
                Ok(param) => res matches CdnStep::Uploaded(p) && p@ == param
                    && final(self).last_error == old(self).last_error,
                Err((e, again)) => if again && final(self).made < CDN_UPLOAD_MAX_RETRIES {
                    res is Retry && final(self).wf() && text::opt(final(self).last_error) == Some(e)
                } else {
                    res matches CdnStep::GiveUp(got) && got@ == e && final(self).last_error
                        == old(self).last_error
                },
            },
    {
        self.made = self.made + 1;
        let (error, again) = match reply {
            CdnReply::Answered(status, words, body, param) => {
                if 400 <= status && status < 500 {
                    (
                        text::cat4(
                            "CDN upload client error (HTTP ",
                            words.as_str(),
                            "): ",
                            body.as_str(),
                        ),
                        false,
                    )
                } else if !(200 <= status && status < 300) {
                    (
                        text::cat4(
                            "CDN upload server error (HTTP ",
                            words.as_str(),
                            "): ",
                            body.as_str(),
                        ),
                        true,
                    )
                } else {
                    match param {
                        Some(p) => {
                            return CdnStep::Uploaded(p);
                        },
                        None => (
                            text::owned("CDN upload: missing x-encrypted-param header"),
                            true,
                        ),
                    }
                }
            },
            CdnReply::Failed(e) => (text::cat("CDN upload request failed: ", e.as_str()), true),
        };
        if again && self.made < CDN_UPLOAD_MAX_RETRIES {
            self.last_error = Some(error);
            CdnStep::Retry
        } else {
            CdnStep::GiveUp(error)
        }
    }
}

/// The parameter of the upload, where the reply to the announcement has one.
pub fn upload_param(param: Option<String>) -> (res: Result<String, String>)
    ensures
        match param {
            Some(p) => res matches Ok(got) && got@ == p@,
            None => res matches Err(e) && e@ == "getUploadUrl: no upload_param in response"@,
        },
{
    match param {
        Some(p) => Ok(p),
        None => Err(text::owned("getUploadUrl: no upload_param in response")),
    }
}

/// A file that was uploaded.
pub struct CdnUploadResult {
    pub filekey: String,
    pub download_encrypted_query_param: String,
    pub aeskey_hex: String,
    pub file_size: u64,
    pub file_size_ciphertext: u64,
}

/// A planned upload that was carried out.
pub fn finish_upload(plan: &UploadPlan, param: &str) -> (res: CdnUploadResult)
    ensures
        res.filekey@ == plan.filekey@,
        res.download_encrypted_query_param@ == param@,
        res.aeskey_hex@ == plan.aeskey_hex@,
        res.file_size == plan.rawsize,
        res.file_size_ciphertext == plan.filesize,
{
    CdnUploadResult {
        filekey: plan.filekey.clone(),
        download_encrypted_query_param: param.to_owned(),
        aeskey_hex: plan.aeskey_hex.clone(),
        file_size: plan.rawsize,
        file_size_ciphertext: plan.filesize,
    }
}

/// A reference to an uploaded file, as JSON: the key in base 64 of its digits.
pub open spec fn cdn_media_json(param: Seq<char>, aeskey_hex: Seq<char>) -> JsonV {
    json::obj3(
        "encrypt_query_param"@,
        json::jstr(param),
        "aes_key"@,
        json::jstr(codec::base64(encode_utf8(aeskey_hex))),
        "encrypt_type"@,
        json::num(1),
    )
}

/// A reference to an uploaded file.
pub fn build_cdn_media(upload: &CdnUploadResult) -> (res: CDNMedia)
    ensures
        text::opt(res.encrypt_query_param) == Some(upload.download_encrypted_query_param@),
        text::opt(res.aes_key) == Some(codec::base64(encode_utf8(upload.aeskey_hex@))),
        res.encrypt_type == Some(1u32),
        res.json() == cdn_media_json(
            upload.download_encrypted_query_param@,
            upload.aeskey_hex@,
        ),
{
    CDNMedia {
        encrypt_query_param: Some(upload.download_encrypted_query_param.clone()),
        aes_key: Some(codec::base64_encode(upload.aeskey_hex.as_str().as_bytes())),
        encrypt_type: Some(1),
    }
}

/// The types of the upload and of the part that shows a file, by its extension
/// in lower case.
pub open spec fn media_types(ext: Seq<char>) -> (u32, u32) {
    if ext == "png"@ || ext == "jpg"@ || ext == "jpeg"@ || ext == "gif"@ || ext == "bmp"@ || ext
        == "webp"@ {
        (UPLOAD_MEDIA_TYPE_IMAGE, ITEM_TYPE_IMAGE)
    } else if ext == "mp4"@ || ext == "mov"@ || ext == "avi"@ || ext == "mkv"@ || ext == "webm"@ {
        (UPLOAD_MEDIA_TYPE_VIDEO, ITEM_TYPE_VIDEO)
    } else {
        (UPLOAD_MEDIA_TYPE_FILE, ITEM_TYPE_FILE)
    }
}

/// The types of the upload and of the part that shows a file.
pub fn media_type_for_extension(ext: &str) -> (res: (u32, u32))
    ensures
        res == media_types(ext@),
{
    if text::same(ext, "png") || text::same(ext, "jpg") || text::same(ext, "jpeg") || text::same(
        ext,
        "gif",
    ) || text::same(ext, "bmp") || text::same(ext, "webp") {
        (UPLOAD_MEDIA_TYPE_IMAGE, ITEM_TYPE_IMAGE)
    } else if text::same(ext, "mp4") || text::same(ext, "mov") || text::same(ext, "avi")
        || text::same(ext, "mkv") || text::same(ext, "webm") {
        (UPLOAD_MEDIA_TYPE_VIDEO, ITEM_TYPE_VIDEO)
    } else {
        (UPLOAD_MEDIA_TYPE_FILE, ITEM_TYPE_FILE)
    }
}

/// A file to attach: its name, and the types of its upload and of its part.
pub struct Attachment {
    pub filename: String,
    pub upload_type: u32,
    pub item_type: u32,
}

/// The file at `path` as an attachment.
pub fn plan_attachment(path: &str) -> (res: Attachment)
    ensures
        res.filename@ == match paths::file_name(path@) {
            Some(name) => name,
            None => "attachment.bin"@,
        },
        (res.upload_type, res.item_type) == media_types(
            text::lowercase(paths::extension_or_empty(path@)),
        ),
{
    let filename = match paths::file_name_of(path) {
        Some(name) => name,
        None => text::owned("attachment.bin"),
    };
    let ext = paths::extension_of(path).to_lowercase();
    let (upload_type, item_type) = media_type_for_extension(ext.as_str());
    Attachment { filename, upload_type, item_type }
}

/// The part of a message that shows an uploaded file, as JSON.
pub open spec fn media_item_json(
    item_type: u32,
    upload: CdnUploadResult,
    filename: Seq<char>,
) -> JsonV {
    let media = cdn_media_json(upload.download_encrypted_query_param@, upload.aeskey_hex@);
    if item_type == ITEM_TYPE_IMAGE {
        json::obj2(
            "type"@,
            json::num(ITEM_TYPE_IMAGE as u64),
            "image_item"@,
            json::obj2("media"@, media, "mid_size"@, json::num(upload.file_size_ciphertext)),
        )
    } else if item_type == ITEM_TYPE_VIDEO {
        json::obj2(
            "type"@,
            json::num(ITEM_TYPE_VIDEO as u64),
            "video_item"@,
            json::obj2("media"@, media, "video_size"@, json::num(upload.file_size_ciphertext)),
        )
    } else {
        json::obj2(
            "type"@,
            json::num(ITEM_TYPE_FILE as u64),
            "file_item"@,
            json::obj3(
                "media"@,
                media,
                "file_name"@,
                json::jstr(filename),
                "len"@,
                json::jstr(text::digits(upload.file_size as nat)),
            ),
        )
    }
}

/// The part of a message that shows an uploaded file.
pub fn media_item(item_type: u32, upload: &CdnUploadResult, filename: &str) -> (res: MessageItem)
    ensures
        res.json() == media_item_json(item_type, *upload, filename@),
{
    let media = Some(build_cdn_media(upload));
    if item_type == ITEM_TYPE_IMAGE {
        MessageItem {
            item_type: Some(ITEM_TYPE_IMAGE),
            text_item: None,
            image_item: Some(ImageItem { media, mid_size: Some(upload.file_size_ciphertext) }),
            file_item: None,
            video_item: None,
            create_time_ms: None,
        }
    } else if item_type == ITEM_TYPE_VIDEO {
        MessageItem {
            item_type: Some(ITEM_TYPE_VIDEO),
            text_item: None,
            image_item: None,
            file_item: None,
            video_item: Some(VideoItem { media, video_size: Some(upload.file_size_ciphertext) }),
            create_time_ms: None,
        }
    } else {
        MessageItem {
            item_type: Some(ITEM_TYPE_FILE),
            text_item: None,
            image_item: None,
            file_item: Some(
                FileItem {
                    media,
                    file_name: Some(filename.to_owned()),
                    len: Some(text::decimal(upload.file_size)),
                },
            ),
            video_item: None,
            create_time_ms: None,
        }
    }
}

/// The messages that carry an uploaded file: its caption, where there is one,
/// and then the file.
pub fn attachment_messages(
    to: &str,
    context_token: Option<&str>,
    caption: Option<&str>,
    item: MessageItem,
) -> (res: Vec<WeixinMessage>)
    ensures
        ({
            let captioned = match json::opt_str(caption) {
                Some(c) => c.len() > 0,
                None => false,
            };
            &&& res@.len() == if captioned {
                2nat
            } else {
                1nat
            }
            &&& captioned ==> carries(
                res@[0],
                to@,
                text_item_json(json::opt_str(caption)->0),
                json::opt_str(context_token),
            )
            &&& carries(res@.last(), to@, item.json(), json::opt_str(context_token))
        }),
{
    let mut out: Vec<WeixinMessage> = Vec::new();
    match caption {
        Some(c) => {
            if !c.is_empty() {
                out.push(new_bot_message(to, text_item(c), context_token));
            }
        },
        None => {},
    }
    let ghost before = out@;
    out.push(new_bot_message(to, item, context_token));
    assert(before.len() == 1 ==> out@[0] == before[0]);
    out
}

impl WeixinAdapter {
    /// The messages that carry a text to a user, each with the context token that is
    /// remembered of the user.
    pub fn texts_to(&self, user_id: &str, text: &str) -> (res: Vec<WeixinMessage>)
        ensures
            carry_text(res@, user_id@, text@, text::opt(self.context_tokens.of(user_id@))),
            ({
                let parts = chunks::chunks(text@, WEIXIN_TEXT_MAX_CHARS as nat);
                &&& res@.len() == parts.len()
                &&& forall|i: int|
                    0 <= i < parts.len() ==> carries(
                        #[trigger] res@[i],
                        user_id@,
                        text_item_json(parts[i]),
                        text::opt(self.context_tokens.of(user_id@)),
                    )
            }),
    {
        let token = self.get_context_token(user_id);
        match &token {
            Some(t) => text_messages(user_id, text, Some(t.as_str())),
            None => text_messages(user_id, text, None),
        }
    }

    /// The messages that carry an uploaded file to a user, each with the context token
    /// that is remembered of the user.
    pub fn attachment_to(&self, user_id: &str, caption: Option<&str>, item: MessageItem) -> (res:
        Vec<WeixinMessage>)
        ensures
            ({
                let captioned = match json::opt_str(caption) {
                    Some(c) => c.len() > 0,
                    None => false,
                };
                let token = text::opt(self.context_tokens.of(user_id@));
                &&& res@.len() == if captioned {
                    2nat
                } else {
                    1nat
                }
                &&& captioned ==> carries(
                    res@[0],
                    user_id@,
                    text_item_json(json::opt_str(caption)->0),
                    token,
                )
                &&& carries(res@.last(), user_id@, item.json(), token)
            }),
    {
        let token = self.get_context_token(user_id);
        match &token {
            Some(t) => attachment_messages(user_id, Some(t.as_str()), caption, item),
            None => attachment_messages(user_id, None, caption, item),
        }
    }
}

/// The line that stands for a sent attachment; an empty caption is left out.
pub open spec fn attachment_note(path: Seq<char>, caption: Option<Seq<char>>) -> Seq<char> {
    match caption {
        Some(c) => if c.len() > 0 {
            "[attachment:"@ + path + "] "@ + c
        } else {
            "[attachment:"@ + path + "]"@
        },
        None => "[attachment:"@ + path + "]"@,
    }
}

/// The line that stands for a sent attachment.
pub fn describe_attachment(path: &str, caption: Option<&str>) -> (res: String)
    ensures
        res@ == attachment_note(path@, json::opt_str(caption)),
{
    match caption {
        Some(c) => if c.is_empty() {
            text::cat3("[attachment:", path, "]")
        } else {
            text::cat4("[attachment:", path, "] ", c)
        },
        None => text::cat3("[attachment:", path, "]"),
    }
}

// ---------------------------------------------------------------------------
// Polling
// ---------------------------------------------------------------------------

/// The reply to a request for updates.
#[derive(Debug, Clone)]
pub struct GetUpdatesResp {
    pub ret: Option<i32>,
    pub errcode: Option<i32>,
    pub errmsg: Option<String>,
    pub msgs: Option<Vec<WeixinMessage>>,
    pub get_updates_buf: Option<String>,
    pub longpolling_timeout_ms: Option<u64>,
}

/// The reply that stands for a request that ran out of time: nothing new.
pub fn empty_updates(get_updates_buf: &str) -> (res: GetUpdatesResp)
    ensures
        res.ret == Some(0i32),
        res.errcode is None,
        res.errmsg is None,
        res.msgs matches Some(m) && m@.len() == 0,
        text::opt(res.get_updates_buf) == Some(get_updates_buf@),
        res.longpolling_timeout_ms is None,
{
    GetUpdatesResp {
        ret: Some(0),
        errcode: None,
        errmsg: None,
        msgs: Some(Vec::new()),
        get_updates_buf: Some(get_updates_buf.to_owned()),
        longpolling_timeout_ms: None,
    }
}

/// A message of a user that is to be answered.
pub struct Inbound {
    pub from_user_id: String,
    pub text: String,
    pub context_token: Option<String>,
    pub message_id: Option<u64>,
}

/// Whether a message is to be answered: one of a user, new or finished, with a
/// sender and a text.
pub open spec fn is_answered(msg: WeixinMessage) -> bool {
    let kind = match msg.message_type {
        Some(t) => t,
        None => 0,
    };
    let state = match msg.message_state {
        Some(s) => s,
        None => 0,
    };
    &&& kind == MSG_TYPE_USER
    &&& state == MSG_STATE_NEW || state == MSG_STATE_FINISH
    &&& match msg.from_user_id {
        Some(id) => id@.len() > 0,
        None => false,
    }
    &&& text::trim(message_text(msg)).len() > 0
}

/// Whether `got` is what is kept of a message.
pub open spec fn inbound_is(msg: WeixinMessage, got: Inbound) -> bool {
    &&& msg.from_user_id matches Some(id) && got.from_user_id@ == id@
    &&& got.text@ == message_text(msg)
    &&& text::opt(got.context_token) == text::opt(msg.context_token)
    &&& got.message_id == msg.message_id
}

/// What is kept of a message that is to be answered.
pub fn accept_message(msg: &WeixinMessage) -> (res: Option<Inbound>)
    ensures
        match res {
            Some(got) => is_answered(*msg) && inbound_is(*msg, got),
            None => !is_answered(*msg),
        },
{
    let kind: u32 = match msg.message_type {
        Some(t) => t,
        None => 0,
    };
    let state: u32 = match msg.message_state {
        Some(s) => s,
        None => 0,
    };
    if kind != MSG_TYPE_USER {
        return None;
    }
    if state != MSG_STATE_NEW && state != MSG_STATE_FINISH {
        return None;
    }
    let from_user_id = match &msg.from_user_id {
        Some(id) => if id.as_str().is_empty() {
            return None;
        } else {
            id.clone()
        },
        None => {
            return None;
        },
    };
    let text = extract_text(msg);
    if text::is_blank(text.as_str()) {
        return None;
    }
    let context_token = match &msg.context_token {
        Some(t) => Some(t.clone()),
        None => None,
    };
    Some(Inbound { from_user_id, text, context_token, message_id: msg.message_id })
}

impl Inbound {
    /// The id under which this message is stored; `fresh` where it has none.
    pub fn stored_id_or(&self, fresh: String) -> (res: String)
        ensures
            res@ == match self.message_id {
                Some(n) => text::digits(n as nat),
                None => fresh@,
            },
    {
        match self.message_id {
            Some(n) => text::decimal(n),
            None => fresh,
        }
    }

    /// The id under which this message is stored.
    pub fn stored_id(&self) -> (res: String)
        ensures
            self.message_id matches Some(n) ==> res@ == text::digits(n as nat),
            self.message_id is None ==> res@.len() == 36,
    {
        self.stored_id_or(stamps::fresh_id())
    }
}

impl WeixinAdapter {
    /// Remembers the context token that a message of a user brings, where it brings
    /// one.
    pub fn remember(&mut self, got: &Inbound)
        requires
            old(self).wf(),
        ensures
            final(self).wf(),
            forall|user: Seq<char>|
                text::opt(#[trigger] final(self).context_tokens.of(user)) == if user
                    == got.from_user_id@ && got.context_token is Some {
                    text::opt(got.context_token)
                } else {
                    text::opt(old(self).context_tokens.of(user))
                },
            *final(self) == (WeixinAdapter {
                context_tokens: final(self).context_tokens,
                ..*old(self)
            }),
    {
        match &got.context_token {
            Some(token) => {
                self.set_context_token(got.from_user_id.as_str(), token.as_str());
            },
            None => {},
        }
    }
}

/// Where polling stands: the mark of the last update, and until when it rests.
pub struct PollState {
    pub get_updates_buf: String,
    pub paused_until: Option<u64>,
}

/// What to do next.
#[derive(Clone, Copy, Debug, PartialEq, Eq)]
pub enum PollStep {
    /// Wait for a minute: polling rests for so many seconds yet.
    Rest(u64),
    Poll,
}

/// What came of a poll.
pub enum PollOutcome {
    /// The session has run out.
    Paused,
    /// Whether the mark is new and to be kept, and the messages to answer.
    Updates(bool, Vec<Inbound>),
}

/// Whether `got` is what is kept of those of `msgs` that are to be answered, in
/// their order.
pub open spec fn answered_are(msgs: Seq<WeixinMessage>, got: Seq<Inbound>) -> bool
    decreases msgs.len(),
{
    if msgs.len() == 0 {
        got.len() == 0
    } else if is_answered(msgs.last()) {
        got.len() > 0 && inbound_is(msgs.last(), got.last()) && answered_are(
            msgs.drop_last(),
            got.drop_last(),
        )
    } else {
        answered_are(msgs.drop_last(), got)
    }
}

/// What to do at a time, where polling rests until another, if it rests.
pub open spec fn poll_step(paused_until: Option<u64>, now: u64) -> PollStep {
    match paused_until {
        Some(until) => if now < until {
            PollStep::Rest(((until - now) / 1000) as u64)
        } else {
            PollStep::Poll
        },
        None => PollStep::Poll,
    }
}

/// Until when polling rests after a reply with this code of an error, if it rests.
pub open spec fn pause_after(errcode: Option<i32>, now: u64) -> Option<int> {
    if errcode == Some(-14i32) {
        Some(now + SESSION_PAUSE_MS)
    } else {
        None
    }
}

/// Whether a reply brings a new mark.
pub open spec fn brings_mark(resp: GetUpdatesResp) -> bool {
    match resp.get_updates_buf {
        Some(buf) => buf@.len() > 0,
        None => false,
    }
}

impl PollState {
    /// Polling that begins behind this mark.
    pub fn new(get_updates_buf: String) -> (res: PollState)
        ensures
            res.get_updates_buf@ == get_updates_buf@,
            res.paused_until is None,
    {
        PollState { get_updates_buf, paused_until: None }
    }

    /// What to do at this time.
    pub fn before_poll(&mut self, now: u64) -> (res: PollStep)
        ensures
            res == poll_step(old(self).paused_until, now),
            final(self).get_updates_buf@ == old(self).get_updates_buf@,
            match old(self).paused_until {
                Some(until) => if now < until {
                    &&& res == PollStep::Rest(((until - now) / 1000) as u64)
                    &&& final(self).paused_until == Some(until)
                } else {
                    res == PollStep::Poll && final(self).paused_until is None
                },
                None => res == PollStep::Poll && final(self).paused_until is None,
            },
    {
        match self.paused_until {
            Some(until) => {
                if now < until {
                    PollStep::Rest((until - now) / 1000)
                } else {
                    self.paused_until = None;
                    PollStep::Poll
                }
            },
            None => PollStep::Poll,
        }
    }

    /// Takes in the reply to a poll that was made.
    pub fn after_poll(&mut self, resp: &GetUpdatesResp, now: u64) -> (res: PollOutcome)
        requires
            now + SESSION_PAUSE_MS <= u64::MAX,
            old(self).paused_until is None,
        ensures
            match (pause_after(resp.errcode, now), final(self).paused_until) {
                (Some(until), Some(got)) => got == until,
                (None, None) => true,
                _ => false,
            },
            if resp.errcode == Some(-14i32) {
                &&& res is Paused
                &&& final(self).get_updates_buf@ == old(self).get_updates_buf@
                &&& final(self).paused_until == Some((now + SESSION_PAUSE_MS) as u64)
            } else {
                &&& res matches PollOutcome::Updates(new_mark, got) && new_mark == brings_mark(
                    *resp,
                ) && answered_are(
                    match resp.msgs {
                        Some(m) => m@,
                        None => Seq::empty(),
                    },
                    got@,
                )
                &&& final(self).get_updates_buf@ == if brings_mark(*resp) {
                    resp.get_updates_buf->0@
                } else {
                    old(self).get_updates_buf@
                }
                &&& final(self).paused_until is None
            },
    {
        let expired = match resp.errcode {
            Some(code) => code == -14,
            None => false,
        };
        if expired {
            self.paused_until = Some(now + SESSION_PAUSE_MS);
            return PollOutcome::Paused;
        }
        let mut new_mark = false;
        match &resp.get_updates_buf {
            Some(buf) => {
                if !buf.as_str().is_empty() {
                    self.get_updates_buf = buf.clone();
                    new_mark = true;
                }
            },
            None => {},
        }
        let mut got: Vec<Inbound> = Vec::new();
        match &resp.msgs {
            Some(msgs) => {
                let mut i: usize = 0;
                while i < msgs.len()
                    invariant
                        i <= msgs@.len(),
                        answered_are(msgs@.take(i as int), got@),
                    decreases msgs@.len() - i,
                {
                    let ghost before = got@;
                    assert(msgs@.take(i + 1).drop_last() =~= msgs@.take(i as int));
                    match accept_message(&msgs[i]) {
                        Some(inbound) => {
                            got.push(inbound);
                            assert(got@.drop_last() =~= before);
                        },
                        None => {},
                    }
                    i += 1;
                }
                assert(msgs@.take(msgs@.len() as int) =~= msgs@);
            },
            None => {},
        }
        PollOutcome::Updates(new_mark, got)
    }
}

// ---------------------------------------------------------------------------
// What holds of the channel
// ---------------------------------------------------------------------------

/// Whether a part is a text that is there.
pub open spec fn holds_text(item: MessageItem) -> bool {
    &&& item.item_type == Some(1u32)
    &&& item.text_item is Some
    &&& item.text_item->0.text is Some
}

/// The text of a message is that of the first of its parts that hold one, at whatever
/// place it stands and whatever other parts there are; where no part holds one it is
/// empty.
pub proof fn law_message_text(msg: WeixinMessage, k: int)
    ensures
        msg.item_list matches Some(items) ==> {
            &&& 0 <= k < items@.len() && holds_text(items@[k]) && (forall|j: int|
                0 <= j < k ==> !holds_text(#[trigger] items@[j])) ==> message_text(msg)
                == items@[k].text_item->0.text->0@
            &&& (forall|j: int| 0 <= j < items@.len() ==> !holds_text(#[trigger] items@[j]))
                ==> message_text(msg).len() == 0
        },
        msg.item_list is None ==> message_text(msg).len() == 0,
{
    match msg.item_list {
        Some(items) => {
            lemma_first_text(items@, 0, k);
        },
        None => {},
    }
}

proof fn lemma_first_text(items: Seq<MessageItem>, i: int, k: int)
    requires
        0 <= i,
    ensures
        i <= k < items.len() && holds_text(items[k]) && (forall|j: int|
            i <= j < k ==> !holds_text(#[trigger] items[j])) ==> first_text(items, i)
            == items[k].text_item->0.text->0@,
        (forall|j: int| i <= j < items.len() ==> !holds_text(#[trigger] items[j])) ==> first_text(
            items,
            i,
        ).len() == 0,
    decreases items.len() - i,
{
    if i < items.len() {
        if !holds_text(items[i]) {
            lemma_first_text(items, i + 1, k);
        }
    }
}

/// A message is answered if and only if it is of a user, new or finished, says from whom
/// it is, and holds a text that says something.
pub proof fn law_answered(msg: WeixinMessage)
    ensures
        is_answered(msg) <==> {
            &&& msg.message_type == Some(1u32)
            &&& msg.message_state is None || msg.message_state == Some(0u32) || msg.message_state
                == Some(2u32)
            &&& msg.from_user_id is Some && msg.from_user_id->0@.len() > 0
            &&& exists|i: int|
                0 <= i < message_text(msg).len() && !text::is_white(#[trigger] message_text(msg)[i])
        },
{
    let said = message_text(msg);
    let at = text::law_trim(said);
    if at.0 < at.1 {
        assert(!text::is_white(said[at.0]));
    }
}

/// Of the messages of an update all that are to be answered are kept, in their order, and
/// no others; of each its sender, its text, its token and its id.
pub proof fn law_all_are_answered(msgs: Seq<WeixinMessage>, got: Seq<Inbound>)
    requires
        answered_are(msgs, got),
    ensures
        ({
            let asked = msgs.filter(|m: WeixinMessage| is_answered(m));
            &&& got.len() == asked.len()
            &&& forall|i: int|
                0 <= i < got.len() ==> {
                    let kept = #[trigger] got[i];
                    &&& asked[i].from_user_id is Some
                    &&& kept.from_user_id@ == asked[i].from_user_id->0@
                    &&& kept.text@ == message_text(asked[i])
                    &&& kept.message_id == asked[i].message_id
                    &&& text::opt(kept.context_token) == text::opt(asked[i].context_token)
                }
        }),
    decreases msgs.len(),
{
    reveal(Seq::filter);
    let asked = msgs.filter(|m: WeixinMessage| is_answered(m));
    if msgs.len() > 0 {
        let front = msgs.drop_last();
        let before = front.filter(|m: WeixinMessage| is_answered(m));
        if is_answered(msgs.last()) {
            law_all_are_answered(front, got.drop_last());
            assert(asked == before.push(msgs.last()));
            assert forall|i: int| 0 <= i < got.len() implies {
                let kept = #[trigger] got[i];
                &&& asked[i].from_user_id is Some
                &&& kept.from_user_id@ == asked[i].from_user_id->0@
                &&& kept.text@ == message_text(asked[i])
                &&& kept.message_id == asked[i].message_id
                &&& text::opt(kept.context_token) == text::opt(asked[i].context_token)
            } by {
                if i < got.len() - 1 {
                    assert(got.drop_last()[i] == got[i]);
                    assert(asked[i] == before[i]);
                }
            }
        } else {
            law_all_are_answered(front, got);
        }
    }
}

/// An address gets the slash at its end that it lacks, and nothing else.
pub proof fn law_with_slash(url: Seq<char>)
    ensures
        with_slash(url).last() == '/',
        url.is_prefix_of(with_slash(url)),
        with_slash(url).len() <= url.len() + 1,
        with_slash(with_slash(url)) == with_slash(url),
{
    assert(with_slash(url).subrange(0, url.len() as int) =~= url);
}

/// The number of four bytes holds each of them, the first in its lowest place.
pub proof fn law_le_number(bytes: Seq<u8>)
    requires
        bytes.len() == 4,
    ensures
        le_number(bytes) < 0x1_0000_0000,
        bytes[0] == le_number(bytes) % 256,
        bytes[1] == le_number(bytes) / 256 % 256,
        bytes[2] == le_number(bytes) / 65536 % 256,
        bytes[3] == le_number(bytes) / 16777216,
{
    let n = le_number(bytes) as int;
    let a = bytes[0] as int;
    let b = bytes[1] as int;
    let c = bytes[2] as int;
    let d = bytes[3] as int;
    lemma_le_number(n, a, b, c, d);
}

proof fn lemma_le_number(n: int, a: int, b: int, c: int, d: int)
    requires
        n == a + 256 * b + 65536 * c + 16777216 * d,
        0 <= a < 256,
        0 <= b < 256,
        0 <= c < 256,
        0 <= d < 256,
    ensures
        n % 256 == a,
        n / 256 % 256 == b,
        n / 65536 % 256 == c,
        n / 16777216 == d,
{
    let first = b + 256 * c + 65536 * d;
    let second = c + 256 * d;
    assert(n == 256 * first + a);
    assert(n / 256 == first);
    assert(first == 256 * second + b);
    assert(n == 65536 * second + (256 * b + a));
    assert(n / 65536 == second);
}

/// Every request says that it is JSON and how it is authorized, and brings its number;
/// the token where there is one, and the route where there is one, and nothing else.
pub proof fn law_headers(token: Seq<char>, route: Option<Seq<char>>, uin: Seq<char>)
    ensures
        headers_for(token, route, uin).contains(("Content-Type"@, "application/json"@)),
        headers_for(token, route, uin).contains(("AuthorizationType"@, "ilink_bot_token"@)),
        headers_for(token, route, uin).contains(("X-WECHAT-UIN"@, uin)),
        token.len() > 0 ==> headers_for(token, route, uin).contains(
            ("Authorization"@, "Bearer "@ + token),
        ),
        route matches Some(tag) ==> tag.len() > 0 ==> headers_for(token, route, uin).contains(
            ("SKRouteTag"@, tag),
        ),
        headers_for(token, route, uin).len() == 3 + (if token.len() > 0 {
            1int
        } else {
            0
        }) + (if route is Some && route->0.len() > 0 {
            1int
        } else {
            0
        }),
{
    let all = headers_for(token, route, uin);
    assert(all[0] == ("Content-Type"@, "application/json"@));
    assert(all[1] == ("AuthorizationType"@, "ilink_bot_token"@));
    if token.len() > 0 {
        assert(all[2] == ("Authorization"@, "Bearer "@ + token));
        assert(all[3] == ("X-WECHAT-UIN"@, uin));
    } else {
        assert(all[2] == ("X-WECHAT-UIN"@, uin));
    }
    if route is Some && route->0.len() > 0 {
        assert(all[all.len() - 1] == ("SKRouteTag"@, route->0));
    }
}

/// An upload is done if and only if the store answers with success and names the
/// parameter. An error of the client's is not tried again, any other is; what the store
/// said is told. There are three attempts.
pub proof fn law_attempt(reply: CdnReply)
    ensures
        match reply {
            CdnReply::Answered(status, words, body, param) => {
                &&& attempt_result(reply) is Ok <==> 200 <= status <= 299 && param is Some
                &&& attempt_result(reply) matches Ok(p) ==> p == param->0@
                &&& attempt_result(reply) matches Err((e, again)) ==> {
                    &&& again <==> !(400 <= status <= 499)
                    &&& !(200 <= status <= 299) ==> body@.is_suffix_of(e) && text::contains(
                        e,
                        words@,
                    )
                }
            },
            CdnReply::Failed(why) => attempt_result(reply) matches Err((e, again)) && again
                && why@.is_suffix_of(e),
        },
        CDN_UPLOAD_MAX_RETRIES == 3,
{
    match reply {
        CdnReply::Answered(status, words, body, param) => {
            let client = "CDN upload client error (HTTP "@ + words@ + "): "@ + body@;
            let server = "CDN upload server error (HTTP "@ + words@ + "): "@ + body@;
            assert(client.subrange(client.len() - body@.len(), client.len() as int) =~= body@);
            assert(server.subrange(server.len() - body@.len(), server.len() as int) =~= body@);
            text::lemma_middle_is_contained(
                "CDN upload client error (HTTP "@,
                words@,
                "): "@ + body@,
            );
            text::lemma_middle_is_contained(
                "CDN upload server error (HTTP "@,
                words@,
                "): "@ + body@,
            );
            assert(client =~= "CDN upload client error (HTTP "@ + words@ + ("): "@ + body@));
            assert(server =~= "CDN upload server error (HTTP "@ + words@ + ("): "@ + body@));
        },
        CdnReply::Failed(why) => {
            let e = "CDN upload request failed: "@ + why@;
            assert(e.subrange(e.len() - why@.len(), e.len() as int) =~= why@);
        },
    }
}

/// A line that stands for an attachment names its path and ends with its caption, where
/// it has one.
pub proof fn law_attachment_note(path: Seq<char>, caption: Option<Seq<char>>)
    ensures
        text::contains(attachment_note(path, caption), path),
        caption matches Some(c) ==> c.len() > 0 ==> c.is_suffix_of(attachment_note(path, caption)),
        caption is None || caption->0.len() == 0 ==> attachment_note(path, caption).len()
            == path.len() + 13,
{
    reveal_strlit("[attachment:");
    reveal_strlit("]");
    let note = attachment_note(path, caption);
    let front = "[attachment:"@;
    text::lemma_middle_is_contained(front, path, note.skip((front.len() + path.len()) as int));
    assert(note =~= front + path + note.skip((front.len() + path.len()) as int));
    if caption is Some && caption->0.len() > 0 {
        let c = caption->0;
        assert(note.subrange(note.len() - c.len(), note.len() as int) =~= c);
    }
}

/// Images are uploaded and shown as images, films as films, anything else as a file.
pub proof fn law_media_types(ext: Seq<char>)
    ensures
        seq!["png"@, "jpg"@, "jpeg"@, "gif"@, "bmp"@, "webp"@].contains(ext) ==> media_types(ext) == (1u32, 2u32),
        seq!["mp4"@, "mov"@, "avi"@, "mkv"@, "webm"@].contains(ext) ==> media_types(ext) == (2u32, 5u32),
        !seq!["png"@, "jpg"@, "jpeg"@, "gif"@, "bmp"@, "webp"@].contains(ext) && !seq!["mp4"@, "mov"@, "avi"@, "mkv"@, "webm"@].contains(ext)
            ==> media_types(ext) == (3u32, 4u32),
{
    reveal_strlit("png");
    reveal_strlit("jpg");
    reveal_strlit("jpeg");
    reveal_strlit("gif");
    reveal_strlit("bmp");
    reveal_strlit("webp");
    reveal_strlit("mp4");
    reveal_strlit("mov");
    reveal_strlit("avi");
    reveal_strlit("mkv");
    reveal_strlit("webm");
    assert("png"@.len() == 3 && "png"@[0] == 'p');
    assert("jpg"@.len() == 3 && "jpg"@[0] == 'j');
    assert("gif"@.len() == 3 && "gif"@[0] == 'g');
    assert("bmp"@.len() == 3 && "bmp"@[0] == 'b');
    assert("mp4"@.len() == 3 && "mp4"@[0] == 'm' && "mp4"@[1] == 'p');
    assert("mov"@.len() == 3 && "mov"@[0] == 'm' && "mov"@[1] == 'o');
    assert("avi"@.len() == 3 && "avi"@[0] == 'a');
    assert("mkv"@.len() == 3 && "mkv"@[0] == 'm' && "mkv"@[1] == 'k');
    assert("jpeg"@.len() == 4 && "jpeg"@[0] == 'j');
    assert("webp"@.len() == 4 && "webp"@[0] == 'w' && "webp"@[3] == 'p');
    assert("webm"@.len() == 4 && "webm"@[0] == 'w' && "webm"@[3] == 'm');
    let images = seq!["png"@, "jpg"@, "jpeg"@, "gif"@, "bmp"@, "webp"@];
    let films = seq!["mp4"@, "mov"@, "avi"@, "mkv"@, "webm"@];
    assert(images[0] == "png"@);
    assert(images[1] == "jpg"@);
    assert(images[2] == "jpeg"@);
    assert(images[3] == "gif"@);
    assert(images[4] == "bmp"@);
    assert(images[5] == "webp"@);
    assert(films[0] == "mp4"@);
    assert(films[1] == "mov"@);
    assert(films[2] == "avi"@);
    assert(films[3] == "mkv"@);
    assert(films[4] == "webm"@);
}

/// A reference to a file says what it holds, and nothing of what it does not.
pub proof fn law_media_json(v: CDNMedia)
    ensures
        v.json().get("encrypt_query_param"@) == match v.encrypt_query_param {
            Some(t) => Some(JsonV::Text(t@)),
            None => None,
        },
        v.json().get("aes_key"@) == match v.aes_key {
            Some(t) => Some(JsonV::Text(t@)),
            None => None,
        },
        v.json().get("encrypt_type"@) == match v.encrypt_type {
            Some(n) => Some(JsonV::Number(JsonNumberV::Unsigned(n as u64))),
            None => None,
        },
{
    reveal_strlit("encrypt_query_param");
    reveal_strlit("aes_key");
    reveal_strlit("encrypt_type");
    assert("aes_key"@.len() == 7);
    assert("encrypt_type"@.len() == 12);
    assert("encrypt_query_param"@.len() == 19);
    let m1 = json::and_opt(no_members(), "encrypt_query_param"@, opt_text_json(v.encrypt_query_param));
    json::law_given_member(no_members(), "encrypt_query_param"@, opt_text_json(v.encrypt_query_param), "encrypt_query_param"@);
    json::law_given_member(no_members(), "encrypt_query_param"@, opt_text_json(v.encrypt_query_param), "aes_key"@);
    json::law_given_member(no_members(), "encrypt_query_param"@, opt_text_json(v.encrypt_query_param), "encrypt_type"@);
    let m2 = json::and_opt(m1, "aes_key"@, opt_text_json(v.aes_key));
    json::law_given_member(m1, "aes_key"@, opt_text_json(v.aes_key), "encrypt_query_param"@);
    json::law_given_member(m1, "aes_key"@, opt_text_json(v.aes_key), "aes_key"@);
    json::law_given_member(m1, "aes_key"@, opt_text_json(v.aes_key), "encrypt_type"@);
    let m3 = json::and_opt(m2, "encrypt_type"@, opt_u32_json(v.encrypt_type));
    json::law_given_member(m2, "encrypt_type"@, opt_u32_json(v.encrypt_type), "encrypt_query_param"@);
    json::law_given_member(m2, "encrypt_type"@, opt_u32_json(v.encrypt_type), "aes_key"@);
    json::law_given_member(m2, "encrypt_type"@, opt_u32_json(v.encrypt_type), "encrypt_type"@);
    assert(v.json() == JsonV::Object(m3));
}

/// An image says what it holds, and nothing of what it does not.
pub proof fn law_image_json(v: ImageItem)
    ensures
        v.json().get("media"@) == match v.media {
            Some(x) => Some(x.json()),
            None => None,
        },
        v.json().get("mid_size"@) == match v.mid_size {
            Some(n) => Some(JsonV::Number(JsonNumberV::Unsigned(n as u64))),
            None => None,
        },
{
    reveal_strlit("media");
    reveal_strlit("mid_size");
    assert("media"@.len() == 5);
    assert("mid_size"@.len() == 8);
    let m1 = json::and_opt(no_members(), "media"@, opt_media_json(v.media));
    json::law_given_member(no_members(), "media"@, opt_media_json(v.media), "media"@);
    json::law_given_member(no_members(), "media"@, opt_media_json(v.media), "mid_size"@);
    let m2 = json::and_opt(m1, "mid_size"@, opt_u64_json(v.mid_size));
    json::law_given_member(m1, "mid_size"@, opt_u64_json(v.mid_size), "media"@);
    json::law_given_member(m1, "mid_size"@, opt_u64_json(v.mid_size), "mid_size"@);
    assert(v.json() == JsonV::Object(m2));
}

/// A file says what it holds, and nothing of what it does not.
pub proof fn law_file_json(v: FileItem)
    ensures
        v.json().get("media"@) == match v.media {
            Some(x) => Some(x.json()),
            None => None,
        },
        v.json().get("file_name"@) == match v.file_name {
            Some(t) => Some(JsonV::Text(t@)),
            None => None,
        },
        v.json().get("len"@) == match v.len {
            Some(t) => Some(JsonV::Text(t@)),
            None => None,
        },
{
    reveal_strlit("media");
    reveal_strlit("file_name");
    reveal_strlit("len");
    assert("len"@.len() == 3);
    assert("media"@.len() == 5);
    assert("file_name"@.len() == 9);
    let m1 = json::and_opt(no_members(), "media"@, opt_media_json(v.media));
    json::law_given_member(no_members(), "media"@, opt_media_json(v.media), "media"@);
    json::law_given_member(no_members(), "media"@, opt_media_json(v.media), "file_name"@);
    json::law_given_member(no_members(), "media"@, opt_media_json(v.media), "len"@);
    let m2 = json::and_opt(m1, "file_name"@, opt_text_json(v.file_name));
    json::law_given_member(m1, "file_name"@, opt_text_json(v.file_name), "media"@);
    json::law_given_member(m1, "file_name"@, opt_text_json(v.file_name), "file_name"@);
    json::law_given_member(m1, "file_name"@, opt_text_json(v.file_name), "len"@);
    let m3 = json::and_opt(m2, "len"@, opt_text_json(v.len));
    json::law_given_member(m2, "len"@, opt_text_json(v.len), "media"@);
    json::law_given_member(m2, "len"@, opt_text_json(v.len), "file_name"@);
    json::law_given_member(m2, "len"@, opt_text_json(v.len), "len"@);
    assert(v.json() == JsonV::Object(m3));
}

/// A film says what it holds, and nothing of what it does not.
pub proof fn law_video_json(v: VideoItem)
    ensures
        v.json().get("media"@) == match v.media {
            Some(x) => Some(x.json()),
            None => None,
        },
        v.json().get("video_size"@) == match v.video_size {
            Some(n) => Some(JsonV::Number(JsonNumberV::Unsigned(n as u64))),
            None => None,
        },
{
    reveal_strlit("media");
    reveal_strlit("video_size");
    assert("media"@.len() == 5);
    assert("video_size"@.len() == 10);
    let m1 = json::and_opt(no_members(), "media"@, opt_media_json(v.media));
    json::law_given_member(no_members(), "media"@, opt_media_json(v.media), "media"@);
    json::law_given_member(no_members(), "media"@, opt_media_json(v.media), "video_size"@);
    let m2 = json::and_opt(m1, "video_size"@, opt_u64_json(v.video_size));
    json::law_given_member(m1, "video_size"@, opt_u64_json(v.video_size), "media"@);
    json::law_given_member(m1, "video_size"@, opt_u64_json(v.video_size), "video_size"@);
    assert(v.json() == JsonV::Object(m2));
}

/// A part of a message says what it holds, and nothing of what it does not.
pub proof fn law_item_json(v: MessageItem)
    ensures
        v.json().get("type"@) == match v.item_type {
            Some(n) => Some(JsonV::Number(JsonNumberV::Unsigned(n as u64))),
            None => None,
        },
        v.json().get("text_item"@) == match v.text_item {
            Some(x) => Some(x.json()),
            None => None,
        },
        v.json().get("image_item"@) == match v.image_item {
            Some(x) => Some(x.json()),
            None => None,
        },
        v.json().get("file_item"@) == match v.file_item {
            Some(x) => Some(x.json()),
            None => None,
        },
        v.json().get("video_item"@) == match v.video_item {
            Some(x) => Some(x.json()),
            None => None,
        },
        v.json().get("create_time_ms"@) == match v.create_time_ms {
            Some(n) => Some(JsonV::Number(JsonNumberV::Unsigned(n as u64))),
            None => None,
        },
{
    reveal_strlit("type");
    reveal_strlit("text_item");
    reveal_strlit("image_item");
    reveal_strlit("file_item");
    reveal_strlit("video_item");
    reveal_strlit("create_time_ms");
    assert("type"@.len() == 4);
    assert("text_item"@.len() == 9 && "text_item"@[0] == 't');
    assert("file_item"@.len() == 9 && "file_item"@[0] == 'f');
    assert("image_item"@.len() == 10 && "image_item"@[0] == 'i');
    assert("video_item"@.len() == 10 && "video_item"@[0] == 'v');
    assert("create_time_ms"@.len() == 14);
    let m1 = json::and_opt(no_members(), "type"@, opt_u32_json(v.item_type));
    json::law_given_member(no_members(), "type"@, opt_u32_json(v.item_type), "type"@);
    json::law_given_member(no_members(), "type"@, opt_u32_json(v.item_type), "text_item"@);
    json::law_given_member(no_members(), "type"@, opt_u32_json(v.item_type), "image_item"@);
    json::law_given_member(no_members(), "type"@, opt_u32_json(v.item_type), "file_item"@);
    json::law_given_member(no_members(), "type"@, opt_u32_json(v.item_type), "video_item"@);
    json::law_given_member(no_members(), "type"@, opt_u32_json(v.item_type), "create_time_ms"@);
    let m2 = json::and_opt(m1, "text_item"@, match v.text_item {
            Some(x) => Some(x.json()),
            None => None,
        });
    json::law_given_member(m1, "text_item"@, match v.text_item {
            Some(x) => Some(x.json()),
            None => None,
        }, "type"@);
    json::law_given_member(m1, "text_item"@, match v.text_item {
            Some(x) => Some(x.json()),
            None => None,
        }, "text_item"@);
    json::law_given_member(m1, "text_item"@, match v.text_item {
            Some(x) => Some(x.json()),
            None => None,
        }, "image_item"@);
    json::law_given_member(m1, "text_item"@, match v.text_item {
            Some(x) => Some(x.json()),
            None => None,
        }, "file_item"@);
    json::law_given_member(m1, "text_item"@, match v.text_item {
            Some(x) => Some(x.json()),
            None => None,
        }, "video_item"@);
    json::law_given_member(m1, "text_item"@, match v.text_item {
            Some(x) => Some(x.json()),
            None => None,
        }, "create_time_ms"@);
    let m3 = json::and_opt(m2, "image_item"@, match v.image_item {
            Some(x) => Some(x.json()),
            None => None,
        });
    json::law_given_member(m2, "image_item"@, match v.image_item {
            Some(x) => Some(x.json()),
            None => None,
        }, "type"@);
    json::law_given_member(m2, "image_item"@, match v.image_item {
            Some(x) => Some(x.json()),
            None => None,
        }, "text_item"@);
    json::law_given_member(m2, "image_item"@, match v.image_item {
            Some(x) => Some(x.json()),
            None => None,
        }, "image_item"@);
    json::law_given_member(m2, "image_item"@, match v.image_item {
            Some(x) => Some(x.json()),
            None => None,
        }, "file_item"@);
    json::law_given_member(m2, "image_item"@, match v.image_item {
            Some(x) => Some(x.json()),
            None => None,
        }, "video_item"@);
    json::law_given_member(m2, "image_item"@, match v.image_item {
            Some(x) => Some(x.json()),
            None => None,
        }, "create_time_ms"@);
    let m4 = json::and_opt(m3, "file_item"@, match v.file_item {
            Some(x) => Some(x.json()),
            None => None,
        });
    json::law_given_member(m3, "file_item"@, match v.file_item {
            Some(x) => Some(x.json()),
            None => None,
        }, "type"@);
    json::law_given_member(m3, "file_item"@, match v.file_item {
            Some(x) => Some(x.json()),
            None => None,
        }, "text_item"@);
    json::law_given_member(m3, "file_item"@, match v.file_item {
            Some(x) => Some(x.json()),
            None => None,
        }, "image_item"@);
    json::law_given_member(m3, "file_item"@, match v.file_item {
            Some(x) => Some(x.json()),
            None => None,
        }, "file_item"@);
    json::law_given_member(m3, "file_item"@, match v.file_item {
            Some(x) => Some(x.json()),
            None => None,
        }, "video_item"@);
    json::law_given_member(m3, "file_item"@, match v.file_item {
            Some(x) => Some(x.json()),
            None => None,
        }, "create_time_ms"@);
    let m5 = json::and_opt(m4, "video_item"@, match v.video_item {
            Some(x) => Some(x.json()),
            None => None,
        });
    json::law_given_member(m4, "video_item"@, match v.video_item {
            Some(x) => Some(x.json()),
            None => None,
        }, "type"@);
    json::law_given_member(m4, "video_item"@, match v.video_item {
            Some(x) => Some(x.json()),
            None => None,
        }, "text_item"@);
    json::law_given_member(m4, "video_item"@, match v.video_item {
            Some(x) => Some(x.json()),
            None => None,
        }, "image_item"@);
    json::law_given_member(m4, "video_item"@, match v.video_item {
            Some(x) => Some(x.json()),
            None => None,
        }, "file_item"@);
    json::law_given_member(m4, "video_item"@, match v.video_item {
            Some(x) => Some(x.json()),
            None => None,
        }, "video_item"@);
    json::law_given_member(m4, "video_item"@, match v.video_item {
            Some(x) => Some(x.json()),
            None => None,
        }, "create_time_ms"@);
    let m6 = json::and_opt(m5, "create_time_ms"@, opt_u64_json(v.create_time_ms));
    json::law_given_member(m5, "create_time_ms"@, opt_u64_json(v.create_time_ms), "type"@);
    json::law_given_member(m5, "create_time_ms"@, opt_u64_json(v.create_time_ms), "text_item"@);
    json::law_given_member(m5, "create_time_ms"@, opt_u64_json(v.create_time_ms), "image_item"@);
    json::law_given_member(m5, "create_time_ms"@, opt_u64_json(v.create_time_ms), "file_item"@);
    json::law_given_member(m5, "create_time_ms"@, opt_u64_json(v.create_time_ms), "video_item"@);
    json::law_given_member(m5, "create_time_ms"@, opt_u64_json(v.create_time_ms), "create_time_ms"@);
    assert(v.json() == JsonV::Object(m6));
}

/// A message says what it holds, and nothing of what it does not.
pub proof fn law_message_json(v: WeixinMessage)
    ensures
        v.json().get("seq"@) == match v.seq {
            Some(n) => Some(JsonV::Number(JsonNumberV::Unsigned(n as u64))),
            None => None,
        },
        v.json().get("message_id"@) == match v.message_id {
            Some(n) => Some(JsonV::Number(JsonNumberV::Unsigned(n as u64))),
            None => None,
        },
        v.json().get("from_user_id"@) == match v.from_user_id {
            Some(t) => Some(JsonV::Text(t@)),
            None => None,
        },
        v.json().get("to_user_id"@) == match v.to_user_id {
            Some(t) => Some(JsonV::Text(t@)),
            None => None,
        },
        v.json().get("client_id"@) == match v.client_id {
            Some(t) => Some(JsonV::Text(t@)),
            None => None,
        },
        v.json().get("session_id"@) == match v.session_id {
            Some(t) => Some(JsonV::Text(t@)),
            None => None,
        },
        v.json().get("group_id"@) == match v.group_id {
            Some(t) => Some(JsonV::Text(t@)),
            None => None,
        },
        v.json().get("message_type"@) == match v.message_type {
            Some(n) => Some(JsonV::Number(JsonNumberV::Unsigned(n as u64))),
            None => None,
        },
        v.json().get("message_state"@) == match v.message_state {
            Some(n) => Some(JsonV::Number(JsonNumberV::Unsigned(n as u64))),
            None => None,
        },
        v.json().get("item_list"@) == match v.item_list {
            Some(items) => Some(JsonV::Array(items_json(items@))),
            None => None,
        },
        v.json().get("context_token"@) == match v.context_token {
            Some(t) => Some(JsonV::Text(t@)),
            None => None,
        },
{
    reveal_strlit("seq");
    reveal_strlit("message_id");
    reveal_strlit("from_user_id");
    reveal_strlit("to_user_id");
    reveal_strlit("client_id");
    reveal_strlit("session_id");
    reveal_strlit("group_id");
    reveal_strlit("message_type");
    reveal_strlit("message_state");
    reveal_strlit("item_list");
    reveal_strlit("context_token");
    assert("seq"@.len() == 3);
    assert("group_id"@.len() == 8);
    assert("client_id"@.len() == 9 && "client_id"@[0] == 'c');
    assert("item_list"@.len() == 9 && "item_list"@[0] == 'i');
    assert("message_id"@.len() == 10 && "message_id"@[0] == 'm');
    assert("to_user_id"@.len() == 10 && "to_user_id"@[0] == 't');
    assert("session_id"@.len() == 10 && "session_id"@[0] == 's');
    assert("from_user_id"@.len() == 12 && "from_user_id"@[0] == 'f');
    assert("message_type"@.len() == 12 && "message_type"@[0] == 'm');
    assert("message_state"@.len() == 13 && "message_state"@[0] == 'm');
    assert("context_token"@.len() == 13 && "context_token"@[0] == 'c');
    let m1 = json::and_opt(no_members(), "seq"@, opt_u64_json(v.seq));
    json::law_given_member(no_members(), "seq"@, opt_u64_json(v.seq), "seq"@);
    json::law_given_member(no_members(), "seq"@, opt_u64_json(v.seq), "message_id"@);
    json::law_given_member(no_members(), "seq"@, opt_u64_json(v.seq), "from_user_id"@);
    json::law_given_member(no_members(), "seq"@, opt_u64_json(v.seq), "to_user_id"@);
    json::law_given_member(no_members(), "seq"@, opt_u64_json(v.seq), "client_id"@);
    json::law_given_member(no_members(), "seq"@, opt_u64_json(v.seq), "session_id"@);
    json::law_given_member(no_members(), "seq"@, opt_u64_json(v.seq), "group_id"@);
    json::law_given_member(no_members(), "seq"@, opt_u64_json(v.seq), "message_type"@);
    json::law_given_member(no_members(), "seq"@, opt_u64_json(v.seq), "message_state"@);
    json::law_given_member(no_members(), "seq"@, opt_u64_json(v.seq), "item_list"@);
    json::law_given_member(no_members(), "seq"@, opt_u64_json(v.seq), "context_token"@);
    let m2 = json::and_opt(m1, "message_id"@, opt_u64_json(v.message_id));
    json::law_given_member(m1, "message_id"@, opt_u64_json(v.message_id), "seq"@);
    json::law_given_member(m1, "message_id"@, opt_u64_json(v.message_id), "message_id"@);
    json::law_given_member(m1, "message_id"@, opt_u64_json(v.message_id), "from_user_id"@);
    json::law_given_member(m1, "message_id"@, opt_u64_json(v.message_id), "to_user_id"@);
    json::law_given_member(m1, "message_id"@, opt_u64_json(v.message_id), "client_id"@);
    json::law_given_member(m1, "message_id"@, opt_u64_json(v.message_id), "session_id"@);
    json::law_given_member(m1, "message_id"@, opt_u64_json(v.message_id), "group_id"@);
    json::law_given_member(m1, "message_id"@, opt_u64_json(v.message_id), "message_type"@);
    json::law_given_member(m1, "message_id"@, opt_u64_json(v.message_id), "message_state"@);
    json::law_given_member(m1, "message_id"@, opt_u64_json(v.message_id), "item_list"@);
    json::law_given_member(m1, "message_id"@, opt_u64_json(v.message_id), "context_token"@);
    let m3 = json::and_opt(m2, "from_user_id"@, opt_text_json(v.from_user_id));
    json::law_given_member(m2, "from_user_id"@, opt_text_json(v.from_user_id), "seq"@);
    json::law_given_member(m2, "from_user_id"@, opt_text_json(v.from_user_id), "message_id"@);
    json::law_given_member(m2, "from_user_id"@, opt_text_json(v.from_user_id), "from_user_id"@);
    json::law_given_member(m2, "from_user_id"@, opt_text_json(v.from_user_id), "to_user_id"@);
    json::law_given_member(m2, "from_user_id"@, opt_text_json(v.from_user_id), "client_id"@);
    json::law_given_member(m2, "from_user_id"@, opt_text_json(v.from_user_id), "session_id"@);
    json::law_given_member(m2, "from_user_id"@, opt_text_json(v.from_user_id), "group_id"@);
    json::law_given_member(m2, "from_user_id"@, opt_text_json(v.from_user_id), "message_type"@);
    json::law_given_member(m2, "from_user_id"@, opt_text_json(v.from_user_id), "message_state"@);
    json::law_given_member(m2, "from_user_id"@, opt_text_json(v.from_user_id), "item_list"@);
    json::law_given_member(m2, "from_user_id"@, opt_text_json(v.from_user_id), "context_token"@);
    let m4 = json::and_opt(m3, "to_user_id"@, opt_text_json(v.to_user_id));
    json::law_given_member(m3, "to_user_id"@, opt_text_json(v.to_user_id), "seq"@);
    json::law_given_member(m3, "to_user_id"@, opt_text_json(v.to_user_id), "message_id"@);
    json::law_given_member(m3, "to_user_id"@, opt_text_json(v.to_user_id), "from_user_id"@);
    json::law_given_member(m3, "to_user_id"@, opt_text_json(v.to_user_id), "to_user_id"@);
    json::law_given_member(m3, "to_user_id"@, opt_text_json(v.to_user_id), "client_id"@);
    json::law_given_member(m3, "to_user_id"@, opt_text_json(v.to_user_id), "session_id"@);
    json::law_given_member(m3, "to_user_id"@, opt_text_json(v.to_user_id), "group_id"@);
    json::law_given_member(m3, "to_user_id"@, opt_text_json(v.to_user_id), "message_type"@);
    json::law_given_member(m3, "to_user_id"@, opt_text_json(v.to_user_id), "message_state"@);
    json::law_given_member(m3, "to_user_id"@, opt_text_json(v.to_user_id), "item_list"@);
    json::law_given_member(m3, "to_user_id"@, opt_text_json(v.to_user_id), "context_token"@);
    let m5 = json::and_opt(m4, "client_id"@, opt_text_json(v.client_id));
    json::law_given_member(m4, "client_id"@, opt_text_json(v.client_id), "seq"@);
    json::law_given_member(m4, "client_id"@, opt_text_json(v.client_id), "message_id"@);
    json::law_given_member(m4, "client_id"@, opt_text_json(v.client_id), "from_user_id"@);
    json::law_given_member(m4, "client_id"@, opt_text_json(v.client_id), "to_user_id"@);
    json::law_given_member(m4, "client_id"@, opt_text_json(v.client_id), "client_id"@);
    json::law_given_member(m4, "client_id"@, opt_text_json(v.client_id), "session_id"@);
    json::law_given_member(m4, "client_id"@, opt_text_json(v.client_id), "group_id"@);
    json::law_given_member(m4, "client_id"@, opt_text_json(v.client_id), "message_type"@);
    json::law_given_member(m4, "client_id"@, opt_text_json(v.client_id), "message_state"@);
    json::law_given_member(m4, "client_id"@, opt_text_json(v.client_id), "item_list"@);
    json::law_given_member(m4, "client_id"@, opt_text_json(v.client_id), "context_token"@);
    let m6 = json::and_opt(m5, "session_id"@, opt_text_json(v.session_id));
    json::law_given_member(m5, "session_id"@, opt_text_json(v.session_id), "seq"@);
    json::law_given_member(m5, "session_id"@, opt_text_json(v.session_id), "message_id"@);
    json::law_given_member(m5, "session_id"@, opt_text_json(v.session_id), "from_user_id"@);
    json::law_given_member(m5, "session_id"@, opt_text_json(v.session_id), "to_user_id"@);
    json::law_given_member(m5, "session_id"@, opt_text_json(v.session_id), "client_id"@);
    json::law_given_member(m5, "session_id"@, opt_text_json(v.session_id), "session_id"@);
    json::law_given_member(m5, "session_id"@, opt_text_json(v.session_id), "group_id"@);
    json::law_given_member(m5, "session_id"@, opt_text_json(v.session_id), "message_type"@);
    json::law_given_member(m5, "session_id"@, opt_text_json(v.session_id), "message_state"@);
    json::law_given_member(m5, "session_id"@, opt_text_json(v.session_id), "item_list"@);
    json::law_given_member(m5, "session_id"@, opt_text_json(v.session_id), "context_token"@);
    let m7 = json::and_opt(m6, "group_id"@, opt_text_json(v.group_id));
    json::law_given_member(m6, "group_id"@, opt_text_json(v.group_id), "seq"@);
    json::law_given_member(m6, "group_id"@, opt_text_json(v.group_id), "message_id"@);
    json::law_given_member(m6, "group_id"@, opt_text_json(v.group_id), "from_user_id"@);
    json::law_given_member(m6, "group_id"@, opt_text_json(v.group_id), "to_user_id"@);
    json::law_given_member(m6, "group_id"@, opt_text_json(v.group_id), "client_id"@);
    json::law_given_member(m6, "group_id"@, opt_text_json(v.group_id), "session_id"@);
    json::law_given_member(m6, "group_id"@, opt_text_json(v.group_id), "group_id"@);
    json::law_given_member(m6, "group_id"@, opt_text_json(v.group_id), "message_type"@);
    json::law_given_member(m6, "group_id"@, opt_text_json(v.group_id), "message_state"@);
    json::law_given_member(m6, "group_id"@, opt_text_json(v.group_id), "item_list"@);
    json::law_given_member(m6, "group_id"@, opt_text_json(v.group_id), "context_token"@);
    let m8 = json::and_opt(m7, "message_type"@, opt_u32_json(v.message_type));
    json::law_given_member(m7, "message_type"@, opt_u32_json(v.message_type), "seq"@);
    json::law_given_member(m7, "message_type"@, opt_u32_json(v.message_type), "message_id"@);
    json::law_given_member(m7, "message_type"@, opt_u32_json(v.message_type), "from_user_id"@);
    json::law_given_member(m7, "message_type"@, opt_u32_json(v.message_type), "to_user_id"@);
    json::law_given_member(m7, "message_type"@, opt_u32_json(v.message_type), "client_id"@);
    json::law_given_member(m7, "message_type"@, opt_u32_json(v.message_type), "session_id"@);
    json::law_given_member(m7, "message_type"@, opt_u32_json(v.message_type), "group_id"@);
    json::law_given_member(m7, "message_type"@, opt_u32_json(v.message_type), "message_type"@);
    json::law_given_member(m7, "message_type"@, opt_u32_json(v.message_type), "message_state"@);
    json::law_given_member(m7, "message_type"@, opt_u32_json(v.message_type), "item_list"@);
    json::law_given_member(m7, "message_type"@, opt_u32_json(v.message_type), "context_token"@);
    let m9 = json::and_opt(m8, "message_state"@, opt_u32_json(v.message_state));
    json::law_given_member(m8, "message_state"@, opt_u32_json(v.message_state), "seq"@);
    json::law_given_member(m8, "message_state"@, opt_u32_json(v.message_state), "message_id"@);
    json::law_given_member(m8, "message_state"@, opt_u32_json(v.message_state), "from_user_id"@);
    json::law_given_member(m8, "message_state"@, opt_u32_json(v.message_state), "to_user_id"@);
    json::law_given_member(m8, "message_state"@, opt_u32_json(v.message_state), "client_id"@);
    json::law_given_member(m8, "message_state"@, opt_u32_json(v.message_state), "session_id"@);
    json::law_given_member(m8, "message_state"@, opt_u32_json(v.message_state), "group_id"@);
    json::law_given_member(m8, "message_state"@, opt_u32_json(v.message_state), "message_type"@);
    json::law_given_member(m8, "message_state"@, opt_u32_json(v.message_state), "message_state"@);
    json::law_given_member(m8, "message_state"@, opt_u32_json(v.message_state), "item_list"@);
    json::law_given_member(m8, "message_state"@, opt_u32_json(v.message_state), "context_token"@);
    let m10 = json::and_opt(m9, "item_list"@, match v.item_list {
            Some(items) => Some(JsonV::Array(items_json(items@))),
            None => None,
        });
    json::law_given_member(m9, "item_list"@, match v.item_list {
            Some(items) => Some(JsonV::Array(items_json(items@))),
            None => None,
        }, "seq"@);
    json::law_given_member(m9, "item_list"@, match v.item_list {
            Some(items) => Some(JsonV::Array(items_json(items@))),
            None => None,
        }, "message_id"@);
    json::law_given_member(m9, "item_list"@, match v.item_list {
            Some(items) => Some(JsonV::Array(items_json(items@))),
            None => None,
        }, "from_user_id"@);
    json::law_given_member(m9, "item_list"@, match v.item_list {
            Some(items) => Some(JsonV::Array(items_json(items@))),
            None => None,
        }, "to_user_id"@);
    json::law_given_member(m9, "item_list"@, match v.item_list {
            Some(items) => Some(JsonV::Array(items_json(items@))),
            None => None,
        }, "client_id"@);
    json::law_given_member(m9, "item_list"@, match v.item_list {
            Some(items) => Some(JsonV::Array(items_json(items@))),
            None => None,
        }, "session_id"@);
    json::law_given_member(m9, "item_list"@, match v.item_list {
            Some(items) => Some(JsonV::Array(items_json(items@))),
            None => None,
        }, "group_id"@);
    json::law_given_member(m9, "item_list"@, match v.item_list {
            Some(items) => Some(JsonV::Array(items_json(items@))),
            None => None,
        }, "message_type"@);
    json::law_given_member(m9, "item_list"@, match v.item_list {
            Some(items) => Some(JsonV::Array(items_json(items@))),
            None => None,
        }, "message_state"@);
    json::law_given_member(m9, "item_list"@, match v.item_list {
            Some(items) => Some(JsonV::Array(items_json(items@))),
            None => None,
        }, "item_list"@);
    json::law_given_member(m9, "item_list"@, match v.item_list {
            Some(items) => Some(JsonV::Array(items_json(items@))),
            None => None,
        }, "context_token"@);
    let m11 = json::and_opt(m10, "context_token"@, opt_text_json(v.context_token));
    json::law_given_member(m10, "context_token"@, opt_text_json(v.context_token), "seq"@);
    json::law_given_member(m10, "context_token"@, opt_text_json(v.context_token), "message_id"@);
    json::law_given_member(m10, "context_token"@, opt_text_json(v.context_token), "from_user_id"@);
    json::law_given_member(m10, "context_token"@, opt_text_json(v.context_token), "to_user_id"@);
    json::law_given_member(m10, "context_token"@, opt_text_json(v.context_token), "client_id"@);
    json::law_given_member(m10, "context_token"@, opt_text_json(v.context_token), "session_id"@);
    json::law_given_member(m10, "context_token"@, opt_text_json(v.context_token), "group_id"@);
    json::law_given_member(m10, "context_token"@, opt_text_json(v.context_token), "message_type"@);
    json::law_given_member(m10, "context_token"@, opt_text_json(v.context_token), "message_state"@);
    json::law_given_member(m10, "context_token"@, opt_text_json(v.context_token), "item_list"@);
    json::law_given_member(m10, "context_token"@, opt_text_json(v.context_token), "context_token"@);
    assert(v.json() == JsonV::Object(m11));
}

/// A message of the bot goes to the user that it is for, under its id, finished, with the
/// one part that it carries and the token of the user where there is one.
pub proof fn law_bot_message(
    to: Seq<char>,
    id: Seq<char>,
    item: JsonV,
    token: Option<Seq<char>>,
    said: Seq<char>,
)
    ensures
        bot_message_json(to, id, item, token).get("to_user_id"@) == Some(JsonV::Text(to)),
        bot_message_json(to, id, item, token).get("client_id"@) == Some(JsonV::Text(id)),
        bot_message_json(to, id, item, token).get("item_list"@) == Some(JsonV::Array(seq![item])),
        bot_message_json(to, id, item, token).get("message_type"@) == Some(json::num(2)),
        bot_message_json(to, id, item, token).get("message_state"@) == Some(json::num(2)),
        bot_message_json(to, id, item, token).get("context_token"@) == match token {
            Some(t) => Some(JsonV::Text(t)),
            None => None,
        },
        text_item_json(said).get("type"@) == Some(json::num(1)),
        text_item_json(said).at2("text_item"@, "text"@) == Some(JsonV::Text(said)),
{
    reveal_strlit("from_user_id");
    reveal_strlit("to_user_id");
    reveal_strlit("client_id");
    reveal_strlit("message_type");
    reveal_strlit("message_state");
    reveal_strlit("item_list");
    reveal_strlit("context_token");
    reveal_strlit("type");
    reveal_strlit("text_item");
    reveal_strlit("text");
    assert("type"@.len() == 4 && "type"@[1] == 'y');
    assert("text"@.len() == 4 && "text"@[1] == 'e');
    assert("client_id"@.len() == 9 && "client_id"@[0] == 'c');
    assert("item_list"@.len() == 9 && "item_list"@[0] == 'i');
    assert("text_item"@.len() == 9 && "text_item"@[0] == 't');
    assert("to_user_id"@.len() == 10);
    assert("from_user_id"@.len() == 12 && "from_user_id"@[0] == 'f');
    assert("message_type"@.len() == 12 && "message_type"@[0] == 'm');
    assert("message_state"@.len() == 13 && "message_state"@[0] == 'm');
    assert("context_token"@.len() == 13 && "context_token"@[0] == 'c');
    reveal_with_fuel(json::member_from, 9);
    match bot_message_json(to, id, item, token) {
        JsonV::Object(m) => {
            assert(m[0].0 == "from_user_id"@ && m[1].0 == "to_user_id"@ && m[2].0 == "client_id"@);
            assert(m[3].0 == "message_type"@ && m[4].0 == "message_state"@ && m[5].0
                == "item_list"@);
            if token is Some {
                assert(m[6].0 == "context_token"@);
            }
        },
        _ => {},
    }
}

/// The announcement of an upload says all of the plan, for whom it is and as what.
pub proof fn law_announcement(plan: UploadPlan, media_type: u32, to: Seq<char>, version: Seq<char>)
    ensures
        ({
            let body = upload_url_json(plan, media_type, to, version);
            &&& body.get("filekey"@) == Some(JsonV::Text(plan.filekey@))
            &&& body.get("media_type"@) == Some(json::num(media_type as u64))
            &&& body.get("to_user_id"@) == Some(JsonV::Text(to))
            &&& body.get("rawsize"@) == Some(json::num(plan.rawsize))
            &&& body.get("rawfilemd5"@) == Some(JsonV::Text(plan.rawfilemd5@))
            &&& body.get("filesize"@) == Some(json::num(plan.filesize))
            &&& body.get("no_need_thumb"@) == Some(JsonV::Bool(true))
            &&& body.get("aeskey"@) == Some(JsonV::Text(plan.aeskey_hex@))
            &&& body.at2("base_info"@, "channel_version"@) == Some(JsonV::Text(version))
        }),
{
    reveal_strlit("filekey");
    reveal_strlit("media_type");
    reveal_strlit("to_user_id");
    reveal_strlit("rawsize");
    reveal_strlit("rawfilemd5");
    reveal_strlit("filesize");
    reveal_strlit("no_need_thumb");
    reveal_strlit("aeskey");
    reveal_strlit("base_info");
    assert("aeskey"@.len() == 6);
    assert("filekey"@.len() == 7 && "filekey"@[0] == 'f');
    assert("rawsize"@.len() == 7 && "rawsize"@[0] == 'r');
    assert("filesize"@.len() == 8);
    assert("base_info"@.len() == 9);
    assert("media_type"@.len() == 10 && "media_type"@[0] == 'm');
    assert("to_user_id"@.len() == 10 && "to_user_id"@[0] == 't');
    assert("rawfilemd5"@.len() == 10 && "rawfilemd5"@[0] == 'r');
    assert("no_need_thumb"@.len() == 13);
    reveal_with_fuel(json::member_from, 10);
    match upload_url_json(plan, media_type, to, version) {
        JsonV::Object(m) => {
            assert(m[0].0 == "filekey"@);
            assert(m[1].0 == "media_type"@);
            assert(m[2].0 == "to_user_id"@);
            assert(m[3].0 == "rawsize"@);
            assert(m[4].0 == "rawfilemd5"@);
            assert(m[5].0 == "filesize"@);
            assert(m[6].0 == "no_need_thumb"@);
            assert(m[7].0 == "aeskey"@);
            assert(m[8].0 == "base_info"@);
        },
        _ => {},
    }
}

/// A part that shows an uploaded file refers to it by its parameter and its key in base
/// 64, says what it is, and how large: an image and a film as they are stored, a file as
/// it is, with its name.
pub proof fn law_media_item(kind: u32, upload: CdnUploadResult, name: Seq<char>)
    ensures
        ({
            let item = media_item_json(kind, upload, name);
            let key = if kind == 2 {
                "image_item"@
            } else if kind == 5 {
                "video_item"@
            } else {
                "file_item"@
            };
            let kind_sent: u64 = if kind == 2 || kind == 5 {
                kind as u64
            } else {
                4
            };
            &&& item.get("type"@) == Some(json::num(kind_sent))
            &&& item.get(key) is Some
            &&& item.at3(key, "media"@, "encrypt_query_param"@) == Some(
                JsonV::Text(upload.download_encrypted_query_param@),
            )
            &&& item.at3(key, "media"@, "aes_key"@) == Some(
                JsonV::Text(codec::base64(encode_utf8(upload.aeskey_hex@))),
            )
            &&& item.at3(key, "media"@, "encrypt_type"@) == Some(json::num(1))
            &&& kind == 2 ==> item.at2(key, "mid_size"@) == Some(
                json::num(upload.file_size_ciphertext),
            )
            &&& kind == 5 ==> item.at2(key, "video_size"@) == Some(
                json::num(upload.file_size_ciphertext),
            )
            &&& kind != 2 && kind != 5 ==> item.at2(key, "file_name"@) == Some(JsonV::Text(name))
                && item.at2(key, "len"@) == Some(
                JsonV::Text(text::digits(upload.file_size as nat)),
            )
        }),
{
    reveal_strlit("type");
    reveal_strlit("image_item");
    reveal_strlit("video_item");
    reveal_strlit("file_item");
    reveal_strlit("media");
    reveal_strlit("mid_size");
    reveal_strlit("video_size");
    reveal_strlit("file_name");
    reveal_strlit("len");
    reveal_strlit("encrypt_query_param");
    reveal_strlit("aes_key");
    reveal_strlit("encrypt_type");
    assert("len"@.len() == 3);
    assert("type"@.len() == 4);
    assert("media"@.len() == 5);
    assert("aes_key"@.len() == 7);
    assert("mid_size"@.len() == 8);
    assert("file_item"@.len() == 9 && "file_item"@[5] == 'i');
    assert("file_name"@.len() == 9 && "file_name"@[5] == 'n');
    assert("image_item"@.len() == 10 && "image_item"@[0] == 'i');
    assert("video_item"@.len() == 10 && "video_item"@[0] == 'v' && "video_item"@[6] == 'i');
    assert("video_size"@.len() == 10 && "video_size"@[0] == 'v' && "video_size"@[6] == 's');
    assert("encrypt_type"@.len() == 12);
    assert("encrypt_query_param"@.len() == 19);
    reveal_with_fuel(json::member_from, 4);
}

/// Where a session has run out polling rests for an hour, and for no other reason; until
/// then it does not poll, and from then on it does.
pub proof fn law_session_rests(errcode: Option<i32>, now: u64, later: u64)
    ensures
        errcode == Some(-14i32) ==> pause_after(errcode, now) == Some(now + 60 * 60 * 1000),
        errcode != Some(-14i32) ==> pause_after(errcode, now) is None,
        poll_step(None, later) == PollStep::Poll,
        now + 60 * 60 * 1000 <= u64::MAX && later < now + 60 * 60 * 1000 ==> poll_step(
            Some((now + 60 * 60 * 1000) as u64),
            later,
        ) is Rest,
        now + 60 * 60 * 1000 <= u64::MAX && later >= now + 60 * 60 * 1000 ==> poll_step(
            Some((now + 60 * 60 * 1000) as u64),
            later,
        ) == PollStep::Poll,
{
}

/// An upload is tried three times at most, and again only after an error that is not the
/// client's.
pub proof fn law_upload_is_tried_again(made: nat, reply: CdnReply)
    ensures
        made >= 3 ==> !tries_again(made, reply),
        reply matches CdnReply::Failed(_) ==> (tries_again(made, reply) <==> made < 3),
        reply matches CdnReply::Answered(status, _, _, param) ==> (tries_again(made, reply) <==> made
            < 3 && !(400 <= status <= 499) && !(200 <= status <= 299 && param is Some)),
{
}

/// All of a text reaches the user: each of the messages goes to them with a part of the
/// text, and the parts in a row are the whole of it.
pub proof fn law_whole_text_is_sent(
    msgs: Seq<WeixinMessage>,
    to: Seq<char>,
    text: Seq<char>,
    token: Option<Seq<char>>,
) -> (parts: Seq<Seq<char>>)
    requires
        carry_text(msgs, to, text, token),
    ensures
        parts.flatten() == text,
        parts.len() == msgs.len(),
        forall|i: int|
            0 <= i < parts.len() ==> encode_utf8(#[trigger] parts[i]).len() <= 4000,
        forall|i: int|
            0 <= i < msgs.len() ==> {
                let sent = (#[trigger] msgs[i]).json();
                &&& sent.get("to_user_id"@) == Some(JsonV::Text(to))
                &&& sent.items("item_list"@) matches Some(items) && items.len() == 1
                    && items[0].at2("text_item"@, "text"@) == Some(JsonV::Text(parts[i]))
                &&& sent.text("context_token"@) == token
            },
{
    let parts = chunks::chunks(text, 4000);
    chunks::law_chunks_break_at_lines(text, 4000);
    assert forall|i: int| 0 <= i < parts.len() implies encode_utf8(#[trigger] parts[i]).len()
        <= 4000 by {
        if parts[i].len() == 1 {
            text::lemma_byte_len_utf8(parts[i]);
            text::lemma_byte_len_bounds(parts[i]);
        }
    }
    assert forall|i: int| 0 <= i < msgs.len() implies {
        let sent = (#[trigger] msgs[i]).json();
        &&& sent.get("to_user_id"@) == Some(JsonV::Text(to))
        &&& sent.items("item_list"@) matches Some(items) && items.len() == 1 && items[0].at2(
            "text_item"@,
            "text"@,
        ) == Some(JsonV::Text(parts[i]))
        &&& sent.text("context_token"@) == token
    } by {
        let item = text_item_json(parts[i]);
        assert(carries(msgs[i], to, item, token));
        let id = choose|id: Seq<char>|
            id.len() == 36 && msgs[i].json() == #[trigger] bot_message_json(to, id, item, token);
        law_bot_message(to, id, item, token, parts[i]);
    }
    parts
}

/// The number that a request brings is that of its four random bytes, the first the
/// lowest, in decimal digits and these in base 64.
pub proof fn law_uin(a: u8, b: u8, c: u8, d: u8)
    ensures
        uin_of(seq![a, b, c, d]) == codec::base64(
            encode_utf8(
                text::digits((a + 256 * b + 256 * 256 * c + 256 * 256 * 256 * d) as nat),
            ),
        ),
{
}

/// Each part of a message is listed, in its place.
pub proof fn law_items_json(items: Seq<MessageItem>, i: int)
    ensures
        items_json(items).len() == items.len(),
        0 <= i < items.len() ==> items_json(items)[i] == items[i].json(),
{
}

} // verus!
