//! Servers of the Model Context Protocol: what is sent to them, what their replies
//! mean, and what is remembered of their tools.
//!
//! A program carries the messages over a child process or over HTTP. What it is
//! to send, and what follows from what came back, is decided here.

use crate::handles;
use crate::json;
use crate::json::{Fields, Json, JsonNumberV, JsonV};
use crate::maps;
use crate::maps::NameMap;
use crate::text;
use std::sync::Arc;
use vstd::arithmetic::power2::{lemma2_to64, lemma_pow2_unfold, pow2};
use vstd::prelude::*;
use vstd::utf8::*;

verus! {

broadcast use vstd::string::group_string_axioms;

/// How long a reply is waited for, where a configuration does not say.
pub const DEFAULT_REQUEST_TIMEOUT_SECS: u64 = 120;

/// How often a request is sent again, where a configuration does not say.
pub const DEFAULT_MAX_RETRIES: u32 = 2;

/// How often a server is probed, where a configuration does not say.
pub const DEFAULT_HEALTH_INTERVAL_SECS: u64 = 60;

/// How long a list of tools counts as fresh.
pub const TOOLS_CACHE_TTL_SECS: u64 = 300;

/// How long connecting to one server may take.
pub const CONNECT_SECS: u64 = 30;

// ---------------------------------------------------------------------------
// Configuration
// ---------------------------------------------------------------------------

/// The transport of a server whose configuration names none.
pub fn default_transport() -> (res: String)
    ensures
        res@ == "stdio"@,
{
    text::owned("stdio")
}

/// The configuration of one server.
#[derive(Debug, Clone)]
pub struct McpServerConfig {
    pub transport: String,
    pub protocol_version: Option<String>,
    pub request_timeout_secs: Option<u64>,
    pub max_retries: Option<u32>,
    pub health_interval_secs: Option<u64>,
    pub command: String,
    pub args: Vec<String>,
    pub env: NameMap<String>,
    pub endpoint: String,
    pub headers: NameMap<String>,
}

/// The configuration of all servers, each under its name.
#[derive(Debug)]
pub struct McpConfig {
    pub default_protocol_version: Option<String>,
    pub mcp_servers: NameMap<McpServerConfig>,
}

impl McpConfig {
    /// No server is described twice, and each is described well.
    pub open spec fn wf(&self) -> bool {
        &&& self.mcp_servers.wf()
        &&& forall|i: int|
            0 <= i < self.mcp_servers@.len() ==> (#[trigger] self.mcp_servers@[i]).1.wf()
    }

    /// The configuration without servers.
    pub fn new(default_protocol_version: Option<String>) -> (res: McpConfig)
        ensures
            res.wf(),
            res.default_protocol_version == default_protocol_version,
            forall|name: Seq<char>| (#[trigger] res.mcp_servers.of(name)) is None,
    {
        McpConfig { default_protocol_version, mcp_servers: NameMap::new() }
    }

    /// Describes a server, in place of any description under the same name.
    pub fn describe(&mut self, name: &str, config: McpServerConfig)
        requires
            old(self).wf(),
            config.wf(),
        ensures
            final(self).wf(),
            final(self).default_protocol_version == old(self).default_protocol_version,
            forall|other: Seq<char>|
                (#[trigger] final(self).mcp_servers.of(other)) == if other == name@ {
                    Some(config)
                } else {
                    old(self).mcp_servers.of(other)
                },
    {
        self.mcp_servers.set(name, config);
        assert forall|i: int| 0 <= i < self.mcp_servers@.len() implies (
        #[trigger] self.mcp_servers@[i]).1.wf() by {
            let other = self.mcp_servers@[i].0@;
            maps::lemma_value_at(self.mcp_servers@, i);
            assert(self.mcp_servers.of(other) == Some(self.mcp_servers@[i].1));
            if other != name@ {
                maps::lemma_value_is_held(old(self).mcp_servers@, other, 0);
            }
        }
    }
}

/// How often a server is probed, by what its configuration says; not at all where it says
/// zero.
pub open spec fn probed_every(secs: Option<u64>) -> Option<u64> {
    match secs {
        Some(0) => None,
        Some(n) => Some(n),
        None => Some(DEFAULT_HEALTH_INTERVAL_SECS),
    }
}

impl McpServerConfig {
    /// No variable and no header is given twice.
    pub open spec fn wf(&self) -> bool {
        self.env.wf() && self.headers.wf()
    }

    /// How often the server is to be probed; not at all where the configuration
    /// says zero.
    pub fn health_interval(&self) -> (res: Option<u64>)
        ensures
            res == probed_every(self.health_interval_secs),
            res == match self.health_interval_secs {
                Some(0) => None,
                Some(n) => Some(n),
                None => Some(DEFAULT_HEALTH_INTERVAL_SECS),
            },
    {
        match self.health_interval_secs {
            Some(n) => if n == 0 {
                None
            } else {
                Some(n)
            },
            None => Some(DEFAULT_HEALTH_INTERVAL_SECS),
        }
    }
}

// ---------------------------------------------------------------------------
// Messages
// ---------------------------------------------------------------------------

/// The view of an optional value.
pub open spec fn opt_json(v: Option<Json>) -> Option<JsonV> {
    match v {
        Some(j) => Some(j@),
        None => None,
    }
}

/// A request, or a notification where it has no number.
#[derive(Debug)]
pub struct JsonRpcRequest {
    pub id: Option<u64>,
    pub method: String,
    pub params: Option<Json>,
}

/// The JSON form of a request.
pub open spec fn request_json(
    id: Option<u64>,
    method: Seq<char>,
    params: Option<JsonV>,
) -> JsonV {
    JsonV::Object(
        json::and_opt(
            json::and_opt(
                Seq::empty().push(("jsonrpc"@, json::jstr("2.0"@))),
                "id"@,
                match id {
                    Some(n) => Some(json::num(n)),
                    None => None,
                },
            ).push(("method"@, json::jstr(method))),
            "params"@,
            params,
        ),
    )
}

impl JsonRpcRequest {
    /// The JSON form of the request.
    pub fn to_json(&self) -> (res: Json)
        ensures
            res@ == request_json(self.id, self.method@, opt_json(self.params)),
    {
        let id = match self.id {
            Some(n) => Some(json::number(n)),
            None => None,
        };
        let params = match &self.params {
            Some(p) => Some(p.copy()),
            None => None,
        };
        Fields::new().text("jsonrpc", "2.0").with_opt("id", id).text(
            "method",
            self.method.as_str(),
        ).with_opt("params", params).object()
    }

    /// The request as a line of text.
    pub fn to_line(&self) -> (res: String)
        ensures
            res@ == json::text_of(request_json(self.id, self.method@, opt_json(self.params)))
                + "\n"@,
    {
        let body = self.to_json().to_text();
        text::cat(body.as_str(), "\n")
    }
}

/// An error that a server reports.
#[derive(Debug)]
pub struct JsonRpcError {
    pub code: i64,
    pub message: String,
}

/// A reply of a server.
#[derive(Debug)]
pub struct JsonRpcResponse {
    pub id: Option<Json>,
    pub result: Option<Json>,
    pub error: Option<JsonRpcError>,
}

/// How an error of a server reads.
pub open spec fn error_text(e: JsonRpcError) -> Seq<char> {
    "MCP error ("@ + text::signed(e.code as int) + "): "@ + e.message@
}

/// What a reply says: the result, null where it has none, or the error.
pub open spec fn outcome(r: JsonRpcResponse) -> Result<JsonV, Seq<char>> {
    match r.error {
        Some(e) => Err(error_text(e)),
        None => match r.result {
            Some(j) => Ok(j@),
            None => Ok(JsonV::Null),
        },
    }
}

/// The views of an outcome.
pub open spec fn outcome_view(r: Result<Json, String>) -> Result<JsonV, Seq<char>> {
    match r {
        Ok(j) => Ok(j@),
        Err(e) => Err(e@),
    }
}

impl JsonRpcResponse {
    /// What the reply says.
    fn outcome(self) -> (res: Result<Json, String>)
        ensures
            outcome_view(res) == outcome(self),
    {
        match self.error {
            Some(e) => {
                let code = text::decimal_signed(e.code);
                Err(text::cat4("MCP error (", code.as_str(), "): ", e.message.as_str()))
            },
            None => match self.result {
                Some(j) => Ok(j),
                None => Ok(Json::Null),
            },
        }
    }
}

// ---------------------------------------------------------------------------
// Event streams
// ---------------------------------------------------------------------------

/// The payload of a line that begins with `data:`, where it has one.
pub open spec fn data_of_line(line: Seq<char>) -> Option<Seq<char>> {
    let trimmed = text::trim(line);
    if text::starts(trimmed, "data:"@) && text::trim(trimmed.skip(5)).len() > 0 {
        Some(text::trim(trimmed.skip(5)))
    } else {
        None
    }
}

/// The first payload from line `i` on.
pub open spec fn first_data(lines: Seq<Seq<char>>, i: int) -> Option<Seq<char>>
    decreases lines.len() - i,
{
    if i < 0 || i >= lines.len() {
        None
    } else {
        match data_of_line(lines[i]) {
            Some(data) => Some(data),
            None => first_data(lines, i + 1),
        }
    }
}

/// The payload of an event.
pub open spec fn event_data(event: Seq<char>) -> Option<Seq<char>> {
    first_data(text::lines(event), 0)
}

/// The payload of an event.
pub fn extract_sse_data(event: &str) -> (res: Option<String>)
    ensures
        text::opt(res) == event_data(event@),
{
    proof {
        reveal_strlit("data:");
    }
    let lines = text::lines_of(event);
    let ghost views = text::strs(lines@);
    let mut i: usize = 0;
    while i < lines.len()
        invariant
            i <= lines@.len(),
            views == text::strs(lines@),
            views == text::lines(event@),
            "data:"@.len() == 5,
            first_data(views, 0) == first_data(views, i as int),
        decreases lines@.len() - i,
    {
        assert(views[i as int] == lines@[i as int]@);
        let trimmed = text::trimmed(lines[i].as_str());
        if let Some(rest) = text::after_prefix(trimmed.as_str(), "data:") {
            let data = text::trimmed(rest.as_str());
            if !data.as_str().is_empty() {
                return Some(data);
            }
        }
        i += 1;
    }
    None
}

/// A value, where it is the reply to the request of this number.
pub open spec fn reply_to(value: JsonV, request_id: u64) -> Option<JsonV> {
    if value.count("id"@) == Some(request_id) {
        Some(value)
    } else {
        None
    }
}

/// A value, where it is the reply to the request of this number.
pub fn matching_reply(value: Json, request_id: u64) -> (res: Option<Json>)
    ensures
        opt_json(res) == reply_to(value@, request_id),
{
    match value.get_u64("id") {
        Some(n) => if n == request_id {
            Some(value)
        } else {
            None
        },
        None => None,
    }
}

/// The reply to the request of this number that an event holds.
pub open spec fn event_reply(event: Seq<char>, request_id: u64) -> Option<JsonV> {
    match event_data(event) {
        None => None,
        Some(data) => match json::value_in_text(data) {
            None => None,
            Some(value) => reply_to(value, request_id),
        },
    }
}

/// The reply to the request of this number that an event holds.
pub fn try_match_sse_event(event: &str, request_id: u64) -> (res: Option<Json>)
    ensures
        opt_json(res) == event_reply(event@, request_id),
{
    match extract_sse_data(event) {
        None => None,
        Some(data) => match json::parse(data.as_str()) {
            None => None,
            Some(value) => matching_reply(value, request_id),
        },
    }
}

/// Where the first event from `i` on ends: at two line feeds.
pub open spec fn event_end(bytes: Seq<u8>, i: int) -> Option<int>
    decreases bytes.len() - i,
{
    if i < 0 || i + 2 > bytes.len() {
        None
    } else if bytes[i] == 10 && bytes[i + 1] == 10 {
        Some(i)
    } else {
        event_end(bytes, i + 1)
    }
}

/// What whole events at the beginning of a stream give: the first reply to the
/// request, where there is one, and the bytes behind the events that were taken.
pub open spec fn take_events(buffer: Seq<u8>, request_id: u64) -> (Option<JsonV>, Seq<u8>)
    decreases buffer.len(),
{
    match event_end(buffer, 0) {
        None => (None, buffer),
        Some(k) => if 0 <= k && k + 2 <= buffer.len() {
            match event_reply(text::lossy(buffer.take(k)), request_id) {
                Some(reply) => (Some(reply), buffer.skip(k + 2)),
                None => take_events(buffer.skip(k + 2), request_id),
            }
        } else {
            (None, buffer)
        },
    }
}

/// What follows from the bytes that are left when a stream ends.
pub open spec fn end_of_stream(buffer: Seq<u8>, request_id: u64) -> Result<JsonV, Seq<char>> {
    let rest = text::lossy(buffer);
    if text::trim(rest).len() > 0 && event_reply(rest, request_id) is Some {
        Ok(event_reply(rest, request_id)->Some_0)
    } else {
        Err("SSE stream ended without a matching JSON-RPC response"@)
    }
}

/// What a whole stream gives: the first of its events that is a reply to the
/// request, what is left at the end counting as one.
pub open spec fn stream_outcome(bytes: Seq<u8>, request_id: u64) -> Result<JsonV, Seq<char>> {
    match take_events(bytes, request_id) {
        (Some(reply), _) => Ok(reply),
        (None, rest) => end_of_stream(rest, request_id),
    }
}

/// What a stream gives that comes in chunks, when `pending` is left of what came
/// before them.
pub open spec fn chunks_outcome(pending: Seq<u8>, chunks: Seq<Seq<u8>>, request_id: u64) -> Result<
    JsonV,
    Seq<char>,
>
    decreases chunks.len(),
{
    if chunks.len() == 0 {
        end_of_stream(pending, request_id)
    } else {
        match take_events(pending + chunks[0], request_id) {
            (Some(reply), _) => Ok(reply),
            (None, rest) => chunks_outcome(rest, chunks.drop_first(), request_id),
        }
    }
}

/// The bytes of all chunks.
pub open spec fn all_bytes(chunks: Seq<Seq<u8>>) -> Seq<u8>
    decreases chunks.len(),
{
    if chunks.len() == 0 {
        Seq::empty()
    } else {
        chunks[0] + all_bytes(chunks.drop_first())
    }
}

/// An event ends at the first place from `i` on with two line feeds.
proof fn lemma_event_end(bytes: Seq<u8>, i: int)
    requires
        0 <= i,
    ensures
        match event_end(bytes, i) {
            Some(k) => i <= k && k + 2 <= bytes.len() && bytes[k] == 10 && bytes[k + 1] == 10
                && forall|j: int|
                i <= j < k ==> !(#[trigger] bytes[j] == 10 && bytes[j + 1] == 10),
            None => forall|j: int|
                i <= j && j + 2 <= bytes.len() ==> !(#[trigger] bytes[j] == 10 && bytes[j + 1]
                    == 10),
        },
    decreases bytes.len() - i,
{
    if i + 2 <= bytes.len() && !(bytes[i] == 10 && bytes[i + 1] == 10) {
        lemma_event_end(bytes, i + 1);
    }
}

/// An event ends at a place that is the first with two line feeds.
proof fn lemma_event_end_is(bytes: Seq<u8>, i: int, k: int)
    requires
        0 <= i <= k,
        k + 2 <= bytes.len(),
        bytes[k] == 10,
        bytes[k + 1] == 10,
        forall|j: int| i <= j < k ==> !(#[trigger] bytes[j] == 10 && bytes[j + 1] == 10),
    ensures
        event_end(bytes, i) == Some(k),
    decreases k - i,
{
    if i < k {
        assert(!(bytes[i] == 10 && bytes[i + 1] == 10));
        lemma_event_end_is(bytes, i + 1, k);
    }
}

/// Looking from a place on is looking in what stands there.
proof fn lemma_event_end_shift(bytes: Seq<u8>, from: int, i: int)
    requires
        0 <= from <= bytes.len(),
        0 <= i,
    ensures
        event_end(bytes, from + i) == match event_end(bytes.skip(from), i) {
            Some(k) => Some(from + k),
            None => None,
        },
    decreases bytes.len() - from - i,
{
    if from + i + 2 <= bytes.len() {
        lemma_event_end_shift(bytes, from, i + 1);
    }
}

/// How a stream is taken in does not depend on where it is cut: what is found in
/// its first part is found, and else the rest of the first part is read on with
/// the second.
pub proof fn law_events_in_pieces(a: Seq<u8>, b: Seq<u8>, request_id: u64)
    ensures
        take_events(a, request_id).0 is Some ==> take_events(a + b, request_id).0 == take_events(
            a,
            request_id,
        ).0,
        take_events(a, request_id).0 is None ==> take_events(a + b, request_id) == take_events(
            take_events(a, request_id).1 + b,
            request_id,
        ),
    decreases a.len(),
{
    lemma_event_end(a, 0);
    match event_end(a, 0) {
        None => {},
        Some(k) => {
            assert forall|j: int| 0 <= j < k implies !(#[trigger] (a + b)[j] == 10 && (a + b)[j + 1]
                == 10) by {
                assert((a + b)[j] == a[j] && (a + b)[j + 1] == a[j + 1]);
            }
            lemma_event_end_is(a + b, 0, k);
            assert((a + b).take(k) =~= a.take(k));
            assert((a + b).skip(k + 2) =~= a.skip(k + 2) + b);
            law_events_in_pieces(a.skip(k + 2), b, request_id);
        },
    }
}

/// What was not taken of a stream holds no whole event.
proof fn lemma_rest_has_no_event(a: Seq<u8>, request_id: u64)
    requires
        take_events(a, request_id).0 is None,
    ensures
        take_events(take_events(a, request_id).1, request_id) == take_events(a, request_id),
    decreases a.len(),
{
    lemma_event_end(a, 0);
    match event_end(a, 0) {
        None => {},
        Some(k) => {
            lemma_rest_has_no_event(a.skip(k + 2), request_id);
        },
    }
}

proof fn lemma_chunks_from(pending: Seq<u8>, chunks: Seq<Seq<u8>>, request_id: u64)
    requires
        take_events(pending, request_id) == (None::<JsonV>, pending),
    ensures
        chunks_outcome(pending, chunks, request_id) == stream_outcome(
            pending + all_bytes(chunks),
            request_id,
        ),
    decreases chunks.len(),
{
    if chunks.len() == 0 {
        assert(pending + all_bytes(chunks) =~= pending);
    } else {
        let rest = all_bytes(chunks.drop_first());
        let here = pending + chunks[0];
        assert(pending + all_bytes(chunks) =~= here + rest);
        law_events_in_pieces(here, rest, request_id);
        if take_events(here, request_id).0 is None {
            let left = take_events(here, request_id).1;
            lemma_rest_has_no_event(here, request_id);
            lemma_chunks_from(left, chunks.drop_first(), request_id);
        }
    }
}

/// What a stream gives depends on its bytes alone, not on the chunks that they
/// come in, even where a chunk ends inside a character.
pub proof fn law_chunks_do_not_matter(chunks: Seq<Seq<u8>>, request_id: u64)
    ensures
        chunks_outcome(Seq::empty(), chunks, request_id) == stream_outcome(
            all_bytes(chunks),
            request_id,
        ),
{
    lemma_chunks_from(Seq::empty(), chunks, request_id);
    assert(Seq::<u8>::empty() + all_bytes(chunks) =~= all_bytes(chunks));
}

/// What the events in a text give: the first that is a reply to the request, where
/// events stand between empty lines and the last needs none behind it.
pub open spec fn text_outcome(s: Seq<char>, request_id: u64) -> Result<JsonV, Seq<char>>
    decreases s.len(),
{
    match text::find(s, "\n\n"@) {
        Some(k) => if 0 <= k && k + 2 <= s.len() {
            match event_reply(s.take(k), request_id) {
                Some(reply) => Ok(reply),
                None => text_outcome(s.skip(k + 2), request_id),
            }
        } else {
            Err("SSE stream ended without a matching JSON-RPC response"@)
        },
        None => if text::trim(s).len() > 0 && event_reply(s, request_id) is Some {
            Ok(event_reply(s, request_id)->Some_0)
        } else {
            Err("SSE stream ended without a matching JSON-RPC response"@)
        },
    }
}

/// Where no event ends before a place, the first ends from there on.
proof fn lemma_event_end_behind(bytes: Seq<u8>, i: int, n: int)
    requires
        0 <= i <= n,
        forall|j: int|
            i <= j < n && j + 2 <= bytes.len() ==> !(#[trigger] bytes[j] == 10 && bytes[j + 1]
                == 10),
    ensures
        event_end(bytes, i) == event_end(bytes, n),
    decreases n - i,
{
    if i < n {
        if i + 2 <= bytes.len() {
            assert(!(bytes[i] == 10 && bytes[i + 1] == 10));
        }
        lemma_event_end_behind(bytes, i + 1, n);
    }
}

/// Two line feeds stand first in the bytes of a text where they stand first in the
/// text.
proof fn lemma_event_end_of_text(s: Seq<char>)
    ensures
        event_end(encode_utf8(s), 0) == match text::find(s, "\n\n"@) {
            Some(k) => Some(encode_utf8(s.take(k)).len() as int),
            None => None,
        },
    decreases s.len(),
{
    reveal_strlit("\n\n");
    let pat = "\n\n"@;
    let bytes = encode_utf8(s);
    text::lemma_find_from(s, pat, 0);
    if s.len() > 0 {
        let t = s.drop_first();
        let e = encode_scalar(s[0] as u32);
        let n = e.len() as int;
        text::lemma_newline_bytes(s[0]);
        lemma_event_end_of_text(t);
        text::lemma_find_from(t, pat, 0);
        assert(bytes == e + encode_utf8(t));
        if t.len() > 0 {
            text::lemma_newline_bytes(t[0]);
            assert(encode_utf8(t)[0] == encode_scalar(t[0] as u32)[0]);
            assert(bytes[n] == encode_utf8(t)[0]);
        }
        if s[0] == '\n' && t.len() > 0 && t[0] == '\n' {
            assert(s.subrange(0, 2) =~= pat);
            assert(text::occurs_at(s, pat, 0));
            assert(s.take(0) =~= Seq::<char>::empty());
            assert(bytes[0] == 10 && bytes[1] == 10);
        } else {
            assert forall|j: int| 0 <= j < n && j + 2 <= bytes.len() implies !(#[trigger] bytes[j]
                == 10 && bytes[j + 1] == 10) by {
                assert(bytes[j] == e[j]);
            }
            lemma_event_end_behind(bytes, 0, n);
            assert(bytes.skip(n) =~= encode_utf8(t));
            lemma_event_end_shift(bytes, n, 0);
            assert forall|j: int| 0 <= j implies text::occurs_at(t, pat, j) == text::occurs_at(
                s,
                pat,
                j + 1,
            ) by {
                if j + 2 <= t.len() {
                    assert(t.subrange(j, j + 2) =~= s.subrange(j + 1, j + 3));
                }
            }
            if text::occurs_at(s, pat, 0) {
                assert(s.subrange(0, 2)[0] == s[0]);
                assert(s.subrange(0, 2)[1] == s[1]);
            }
            match (text::find(s, pat), text::find(t, pat)) {
                (Some(k), Some(m)) => {
                    assert(text::occurs_at(s, pat, m + 1));
                    assert(text::occurs_at(t, pat, k - 1));
                    assert(k == m + 1);
                    assert(s.take(k).drop_first() =~= t.take(m));
                },
                (Some(k), None) => {
                    assert(text::occurs_at(t, pat, k - 1));
                },
                (None, Some(m)) => {
                    assert(text::occurs_at(s, pat, m + 1));
                },
                (None, None) => {},
            }
        }
    }
}

/// A stream of valid UTF-8 gives what the events in its text give.
pub proof fn law_stream_is_read_as_text(s: Seq<char>, request_id: u64)
    ensures
        stream_outcome(encode_utf8(s), request_id) == text_outcome(s, request_id),
    decreases s.len(),
{
    reveal_strlit("\n\n");
    let pat = "\n\n"@;
    let bytes = encode_utf8(s);
    lemma_event_end_of_text(s);
    text::lemma_find_from(s, pat, 0);
    text::lemma_lossy_of_encoded(s);
    match text::find(s, pat) {
        None => {},
        Some(k) => {
            let rest = s.skip(k + 2);
            let front = encode_utf8(s.take(k));
            text::lemma_encode_add(s.take(k), pat);
            text::lemma_encode_add(s.take(k) + pat, rest);
            assert(s =~= s.take(k) + pat + rest) by {
                assert(s.subrange(k, k + 2) == pat);
            }
            text::lemma_newline_bytes('\n');
            assert(pat.drop_first() =~= seq!['\n']);
            assert(pat.drop_first().drop_first() =~= Seq::<char>::empty());
            reveal_with_fuel(encode_utf8, 3);
            assert(encode_utf8(pat) =~= seq![10u8, 10u8]);
            assert(bytes =~= front + seq![10u8, 10u8] + encode_utf8(rest));
            assert(bytes.take(front.len() as int) =~= front);
            assert(bytes.skip(front.len() as int + 2) =~= encode_utf8(rest));
            text::lemma_lossy_of_encoded(s.take(k));
            law_stream_is_read_as_text(rest, request_id);
        },
    }
}

/// Where the first event from a place on ends.
fn find_event_end(bytes: &Vec<u8>, from: usize) -> (res: Option<usize>)
    requires
        from <= bytes@.len(),
    ensures
        match res {
            Some(k) => event_end(bytes@, from as int) == Some(k as int) && from <= k && k + 2
                <= bytes@.len(),
            None => event_end(bytes@, from as int) is None,
        },
{
    let mut i: usize = from;
    while i < bytes.len() && bytes.len() - i >= 2
        invariant
            from <= i <= bytes@.len(),
            event_end(bytes@, from as int) == event_end(bytes@, i as int),
        decreases bytes@.len() - i,
    {
        if bytes[i] == 10 && bytes[i + 1] == 10 {
            return Some(i);
        }
        i += 1;
    }
    None
}

/// Reads the stream of events that answers one request.
pub struct SseReader {
    buffer: Vec<u8>,
    request_id: u64,
}

impl SseReader {
    /// The bytes that came in and were not taken yet.
    pub closed spec fn pending(&self) -> Seq<u8> {
        self.buffer@
    }

    /// The number of the request.
    pub closed spec fn id(&self) -> u64 {
        self.request_id
    }

    /// Nothing has come in yet.
    pub fn new(request_id: u64) -> (res: SseReader)
        ensures
            res.pending() == Seq::<u8>::empty(),
            res.id() == request_id,
    {
        SseReader { buffer: Vec::new(), request_id }
    }

    /// Takes in more bytes; gives the reply, where it has come. A character that
    /// the bytes end inside of waits for the rest of it.
    pub fn on_chunk(&mut self, chunk: &[u8]) -> (res: Option<Json>)
        ensures
            final(self).id() == old(self).id(),
            opt_json(res) == take_events(old(self).pending() + chunk@, old(self).id()).0,
            final(self).pending() == take_events(old(self).pending() + chunk@, old(self).id()).1,
    {
        let mut all: Vec<u8> = Vec::new();
        all.extend_from_slice(self.buffer.as_slice());
        all.extend_from_slice(chunk);
        let ghost whole = all@;
        assert(whole =~= self.pending() + chunk@);
        let ghost id = self.request_id;
        let mut from: usize = 0;
        let mut found: Option<Json> = None;
        let mut open = true;
        assert(all@.skip(0) =~= whole);
        while open
            invariant
                all@ == whole,
                from <= all@.len(),
                id == self.request_id,
                open ==> found is None && take_events(whole, id) == take_events(
                    all@.skip(from as int),
                    id,
                ),
                !open ==> take_events(whole, id) == (opt_json(found), all@.skip(from as int)),
            decreases all@.len() - from + (if open {
                1int
            } else {
                0int
            }),
        {
            let ghost rest = all@.skip(from as int);
            proof {
                lemma_event_end_shift(all@, from as int, 0);
                lemma_event_end(rest, 0);
            }
            match find_event_end(&all, from) {
                None => {
                    open = false;
                },
                Some(k) => {
                    let bytes = vstd::slice::slice_subrange(all.as_slice(), from, k);
                    assert(bytes@ =~= rest.take(k - from));
                    assert(rest.skip(k - from + 2) =~= all@.skip(k + 2));
                    assert(k + 2 <= all.len());
                    let event = text::decode_lossy(bytes);
                    found = try_match_sse_event(event.as_str(), self.request_id);
                    if found.is_some() {
                        open = false;
                    }
                    from = k + 2;
                },
            }
        }
        let mut left: Vec<u8> = Vec::new();
        left.extend_from_slice(vstd::slice::slice_subrange(all.as_slice(), from, all.len()));
        assert(left@ =~= all@.skip(from as int));
        self.buffer = left;
        found
    }

    /// The reply, where what is left when the stream ends holds it.
    pub fn finish(&self) -> (res: Result<Json, String>)
        ensures
            outcome_view(res) == end_of_stream(self.pending(), self.id()),
    {
        let rest = text::decode_lossy(self.buffer.as_slice());
        if !text::is_blank(rest.as_str()) {
            match try_match_sse_event(rest.as_str(), self.request_id) {
                Some(reply) => {
                    return Ok(reply);
                },
                None => {},
            }
        }
        Err(text::owned("SSE stream ended without a matching JSON-RPC response"))
    }
}

// ---------------------------------------------------------------------------
// Servers
// ---------------------------------------------------------------------------

/// A tool that a server offers.
#[derive(Debug, Clone)]
pub struct McpToolInfo {
    pub server_name: String,
    pub name: String,
    pub description: String,
    pub input_schema: Json,
}

/// The mathematical form of an `McpToolInfo`.
pub struct ToolV {
    pub server_name: Seq<char>,
    pub name: Seq<char>,
    pub description: Seq<char>,
    pub input_schema: JsonV,
}

impl McpToolInfo {
    pub open spec fn view(self) -> ToolV {
        ToolV {
            server_name: self.server_name@,
            name: self.name@,
            description: self.description@,
            input_schema: self.input_schema@,
        }
    }

    /// The same description again.
    pub fn copy(&self) -> (res: McpToolInfo)
        ensures
            res@ == self@,
    {
        McpToolInfo {
            server_name: self.server_name.clone(),
            name: self.name.clone(),
            description: self.description.clone(),
            input_schema: self.input_schema.copy(),
        }
    }
}

/// The views of tools.
pub open spec fn tool_views(v: Seq<McpToolInfo>) -> Seq<ToolV> {
    Seq::new(v.len(), |i: int| v[i]@)
}

fn copy_tools(v: &Vec<McpToolInfo>) -> (res: Vec<McpToolInfo>)
    ensures
        tool_views(res@) == tool_views(v@),
{
    let mut out: Vec<McpToolInfo> = Vec::new();
    let mut i: usize = 0;
    while i < v.len()
        invariant
            i <= v@.len(),
            tool_views(out@) == tool_views(v@).take(i as int),
        decreases v@.len() - i,
    {
        let ghost before = tool_views(out@);
        out.push(v[i].copy());
        assert(tool_views(out@) =~= before.push(v@[i as int]@));
        assert(tool_views(v@).take(i + 1) =~= tool_views(v@).take(i as int).push(v@[i as int]@));
        i += 1;
    }
    assert(tool_views(v@).take(v@.len() as int) =~= tool_views(v@));
    out
}

/// How a child process is started.
#[derive(Clone)]
pub struct McpStdioSpawnSpec {
    pub command: String,
    pub args: Vec<String>,
    pub env: NameMap<String>,
}

/// What is known of a server behind HTTP.
pub struct McpHttpInner {
    pub endpoint: String,
    pub headers: NameMap<String>,
    pub session_id: Option<String>,
    pub next_id: u64,
}

/// The headers of a request over HTTP.
pub open spec fn http_headers(
    session_id: Option<Seq<char>>,
    headers: Seq<(Seq<char>, Seq<char>)>,
) -> Seq<(Seq<char>, Seq<char>)> {
    let first = Seq::empty().push(("Accept"@, "application/json, text/event-stream"@));
    (match session_id {
        Some(id) => first.push(("Mcp-Session-Id"@, id)),
        None => first,
    }) + headers
}

impl McpHttpInner {
    /// The headers of a request, in the order in which they are added.
    pub fn request_headers(&self) -> (res: Vec<(String, String)>)
        ensures
            text::pairs(res@) == http_headers(text::opt(self.session_id), text::pairs(self.headers@)),
    {
        let mut out: Vec<(String, String)> = Vec::new();
        out.push((text::owned("Accept"), text::owned("application/json, text/event-stream")));
        assert(text::pairs(out@) =~= Seq::empty().push(
            ("Accept"@, "application/json, text/event-stream"@),
        ));
        if let Some(id) = &self.session_id {
            let ghost before = text::pairs(out@);
            out.push((text::owned("Mcp-Session-Id"), id.clone()));
            assert(text::pairs(out@) =~= before.push(("Mcp-Session-Id"@, id@)));
        }
        let ghost head = text::pairs(out@);
        let ghost all = text::pairs(self.headers@);
        let own = self.headers.entries();
        let mut i: usize = 0;
        assert(head + all.take(0) =~= head);
        while i < own.len()
            invariant
                i <= own@.len(),
                all == text::pairs(own@),
                text::pairs(out@) == head + all.take(i as int),
            decreases own@.len() - i,
        {
            let ghost before = text::pairs(out@);
            out.push((own[i].0.clone(), own[i].1.clone()));
            assert(text::pairs(out@) =~= before.push(all[i as int]));
            assert(text::pairs(out@) =~= head + all.take(i + 1));
            i += 1;
        }
        assert(all.take(own@.len() as int) =~= all);
        out
    }
}

/// How messages reach a server.
pub enum McpTransport {
    /// Over a child process.
    Stdio { spawn: McpStdioSpawnSpec, next_id: u64 },
    /// Over HTTP.
    StreamableHttp(McpHttpInner),
}

/// The mathematical form of an `McpTransport`.
pub enum TransportV {
    Stdio {
        command: Seq<char>,
        args: Seq<Seq<char>>,
        env: Seq<(Seq<char>, Seq<char>)>,
        next_id: u64,
    },
    Http {
        endpoint: Seq<char>,
        headers: Seq<(Seq<char>, Seq<char>)>,
        session_id: Option<Seq<char>>,
        next_id: u64,
    },
}

impl McpTransport {
    pub open spec fn view(self) -> TransportV {
        match self {
            McpTransport::Stdio { spawn, next_id } => TransportV::Stdio {
                command: spawn.command@,
                args: text::strs(spawn.args@),
                env: text::pairs(spawn.env@),
                next_id,
            },
            McpTransport::StreamableHttp(inner) => TransportV::Http {
                endpoint: inner.endpoint@,
                headers: text::pairs(inner.headers@),
                session_id: text::opt(inner.session_id),
                next_id: inner.next_id,
            },
        }
    }
}

impl TransportV {
    /// The number of the next request.
    pub open spec fn next_id(self) -> u64 {
        match self {
            TransportV::Stdio { next_id, .. } => next_id,
            TransportV::Http { next_id, .. } => next_id,
        }
    }

    /// The same with another number for the next request.
    pub open spec fn with_next_id(self, n: u64) -> TransportV {
        match self {
            TransportV::Stdio { command, args, env, .. } => TransportV::Stdio {
                command,
                args,
                env,
                next_id: n,
            },
            TransportV::Http { endpoint, headers, session_id, .. } => TransportV::Http {
                endpoint,
                headers,
                session_id,
                next_id: n,
            },
        }
    }

    /// The same with the session that a reply named, where it named one.
    pub open spec fn with_session(self, id: Option<Seq<char>>) -> TransportV {
        match (self, id) {
            (TransportV::Http { endpoint, headers, next_id, .. }, Some(_)) => TransportV::Http {
                endpoint,
                headers,
                session_id: id,
                next_id,
            },
            _ => self,
        }
    }
}

/// The state of the connection to a server.
pub struct McpServer {
    pub name: String,
    pub requested_protocol: String,
    pub negotiated_protocol: String,
    pub request_timeout_secs: u64,
    pub max_retries: u32,
    pub transport: McpTransport,
    pub tools_cache: Vec<McpToolInfo>,
    /// When the list of tools came, in milliseconds.
    pub tools_cache_updated_at: Option<u64>,
}

/// The mathematical form of an `McpServer`.
pub struct ServerV {
    pub name: Seq<char>,
    pub requested_protocol: Seq<char>,
    pub negotiated_protocol: Seq<char>,
    pub request_timeout_secs: u64,
    pub max_retries: u32,
    pub transport: TransportV,
    pub tools: Seq<ToolV>,
    pub updated_at: Option<u64>,
}

impl McpServer {
    pub open spec fn view(self) -> ServerV {
        ServerV {
            name: self.name@,
            requested_protocol: self.requested_protocol@,
            negotiated_protocol: self.negotiated_protocol@,
            request_timeout_secs: self.request_timeout_secs,
            max_retries: self.max_retries,
            transport: self.transport@,
            tools: tool_views(self.tools_cache@),
            updated_at: self.tools_cache_updated_at,
        }
    }
}

/// The version of the protocol to ask for.
pub open spec fn wanted_protocol(
    own: Option<Seq<char>>,
    default_version: Option<Seq<char>>,
) -> Seq<char> {
    match (own, default_version) {
        (Some(v), _) => v,
        (None, Some(v)) => v,
        (None, None) => "2025-11-05"@,
    }
}

/// How messages are to reach the server that a configuration describes, or what
/// is wrong with the configuration.
pub open spec fn planned_transport(name: Seq<char>, config: McpServerConfig) -> Result<
    TransportV,
    Seq<char>,
> {
    let kind = text::ascii_lower(text::trim(config.transport@));
    if kind == "stdio"@ || kind == ""@ {
        if text::trim(config.command@).len() == 0 {
            Err("MCP server '"@ + name + "' requires `command` when transport=stdio"@)
        } else {
            Ok(
                TransportV::Stdio {
                    command: config.command@,
                    args: text::strs(config.args@),
                    env: text::pairs(config.env@),
                    next_id: 1,
                },
            )
        }
    } else if kind == "streamable_http"@ || kind == "http"@ {
        if text::trim(config.endpoint@).len() == 0 {
            Err("MCP server '"@ + name + "' requires `endpoint` when transport=streamable_http"@)
        } else {
            Ok(
                TransportV::Http {
                    endpoint: config.endpoint@,
                    headers: text::pairs(config.headers@),
                    session_id: None,
                    next_id: 1,
                },
            )
        }
    } else {
        Err("MCP server '"@ + name + "' has unsupported transport '"@ + kind + "'"@)
    }
}

/// Whether no name occurs twice in a list.
pub open spec fn named_once(s: Seq<(Seq<char>, Seq<char>)>) -> bool {
    forall|i: int, j: int| 0 <= i < j < s.len() ==> (#[trigger] s[i]).0 != (#[trigger] s[j]).0
}

/// A connection sets no variable twice, nor a header of its own, where the
/// configuration that describes it does not.
pub proof fn law_connection_names_each_once(name: Seq<char>, config: McpServerConfig)
    requires
        config.wf(),
    ensures
        match planned_transport(name, config) {
            Ok(TransportV::Stdio { env, .. }) => named_once(env),
            Ok(TransportV::Http { headers, .. }) => named_once(headers),
            Err(_) => true,
        },
{
    let env = text::pairs(config.env@);
    let headers = text::pairs(config.headers@);
    assert forall|i: int, j: int| 0 <= i < j < env.len() implies (#[trigger] env[i]).0 != (
    #[trigger] env[j]).0 by {
        assert(config.env@[i].0@ != config.env@[j].0@);
    }
    assert forall|i: int, j: int| 0 <= i < j < headers.len() implies (#[trigger] headers[i]).0 != (
    #[trigger] headers[j]).0 by {
        assert(config.headers@[i].0@ != config.headers@[j].0@);
    }
}

/// The state of a connection before anything was sent over it.
pub open spec fn fresh_server(
    name: Seq<char>,
    config: McpServerConfig,
    default_version: Option<Seq<char>>,
    transport: TransportV,
) -> ServerV {
    let protocol = wanted_protocol(text::opt(config.protocol_version), default_version);
    ServerV {
        name,
        requested_protocol: protocol,
        negotiated_protocol: protocol,
        request_timeout_secs: match config.request_timeout_secs {
            Some(n) => n,
            None => DEFAULT_REQUEST_TIMEOUT_SECS,
        },
        max_retries: match config.max_retries {
            Some(n) => n,
            None => DEFAULT_MAX_RETRIES,
        },
        transport,
        tools: Seq::empty(),
        updated_at: None,
    }
}

impl McpServer {
    /// How messages are to reach the server that a configuration describes.
    fn plan_transport(name: &str, config: &McpServerConfig) -> (res: Result<McpTransport, String>)
        ensures
            match res {
                Ok(t) => planned_transport(name@, *config) == Ok::<TransportV, Seq<char>>(t@),
                Err(e) => planned_transport(name@, *config) == Err::<TransportV, Seq<char>>(e@),
            },
    {
        let kind = text::ascii_lowered(text::trimmed(config.transport.as_str()).as_str());
        if text::same(kind.as_str(), "stdio") || text::same(kind.as_str(), "") {
            if text::is_blank(config.command.as_str()) {
                return Err(
                    text::cat3(
                        "MCP server '",
                        name,
                        "' requires `command` when transport=stdio",
                    ),
                );
            }
            let spawn = McpStdioSpawnSpec {
                command: config.command.clone(),
                args: text::copies(&config.args),
                env: maps::copy_texts(&config.env),
            };
            Ok(McpTransport::Stdio { spawn, next_id: 1 })
        } else if text::same(kind.as_str(), "streamable_http") || text::same(
            kind.as_str(),
            "http",
        ) {
            if text::is_blank(config.endpoint.as_str()) {
                return Err(
                    text::cat3(
                        "MCP server '",
                        name,
                        "' requires `endpoint` when transport=streamable_http",
                    ),
                );
            }
            Ok(
                McpTransport::StreamableHttp(
                    McpHttpInner {
                        endpoint: config.endpoint.clone(),
                        headers: maps::copy_texts(&config.headers),
                        session_id: None,
                        next_id: 1,
                    },
                ),
            )
        } else {
            Err(
                text::cat5(
                    "MCP server '",
                    name,
                    "' has unsupported transport '",
                    kind.as_str(),
                    "'",
                ),
            )
        }
    }

    /// The connection to the server that a configuration describes, before
    /// anything was sent over it.
    pub fn connect(
        name: &str,
        config: &McpServerConfig,
        default_protocol_version: Option<&str>,
    ) -> (res: Result<McpServer, String>)
        ensures
            match (res, planned_transport(name@, *config)) {
                (Ok(server), Ok(transport)) => server@ == fresh_server(
                    name@,
                    *config,
                    json::opt_str(default_protocol_version),
                    transport,
                ),
                (Err(e), Err(why)) => e@ == why,
                _ => false,
            },
    {
        let requested_protocol = match &config.protocol_version {
            Some(v) => v.clone(),
            None => match default_protocol_version {
                Some(v) => v.to_owned(),
                None => text::owned("2025-11-05"),
            },
        };
        let transport = match Self::plan_transport(name, config) {
            Ok(transport) => transport,
            Err(e) => {
                return Err(e);
            },
        };
        let res = McpServer {
            name: name.to_owned(),
            negotiated_protocol: requested_protocol.clone(),
            requested_protocol,
            request_timeout_secs: match config.request_timeout_secs {
                Some(n) => n,
                None => DEFAULT_REQUEST_TIMEOUT_SECS,
            },
            max_retries: match config.max_retries {
                Some(n) => n,
                None => DEFAULT_MAX_RETRIES,
            },
            transport,
            tools_cache: Vec::new(),
            tools_cache_updated_at: None,
        };
        assert(res@.tools =~= Seq::empty());
        Ok(res)
    }

    /// The version of the protocol that was agreed on.
    pub fn protocol_version(&self) -> (res: String)
        ensures
            res@ == self@.negotiated_protocol,
    {
        self.negotiated_protocol.clone()
    }

    /// The tools as they were listed last.
    pub fn tools_snapshot(&self) -> (res: Vec<McpToolInfo>)
        ensures
            tool_views(res@) == self@.tools,
    {
        copy_tools(&self.tools_cache)
    }

    // -----------------------------------------------------------------------
    // Requests
    // -----------------------------------------------------------------------

    /// The next request to send. Its number is one that no earlier request over
    /// the same transport had.
    pub fn begin_request(&mut self, method: &str, params: Option<Json>) -> (res: JsonRpcRequest)
        requires
            old(self)@.transport.next_id() < u64::MAX,
        ensures
            res.id == Some(old(self)@.transport.next_id()),
            res.method@ == method@,
            res.params == params,
            final(self)@ == (ServerV {
                transport: old(self)@.transport.with_next_id(
                    (old(self)@.transport.next_id() + 1) as u64,
                ),
                ..old(self)@
            }),
    {
        let id: u64 = match &mut self.transport {
            McpTransport::Stdio { next_id, .. } => {
                let id: u64 = *next_id;
                *next_id = id + 1;
                id
            },
            McpTransport::StreamableHttp(inner) => {
                let id: u64 = inner.next_id;
                inner.next_id = id + 1;
                id
            },
        };
        JsonRpcRequest { id: Some(id), method: method.to_owned(), params }
    }

    /// A notification.
    pub fn notification(method: &str, params: Option<Json>) -> (res: JsonRpcRequest)
        ensures
            res.id is None,
            res.method@ == method@,
            res.params == params,
    {
        JsonRpcRequest { id: None, method: method.to_owned(), params }
    }

    /// What is sent with the request `initialize`.
    pub fn initialize_params(&self, version: &str) -> (res: Json)
        ensures
            res@ == json::obj3(
                "protocolVersion"@,
                json::jstr(self@.requested_protocol),
                "capabilities"@,
                JsonV::Object(Seq::empty()),
                "clientInfo"@,
                json::obj2("name"@, json::jstr("rayclaw"@), "version"@, json::jstr(version@)),
            ),
    {
        let info = Fields::new().text("name", "rayclaw").text("version", version).object();
        let none = Fields::new().object();
        Fields::new().text("protocolVersion", self.requested_protocol.as_str()).with(
            "capabilities",
            none,
        ).with("clientInfo", info).object()
    }

    /// Takes in the answer to `initialize`: the version that it names holds from
    /// now on, or the one that was asked for where it names none.
    pub fn on_initialized(&mut self, result: &Json)
        ensures
            final(self)@ == (ServerV {
                negotiated_protocol: match result@.text("protocolVersion"@) {
                    Some(v) => v,
                    None => old(self)@.requested_protocol,
                },
                ..old(self)@
            }),
    {
        self.negotiated_protocol = match result.get_str("protocolVersion") {
            Some(v) => v.to_owned(),
            None => self.requested_protocol.clone(),
        };
    }
}

// ---------------------------------------------------------------------------
// Replies
// ---------------------------------------------------------------------------

/// What reading a line from a child process gave.
pub enum StdioRead {
    /// Nothing came in time.
    TimedOut,
    /// Reading failed, with this description.
    Failed(String),
    /// The process closed its end.
    Closed,
    /// A line, and the reply that it holds, where it holds one.
    Line(String, Option<JsonRpcResponse>),
}

/// Whether a reply answers the request of this number: it has the number, or it
/// has no number at all and says something.
pub open spec fn answers(r: JsonRpcResponse, request_id: u64) -> bool {
    match r.id {
        Some(j) => if j@ is Number {
            j@.as_count() == Some(request_id)
        } else {
            r.result is Some || r.error is Some
        },
        None => r.result is Some || r.error is Some,
    }
}

/// A number of whole seconds in words; none at all is told in nanoseconds.
pub open spec fn seconds_text(secs: u64) -> Seq<char> {
    if secs == 0 {
        "0ns"@
    } else {
        text::digits(secs as nat) + "s"@
    }
}

/// What a reading settles of a request: nothing yet, or its outcome.
pub open spec fn settled(read: StdioRead, request_id: u64, timeout_secs: u64) -> Option<
    Result<JsonV, Seq<char>>,
> {
    match read {
        StdioRead::TimedOut => Some(
            Err("MCP server response timeout ("@ + seconds_text(timeout_secs) + ")"@),
        ),
        StdioRead::Failed(e) => Some(Err("Read error: "@ + e@)),
        StdioRead::Closed => Some(Err("MCP server closed connection"@)),
        StdioRead::Line(line, reply) => match reply {
            Some(r) => if text::trim(line@).len() > 0 && answers(r, request_id) {
                Some(outcome(r))
            } else {
                None
            },
            None => None,
        },
    }
}

/// Whether an error is one after which the process is to be started again.
pub open spec fn reconnects(err: Seq<char>) -> bool {
    let lower = text::ascii_lower(err);
    ||| text::contains(lower, "write error"@)
    ||| text::contains(lower, "read error"@)
    ||| text::contains(lower, "closed connection"@)
    ||| text::contains(lower, "timeout"@)
    ||| text::contains(lower, "broken pipe"@)
}

/// Whether an error says that there is no such tool.
pub open spec fn names_no_tool(err: Seq<char>) -> bool {
    let lower = text::ascii_lower(err);
    ||| text::contains(lower, "not found"@)
    ||| text::contains(lower, "unknown tool"@)
    ||| text::contains(lower, "tool not found"@)
}

/// How long to wait before the process is started again, in milliseconds: twice
/// as long each time, up to a limit.
pub open spec fn backoff(attempt: nat) -> nat {
    200 * pow2(if attempt < 8 {
        attempt
    } else {
        8
    })
}

/// How long to wait before the process is started again, in milliseconds.
pub fn backoff_ms(attempt: u32) -> (res: u64)
    ensures
        res == backoff(attempt as nat),
        200 <= res <= 51_200,
{
    let steps: u32 = if attempt < 8 {
        attempt
    } else {
        8
    };
    let mut wait: u64 = 200;
    let mut i: u32 = 0;
    proof {
        lemma2_to64();
    }
    while i < steps
        invariant
            i <= steps <= 8,
            wait == 200 * pow2(i as nat),
            wait <= 200 * (if i == 0 {
                1int
            } else if i == 1 {
                2
            } else if i == 2 {
                4
            } else if i == 3 {
                8
            } else if i == 4 {
                16
            } else if i == 5 {
                32
            } else if i == 6 {
                64
            } else if i == 7 {
                128
            } else {
                256
            }),
            wait >= 200,
        decreases steps - i,
    {
        proof {
            lemma_pow2_unfold((i + 1) as nat);
        }
        wait = wait * 2;
        i += 1;
    }
    wait
}

/// Whether the process is started again after an error, where so many tries were given up
/// of so many that may be.
pub open spec fn tries_again(tried: nat, limit: nat, err: Seq<char>) -> bool {
    tried < limit && reconnects(err)
}

/// What to do after a try to get an answer from a child process.
pub enum RetryStep {
    /// The request is settled.
    Done(Result<Json, String>),
    /// Wait so many milliseconds, and start the process again.
    Reconnect(u64),
}

/// The tries to get an answer to one request from a child process.
pub struct StdioAttempts {
    attempt: u32,
    max_retries: u32,
    failure: Option<String>,
}

impl StdioAttempts {
    /// How many tries were given up.
    pub closed spec fn tried(&self) -> u32 {
        self.attempt
    }

    /// How many more tries than one there may be.
    pub closed spec fn limit(&self) -> u32 {
        self.max_retries
    }

    /// Why the process is being started again, where it is.
    pub closed spec fn failed(&self) -> Option<Seq<char>> {
        text::opt(self.failure)
    }

    /// There are never more tries than the limit allows.
    pub open spec fn wf(&self) -> bool {
        &&& self.tried() <= self.limit()
        &&& self.failed() is Some ==> self.tried() < self.limit()
    }

    /// Before the first try.
    pub fn new(max_retries: u32) -> (res: StdioAttempts)
        ensures
            res.wf(),
            res.tried() == 0,
            res.limit() == max_retries,
            res.failed() is None,
    {
        StdioAttempts { attempt: 0, max_retries, failure: None }
    }

    /// Takes in what a try gave. An error starts the process again where tries
    /// are left and the error is one of the connection; else it is the answer.
    pub fn on_reply(&mut self, reply: Result<Json, String>) -> (res: RetryStep)
        requires
            old(self).wf(),
            old(self).failed() is None,
        ensures
            final(self).wf(),
            final(self).tried() == old(self).tried(),
            final(self).limit() == old(self).limit(),
            res is Reconnect <==> (reply matches Err(e) && tries_again(
                old(self).tried() as nat,
                old(self).limit() as nat,
                e@,
            )),
            match reply {
                Ok(_) => res == RetryStep::Done(reply) && final(self).failed() is None,
                Err(e) => if old(self).tried() < old(self).limit() && reconnects(e@) {
                    &&& res is Reconnect
                    &&& res->Reconnect_0 == backoff(old(self).tried() as nat)
                    &&& final(self).failed() == Some(e@)
                } else {
                    res == RetryStep::Done(reply) && final(self).failed() is None
                },
            },
    {
        match reply {
            Ok(result) => RetryStep::Done(Ok(result)),
            Err(e) => {
                if self.attempt >= self.max_retries || !McpServer::should_attempt_reconnect(
                    e.as_str(),
                ) {
                    return RetryStep::Done(Err(e));
                }
                self.failure = Some(e);
                RetryStep::Reconnect(backoff_ms(self.attempt))
            },
        }
    }

    /// Takes in whether the process could be started again: then there is one
    /// more try; else this is the error of the request.
    pub fn on_reconnected(&mut self, name: &str, outcome: Result<(), String>) -> (res: Option<
        String,
    >)
        requires
            old(self).wf(),
            old(self).failed() is Some,
        ensures
            final(self).wf(),
            final(self).limit() == old(self).limit(),
            match outcome {
                Ok(_) => res is None && final(self).tried() == old(self).tried() + 1
                    && final(self).failed() is None,
                Err(why) => res is Some && res->Some_0@ == old(self).failed()->Some_0
                    + "; reconnect failed for '"@ + name@ + "': "@ + why@
                    && *final(self) == *old(self),
            },
    {
        let first = match &self.failure {
            Some(e) => e.clone(),
            None => String::new(),
        };
        match outcome {
            Ok(_) => {
                self.failure = None;
                self.attempt = self.attempt + 1;
                None
            },
            Err(why) => Some(
                text::cat5(
                    first.as_str(),
                    "; reconnect failed for '",
                    name,
                    "': ",
                    why.as_str(),
                ),
            ),
        }
    }
}

/// What a body of a reply over HTTP says: as a reply where it reads as one, else
/// its member `result`, else the body itself.
pub open spec fn body_outcome(body: JsonV, reply: Option<JsonRpcResponse>) -> Result<
    JsonV,
    Seq<char>,
> {
    match reply {
        Some(r) => outcome(r),
        None => match body.get("result"@) {
            Some(j) => Ok(j),
            None => Ok(body),
        },
    }
}

/// The tool that an entry of a list describes.
pub open spec fn listed_tool(server_name: Seq<char>, entry: JsonV) -> ToolV {
    ToolV {
        server_name,
        name: entry.text_or_empty("name"@),
        description: entry.text_or_empty("description"@),
        input_schema: match entry.get("inputSchema"@) {
            Some(schema) => schema,
            None => json::obj2(
                "type"@,
                json::jstr("object"@),
                "properties"@,
                JsonV::Object(Seq::empty()),
            ),
        },
    }
}

/// The tools that the answer to `tools/list` lists, or what is wrong with it.
pub open spec fn listed_tools(server_name: Seq<char>, result: JsonV) -> Result<
    Seq<ToolV>,
    Seq<char>,
> {
    match result.get("tools"@) {
        None => Err("No tools in response"@),
        Some(value) => match value.as_items() {
            None => Err("tools is not an array"@),
            Some(items) => Ok(Seq::new(items.len(), |i: int| listed_tool(server_name, items[i]))),
        },
    }
}

/// Whether a list of tools is still fresh.
pub open spec fn is_fresh(updated_at: Option<u64>, now: u64) -> bool {
    match updated_at {
        Some(t) => now - t < TOOLS_CACHE_TTL_SECS * 1000,
        None => false,
    }
}

/// The texts of the items of a content, one below the other.
pub open spec fn content_text(items: Seq<JsonV>) -> Seq<char>
    decreases items.len(),
{
    if items.len() == 0 {
        Seq::empty()
    } else {
        let front = content_text(items.drop_last());
        match items.last().text("text"@) {
            Some(t) => if front.len() > 0 {
                front + "\n"@ + t
            } else {
                t
            },
            None => front,
        }
    }
}

/// What the result of a call of a tool reads: the texts of its content, or its
/// own text where it has no content.
pub open spec fn call_output(result: JsonV) -> Seq<char> {
    match result.items("content"@) {
        Some(items) => content_text(items),
        None => json::indented_text_of(result),
    }
}

/// What a call of a tool gives back.
pub open spec fn call_result(reply: Result<JsonV, Seq<char>>) -> Result<Seq<char>, Seq<char>> {
    match reply {
        Ok(result) => if result.flag("isError"@) == Some(true) {
            Err(call_output(result))
        } else {
            Ok(call_output(result))
        },
        Err(e) => Err(e),
    }
}

/// The views of what a call of a tool gives back.
pub open spec fn text_result(r: Result<String, String>) -> Result<Seq<char>, Seq<char>> {
    match r {
        Ok(t) => Ok(t@),
        Err(e) => Err(e@),
    }
}

/// Whether what a call of a tool gave back says that there is no such tool.
pub open spec fn is_stale(r: Result<Seq<char>, Seq<char>>) -> bool {
    r matches Err(e) && names_no_tool(e)
}

/// Whether the tools are to be listed before the one of this name is called: it is not
/// among them, or they are no longer fresh.
pub open spec fn lists_first(
    tools: Seq<ToolV>,
    updated_at: Option<u64>,
    name: Seq<char>,
    now: u64,
) -> bool {
    !is_fresh(updated_at, now) || !exists|i: int|
        0 <= i < tools.len() && (#[trigger] tools[i]).name == name
}

/// The texts of the items of a content, one below the other.
fn join_content(items: &Vec<Json>) -> (res: String)
    ensures
        res@ == content_text(json::values(items@)),
{
    let ghost all = json::values(items@);
    let mut out = String::new();
    let mut i: usize = 0;
    assert(out@ =~= content_text(all.take(0)));
    while i < items.len()
        invariant
            i <= items@.len(),
            all == json::values(items@),
            out@ == content_text(all.take(i as int)),
        decreases items@.len() - i,
    {
        assert(all.take(i + 1).drop_last() =~= all.take(i as int));
        assert(all.take(i + 1).last() == items@[i as int]@);
        if let Some(t) = items[i].get_str("text") {
            let ghost before = out@;
            if !out.as_str().is_empty() {
                out.append("\n");
                out.append(t);
            } else {
                out = t.to_owned();
            }
        }
        i += 1;
    }
    assert(all.take(items@.len() as int) =~= all);
    out
}

impl McpServer {
    /// Whether an error is one after which the process is to be started again.
    pub fn should_attempt_reconnect(err: &str) -> (res: bool)
        ensures
            res == reconnects(err@),
    {
        let lower = text::ascii_lowered(err);
        text::has(lower.as_str(), "write error") || text::has(lower.as_str(), "read error")
            || text::has(lower.as_str(), "closed connection") || text::has(
            lower.as_str(),
            "timeout",
        ) || text::has(lower.as_str(), "broken pipe")
    }

    /// Whether an error says that there is no such tool.
    pub fn is_tool_not_found_error(err: &str) -> (res: bool)
        ensures
            res == names_no_tool(err@),
    {
        let lower = text::ascii_lowered(err);
        text::has(lower.as_str(), "not found") || text::has(lower.as_str(), "unknown tool")
            || text::has(lower.as_str(), "tool not found")
    }

    /// Takes in a reading from the child process: the outcome of the request of
    /// this number, or nothing where more is to be read.
    pub fn on_stdio_read(&self, request_id: u64, read: StdioRead) -> (res: Option<
        Result<Json, String>,
    >)
        ensures
            match (res, settled(read, request_id, self@.request_timeout_secs)) {
                (Some(r), Some(want)) => outcome_view(r) == want,
                (None, None) => true,
                _ => false,
            },
    {
        broadcast use json::lemma_view_parts;

        match read {
            StdioRead::TimedOut => {
                let time = if self.request_timeout_secs == 0 {
                    text::owned("0ns")
                } else {
                    let secs = text::decimal(self.request_timeout_secs);
                    text::cat(secs.as_str(), "s")
                };
                Some(Err(text::cat3("MCP server response timeout (", time.as_str(), ")")))
            },
            StdioRead::Failed(e) => Some(Err(text::cat("Read error: ", e.as_str()))),
            StdioRead::Closed => Some(Err(text::owned("MCP server closed connection"))),
            StdioRead::Line(line, reply) => {
                if text::is_blank(line.as_str()) {
                    return None;
                }
                match reply {
                    Some(r) => {
                        let says = r.result.is_some() || r.error.is_some();
                        let is_answer = match &r.id {
                            Some(j) => match j {
                                Json::Number(_) => match j.as_u64() {
                                    Some(n) => n == request_id,
                                    None => false,
                                },
                                _ => says,
                            },
                            None => says,
                        };
                        if is_answer {
                            Some(r.outcome())
                        } else {
                            None
                        }
                    },
                    None => None,
                }
            },
        }
    }

    /// How the child process is to be started again.
    pub fn respawn(&self) -> (res: Result<&McpStdioSpawnSpec, String>)
        ensures
            match (res, self.transport) {
                (Ok(spec), McpTransport::Stdio { spawn, .. }) => *spec == spawn,
                (Err(e), McpTransport::StreamableHttp(_)) => e@
                    == "No stdio spawn spec available for reconnect"@,
                _ => false,
            },
    {
        match &self.transport {
            McpTransport::Stdio { spawn, .. } => Ok(spawn),
            McpTransport::StreamableHttp(_) => Err(
                text::owned("No stdio spawn spec available for reconnect"),
            ),
        }
    }

    /// Takes in that the child process was started again: its requests are
    /// numbered from one.
    pub fn on_respawned(&mut self)
        ensures
            final(self)@ == (ServerV {
                transport: match old(self)@.transport {
                    TransportV::Stdio { .. } => old(self)@.transport.with_next_id(1),
                    TransportV::Http { .. } => old(self)@.transport,
                },
                ..old(self)@
            }),
    {
        match &mut self.transport {
            McpTransport::Stdio { next_id, .. } => {
                *next_id = 1;
            },
            McpTransport::StreamableHttp(_) => {},
        }
    }

    /// Takes in the session that a reply over HTTP names, where it names one.
    pub fn on_session(&mut self, session_id: Option<String>)
        ensures
            final(self)@ == (ServerV {
                transport: old(self)@.transport.with_session(text::opt(session_id)),
                ..old(self)@
            }),
    {
        match session_id {
            Some(id) => match &mut self.transport {
                McpTransport::StreamableHttp(inner) => {
                    inner.session_id = Some(id);
                },
                McpTransport::Stdio { .. } => {},
            },
            None => {},
        }
    }

    /// Whether a request over HTTP was accepted; else why not, in the words of
    /// the status and the body.
    pub fn check_http_status(success: bool, status: &str, body: &str) -> (res: Result<(), String>)
        ensures
            match res {
                Ok(_) => success,
                Err(e) => !success && e@ == "HTTP MCP request failed with "@ + status@ + ": "@
                    + body@,
            },
    {
        if success {
            Ok(())
        } else {
            Err(text::cat4("HTTP MCP request failed with ", status, ": ", body))
        }
    }

    /// Whether a notification over HTTP was accepted.
    pub fn check_notified(success: bool, status: &str) -> (res: Result<(), String>)
        ensures
            match res {
                Ok(_) => success,
                Err(e) => !success && e@ == "HTTP notification failed with status "@ + status@,
            },
    {
        if success {
            Ok(())
        } else {
            Err(text::cat("HTTP notification failed with status ", status))
        }
    }

    /// Whether a reply over HTTP is a stream of events.
    pub fn is_event_stream(content_type: &str) -> (res: bool)
        ensures
            res == text::contains(content_type@, "text/event-stream"@),
    {
        text::has(content_type, "text/event-stream")
    }

    /// What the body of a reply over HTTP says. `reply` is the body as a reply,
    /// where it reads as one.
    pub fn read_http_body(body: Json, reply: Option<JsonRpcResponse>) -> (res: Result<Json, String>)
        ensures
            outcome_view(res) == body_outcome(body@, reply),
    {
        match reply {
            Some(r) => r.outcome(),
            None => {
                let result = match body.get("result") {
                    Some(j) => Some(j.copy()),
                    None => None,
                };
                match result {
                    Some(j) => Ok(j),
                    None => Ok(body),
                }
            },
        }
    }

    // -----------------------------------------------------------------------
    // Tools
    // -----------------------------------------------------------------------

    /// The tools that the answer to `tools/list` lists.
    pub fn read_tools(&self, result: &Json) -> (res: Result<Vec<McpToolInfo>, String>)
        ensures
            match res {
                Ok(tools) => listed_tools(self@.name, result@) == Ok::<Seq<ToolV>, Seq<char>>(
                    tool_views(tools@),
                ),
                Err(e) => listed_tools(self@.name, result@) == Err::<Seq<ToolV>, Seq<char>>(e@),
            },
    {
        broadcast use json::lemma_view_parts;

        let value = match result.get("tools") {
            Some(value) => value,
            None => {
                return Err(text::owned("No tools in response"));
            },
        };
        let items = match value.as_array() {
            Some(items) => items,
            None => {
                return Err(text::owned("tools is not an array"));
            },
        };
        let ghost all = json::values(items@);
        let ghost want = Seq::new(all.len(), |i: int| listed_tool(self@.name, all[i]));
        let mut tools: Vec<McpToolInfo> = Vec::new();
        let mut i: usize = 0;
        while i < items.len()
            invariant
                i <= items@.len(),
                all == json::values(items@),
                want == Seq::new(all.len(), |i: int| listed_tool(self@.name, all[i])),
                tool_views(tools@) == want.take(i as int),
            decreases items@.len() - i,
        {
            let entry = &items[i];
            assert(all[i as int] == entry@);
            let input_schema = match entry.get("inputSchema") {
                Some(schema) => schema.copy(),
                None => {
                    let none = Fields::new().object();
                    Fields::new().text("type", "object").with("properties", none).object()
                },
            };
            let tool = McpToolInfo {
                server_name: self.name.clone(),
                name: entry.get_str_or_empty("name"),
                description: entry.get_str_or_empty("description"),
                input_schema,
            };
            let ghost before = tool_views(tools@);
            assert(tool@ == want[i as int]);
            tools.push(tool);
            assert(tool_views(tools@) =~= before.push(want[i as int]));
            assert(want.take(i + 1) =~= want.take(i as int).push(want[i as int]));
            i += 1;
        }
        assert(want.take(items@.len() as int) =~= want);
        Ok(tools)
    }

    /// Whether the list of tools is still fresh.
    pub fn is_cache_fresh(&self, now: u64) -> (res: bool)
        ensures
            res == is_fresh(self@.updated_at, now),
    {
        match self.tools_cache_updated_at {
            Some(t) => now < t || now - t < TOOLS_CACHE_TTL_SECS * 1000,
            None => false,
        }
    }

    /// The tools as they were listed last, where they need not be asked for: the
    /// list is fresh and nothing forces a new one.
    pub fn refresh_tools_cache(&self, force: bool, now: u64) -> (res: Option<Vec<McpToolInfo>>)
        ensures
            match res {
                Some(tools) => !force && is_fresh(self@.updated_at, now) && tool_views(tools@)
                    == self@.tools,
                None => force || !is_fresh(self@.updated_at, now),
            },
    {
        if !force && self.is_cache_fresh(now) {
            Some(self.tools_snapshot())
        } else {
            None
        }
    }

    /// Takes in the answer to `tools/list`: the tools that it lists are kept, and
    /// an error leaves everything as it was.
    pub fn on_tools_listed(&mut self, reply: Result<Json, String>, now: u64) -> (res: Result<
        Vec<McpToolInfo>,
        String,
    >)
        ensures
            match reply {
                Err(e) => res is Err && res->Err_0@ == e@ && final(self)@ == old(self)@,
                Ok(result) => match listed_tools(old(self)@.name, result@) {
                    Ok(tools) => res is Ok && tool_views(res->Ok_0@) == tools && final(self)@ == (
                    ServerV { tools, updated_at: Some(now), ..old(self)@ }),
                    Err(why) => res is Err && res->Err_0@ == why && final(self)@ == old(self)@,
                },
            },
    {
        match reply {
            Err(e) => Err(e),
            Ok(result) => match self.read_tools(&result) {
                Err(e) => Err(e),
                Ok(tools) => {
                    self.tools_cache = copy_tools(&tools);
                    self.tools_cache_updated_at = Some(now);
                    Ok(tools)
                },
            },
        }
    }

    /// Forgets the list of tools.
    pub fn invalidate_tools_cache(&mut self)
        ensures
            final(self)@ == (ServerV { tools: Seq::empty(), updated_at: None, ..old(self)@ }),
    {
        self.tools_cache = Vec::new();
        self.tools_cache_updated_at = None;
        assert(self@.tools =~= Seq::empty());
    }

    /// Whether the tools are to be listed before one of them is called: it is not
    /// among them, or the list is no longer fresh.
    pub fn must_list_before_call(&self, tool_name: &str, now: u64) -> (res: bool)
        ensures
            res == lists_first(self@.tools, self@.updated_at, tool_name@, now),
            res == !((exists|i: int|
                0 <= i < self@.tools.len() && (#[trigger] self@.tools[i]).name == tool_name@)
                && is_fresh(self@.updated_at, now)),
    {
        let ghost tools = self@.tools;
        let mut i: usize = 0;
        while i < self.tools_cache.len()
            invariant
                i <= self.tools_cache@.len(),
                tools == tool_views(self.tools_cache@),
                forall|j: int| 0 <= j < i ==> (#[trigger] tools[j]).name != tool_name@,
            decreases self.tools_cache@.len() - i,
        {
            assert(tools[i as int] == self.tools_cache@[i as int]@);
            if text::same(self.tools_cache[i].name.as_str(), tool_name) {
                return !self.is_cache_fresh(now);
            }
            i += 1;
        }
        true
    }

    /// What is sent with the request `tools/call`.
    pub fn call_params(tool_name: &str, arguments: Json) -> (res: Json)
        ensures
            res@ == json::obj2("name"@, json::jstr(tool_name@), "arguments"@, arguments@),
    {
        Fields::new().text("name", tool_name).with("arguments", arguments).object()
    }

    /// Takes in the answer to `tools/call`. Where it says that there is no such
    /// tool, the list of tools is forgotten and is to be asked for again, as the
    /// second part of the result says.
    pub fn call_tool(&mut self, reply: Result<Json, String>) -> (res: (Result<String, String>, bool))
        ensures
            text_result(res.0) == call_result(outcome_view(reply)),
            res.1 == is_stale(call_result(outcome_view(reply))),
            final(self)@ == if is_stale(call_result(outcome_view(reply))) {
                ServerV { tools: Seq::empty(), updated_at: None, ..old(self)@ }
            } else {
                old(self)@
            },
    {
        broadcast use json::lemma_view_parts;

        let res = match reply {
            Err(e) => Err(e),
            Ok(result) => {
                let is_error = match result.get_bool("isError") {
                    Some(b) => b,
                    None => false,
                };
                let output = match result.get_array("content") {
                    Some(items) => join_content(items),
                    None => result.to_indented_text(),
                };
                if is_error {
                    Err(output)
                } else {
                    Ok(output)
                }
            },
        };
        let stale = match &res {
            Err(e) => Self::is_tool_not_found_error(e.as_str()),
            Ok(_) => false,
        };
        if stale {
            self.invalidate_tools_cache();
        }
        (res, stale)
    }

    /// Takes in the outcome of a probe: a server is well where it lists its tools.
    pub fn health_probe(&mut self, reply: Result<Json, String>, now: u64) -> (res: Result<
        (),
        String,
    >)
        ensures
            match reply {
                Err(e) => res is Err && res->Err_0@ == e@ && final(self)@ == old(self)@,
                Ok(result) => match listed_tools(old(self)@.name, result@) {
                    Ok(tools) => res is Ok && final(self)@ == (ServerV {
                        tools,
                        updated_at: Some(now),
                        ..old(self)@
                    }),
                    Err(why) => res is Err && res->Err_0@ == why && final(self)@ == old(self)@,
                },
            },
    {
        match self.on_tools_listed(reply, now) {
            Ok(_) => Ok(()),
            Err(e) => Err(e),
        }
    }
}

/// A list of tools that was just taken in is fresh, and stays so for as long as
/// lists do.
pub proof fn law_listed_is_fresh(listed_at: u64, now: u64)
    ensures
        is_fresh(Some(listed_at), now) == (now < listed_at + 300_000),
        is_fresh(Some(listed_at), listed_at),
{
}

/// The waits before a process is started again never shrink, and never exceed
/// the limit.
pub proof fn law_backoff_grows(a: nat, b: nat)
    requires
        a <= b,
    ensures
        backoff(a) <= backoff(b) <= 51_200,
        backoff(0) == 200,
{
    lemma2_to64();
    assert(forall|n: nat|
        n < 8 ==> backoff(n) == 200 * pow2(n));
    assert(backoff(b) == 200 * pow2(if b < 8 {
        b
    } else {
        8
    }));
}

// ---------------------------------------------------------------------------
// All servers
// ---------------------------------------------------------------------------

/// The servers that are connected.
pub struct McpManager<S> {
    servers: Vec<Arc<S>>,
}

/// The tools of the servers up to `n`, each with its server.
pub open spec fn tools_of<S>(
    servers: Seq<Arc<S>>,
    tools: Seq<Vec<McpToolInfo>>,
    n: int,
) -> Seq<(Arc<S>, ToolV)>
    decreases n,
{
    if n <= 0 {
        Seq::empty()
    } else {
        tools_of(servers, tools, n - 1) + Seq::new(
            tools[n - 1]@.len(),
            |j: int| (servers[n - 1], tools[n - 1]@[j]@),
        )
    }
}

/// The views of tools, each with its server.
pub open spec fn pair_views<S>(v: Seq<(Arc<S>, McpToolInfo)>) -> Seq<(Arc<S>, ToolV)> {
    Seq::new(v.len(), |i: int| (v[i].0, v[i].1@))
}

impl<S> McpManager<S> {
    /// The servers, in the order in which they were connected.
    pub closed spec fn all(&self) -> Seq<Arc<S>> {
        self.servers@
    }

    /// No servers yet.
    pub fn new() -> (res: McpManager<S>)
        ensures
            res.all() == Seq::<Arc<S>>::empty(),
    {
        McpManager { servers: Vec::new() }
    }

    /// One more server.
    pub fn push(&mut self, server: Arc<S>)
        ensures
            final(self).all() == old(self).all().push(server),
    {
        self.servers.push(server);
    }

    /// The servers.
    pub fn servers(&self) -> (res: &[Arc<S>])
        ensures
            res@ == self.all(),
    {
        self.servers.as_slice()
    }

    /// The tools of all servers, each with its server. `tools` are the tools of
    /// each of them.
    pub fn all_tools(&self, tools: &Vec<Vec<McpToolInfo>>) -> (res: Vec<(Arc<S>, McpToolInfo)>)
        requires
            tools@.len() == self.all().len(),
        ensures
            pair_views(res@) == tools_of(self.all(), tools@, self.all().len() as int),
    {
        let mut out: Vec<(Arc<S>, McpToolInfo)> = Vec::new();
        let mut i: usize = 0;
        assert(pair_views(out@) =~= Seq::empty());
        while i < self.servers.len()
            invariant
                i <= self.servers@.len(),
                tools@.len() == self.servers@.len(),
                pair_views(out@) == tools_of(self.servers@, tools@, i as int),
            decreases self.servers@.len() - i,
        {
            let ghost head = pair_views(out@);
            let ghost own = Seq::new(
                tools@[i as int]@.len(),
                |j: int| (self.servers@[i as int], tools@[i as int]@[j]@),
            );
            let mut j: usize = 0;
            assert(head + own.take(0) =~= head);
            while j < tools[i].len()
                invariant
                    i < self.servers@.len(),
                    tools@.len() == self.servers@.len(),
                    j <= tools@[i as int]@.len(),
                    own == Seq::new(
                        tools@[i as int]@.len(),
                        |j: int| (self.servers@[i as int], tools@[i as int]@[j]@),
                    ),
                    pair_views(out@) == head + own.take(j as int),
                decreases tools@[i as int]@.len() - j,
            {
                let ghost before = pair_views(out@);
                out.push((handles::share(&self.servers[i]), tools[i][j].copy()));
                assert(pair_views(out@) =~= before.push(own[j as int]));
                assert(pair_views(out@) =~= head + own.take(j + 1));
                j += 1;
            }
            assert(own.take(j as int) =~= own);
            i += 1;
        }
        out
    }
}

// ---------------------------------------------------------------------------
// What holds of calls and replies
// ---------------------------------------------------------------------------

/// The output of a call is the texts of all items of its content that have one, in their
/// order and with an end of line between them; what has no text is passed over.
pub proof fn law_output_is_all_texts(items: Seq<JsonV>)
    requires
        forall|i: int|
            0 <= i < items.len() && (#[trigger] items[i]).text("text"@) is Some ==> items[i].text(
                "text"@,
            )->0.len() > 0,
    ensures
        content_text(items) == text::join(
            items.filter(|v: JsonV| v.get("text"@) matches Some(JsonV::Text(_))).map_values(
                |v: JsonV| v.get("text"@)->0->Text_0,
            ),
            "\n"@,
        ),
    decreases items.len(),
{
    reveal(Seq::filter);
    let has = |v: JsonV| v.get("text"@) matches Some(JsonV::Text(_));
    let read = |v: JsonV| v.get("text"@)->0->Text_0;
    if items.len() == 0 {
        assert(items.filter(has).map_values(read) =~= Seq::empty());
    } else {
        let front = items.drop_last();
        assert forall|i: int|
            0 <= i < front.len() && (#[trigger] front[i]).text("text"@) is Some implies front[i]
            .text("text"@)->0.len() > 0 by {
            assert(items[i] == front[i]);
        }
        law_output_is_all_texts(front);
        let texts = front.filter(has).map_values(read);
        let last = items.last();
        assert(items[items.len() - 1] == last);
        if has(last) {
            let all = items.filter(has).map_values(read);
            assert(all =~= texts.push(read(last)));
            assert(all.drop_last() =~= texts);
            assert forall|j: int| 0 <= j < texts.len() implies (#[trigger] texts[j]).len() > 0 by {
                let v = front.filter(has)[j];
                front.lemma_filter_pred(has, j);
                front.lemma_filter_contains_rev(has, v);
                let q = choose|q: int| 0 <= q < front.len() && front[q] == v;
                assert(front[q].text("text"@) is Some);
            }
            lemma_texts_show(front, texts);
            if texts.len() == 0 {
                assert(all[0] == read(last));
                assert(content_text(front) =~= Seq::empty());
            }
        }
    }
}

/// Texts that are not empty are shown.
proof fn lemma_texts_show(items: Seq<JsonV>, texts: Seq<Seq<char>>)
    requires
        content_text(items) == text::join(texts, "\n"@),
        forall|i: int| 0 <= i < texts.len() ==> (#[trigger] texts[i]).len() > 0,
    ensures
        content_text(items).len() == 0 <==> texts.len() == 0,
{
    if texts.len() > 0 {
        assert(texts[texts.len() - 1].len() > 0);
        assert(texts.last() == texts[texts.len() - 1]);
    }
}

/// A further item with a text adds it at the end, on a line of its own where there was
/// output before; one without adds nothing.
pub proof fn law_output_goes_on(items: Seq<JsonV>, item: JsonV)
    ensures
        match item.text("text"@) {
            Some(t) => t.is_suffix_of(content_text(items.push(item))) && content_text(items)
                .is_prefix_of(content_text(items.push(item))) && content_text(
                items.push(item),
            ).len() == content_text(items).len() + t.len() + (if content_text(items).len() > 0 {
                1int
            } else {
                0
            }),
            None => content_text(items.push(item)) == content_text(items),
        },
{
    reveal_strlit("\n");
    assert(items.push(item).drop_last() =~= items);
    assert(items.push(item).last() == item);
}

/// A call that a server answers gives its output: as an error where the answer says that
/// it is one, and as a success in every other case. An error of the call stays what it is.
pub proof fn law_call(result: JsonV, items: Seq<JsonV>, e: Seq<char>)
    ensures
        result.get("content"@) == Some(JsonV::Array(items)) ==> call_result(
            Ok(result),
        ) == if result.get("isError"@) == Some(JsonV::Bool(true)) {
            Err::<Seq<char>, _>(content_text(items))
        } else {
            Ok::<_, Seq<char>>(content_text(items))
        },
        !(result.get("content"@) matches Some(JsonV::Array(_))) ==> call_result(
            Ok(result),
        ) == if result.get("isError"@) == Some(JsonV::Bool(true)) {
            Err::<Seq<char>, _>(json::indented_text_of(result))
        } else {
            Ok::<_, Seq<char>>(json::indented_text_of(result))
        },
        call_result(Err(e)) == Err::<Seq<char>, _>(e),
{
}

/// The payload of an event is that of the first of its lines which begins with `data:`
/// and has one.
pub proof fn law_event_data(event: Seq<char>)
    ensures
        match event_data(event) {
            Some(data) => exists|i: int|
                {
                    &&& 0 <= i < text::lines(event).len()
                    &&& data_of_line(#[trigger] text::lines(event)[i]) == Some(data)
                    &&& forall|j: int|
                        0 <= j < i ==> data_of_line(#[trigger] text::lines(event)[j]) is None
                },
            None => forall|i: int|
                0 <= i < text::lines(event).len() ==> data_of_line(
                    #[trigger] text::lines(event)[i],
                ) is None,
        },
{
    let k = lemma_first_data(text::lines(event), 0);
    if event_data(event) is Some {
        assert(data_of_line(text::lines(event)[k]) == event_data(event));
    }
}

/// The first payload is that of the line returned; where there is none, no line has one.
proof fn lemma_first_data(lines: Seq<Seq<char>>, i: int) -> (k: int)
    requires
        0 <= i <= lines.len(),
    ensures
        i <= k <= lines.len(),
        forall|j: int| i <= j < k ==> data_of_line(#[trigger] lines[j]) is None,
        k < lines.len() ==> data_of_line(lines[k]) is Some && first_data(lines, i) == data_of_line(
            lines[k],
        ),
        k == lines.len() ==> first_data(lines, i) is None,
    decreases lines.len() - i,
{
    if i < lines.len() && data_of_line(lines[i]) is None {
        lemma_first_data(lines, i + 1)
    } else {
        i
    }
}

/// A line of data holds what stands behind the word, without the space around it.
pub proof fn law_data_line(payload: Seq<char>)
    requires
        payload.len() > 0,
        !text::is_white(payload[0]),
        !text::is_white(payload.last()),
    ensures
        data_of_line("data:"@ + payload) == Some(payload),
        data_of_line("data: "@ + payload) == Some(payload),
{
    reveal_strlit("data:");
    reveal_strlit("data: ");
    lemma_trim_plain(payload);
    let a = "data:"@ + payload;
    let b = "data: "@ + payload;
    lemma_trim_plain(a);
    lemma_trim_plain(b);
    assert(a.subrange(0, 5) =~= "data:"@);
    assert(b.subrange(0, 5) =~= "data:"@);
    assert(a.skip(5) =~= payload);
    assert(b.skip(5).drop_first() =~= payload);
    assert(text::trim_start(b.skip(5)) == text::trim_start(payload));
}

proof fn lemma_trim_plain(s: Seq<char>)
    requires
        s.len() > 0,
        !text::is_white(s[0]),
        !text::is_white(s.last()),
    ensures
        text::trim(s) == s,
{
}

/// Events, each with the empty line behind it.
pub open spec fn sent_events(events: Seq<Seq<u8>>) -> Seq<u8> {
    events.map_values(|e: Seq<u8>| e + seq![10u8, 10u8]).flatten()
}

/// Whether an event is one: it holds no empty line and does not end with a line feed.
pub open spec fn is_event(e: Seq<u8>) -> bool {
    &&& e.len() > 0 ==> e.last() != 10
    &&& forall|j: int| 0 <= j < e.len() - 1 ==> !(#[trigger] e[j] == 10 && e[j + 1] == 10)
}

/// A stream gives the reply of the first of its events that replies to the request, and
/// no event before it or behind it matters.
pub proof fn law_first_reply_is_given(
    before: Seq<Seq<u8>>,
    event: Seq<u8>,
    rest: Seq<u8>,
    id: u64,
    reply: JsonV,
)
    requires
        forall|i: int|
            0 <= i < before.len() ==> is_event(#[trigger] before[i]) && event_reply(
                text::lossy(before[i]),
                id,
            ) is None,
        is_event(event),
        event_reply(text::lossy(event), id) == Some(reply),
    ensures
        stream_outcome(sent_events(before) + event + seq![10u8, 10u8] + rest, id) == Ok::<
            _,
            Seq<char>,
        >(reply),
    decreases before.len(),
{
    let end = seq![10u8, 10u8];
    let f = |e: Seq<u8>| e + seq![10u8, 10u8];
    let bytes = sent_events(before) + event + end + rest;
    if before.len() == 0 {
        assert(before.map_values(f) =~= Seq::empty());
        assert(bytes =~= event + end + rest);
        lemma_event_taken(event, rest);
    } else {
        let first = before[0];
        let others = before.drop_first();
        assert(before.map_values(f).drop_first() =~= others.map_values(f));
        assert(before.map_values(f).first() == first + end);
        let tail = sent_events(others) + event + end + rest;
        assert(bytes =~= first + end + tail);
        assert forall|i: int| 0 <= i < others.len() implies is_event(#[trigger] others[i])
            && event_reply(text::lossy(others[i]), id) is None by {
            assert(others[i] == before[i + 1]);
        }
        law_first_reply_is_given(others, event, rest, id, reply);
        lemma_event_taken(first, tail);
    }
}

/// The first event of a stream ends where its empty line begins.
proof fn lemma_event_taken(event: Seq<u8>, rest: Seq<u8>)
    requires
        is_event(event),
    ensures
        ({
            let bytes = event + seq![10u8, 10u8] + rest;
            &&& event_end(bytes, 0) == Some(event.len() as int)
            &&& bytes.take(event.len() as int) == event
            &&& bytes.skip(event.len() as int + 2) == rest
        }),
{
    let bytes = event + seq![10u8, 10u8] + rest;
    let k = event.len() as int;
    assert forall|j: int| 0 <= j < k implies !(#[trigger] bytes[j] == 10 && bytes[j + 1] == 10) by {
        if j < k - 1 {
            assert(event[j] == bytes[j] && event[j + 1] == bytes[j + 1]);
        } else {
            assert(event.last() == bytes[j]);
        }
    }
    lemma_event_end_is(bytes, 0, k);
    assert(bytes.take(k) =~= event);
    assert(bytes.skip(k + 2) =~= rest);
}

/// Whatever else an error says, and in whatever letters: one that speaks of the
/// connection has the process started again, and one that speaks of a tool that is not
/// there has the list of tools asked for again.
pub proof fn law_words_of_errors(a: Seq<char>, word: Seq<char>, b: Seq<char>)
    ensures
        text::ascii_lower(word) == "write error"@ || text::ascii_lower(word) == "read error"@
            || text::ascii_lower(word) == "closed connection"@ || text::ascii_lower(word)
            == "timeout"@ || text::ascii_lower(word) == "broken pipe"@ ==> reconnects(
            a + word + b,
        ),
        text::ascii_lower(word) == "not found"@ || text::ascii_lower(word) == "unknown tool"@
            ==> names_no_tool(a + word + b),
{
    let whole = text::ascii_lower(a + word + b);
    assert(whole =~= text::ascii_lower(a) + text::ascii_lower(word) + text::ascii_lower(b));
    text::lemma_middle_is_contained(
        text::ascii_lower(a),
        text::ascii_lower(word),
        text::ascii_lower(b),
    );
}

/// An error that holds none of these words is the answer as it is.
pub proof fn law_other_errors(err: Seq<char>)
    ensures
        reconnects(err) ==> exists|i: int, j: int|
            0 <= i <= j <= err.len() && {
                let word = text::ascii_lower(#[trigger] err.subrange(i, j));
                word == "write error"@ || word == "read error"@ || word == "closed connection"@
                    || word == "timeout"@ || word == "broken pipe"@
            },
{
    let lower = text::ascii_lower(err);
    if reconnects(err) {
        let word = if text::contains(lower, "write error"@) {
            "write error"@
        } else if text::contains(lower, "read error"@) {
            "read error"@
        } else if text::contains(lower, "closed connection"@) {
            "closed connection"@
        } else if text::contains(lower, "timeout"@) {
            "timeout"@
        } else {
            "broken pipe"@
        };
        let i = choose|i: int| text::occurs_at(lower, word, i);
        let j = i + word.len();
        assert(text::ascii_lower(err.subrange(i, j)) =~= lower.subrange(i, j));
    }
}

/// A line of a child process settles a request if and only if it is a reply to it: under
/// its number, or under no number but with something to say. What else comes is passed
/// over.
pub proof fn law_reply_is_by_number(line: String, r: JsonRpcResponse, id: u64, secs: u64, n: u64)
    requires
        text::trim(line@).len() > 0,
        r.id matches Some(j) && j@ == JsonV::Number(JsonNumberV::Unsigned(n)),
    ensures
        settled(StdioRead::Line(line, Some(r)), id, secs) == if n == id {
            Some(
                match r.error {
                    Some(e) => Err(
                        "MCP error ("@ + text::signed(e.code as int) + "): "@ + e.message@,
                    ),
                    None => Ok(
                        match r.result {
                            Some(j) => j@,
                            None => JsonV::Null,
                        },
                    ),
                },
            )
        } else {
            None
        },
{
}

/// Each tool of the list is taken in, in its place, under the name of the server.
pub proof fn law_all_tools_are_listed(server: Seq<char>, result: JsonV, items: Seq<JsonV>, i: int)
    requires
        result.get("tools"@) == Some(JsonV::Array(items)),
        0 <= i < items.len(),
    ensures
        listed_tools(server, result) matches Ok(tools) && tools.len() == items.len()
            && tools[i].server_name == server && (items[i].get("name"@) matches Some(
            JsonV::Text(t),
        ) ==> tools[i].name == t) && (items[i].get("description"@) matches Some(JsonV::Text(t))
            ==> tools[i].description == t) && (items[i].get("inputSchema"@) matches Some(v)
            ==> tools[i].input_schema == v),
{
}

/// The tools of all servers are those of each, one server after the other.
pub proof fn law_tools_of_all<S>(servers: Seq<Arc<S>>, tools: Seq<Vec<McpToolInfo>>, n: int)
    requires
        0 <= n <= servers.len(),
        servers.len() == tools.len(),
    ensures
        tools_of(servers, tools, n) == Seq::new(
            n as nat,
            |i: int| tools[i]@.map_values(|t: McpToolInfo| (servers[i], t@)),
        ).flatten(),
    decreases n,
{
    let rows = Seq::new(
        n as nat,
        |i: int| tools[i]@.map_values(|t: McpToolInfo| (servers[i], t@)),
    );
    if n > 0 {
        law_tools_of_all(servers, tools, n - 1);
        let fewer = Seq::new(
            (n - 1) as nat,
            |i: int| tools[i]@.map_values(|t: McpToolInfo| (servers[i], t@)),
        );
        let last = tools[n - 1]@.map_values(|t: McpToolInfo| (servers[n - 1], t@));
        assert(rows =~= fewer.push(last));
        fewer.lemma_flatten_push(last);
        assert(Seq::new(
            tools[n - 1]@.len(),
            |j: int| (servers[n - 1], tools[n - 1]@[j]@),
        ) =~= last);
    } else {
        assert(rows =~= Seq::empty());
    }
}

/// The wait doubles with each try up to the eighth, and stays.
pub proof fn law_backoff_doubles(attempt: nat)
    ensures
        backoff(0) == 200,
        attempt < 8 ==> backoff(attempt + 1) == 2 * backoff(attempt),
        attempt >= 8 ==> backoff(attempt) == 51_200,
{
    lemma2_to64();
    if attempt < 8 {
        lemma_pow2_unfold(attempt + 1);
    }
}

/// A request says its version, its method, its number where it has one, and what it is
/// sent with, where there is anything; and nothing else.
pub proof fn law_request_says_all(id: Option<u64>, method: Seq<char>, params: Option<JsonV>)
    ensures
        ({
            let r = request_json(id, method, params);
            &&& r.get("jsonrpc"@) == Some(JsonV::Text("2.0"@))
            &&& r.get("method"@) == Some(JsonV::Text(method))
            &&& r.get("id"@) == match id {
                Some(n) => Some(JsonV::Number(JsonNumberV::Unsigned(n))),
                None => None,
            }
            &&& r.get("params"@) == params
        }),
{
    reveal_strlit("jsonrpc");
    reveal_strlit("method");
    reveal_strlit("id");
    reveal_strlit("params");
    assert("jsonrpc"@.len() == 7 && "method"@.len() == 6 && "id"@.len() == 2 && "params"@.len()
        == 6);
    assert("method"@[0] != "params"@[0]);
    reveal_with_fuel(json::member_from, 6);
}

/// A connection is made as it is described: with the command, all its arguments and all
/// its variables, or to the address with all its headers; a description without a
/// command or an address, or for another transport, is refused.
pub proof fn law_connection_is_as_described(name: Seq<char>, config: McpServerConfig)
    ensures
        ({
            let kind = text::ascii_lower(text::trim(config.transport@));
            match planned_transport(name, config) {
                Ok(TransportV::Stdio { command, args, env, next_id }) => {
                    &&& kind == "stdio"@ || kind.len() == 0
                    &&& command == config.command@ && text::trim(command).len() > 0
                    &&& args.len() == config.args@.len()
                    &&& forall|i: int|
                        0 <= i < args.len() ==> (#[trigger] args[i]) == config.args@[i]@
                    &&& env.len() == config.env@.len()
                    &&& forall|i: int|
                        0 <= i < env.len() ==> (#[trigger] env[i]) == (
                            config.env@[i].0@,
                            config.env@[i].1@,
                        )
                    &&& next_id == 1
                },
                Ok(TransportV::Http { endpoint, headers, session_id, next_id }) => {
                    &&& kind == "streamable_http"@ || kind == "http"@
                    &&& endpoint == config.endpoint@ && text::trim(endpoint).len() > 0
                    &&& headers.len() == config.headers@.len()
                    &&& forall|i: int|
                        0 <= i < headers.len() ==> (#[trigger] headers[i]) == (
                            config.headers@[i].0@,
                            config.headers@[i].1@,
                        )
                    &&& session_id is None && next_id == 1
                },
                Err(_) => {
                    ||| (kind == "stdio"@ || kind.len() == 0) && text::trim(
                        config.command@,
                    ).len() == 0
                    ||| (kind == "streamable_http"@ || kind == "http"@) && text::trim(
                        config.endpoint@,
                    ).len() == 0
                    ||| kind != "stdio"@ && kind.len() > 0 && kind != "streamable_http"@ && kind
                        != "http"@
                },
            }
        }),
{
    reveal_strlit("");
    let kind = text::ascii_lower(text::trim(config.transport@));
    assert(kind == ""@ <==> kind.len() == 0) by {
        if kind.len() == 0 {
            assert(kind =~= ""@);
        }
    }
}

/// A request over HTTP has every header of its server, and names the session where there
/// is one.
pub proof fn law_headers_are_sent(
    session: Option<Seq<char>>,
    headers: Seq<(Seq<char>, Seq<char>)>,
)
    ensures
        headers.is_suffix_of(http_headers(session, headers)),
        session matches Some(id) ==> http_headers(session, headers).contains(
            ("Mcp-Session-Id"@, id),
        ),
        http_headers(session, headers).len() == headers.len() + (if session is Some {
            2int
        } else {
            1
        }),
{
    let all = http_headers(session, headers);
    if session is Some {
        assert(all[1] == ("Mcp-Session-Id"@, session->0));
    }
}

/// An answer that is an error is one, told with its code and its words, and any other
/// gives its result; where it has none the result is null. A body that is no answer is
/// taken for its own result, or for the one that it holds.
pub proof fn law_outcome(r: JsonRpcResponse, body: JsonV)
    ensures
        outcome(r) is Err <==> r.error is Some,
        r.error matches Some(e) ==> outcome(r) matches Err(words) && e.message@.is_suffix_of(words)
            && text::contains(words, text::signed(e.code as int)),
        r.error is None && r.result is Some ==> outcome(r) == Ok::<_, Seq<char>>(r.result->0@),
        r.error is None && r.result is None ==> outcome(r) == Ok::<_, Seq<char>>(JsonV::Null),
        body_outcome(body, Some(r)) == outcome(r),
        body_outcome(body, None) == match body.get("result"@) {
            Some(j) => Ok::<_, Seq<char>>(j),
            None => Ok(body),
        },
{
    if r.error is Some {
        let e = r.error->0;
        let words = error_text(e);
        let front = "MCP error ("@;
        let code = text::signed(e.code as int);
        assert(words.subrange(words.len() - e.message@.len(), words.len() as int) =~= e.message@);
        text::lemma_middle_is_contained(front, code, "): "@ + e.message@);
        assert(words =~= front + code + ("): "@ + e.message@));
    }
}

/// An event answers a request if and only if its payload is a value that has the number
/// of the request, and then this value is the answer.
pub proof fn law_event_reply(event: Seq<char>, id: u64, value: JsonV)
    ensures
        event_reply(event, id) == Some(value) <==> event_data(event) is Some && json::value_in_text(
            event_data(event)->0,
        ) == Some(value) && value.get("id"@) == Some(JsonV::Number(JsonNumberV::Unsigned(id))),
{
}

/// What is left at the end of a stream is looked at as an event too; a stream without an
/// answer is an error.
pub proof fn law_end_of_stream(bytes: Seq<u8>, id: u64)
    ensures
        event_reply(text::lossy(bytes), id) matches Some(value) && text::trim(
            text::lossy(bytes),
        ).len() > 0 ==> end_of_stream(bytes, id) == Ok::<_, Seq<char>>(
            event_reply(text::lossy(bytes), id)->0,
        ),
        event_reply(text::lossy(bytes), id) is None ==> end_of_stream(bytes, id) is Err,
{
}

/// A read that brought no line ends the wait with an error that tells why. A line that
/// is no answer, or blank, does not; one that is an answer without a number does.
pub proof fn law_settled(why: String, line: String, r: JsonRpcResponse, id: u64, secs: u64)
    ensures
        settled(StdioRead::TimedOut, id, secs) matches Some(Err(words)) && (secs > 0
            ==> text::contains(words, text::digits(secs as nat))),
        settled(StdioRead::Failed(why), id, secs) matches Some(Err(words)) && why@.is_suffix_of(
            words,
        ),
        settled(StdioRead::Closed, id, secs) matches Some(Err(words)),
        settled(StdioRead::Line(line, None), id, secs) is None,
        text::trim(line@).len() == 0 ==> settled(
            StdioRead::Line(line, Some(r)),
            id,
            secs,
        ) is None,
        text::trim(line@).len() > 0 && r.id is None && (r.result is Some || r.error is Some)
            ==> settled(StdioRead::Line(line, Some(r)), id, secs) == Some(outcome(r)),
        r.id is None && r.result is None && r.error is None ==> settled(
            StdioRead::Line(line, Some(r)),
            id,
            secs,
        ) is None,
{
    let said = "Read error: "@ + why@;
    assert(said.subrange(said.len() - why@.len(), said.len() as int) =~= why@);
    if secs > 0 {
        let front = "MCP server response timeout ("@;
        let n = text::digits(secs as nat);
        text::lemma_middle_is_contained(front, n, "s"@ + ")"@);
        assert(front + (n + "s"@) + ")"@ =~= front + n + ("s"@ + ")"@));
    }
}

/// A connection begins with what its configuration says: the protocol, else the usual
/// one of all servers, else the newest; its time and its attempts, else two minutes and
/// two; and with no tools.
pub proof fn law_fresh_server(
    name: Seq<char>,
    config: McpServerConfig,
    default_version: Option<Seq<char>>,
    transport: TransportV,
)
    ensures
        ({
            let s = fresh_server(name, config, default_version, transport);
            &&& s.name == name
            &&& s.transport == transport
            &&& s.tools.len() == 0
            &&& s.updated_at is None
            &&& s.negotiated_protocol == s.requested_protocol
            &&& config.protocol_version matches Some(v) ==> s.requested_protocol == v@
            &&& config.protocol_version is None ==> (default_version matches Some(v)
                ==> s.requested_protocol == v)
            &&& config.protocol_version is None && default_version is None ==> s.requested_protocol
                == "2025-11-05"@
            &&& config.request_timeout_secs matches Some(n) ==> s.request_timeout_secs == n
            &&& config.request_timeout_secs is None ==> s.request_timeout_secs == 2 * 60
            &&& config.max_retries matches Some(n) ==> s.max_retries == n
            &&& config.max_retries is None ==> s.max_retries == 2
        }),
{
}

/// The number of the next request and the session change nothing else of a connection; a
/// session is kept over HTTP only, and stays where none is named.
pub proof fn law_transport_changes(t: TransportV, n: u64, id: Option<Seq<char>>)
    ensures
        t.with_next_id(n).next_id() == n,
        t.with_session(id).next_id() == t.next_id(),
        match (t, t.with_next_id(n), t.with_session(id)) {
            (
                TransportV::Stdio { command, args, env, .. },
                TransportV::Stdio { command: c, args: a, env: e, .. },
                other,
            ) => c == command && a == args && e == env && other == t,
            (
                TransportV::Http { endpoint, headers, session_id, .. },
                TransportV::Http { endpoint: p, headers: h, session_id: s, .. },
                TransportV::Http { endpoint: p2, headers: h2, session_id: s2, .. },
            ) => p == endpoint && h == headers && s == session_id && p2 == endpoint && h2 == headers
                && s2 == if id is Some {
                id
            } else {
                session_id
            },
            _ => false,
        },
{
}

/// A process is started again after an error of the connection, and only after one, as
/// long as fewer tries were given up than may be.
pub proof fn law_tries_again(tried: nat, limit: nat, a: Seq<char>, b: Seq<char>, err: Seq<char>)
    ensures
        tried >= limit ==> !tries_again(tried, limit, err),
        tries_again(tried, limit, err) ==> reconnects(err),
        tried < limit ==> tries_again(tried, limit, a + "timeout"@ + b) && tries_again(
            tried,
            limit,
            a + "broken pipe"@ + b,
        ) && tries_again(tried, limit, a + "closed connection"@ + b) && tries_again(
            tried,
            limit,
            a + "read error"@ + b,
        ) && tries_again(tried, limit, a + "write error"@ + b),
{
    reveal_strlit("timeout");
    reveal_strlit("broken pipe");
    reveal_strlit("closed connection");
    reveal_strlit("read error");
    reveal_strlit("write error");
    assert(text::ascii_lower("timeout"@) =~= "timeout"@);
    assert(text::ascii_lower("broken pipe"@) =~= "broken pipe"@);
    assert(text::ascii_lower("closed connection"@) =~= "closed connection"@);
    assert(text::ascii_lower("read error"@) =~= "read error"@);
    assert(text::ascii_lower("write error"@) =~= "write error"@);
    law_words_of_errors(a, "timeout"@, b);
    law_words_of_errors(a, "broken pipe"@, b);
    law_words_of_errors(a, "closed connection"@, b);
    law_words_of_errors(a, "read error"@, b);
    law_words_of_errors(a, "write error"@, b);
}

/// An answer says that there is no such tool only where it is an error that holds the
/// words for it, in whatever case; a success never does.
pub proof fn law_stale(r: Result<Seq<char>, Seq<char>>)
    ensures
        r is Ok ==> !is_stale(r),
        r matches Err(e) ==> (is_stale(r) <==> exists|i: int, j: int|
            0 <= i <= j <= e.len() && {
                let word = text::ascii_lower(#[trigger] e.subrange(i, j));
                word == "not found"@ || word == "unknown tool"@
            }),
{
    if r is Err {
        let e = r->Err_0;
        let lower = text::ascii_lower(e);
        if is_stale(r) {
            let word = if text::contains(lower, "not found"@) {
                "not found"@
            } else if text::contains(lower, "unknown tool"@) {
                "unknown tool"@
            } else {
                "tool not found"@
            };
            let i = choose|i: int| text::occurs_at(lower, word, i);
            reveal_strlit("not found");
            reveal_strlit("tool not found");
            if word == "tool not found"@ {
                let inner = lower.subrange(i + 5, i + 14);
                assert(inner =~= "not found"@) by {
                    assert forall|q: int| 0 <= q < 9 implies inner[q] == "not found"@[q] by {
                        assert(lower.subrange(i, i + 14)[q + 5] == lower[i + 5 + q]);
                    }
                }
                assert(text::occurs_at(lower, "not found"@, i + 5));
            } else {
                let part = e.subrange(i, i + word.len());
                assert(text::ascii_lower(part) =~= lower.subrange(i, i + word.len()));
            }
        }
        if exists|i: int, j: int|
            0 <= i <= j <= e.len() && {
                let word = text::ascii_lower(#[trigger] e.subrange(i, j));
                word == "not found"@ || word == "unknown tool"@
            } {
            let (i, j) = choose|i: int, j: int|
                0 <= i <= j <= e.len() && {
                    let word = text::ascii_lower(#[trigger] e.subrange(i, j));
                    word == "not found"@ || word == "unknown tool"@
                };
            let word = e.subrange(i, j);
            law_words_of_errors(e.take(i), word, e.skip(j));
            assert(e.take(i) + word + e.skip(j) =~= e);
        }
    }
}

/// The tools need not be listed before a call if and only if they were listed in the last
/// five minutes and the one that is called is among them, at whatever place.
pub proof fn law_lists_first(
    before: Seq<ToolV>,
    tool: ToolV,
    after: Seq<ToolV>,
    listed: u64,
    now: u64,
)
    ensures
        now < listed + 5 * 60 * 1000 ==> !lists_first(
            before + seq![tool] + after,
            Some(listed),
            tool.name,
            now,
        ),
        now >= listed + 5 * 60 * 1000 ==> lists_first(before, Some(listed), tool.name, now),
        lists_first(before, None, tool.name, now),
        (forall|i: int| 0 <= i < before.len() ==> (#[trigger] before[i]).name != tool.name)
            ==> lists_first(before, Some(listed), tool.name, now),
{
    let all = before + seq![tool] + after;
    assert(all[before.len() as int].name == tool.name);
}

/// A server is probed as often as its configuration says, every minute where it does not
/// say, and never where it says zero.
pub proof fn law_probed_every(secs: u64)
    ensures
        probed_every(None) == Some(60u64),
        probed_every(Some(0)) is None,
        secs > 0 ==> probed_every(Some(secs)) == Some(secs),
{
}

/// Why a server cannot be reached as it is described is told with its name, and with the
/// kind of connection where it is not known.
pub proof fn law_refused_connection(name: Seq<char>, config: McpServerConfig)
    ensures
        planned_transport(name, config) matches Err(e) ==> text::contains(e, name),
        planned_transport(name, config) matches Err(e) ==> ({
            let kind = text::ascii_lower(text::trim(config.transport@));
            kind.len() > 0 && kind != "stdio"@ && kind != "streamable_http"@ && kind != "http"@
                ==> text::contains(e, kind)
        }),
        planned_transport(name, config) matches Err(e) ==> ({
            let kind = text::ascii_lower(text::trim(config.transport@));
            &&& kind == "stdio"@ ==> text::contains(e, "`command`"@)
            &&& kind == "http"@ || kind == "streamable_http"@ ==> text::contains(e, "`endpoint`"@)
        }),
{
    reveal_strlit("");
    reveal_strlit("stdio");
    reveal_strlit("http");
    reveal_strlit("streamable_http");
    assert("stdio"@.len() == 5 && "http"@.len() == 4 && "streamable_http"@.len() == 15);
    let kind = text::ascii_lower(text::trim(config.transport@));
    let front = "MCP server '"@;
    let a = "' requires `command` when transport=stdio"@;
    let b = "' requires `endpoint` when transport=streamable_http"@;
    let c = "' has unsupported transport '"@;
    text::lemma_middle_is_contained(front, name, a);
    text::lemma_middle_is_contained(front, name, b);
    text::lemma_middle_is_contained(front, name, c + kind + "'"@);
    assert(front + name + c + kind + "'"@ =~= front + name + (c + kind + "'"@));
    text::lemma_middle_is_contained(front + name + c, kind, "'"@);
    lemma_quoted_keys();
    text::lemma_part_is_contained(front + name, a, Seq::empty(), "`command`"@);
    text::lemma_part_is_contained(front + name, b, Seq::empty(), "`endpoint`"@);
    assert(front + name + a =~= (front + name) + a + Seq::<char>::empty());
    assert(front + name + b =~= (front + name) + b + Seq::<char>::empty());
}

proof fn lemma_quoted_keys()
    ensures
        text::contains("' requires `command` when transport=stdio"@, "`command`"@),
        text::contains("' requires `endpoint` when transport=streamable_http"@, "`endpoint`"@),
{
    reveal_strlit("' requires `command` when transport=stdio");
    reveal_strlit("' requires `endpoint` when transport=streamable_http");
    reveal_strlit("`command`");
    reveal_strlit("`endpoint`");
    let a = "' requires `command` when transport=stdio"@;
    let b = "' requires `endpoint` when transport=streamable_http"@;
    assert(a.subrange(11, 20) =~= "`command`"@);
    assert(b.subrange(11, 21) =~= "`endpoint`"@);
    assert(text::occurs_at(a, "`command`"@, 11));
    assert(text::occurs_at(b, "`endpoint`"@, 11));
}

} // verus!
