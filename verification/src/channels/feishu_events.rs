//! Events from Feishu: frames of the long connection, calls of the webhook,
//! repeated deliveries, and what a message asks for.

use crate::channels::feishu;
use crate::channels::pb;
use crate::codec;
use crate::json;
use crate::json::{Fields, Json, JsonV};
use crate::paths;
use crate::text;
use vstd::prelude::*;
use vstd::utf8::*;

verus! {

broadcast use vstd::string::group_string_axioms;

// ---------------------------------------------------------------------------
// The long connection
// ---------------------------------------------------------------------------

/// The method of frames that control the connection.
pub const FRAME_METHOD_CONTROL: i32 = 0;

/// The method of frames that carry data.
pub const FRAME_METHOD_DATA: i32 = 1;

/// Seconds between pings where the server does not say.
pub const DEFAULT_PING_SECS: u64 = 120;

/// Seconds between two attempts to connect.
pub const RECONNECT_SECS: u64 = 5;

/// A frame that asks whether the connection is alive.
pub open spec fn ping_view(service: i32) -> pb::FrameV {
    pb::FrameV {
        service,
        method: FRAME_METHOD_CONTROL,
        headers: seq![pb::HeaderV { key: "type"@, value: "ping"@ }],
        ..pb::empty_frame()
    }
}

/// A frame that asks whether the connection is alive.
pub fn ping_frame(service: i32) -> (res: pb::Frame)
    ensures
        res@ == ping_view(service),
{
    let mut headers: Vec<pb::Header> = Vec::new();
    headers.push(pb::Header { key: text::owned("type"), value: text::owned("ping") });
    let res = pb::Frame {
        seq_id: 0,
        log_id: 0,
        service,
        method: FRAME_METHOD_CONTROL,
        headers,
        payload_encoding: String::new(),
        payload_type: String::new(),
        payload: Vec::new(),
        log_id_new: String::new(),
    };
    assert(res@ =~= ping_view(service));
    res
}

/// The frame that acknowledges `f`: its marks and headers, and a status.
pub open spec fn ack_view(f: pb::FrameV) -> pb::FrameV {
    pb::FrameV {
        payload_encoding: Seq::empty(),
        payload_type: Seq::empty(),
        payload: encode_utf8(json::text_of(json::obj1("StatusCode"@, json::num(0)))),
        ..f
    }
}

/// The frame that acknowledges `request`.
pub fn ack_frame(request: &pb::Frame) -> (res: pb::Frame)
    ensures
        res@ == ack_view(request@),
{
    let status = Fields::new().with("StatusCode", json::number(0)).object().to_text();
    let mut headers: Vec<pb::Header> = Vec::new();
    let mut i: usize = 0;
    while i < request.headers.len()
        invariant
            i <= request.headers@.len(),
            pb::header_views(headers@) == pb::header_views(request.headers@).take(i as int),
        decreases request.headers@.len() - i,
    {
        let ghost before = pb::header_views(headers@);
        let key = request.headers[i].key.clone();
        let value = request.headers[i].value.clone();
        let copy = pb::Header { key, value };
        headers.push(copy);
        assert(pb::header_views(headers@) =~= before.push(copy@));
        assert(pb::header_views(request.headers@).take(i + 1) =~= pb::header_views(
            request.headers@,
        ).take(i as int).push(request.headers@[i as int]@));
        i += 1;
    }
    let res = pb::Frame {
        seq_id: request.seq_id,
        log_id: request.log_id,
        service: request.service,
        method: request.method,
        headers,
        payload_encoding: String::new(),
        payload_type: String::new(),
        payload: status.as_str().as_bytes_vec(),
        log_id_new: request.log_id_new.clone(),
    };
    assert(res@ =~= ack_view(request@));
    res
}

/// What to do with a binary message of the connection.
pub enum FrameStep {
    /// It is no frame, for this reason.
    Malformed(String),
    /// It asks for nothing.
    Ignore,
    /// It is an event that is not JSON: send these bytes back.
    Acknowledge(Vec<u8>),
    /// It is an event: send these bytes back, then handle the event.
    Handle(Vec<u8>, Json),
}

/// Whether a frame carries an event.
pub open spec fn carries_event(f: pb::FrameV) -> bool {
    f.method == FRAME_METHOD_DATA && f.header_from("type"@, 0) == Some("event"@)
}

/// What to do with a frame whose payload, as text, holds `event` if anything.
pub open spec fn frame_step_is(f: pb::FrameV, event: Option<JsonV>, step: FrameStep) -> bool {
    if carries_event(f) {
        match event {
            Some(e) => step matches FrameStep::Handle(ack, got) && ack@ == pb::frame_bytes(
                ack_view(f),
            ) && got@ == e,
            None => step matches FrameStep::Acknowledge(ack) && ack@ == pb::frame_bytes(
                ack_view(f),
            ),
        }
    } else {
        step is Ignore
    }
}

/// What to do with a binary message of the connection.
pub fn on_binary(data: &[u8]) -> (res: FrameStep)
    ensures
        match pb::frame_in(data@) {
            Ok(f) => frame_step_is(f, json::value_in_text(text::lossy(f.payload)), res),
            Err(e) => res matches FrameStep::Malformed(got) && got@ == e,
        },
{
    match pb::Frame::decode(data) {
        Err(e) => FrameStep::Malformed(e),
        Ok(frame) => {
            let payload = text::decode_lossy(frame.payload.as_slice());
            on_frame(&frame, json::parse(payload.as_str()))
        },
    }
}

/// What to do with a frame whose payload holds `event`, if it is JSON.
pub fn on_frame(frame: &pb::Frame, event: Option<Json>) -> (res: FrameStep)
    ensures
        frame_step_is(
            frame@,
            match event {
                Some(e) => Some(e@),
                None => None,
            },
            res,
        ),
{
    let is_event = match frame.header("type") {
        Some(kind) => text::same(kind, "event"),
        None => false,
    };
    if frame.method == FRAME_METHOD_DATA && is_event {
        let ack = ack_frame(frame).encode();
        match event {
            Some(e) => FrameStep::Handle(ack, e),
            None => FrameStep::Acknowledge(ack),
        }
    } else {
        FrameStep::Ignore
    }
}

// ---------------------------------------------------------------------------
// Repeated deliveries
// ---------------------------------------------------------------------------

/// How long a message is remembered, in milliseconds: six hours.
pub const DEDUP_TTL_MS: u64 = 21_600_000;

/// The messages seen lately, each with the time at which it was seen.
pub struct DedupCache {
    pub entries: Vec<(String, u64)>,
}

/// The mathematical form of a `DedupCache`.
pub open spec fn entry_views(v: Seq<(String, u64)>) -> Seq<(Seq<char>, u64)> {
    Seq::new(v.len(), |i: int| (v[i].0@, v[i].1))
}

/// Whether an entry is still remembered.
pub open spec fn is_live(e: (Seq<char>, u64), now: u64) -> bool {
    now - e.1 < DEDUP_TTL_MS
}

/// The entries that are still remembered, in their order.
pub open spec fn live(s: Seq<(Seq<char>, u64)>, now: u64) -> Seq<(Seq<char>, u64)>
    decreases s.len(),
{
    if s.len() == 0 {
        Seq::empty()
    } else if is_live(s.last(), now) {
        live(s.drop_last(), now).push(s.last())
    } else {
        live(s.drop_last(), now)
    }
}

/// Whether a message is among the entries.
pub open spec fn remembers(s: Seq<(Seq<char>, u64)>, id: Seq<char>) -> bool {
    exists|i: int| 0 <= i < s.len() && (#[trigger] s[i]).0 == id
}

/// What the cache knows of a message.
#[derive(Clone, Copy, Debug, PartialEq, Eq)]
pub enum Lookup {
    /// A message without an id is never a repetition.
    Untracked,
    /// It was seen lately.
    Seen,
    /// Not seen lately: the store may know it.
    AskStore,
}

/// What is known of a message among entries that are all still remembered.
pub open spec fn lookup_in(s: Seq<(Seq<char>, u64)>, id: Seq<char>) -> Lookup {
    if id.len() == 0 {
        Lookup::Untracked
    } else if remembers(s, id) {
        Lookup::Seen
    } else {
        Lookup::AskStore
    }
}

/// The entries after a message was looked at, at time `now`.
pub open spec fn entries_after(s: Seq<(Seq<char>, u64)>, id: Seq<char>, now: u64) -> Seq<
    (Seq<char>, u64),
> {
    match lookup_in(live(s, now), id) {
        Lookup::Untracked => s,
        Lookup::Seen => live(s, now),
        Lookup::AskStore => live(s, now).push((id, now)),
    }
}

/// Whether no message stands among the entries twice.
pub open spec fn each_once(s: Seq<(Seq<char>, u64)>) -> bool {
    forall|i: int, j: int|
        0 <= i < j < s.len() ==> (#[trigger] s[i]).0 != (#[trigger] s[j]).0
}

impl DedupCache {
    pub open spec fn view(self) -> Seq<(Seq<char>, u64)> {
        entry_views(self.entries@)
    }

    /// Nothing seen yet.
    pub fn new() -> (res: DedupCache)
        ensures
            res@ == Seq::<(Seq<char>, u64)>::empty(),
            each_once(res@),
    {
        let res = DedupCache { entries: Vec::new() };
        assert(res@ =~= Seq::empty());
        res
    }

    /// Forgets what is older than the time to remember.
    fn evict(&mut self, now: u64)
        ensures
            final(self)@ == live(old(self)@, now),
    {
        let ghost all = self@;
        let mut kept: Vec<(String, u64)> = Vec::new();
        let mut i: usize = 0;
        assert(entry_views(kept@) =~= live(all.take(0), now));
        while i < self.entries.len()
            invariant
                i <= self.entries@.len(),
                all == self@,
                entry_views(kept@) == live(all.take(i as int), now),
            decreases self.entries@.len() - i,
        {
            let ghost before = entry_views(kept@);
            assert(all.take(i + 1).drop_last() =~= all.take(i as int));
            assert(all.take(i + 1).last() == (
                self.entries@[i as int].0@,
                self.entries@[i as int].1,
            ));
            let seen: u64 = self.entries[i].1;
            if seen > now || now - seen < DEDUP_TTL_MS {
                let id = self.entries[i].0.clone();
                kept.push((id, seen));
                assert(entry_views(kept@) =~= before.push((id@, seen)));
            }
            i += 1;
        }
        assert(all.take(all.len() as int) =~= all);
        self.entries = kept;
    }

    /// Whether a message is among the entries.
    fn knows(&self, id: &str) -> (res: bool)
        ensures
            res == remembers(self@, id@),
    {
        let mut i: usize = 0;
        while i < self.entries.len()
            invariant
                i <= self.entries@.len(),
                forall|j: int| 0 <= j < i ==> (#[trigger] self@[j]).0 != id@,
            decreases self.entries@.len() - i,
        {
            if text::same(self.entries[i].0.as_str(), id) {
                assert(self@[i as int].0 == id@);
                return true;
            }
            i += 1;
        }
        false
    }

    /// What the cache knows of a message at time `now`.
    pub fn lookup(&mut self, message_id: &str, now: u64) -> (res: Lookup)
        ensures
            res == lookup_in(live(old(self)@, now), message_id@),
            final(self)@ == if message_id@.len() == 0 {
                old(self)@
            } else {
                live(old(self)@, now)
            },
    {
        if message_id.is_empty() {
            return Lookup::Untracked;
        }
        self.evict(now);
        if self.knows(message_id) {
            Lookup::Seen
        } else {
            Lookup::AskStore
        }
    }

    /// Whether a message is a repetition: seen lately, or known to the store.
    /// Either way it is remembered from now on.
    pub fn is_duplicate_message(&mut self, message_id: &str, now: u64, in_store: bool) -> (res:
        bool)
        ensures
            res == match lookup_in(live(old(self)@, now), message_id@) {
                Lookup::Untracked => false,
                Lookup::Seen => true,
                Lookup::AskStore => in_store,
            },
            final(self)@ == entries_after(old(self)@, message_id@, now),
    {
        match self.lookup(message_id, now) {
            Lookup::Untracked => false,
            Lookup::Seen => true,
            Lookup::AskStore => {
                let ghost before = self@;
                self.entries.push((message_id.to_owned(), now));
                assert(self@ =~= before.push((message_id@, now)));
                in_store
            },
        }
    }
}

/// Forgetting keeps an entry that is still to be remembered.
proof fn lemma_live_keeps(s: Seq<(Seq<char>, u64)>, i: int, now: u64)
    requires
        0 <= i < s.len(),
        is_live(s[i], now),
    ensures
        remembers(live(s, now), s[i].0),
    decreases s.len(),
{
    if i == s.len() - 1 {
        let kept = live(s, now);
        assert(kept[kept.len() - 1] == s[i]);
    } else {
        lemma_live_keeps(s.drop_last(), i, now);
        let front = live(s.drop_last(), now);
        let k = choose|k: int| 0 <= k < front.len() && (#[trigger] front[k]).0 == s[i].0;
        assert(live(s, now)[k] == front[k]);
    }
}

/// Whatever is forgotten no longer stands among the entries.
proof fn lemma_live_drops(s: Seq<(Seq<char>, u64)>, now: u64)
    ensures
        forall|k: int| 0 <= k < live(s, now).len() ==> is_live(#[trigger] live(s, now)[k], now),
        forall|k: int|
            0 <= k < live(s, now).len() ==> exists|j: int|
                0 <= j < s.len() && s[j] == #[trigger] live(s, now)[k],
    decreases s.len(),
{
    if s.len() > 0 {
        lemma_live_drops(s.drop_last(), now);
        let front = live(s.drop_last(), now);
        assert forall|k: int| 0 <= k < live(s, now).len() implies exists|j: int|
            0 <= j < s.len() && s[j] == #[trigger] live(s, now)[k] by {
            if k < front.len() {
                assert(live(s, now)[k] == front[k]);
                let j = choose|j: int| 0 <= j < s.drop_last().len() && s.drop_last()[j] == front[k];
                assert(s[j] == live(s, now)[k]);
            } else {
                assert(s[s.len() - 1] == live(s, now)[k]);
            }
        }
    }
}

/// Forgetting leaves no message twice where none stood twice.
proof fn lemma_live_each_once(s: Seq<(Seq<char>, u64)>, now: u64)
    requires
        each_once(s),
    ensures
        each_once(live(s, now)),
    decreases s.len(),
{
    if s.len() > 0 {
        let front = s.drop_last();
        assert(each_once(front)) by {
            assert forall|i: int, j: int| 0 <= i < j < front.len() implies (
            #[trigger] front[i]).0 != (#[trigger] front[j]).0 by {
                assert(front[i] == s[i] && front[j] == s[j]);
            }
        }
        lemma_live_each_once(front, now);
        lemma_live_drops(front, now);
        let kept = live(front, now);
        let all = live(s, now);
        assert forall|i: int, j: int| 0 <= i < j < all.len() implies (#[trigger] all[i]).0 != (
        #[trigger] all[j]).0 by {
            assert(all[i] == kept[i]);
            if j < kept.len() {
                assert(all[j] == kept[j]);
            } else {
                let k = choose|k: int| 0 <= k < front.len() && front[k] == kept[i];
                assert(s[k] == kept[i]);
                assert(all[j] == s[s.len() - 1]);
            }
        }
    }
}

/// Looking at a message leaves no message twice where none stood twice.
pub proof fn law_cache_holds_each_once(s: Seq<(Seq<char>, u64)>, id: Seq<char>, now: u64)
    requires
        each_once(s),
    ensures
        each_once(entries_after(s, id, now)),
{
    lemma_live_each_once(s, now);
}

/// A message that was looked at is a repetition when it comes again within the
/// time to remember.
pub proof fn law_redelivery_is_duplicate(
    s: Seq<(Seq<char>, u64)>,
    id: Seq<char>,
    first: u64,
    again: u64,
)
    requires
        id.len() > 0,
        first <= again,
        again - first < DEDUP_TTL_MS,
        !remembers(live(s, first), id),
    ensures
        lookup_in(live(entries_after(s, id, first), again), id) == Lookup::Seen,
{
    let after = entries_after(s, id, first);
    let i = after.len() - 1;
    assert(after[i] == (id, first));
    lemma_live_keeps(after, i, again);
}

/// A message that was seen too long ago, and not since, is left to the store.
pub proof fn law_old_delivery_is_forgotten(s: Seq<(Seq<char>, u64)>, id: Seq<char>, now: u64)
    requires
        id.len() > 0,
        forall|i: int|
            0 <= i < s.len() && (#[trigger] s[i]).0 == id ==> now - s[i].1 >= DEDUP_TTL_MS,
    ensures
        lookup_in(live(s, now), id) == Lookup::AskStore,
{
    lemma_live_drops(s, now);
    if remembers(live(s, now), id) {
        let k = choose|k: int|
            0 <= k < live(s, now).len() && (#[trigger] live(s, now)[k]).0 == id;
        assert(is_live(live(s, now)[k], now));
        let j = choose|j: int| 0 <= j < s.len() && s[j] == live(s, now)[k];
        assert(s[j].0 == id);
    }
}

// ---------------------------------------------------------------------------
// Messages
// ---------------------------------------------------------------------------

/// A message that arrived.
pub struct IncomingMessage {
    pub chat_id: String,
    pub sender: String,
    pub message_type: String,
    pub content: String,
    pub message_id: String,
    /// Whether it is a conversation of two.
    pub is_dm: bool,
    /// Whether it names the bot, in a group.
    pub is_mentioned: bool,
}

/// The mathematical form of an `IncomingMessage`.
pub struct IncomingV {
    pub chat_id: Seq<char>,
    pub sender: Seq<char>,
    pub message_type: Seq<char>,
    pub content: Seq<char>,
    pub message_id: Seq<char>,
    pub is_dm: bool,
    pub is_mentioned: bool,
}

impl IncomingMessage {
    pub open spec fn view(self) -> IncomingV {
        IncomingV {
            chat_id: self.chat_id@,
            sender: self.sender@,
            message_type: self.message_type@,
            content: self.content@,
            message_id: self.message_id@,
            is_dm: self.is_dm,
            is_mentioned: self.is_mentioned,
        }
    }
}

/// Whether one of the mentions is of the bot.
pub open spec fn names_bot(mentions: Seq<JsonV>, bot: Seq<char>) -> bool {
    exists|i: int|
        0 <= i < mentions.len() && (#[trigger] mentions[i]).text2("id"@, "open_id"@) == Some(bot)
}

/// The value under `key`, or the null value.
pub open spec fn child(v: JsonV, key: Seq<char>) -> JsonV {
    match v.get(key) {
        Some(c) => c,
        None => JsonV::Null,
    }
}

/// A text, or another where there is none.
pub open spec fn or_text(t: Option<Seq<char>>, other: Seq<char>) -> Seq<char> {
    match t {
        Some(x) => x,
        None => other,
    }
}

/// The message that an event brings; none where it is another event or the
/// bot's own message.
pub open spec fn incoming(event: JsonV, bot: Seq<char>) -> Option<IncomingV> {
    let evt = child(event, "event"@);
    let sender = or_text(
        match evt.at3("sender"@, "sender_id"@, "open_id"@) {
            Some(v) => v.as_text(),
            None => None,
        },
        ""@,
    );
    let sender_type = or_text(evt.text2("sender"@, "sender_type"@), "user"@);
    let message = child(evt, "message"@);
    let is_dm = or_text(message.text("chat_type"@), "p2p"@) == "p2p"@;
    if or_text(event.text2("header"@, "event_type"@), ""@) != "im.message.receive_v1"@ {
        None
    } else if sender == bot || sender_type == "bot"@ {
        None
    } else {
        Some(
            IncomingV {
                chat_id: or_text(message.text("chat_id"@), ""@),
                sender,
                message_type: or_text(message.text("message_type"@), "text"@),
                content: or_text(message.text("content"@), ""@),
                message_id: or_text(message.text("message_id"@), ""@),
                is_dm,
                is_mentioned: !is_dm && match message.items("mentions"@) {
                    Some(mentions) => names_bot(mentions, bot),
                    None => false,
                },
            },
        )
    }
}

/// The message in an event; null where there is none.
pub open spec fn message_in(event: JsonV) -> JsonV {
    match event.get("event"@) {
        Some(body) => match body.get("message"@) {
            Some(message) => message,
            None => JsonV::Null,
        },
        None => JsonV::Null,
    }
}

/// All the mentions in the message of an event.
pub open spec fn mentions_in(event: JsonV) -> Seq<JsonV> {
    match message_in(event).get("mentions"@) {
        Some(JsonV::Array(mentions)) => mentions,
        _ => Seq::empty(),
    }
}

/// Whom a mention is of.
pub open spec fn open_id_of(mention: JsonV) -> Option<JsonV> {
    match mention.get("id"@) {
        Some(id) => id.get("open_id"@),
        None => None,
    }
}

/// In a group message that is taken in the bot is mentioned if and only if it is among
/// those who are mentioned, at whatever place; in a private message it never is.
pub proof fn law_mentioned(event: JsonV, bot: Seq<char>)
    requires
        incoming(event, bot) is Some,
    ensures
        incoming(event, bot)->0.is_mentioned <==> !incoming(event, bot)->0.is_dm && exists|i: int|
            0 <= i < mentions_in(event).len() && open_id_of(#[trigger] mentions_in(event)[i])
                == Some(JsonV::Text(bot)),
{
    let mentions = mentions_in(event);
    let message = message_in(event);
    let m = incoming(event, bot)->0;
    if message.items("mentions"@) is Some {
        assert(message.items("mentions"@) == Some(mentions));
    } else {
        assert(mentions =~= Seq::empty());
    }
    assert forall|i: int| 0 <= i < mentions.len() implies (open_id_of(#[trigger] mentions[i])
        == Some(JsonV::Text(bot))) == (mentions[i].text2("id"@, "open_id"@) == Some(bot)) by {}
    if m.is_mentioned {
        let i = choose|i: int|
            0 <= i < mentions.len() && (#[trigger] mentions[i]).text2("id"@, "open_id"@) == Some(
                bot,
            );
        assert(open_id_of(mentions[i]) == Some(JsonV::Text(bot)));
    }
}

/// Further mentions, before those of a group message or behind them, never make a
/// mention of the bot go unseen; and where none of them is of the bot nothing changes.
pub proof fn law_more_mentions(
    event: JsonV,
    longer: JsonV,
    bot: Seq<char>,
    before: Seq<JsonV>,
    after: Seq<JsonV>,
)
    requires
        incoming(event, bot) is Some,
        incoming(longer, bot) is Some,
        !incoming(longer, bot)->0.is_dm,
        mentions_in(longer) == before + mentions_in(event) + after,
    ensures
        incoming(event, bot)->0.is_mentioned ==> incoming(longer, bot)->0.is_mentioned,
        (forall|i: int|
            0 <= i < before.len() ==> open_id_of(#[trigger] before[i]) != Some(JsonV::Text(bot)))
            && (forall|i: int|
            0 <= i < after.len() ==> open_id_of(#[trigger] after[i]) != Some(JsonV::Text(bot)))
            && !incoming(event, bot)->0.is_dm ==> incoming(event, bot)->0.is_mentioned
            == incoming(longer, bot)->0.is_mentioned,
{
    law_mentioned(event, bot);
    law_mentioned(longer, bot);
    let few = mentions_in(event);
    let many = mentions_in(longer);
    if incoming(event, bot)->0.is_mentioned {
        let i = choose|i: int|
            0 <= i < few.len() && open_id_of(#[trigger] few[i]) == Some(JsonV::Text(bot));
        assert(many[before.len() + i] == few[i]);
    }
    if incoming(longer, bot)->0.is_mentioned {
        let i = choose|i: int|
            0 <= i < many.len() && open_id_of(#[trigger] many[i]) == Some(JsonV::Text(bot));
        if i < before.len() {
            assert(many[i] == before[i]);
        } else if i < before.len() + few.len() {
            assert(many[i] == few[i - before.len()]);
        } else {
            assert(many[i] == after[i - before.len() - few.len()]);
        }
    }
}

/// Who sent the message of an event; empty where that is not said.
pub open spec fn sender_in(event: JsonV) -> Seq<char> {
    match event.get("event"@) {
        Some(body) => match body.at3("sender"@, "sender_id"@, "open_id"@) {
            Some(JsonV::Text(id)) => id,
            _ => Seq::empty(),
        },
        None => Seq::empty(),
    }
}

/// An event is taken in if and only if it is of a received message that neither the bot
/// itself nor another bot sent.
pub proof fn law_taken_in(event: JsonV, bot: Seq<char>)
    ensures
        incoming(event, bot) is Some <==> {
            &&& event.at2("header"@, "event_type"@) == Some(JsonV::Text("im.message.receive_v1"@))
            &&& sender_in(event) != bot
            &&& event.at3("event"@, "sender"@, "sender_type"@) != Some(JsonV::Text("bot"@))
        },
        incoming(event, bot) matches Some(m) ==> m.sender == sender_in(event),
{
    reveal_strlit("");
    reveal_strlit("im.message.receive_v1");
    reveal_strlit("user");
    reveal_strlit("bot");
    assert("user"@.len() != "bot"@.len());
    assert(""@.len() != "im.message.receive_v1"@.len());
    assert(""@ =~= Seq::<char>::empty());
}

/// What is taken in of a message is what stands in it: its chat, its kind, its content
/// and its id. It is private unless it says that its chat is of another kind.
pub proof fn law_message_is_as_sent(event: JsonV, bot: Seq<char>)
    requires
        incoming(event, bot) is Some,
    ensures
        ({
            let m = incoming(event, bot)->0;
            let sent = message_in(event);
            &&& sent.get("chat_id"@) matches Some(JsonV::Text(t)) ==> m.chat_id == t
            &&& !(sent.get("chat_id"@) matches Some(JsonV::Text(t))) ==> m.chat_id.len() == 0
            &&& sent.get("content"@) matches Some(JsonV::Text(t)) ==> m.content == t
            &&& !(sent.get("content"@) matches Some(JsonV::Text(t))) ==> m.content.len() == 0
            &&& sent.get("message_id"@) matches Some(JsonV::Text(t)) ==> m.message_id == t
            &&& !(sent.get("message_id"@) matches Some(JsonV::Text(t))) ==> m.message_id.len() == 0
            &&& sent.get("message_type"@) matches Some(JsonV::Text(t)) ==> m.message_type == t
            &&& !(sent.get("message_type"@) matches Some(JsonV::Text(t))) ==> m.message_type
                == "text"@
            &&& sent.get("chat_type"@) matches Some(JsonV::Text(t)) ==> m.is_dm == (t == "p2p"@)
            &&& !(sent.get("chat_type"@) matches Some(JsonV::Text(t))) ==> m.is_dm
        }),
{
    reveal_strlit("");
}

/// An optional text, or another.
fn owned_or(t: Option<&str>, other: &str) -> (res: String)
    ensures
        res@ == or_text(json::opt_str(t), other@),
{
    match t {
        Some(x) => x.to_owned(),
        None => other.to_owned(),
    }
}

/// Whether one of the mentions is of the bot.
fn mentions_bot(mentions: &Vec<Json>, bot: &str) -> (res: bool)
    ensures
        res == names_bot(json::values(mentions@), bot@),
{
    let mut i: usize = 0;
    let ghost views = json::values(mentions@);
    while i < mentions.len()
        invariant
            i <= mentions@.len(),
            views == json::values(mentions@),
            forall|j: int|
                0 <= j < i ==> (#[trigger] views[j]).text2("id"@, "open_id"@) != Some(bot@),
        decreases mentions@.len() - i,
    {
        assert(views[i as int] == mentions@[i as int]@);
        match mentions[i].text2("id", "open_id") {
            Some(id) => {
                if text::same(id, bot) {
                    return true;
                }
            },
            None => {},
        }
        i += 1;
    }
    false
}

/// The message that an event brings; none where it is another event or the
/// bot's own message.
pub fn read_event(event: &Json, bot_open_id: &str) -> (res: Option<IncomingMessage>)
    ensures
        match res {
            Some(m) => incoming(event@, bot_open_id@) == Some(m@),
            None => incoming(event@, bot_open_id@) is None,
        },
        match res {
            Some(m) => m.is_mentioned == (!m.is_dm && exists|i: int|
                0 <= i < mentions_in(event@).len() && open_id_of(
                    #[trigger] mentions_in(event@)[i],
                ) == Some(JsonV::Text(bot_open_id@))),
            None => true,
        },
{
    proof {
        if incoming(event@, bot_open_id@) is Some {
            law_mentioned(event@, bot_open_id@);
        }
    }
    let event_type = owned_or(event.text2("header", "event_type"), "");
    if !text::same(event_type.as_str(), "im.message.receive_v1") {
        return None;
    }
    let null = Json::Null;
    let evt = match event.get("event") {
        Some(c) => c,
        None => &null,
    };
    let sender_id = match evt.at3("sender", "sender_id", "open_id") {
        Some(v) => v.as_str(),
        None => None,
    };
    let sender = owned_or(sender_id, "");
    let sender_type = owned_or(evt.text2("sender", "sender_type"), "user");
    if text::same(sender.as_str(), bot_open_id) || text::same(sender_type.as_str(), "bot") {
        return None;
    }
    let message = match evt.get("message") {
        Some(c) => c,
        None => &null,
    };
    let chat_type = owned_or(message.get_str("chat_type"), "p2p");
    let is_dm = text::same(chat_type.as_str(), "p2p");
    let is_mentioned = if is_dm {
        false
    } else {
        match message.get_array("mentions") {
            Some(mentions) => mentions_bot(mentions, bot_open_id),
            None => false,
        }
    };
    Some(
        IncomingMessage {
            chat_id: owned_or(message.get_str("chat_id"), ""),
            sender,
            message_type: owned_or(message.get_str("message_type"), "text"),
            content: owned_or(message.get_str("content"), ""),
            message_id: owned_or(message.get_str("message_id"), ""),
            is_dm,
            is_mentioned,
        },
    )
}

/// A file that a message brings.
pub struct FileRequest {
    pub file_key: String,
    pub file_name: String,
    /// The extension of the file, in lower case.
    pub ext: String,
}

/// The key and the name of the file that a content, where it is JSON, speaks of.
pub open spec fn file_in(content: Option<JsonV>) -> Option<(Seq<char>, Seq<char>)> {
    match content {
        None => None,
        Some(v) => if v.text_or_empty("file_key"@).len() == 0 {
            None
        } else {
            Some((v.text_or_empty("file_key"@), or_text(v.text("file_name"@), "unknown"@)))
        },
    }
}

/// The file that a content, where it is JSON, speaks of.
pub fn read_file_request(content: &Option<Json>) -> (res: Option<FileRequest>)
    ensures
        match res {
            Some(f) => file_in(
                match content {
                    Some(v) => Some(v@),
                    None => None,
                },
            ) == Some((f.file_key@, f.file_name@)) && f.ext@ == text::lowercase(
                paths::extension_or_empty(f.file_name@),
            ),
            None => file_in(
                match content {
                    Some(v) => Some(v@),
                    None => None,
                },
            ) is None,
        },
{
    match content {
        None => None,
        Some(v) => {
            let file_key = v.get_str_or_empty("file_key");
            if file_key.as_str().is_empty() {
                return None;
            }
            let file_name = owned_or(v.get_str("file_name"), "unknown");
            let ext = paths::extension_of(file_name.as_str()).to_lowercase();
            Some(FileRequest { file_key, file_name, ext })
        },
    }
}

/// What a message asks for.
pub enum MessageRoute {
    /// Nothing.
    Drop,
    /// The file to download.
    File(FileRequest),
    /// The text, and the images to download.
    Content(String, Vec<String>),
}

/// What a message with this content asks for.
pub open spec fn route_is(m: IncomingV, content: Option<JsonV>, route: MessageRoute) -> bool {
    if m.chat_id.len() == 0 || m.content.len() == 0 {
        route is Drop
    } else if m.message_type == "file"@ {
        match file_in(content) {
            Some((key, name)) => route matches MessageRoute::File(f) && f.file_key@ == key
                && f.file_name@ == name && f.ext@ == text::lowercase(
                paths::extension_or_empty(name),
            ),
            None => route is Drop,
        }
    } else {
        route matches MessageRoute::Content(t, keys) && t@ == feishu::content_text(
            content,
            m.content,
            m.message_type,
        ) && text::strs(keys@) == feishu::image_keys(content, m.message_type)
    }
}

impl IncomingMessage {
    /// What this message asks for, given what its content holds as JSON.
    pub fn route_content(&self, content: &Option<Json>) -> (res: MessageRoute)
        ensures
            route_is(
                self@,
                match content {
                    Some(v) => Some(v@),
                    None => None,
                },
                res,
            ),
    {
        if self.chat_id.as_str().is_empty() || self.content.as_str().is_empty() {
            return MessageRoute::Drop;
        }
        if text::same(self.message_type.as_str(), "file") {
            return match read_file_request(content) {
                Some(f) => MessageRoute::File(f),
                None => MessageRoute::Drop,
            };
        }
        let plain = feishu::read_content(
            content,
            self.content.as_str(),
            self.message_type.as_str(),
        );
        let keys = feishu::read_image_keys(content, self.message_type.as_str());
        MessageRoute::Content(plain, keys)
    }

    /// What this message asks for.
    pub fn route(&self) -> (res: MessageRoute)
        ensures
            route_is(self@, json::value_in_text(self.content@), res),
    {
        let content = json::parse(self.content.as_str());
        self.route_content(&content)
    }
}

/// The prompt that a message amounts to: its text, or a request to look at its
/// image where there is no text besides. None where nothing is left to say, or
/// the chat is not listened to.
pub open spec fn prompt_for(
    message_type: Seq<char>,
    plain: Seq<char>,
    has_image: bool,
    allowed: bool,
) -> Option<Seq<char>> {
    let trimmed = text::trim(plain);
    let only_image = has_image && (trimmed.len() == 0 || (message_type == "image"@ && trimmed.len()
        > 0 && trimmed[0] == '{'));
    if only_image {
        if allowed {
            Some("Please analyze this image."@)
        } else {
            None
        }
    } else if trimmed.len() == 0 || !allowed {
        None
    } else {
        Some(plain)
    }
}

/// The prompt that a message amounts to.
pub fn choose_prompt(message_type: &str, plain: &str, has_image: bool, allowed: bool) -> (res:
    Option<String>)
    ensures
        text::opt(res) == prompt_for(message_type@, plain@, has_image, allowed),
{
    proof {
        reveal_strlit("Please analyze this image.");
        reveal_strlit("{");
    }
    let trimmed = text::trimmed(plain);
    let empty = trimmed.as_str().is_empty();
    let chars = text::to_chars(trimmed.as_str());
    let braced = chars.len() > 0 && chars[0] == '{';
    if has_image && (empty || (text::same(message_type, "image") && braced)) {
        if allowed {
            Some(text::owned("Please analyze this image."))
        } else {
            None
        }
    } else if empty || !allowed {
        None
    } else {
        Some(plain.to_owned())
    }
}

/// What an event leads to.
pub enum EventStep {
    /// Nothing.
    Drop,
    /// The file to download and to show.
    File(IncomingMessage, FileRequest),
    /// The prompt to answer, and the images to download for it.
    Prompt(IncomingMessage, String, Vec<String>),
}

/// Whether a message is a repetition, given whether the store knows it.
pub open spec fn is_repeated(
    s: Seq<(Seq<char>, u64)>,
    id: Seq<char>,
    now: u64,
    in_store: bool,
) -> bool {
    match lookup_in(live(s, now), id) {
        Lookup::Untracked => false,
        Lookup::Seen => true,
        Lookup::AskStore => in_store,
    }
}

/// What a message that is no repetition leads to, given what its content holds as
/// JSON and whether its chat is listened to.
pub open spec fn message_step_is(
    m: IncomingV,
    content: Option<JsonV>,
    allowed: bool,
    step: EventStep,
) -> bool {
    if m.chat_id.len() == 0 || m.content.len() == 0 {
        step is Drop
    } else if m.message_type == "file"@ {
        match file_in(content) {
            Some((key, name)) => step matches EventStep::File(got, f) && got@ == m && f.file_key@
                == key && f.file_name@ == name && f.ext@ == text::lowercase(
                paths::extension_or_empty(name),
            ),
            None => step is Drop,
        }
    } else {
        let keys = feishu::image_keys(content, m.message_type);
        let plain = feishu::content_text(content, m.content, m.message_type);
        match prompt_for(m.message_type, plain, keys.len() > 0, allowed) {
            Some(prompt) => step matches EventStep::Prompt(got, p, k) && got@ == m && p@ == prompt
                && text::strs(k@) == keys,
            None => step is Drop,
        }
    }
}

impl IncomingMessage {
    /// What this message leads to, given what its content holds as JSON.
    pub fn step_with(self, content: &Option<Json>, allowed: bool) -> (res: EventStep)
        ensures
            message_step_is(
                self@,
                match content {
                    Some(v) => Some(v@),
                    None => None,
                },
                allowed,
                res,
            ),
    {
        match self.route_content(content) {
            MessageRoute::Drop => EventStep::Drop,
            MessageRoute::File(file) => EventStep::File(self, file),
            MessageRoute::Content(plain, keys) => {
                let has_image = keys.len() > 0;
                let prompt = choose_prompt(
                    self.message_type.as_str(),
                    plain.as_str(),
                    has_image,
                    allowed,
                );
                match prompt {
                    Some(p) => EventStep::Prompt(self, p, keys),
                    None => EventStep::Drop,
                }
            },
        }
    }
}

/// What an event leads to. The cache remembers its message; `in_store` says whether
/// the store knows the message, and counts only where the cache does not.
///
/// Nothing comes of another event, of the bot's own message, of a repetition, of a
/// message without a chat or a content, nor of one that has nothing to say or comes
/// from a chat that is not listened to.
pub fn on_event(
    event: &Json,
    bot_open_id: &str,
    config: &feishu::FeishuChannelConfig,
    cache: &mut DedupCache,
    now: u64,
    in_store: bool,
) -> (res: EventStep)
    ensures
        match incoming(event@, bot_open_id@) {
            None => res is Drop && final(cache)@ == old(cache)@,
            Some(m) => {
                &&& final(cache)@ == entries_after(old(cache)@, m.message_id, now)
                &&& if is_repeated(old(cache)@, m.message_id, now, in_store) {
                    res is Drop
                } else {
                    message_step_is(
                        m,
                        json::value_in_text(m.content),
                        feishu::chat_allowed(text::strs(config.allowed_chats@), m.chat_id),
                        res,
                    )
                }
            },
        },
        match res {
            EventStep::Drop => true,
            EventStep::File(got, _) | EventStep::Prompt(got, _, _) => got.is_mentioned == (
            !got.is_dm && exists|i: int|
                0 <= i < mentions_in(event@).len() && open_id_of(
                    #[trigger] mentions_in(event@)[i],
                ) == Some(JsonV::Text(bot_open_id@))),
        },
{
    let message = match read_event(event, bot_open_id) {
        Some(message) => message,
        None => {
            return EventStep::Drop;
        },
    };
    if cache.is_duplicate_message(message.message_id.as_str(), now, in_store) {
        return EventStep::Drop;
    }
    let content = json::parse(message.content.as_str());
    let allowed = config.allows_chat(message.chat_id.as_str());
    message.step_with(&content, allowed)
}

/// Of two deliveries of an event within the time to remember, the second leads to
/// nothing, whatever the store says.
pub proof fn law_second_delivery_is_dropped(
    s: Seq<(Seq<char>, u64)>,
    m: IncomingV,
    first: u64,
    again: u64,
    in_store: bool,
)
    requires
        m.message_id.len() > 0,
        first <= again,
        again - first < DEDUP_TTL_MS,
        !remembers(live(s, first), m.message_id),
    ensures
        is_repeated(entries_after(s, m.message_id, first), m.message_id, again, in_store),
{
    law_redelivery_is_duplicate(s, m.message_id, first, again);
}

/// The image that goes to the model: the first of a message, where it could be
/// downloaded.
pub fn image_for_model(images: &Vec<Option<Vec<u8>>>) -> (res: Option<&Vec<u8>>)
    ensures
        match res {
            Some(image) => images@.len() > 0 && images@[0] == Some(*image),
            None => images@.len() == 0 || images@[0] is None,
        },
{
    if images.len() == 0 {
        return None;
    }
    match &images[0] {
        Some(image) => Some(image),
        None => None,
    }
}

/// An image as a model takes it: in base 64.
pub fn encode_image(data: &[u8]) -> (res: String)
    ensures
        res@ == codec::base64(data@),
{
    codec::base64_encode(data)
}

/// How a downloaded file is shown to the model.
pub enum FileRoute {
    /// As an image, with this text.
    Image(String),
    /// As text.
    Inline(String),
    /// By its name and its size only; the size in megabytes, else in kilobytes.
    Marker(bool),
}

/// How a downloaded file is shown to the model: small images as images; small
/// files that are named as text and look like it as text; others by name.
pub open spec fn file_route_is(
    name: Seq<char>,
    ext: Seq<char>,
    data: Seq<u8>,
    route: FileRoute,
) -> bool {
    let lower = text::lowercase(ext);
    if feishu::names_image(lower) && data.len() <= feishu::FILE_MAX_IMAGE_BYTES {
        route matches FileRoute::Image(t) && t@ == "Please analyze this image file: "@ + name
    } else if feishu::names_text(lower) && feishu::textual(data) && data.len()
        <= feishu::FILE_MAX_INLINE_BYTES {
        route matches FileRoute::Inline(t) && t@ == "The user sent a file `"@ + name + "` ("@
            + text::digits(data.len()) + " bytes). Here is its content:\n\n```"@ + ext + "\n"@
            + text::lossy(data) + "\n```"@
    } else {
        route matches FileRoute::Marker(mega) && mega == (data.len() >= 1_048_576)
    }
}

/// How a downloaded file is shown to the model.
pub fn route_file(name: &str, ext: &str, data: &[u8]) -> (res: FileRoute)
    ensures
        file_route_is(name@, ext@, data@, res),
{
    if feishu::is_image_extension(ext) && data.len() <= feishu::FILE_MAX_IMAGE_BYTES {
        return FileRoute::Image(text::cat("Please analyze this image file: ", name));
    }
    let is_text = feishu::is_text_extension(ext) && feishu::looks_like_text(data);
    if is_text && data.len() <= feishu::FILE_MAX_INLINE_BYTES {
        let size = text::decimal(data.len() as u64);
        let content = text::decode_lossy(data);
        let mut out = text::cat5(
            "The user sent a file `",
            name,
            "` (",
            size.as_str(),
            " bytes). Here is its content:\n\n```",
        );
        out.append(ext);
        out.append("\n");
        out.append(content.as_str());
        out.append("\n```");
        return FileRoute::Inline(out);
    }
    FileRoute::Marker(data.len() >= 1_048_576)
}

/// The text that stands for a file that is not shown, given its size in words.
pub fn file_marker(name: &str, size_human: &str, ext: &str) -> (res: String)
    ensures
        res@ == "The user sent a file that cannot be displayed inline.\n[FILE: "@ + name@
            + " | size="@ + size_human@ + " | ext="@ + ext@ + "]"@,
{
    let mut out = text::cat5(
        "The user sent a file that cannot be displayed inline.\n[FILE: ",
        name,
        " | size=",
        size_human,
        " | ext=",
    );
    out.append(ext);
    out.append("]");
    out
}

/// Where a resource of a message is downloaded from.
pub fn resource_url(base_url: &str, message_id: &str, file_key: &str, res_type: &str) -> (res:
    String)
    ensures
        res@ == base_url@ + "/open-apis/im/v1/messages/"@ + message_id@ + "/resources/"@ + file_key@
            + "?type="@ + res_type@,
{
    let mut out = text::cat5(
        base_url,
        "/open-apis/im/v1/messages/",
        message_id,
        "/resources/",
        file_key,
    );
    out.append("?type=");
    out.append(res_type);
    out
}

// ---------------------------------------------------------------------------
// The webhook
// ---------------------------------------------------------------------------

/// What to do with a call of the webhook.
pub enum WebhookStep {
    /// Answer with this; nothing more.
    Answer(Json),
    /// Answer with this, and handle the event.
    Handle(Json),
}

/// Whether a challenge may be answered: where a token is configured, the call
/// must bring it.
pub open spec fn token_accepted(body: JsonV, expected: Option<Seq<char>>) -> bool {
    match expected {
        Some(e) => e.len() == 0 || body.text_or_empty("token"@) == e,
        None => true,
    }
}

/// What to do with a call of the webhook.
pub open spec fn webhook_step_is(
    body: JsonV,
    expected: Option<Seq<char>>,
    step: WebhookStep,
) -> bool {
    match body.text("challenge"@) {
        Some(challenge) => step matches WebhookStep::Answer(a) && a@ == if token_accepted(
            body,
            expected,
        ) {
            json::obj1("challenge"@, json::jstr(challenge))
        } else {
            json::obj1("error"@, json::jstr("invalid token"@))
        },
        None => step matches WebhookStep::Handle(a) && a@ == json::obj1("code"@, json::num(0)),
    }
}

/// What to do with a call of the webhook, given the configured token.
pub fn on_webhook(body: &Json, verification_token: &Option<String>) -> (res: WebhookStep)
    ensures
        webhook_step_is(body@, text::opt(*verification_token), res),
{
    match body.get_str("challenge") {
        Some(challenge) => {
            let accepted = match verification_token {
                Some(expected) => {
                    let token = body.get_str_or_empty("token");
                    expected.as_str().is_empty() || text::same(token.as_str(), expected.as_str())
                },
                None => true,
            };
            if accepted {
                WebhookStep::Answer(Fields::new().text("challenge", challenge).object())
            } else {
                WebhookStep::Answer(Fields::new().text("error", "invalid token").object())
            }
        },
        None => WebhookStep::Handle(Fields::new().with("code", json::number(0)).object()),
    }
}

// ---------------------------------------------------------------------------
// What holds of events
// ---------------------------------------------------------------------------

/// What is still remembered are all the entries of the last six hours, in their order.
pub proof fn law_six_hours_are_remembered(s: Seq<(Seq<char>, u64)>, now: u64)
    ensures
        live(s, now) == s.filter(|e: (Seq<char>, u64)| now - e.1 < 6 * 60 * 60 * 1000),
    decreases s.len(),
{
    reveal(Seq::filter);
    if s.len() > 0 {
        law_six_hours_are_remembered(s.drop_last(), now);
    }
}

/// A message is a repetition if and only if it has an id and was looked at in the last
/// six hours, or else the store knows it. What is remembered of other messages does not
/// count, nor do they fall out when one is added.
pub proof fn law_repetitions(
    s: Seq<(Seq<char>, u64)>,
    id: Seq<char>,
    now: u64,
    in_store: bool,
)
    ensures
        is_repeated(s, id, now, in_store) <==> id.len() > 0 && (in_store || exists|i: int|
            0 <= i < s.len() && (#[trigger] s[i]).0 == id && now - s[i].1 < 6 * 60 * 60 * 1000),
        forall|i: int|
            0 <= i < s.len() && now - (#[trigger] s[i]).1 < 6 * 60 * 60 * 1000
                ==> entries_after(s, id, now).contains(s[i]),
        id.len() > 0 ==> exists|i: int|
            0 <= i < entries_after(s, id, now).len() && (#[trigger] entries_after(
                s,
                id,
                now,
            )[i]).0 == id,
{
    law_six_hours_are_remembered(s, now);
    let recent = |e: (Seq<char>, u64)| now - e.1 < 6 * 60 * 60 * 1000;
    let kept = live(s, now);
    let after = entries_after(s, id, now);
    assert forall|i: int| 0 <= i < s.len() && recent(s[i]) implies kept.contains(
        #[trigger] s[i],
    ) by {
        s.lemma_filter_contains(recent, i);
    }
    assert forall|i: int| 0 <= i < kept.len() implies s.contains(#[trigger] kept[i]) && recent(
        kept[i],
    ) by {
        s.lemma_filter_pred(recent, i);
        s.lemma_filter_contains_rev(recent, kept[i]);
    }
    assert forall|i: int| 0 <= i < s.len() && now - (#[trigger] s[i]).1 < 6 * 60 * 60
        * 1000 implies after.contains(s[i]) by {
        assert(recent(s[i]));
        if lookup_in(kept, id) == Lookup::AskStore {
            let k = choose|k: int| 0 <= k < kept.len() && kept[k] == s[i];
            assert(after[k] == s[i]);
        } else if lookup_in(kept, id) == Lookup::Seen {
            assert(kept.contains(s[i]));
        } else {
            assert(after.contains(s[i]));
        }
    }
    if remembers(kept, id) {
        let k = choose|k: int| 0 <= k < kept.len() && (#[trigger] kept[k]).0 == id;
        assert(s.contains(kept[k]) && recent(kept[k]));
        let i = choose|i: int| 0 <= i < s.len() && s[i] == kept[k];
        assert(s[i].0 == id && now - s[i].1 < 6 * 60 * 60 * 1000);
        if id.len() > 0 {
            assert(after[k].0 == id);
        }
    } else {
        assert forall|i: int| 0 <= i < s.len() && now - (#[trigger] s[i]).1 < 6 * 60 * 60
            * 1000 implies s[i].0 != id by {
            assert(recent(s[i]));
            let k = choose|k: int| 0 <= k < kept.len() && kept[k] == s[i];
            assert(kept[k].0 != id);
        }
        if id.len() > 0 {
            assert(after[after.len() - 1].0 == id);
        }
    }
}

/// Whether a text holds anything but white space.
pub open spec fn says_something(t: Seq<char>) -> bool {
    exists|i: int| 0 <= i < t.len() && !text::is_white(#[trigger] t[i])
}

/// From a chat that is not listened to no prompt comes. From one that is, the prompt is
/// the text as it stands wherever it says something and no image is with it; where
/// nothing is said there is no prompt without an image. Beside images a text is the
/// prompt unless it says nothing, or is what describes the one image of a message.
pub proof fn law_prompt(kind: Seq<char>, plain: Seq<char>, has_image: bool)
    ensures
        prompt_for(kind, plain, has_image, false) is None,
        says_something(plain) && !has_image ==> prompt_for(kind, plain, has_image, true) == Some(
            plain,
        ),
        !says_something(plain) && !has_image ==> prompt_for(kind, plain, has_image, true) is None,
        !says_something(plain) && has_image ==> prompt_for(kind, plain, has_image, true) == Some(
            "Please analyze this image."@,
        ),
        says_something(plain) && has_image && kind != "image"@ ==> prompt_for(
            kind,
            plain,
            has_image,
            true,
        ) == Some(plain),
        says_something(plain) && has_image && kind == "image"@ ==> exists|i: int|
            0 <= i < plain.len() && !text::is_white(#[trigger] plain[i]) && (forall|j: int|
                0 <= j < i ==> text::is_white(#[trigger] plain[j])) && prompt_for(
                kind,
                plain,
                has_image,
                true,
            ) == Some(
                if plain[i] == '{' {
                    "Please analyze this image."@
                } else {
                    plain
                },
            ),
{
    let at = text::law_trim(plain);
    let trimmed = text::trim(plain);
    if at.0 < at.1 {
        assert(!text::is_white(plain[at.0]));
        assert(trimmed[0] == plain[at.0]);
    } else {
        assert forall|i: int| 0 <= i < plain.len() implies text::is_white(#[trigger] plain[i]) by {}
    }
}

/// A message without a chat or without a content leads to nothing; nor does any message
/// but a file from a chat that is not listened to. What a message leads to is handed on
/// with the message as it is, and a prompt with the keys of all its images.
pub proof fn law_message_step(
    m: IncomingV,
    content: Option<JsonV>,
    allowed: bool,
    step: EventStep,
)
    requires
        message_step_is(m, content, allowed, step),
    ensures
        m.chat_id.len() == 0 || m.content.len() == 0 ==> step is Drop,
        !allowed ==> !(step is Prompt),
        match step {
            EventStep::Drop => true,
            EventStep::File(got, file) => {
                &&& got@ == m
                &&& m.message_type == "file"@
                &&& content matches Some(v) && v.get("file_key"@) == Some(
                    JsonV::Text(file.file_key@),
                )
                &&& file.file_key@.len() > 0
                &&& (content->0.get("file_name"@) matches Some(JsonV::Text(name)) ==> file.file_name@
                    == name)
            },
            EventStep::Prompt(got, prompt, keys) => {
                &&& got@ == m
                &&& m.message_type != "file"@
                &&& text::strs(keys@) == feishu::image_keys(content, m.message_type)
                &&& keys@.len() == 0 ==> prompt@ == feishu::content_text(
                    content,
                    m.content,
                    m.message_type,
                )
            },
        },
        m.chat_id.len() > 0 && m.content.len() > 0 && m.message_type == "file"@ && (
        content matches Some(v) && v.get("file_key"@) matches Some(JsonV::Text(key)) && key.len()
            > 0) ==> step is File,
        m.chat_id.len() > 0 && m.content.len() > 0 && m.message_type != "file"@ && allowed
            && says_something(feishu::content_text(content, m.content, m.message_type))
            ==> step is Prompt,
        m.chat_id.len() > 0 && m.content.len() > 0 && m.message_type != "file"@ && allowed
            && feishu::image_keys(content, m.message_type).len() > 0 ==> step is Prompt,
{
    let plain = feishu::content_text(content, m.content, m.message_type);
    let keys = feishu::image_keys(content, m.message_type);
    law_prompt(m.message_type, plain, keys.len() > 0);
    reveal_strlit("");
}

/// A frame carries an event if and only if its method is that of data and the first of
/// its headers with the key `type` says so, wherever that header stands. What carries
/// an event is acknowledged; what does not is ignored.
pub proof fn law_events_are_acknowledged(f: pb::FrameV, event: Option<JsonV>, step: FrameStep)
    requires
        frame_step_is(f, event, step),
    ensures
        step is Ignore <==> !(f.method == 1 && exists|i: int|
            0 <= i < f.headers.len() && (#[trigger] f.headers[i]).key == "type"@
                && f.headers[i].value == "event"@ && forall|j: int|
                0 <= j < i ==> (#[trigger] f.headers[j]).key != "type"@),
        !(step is Malformed),
        step is Handle ==> event == Some(step->Handle_1@) && step->Handle_0@ == pb::frame_bytes(
            ack_view(f),
        ),
        step is Acknowledge ==> event is None && step->Acknowledge_0@ == pb::frame_bytes(
            ack_view(f),
        ),
        ack_view(f).seq_id == f.seq_id,
        ack_view(f).log_id == f.log_id,
        ack_view(f).service == f.service,
        ack_view(f).method == f.method,
        ack_view(f).headers == f.headers,
        ack_view(f).log_id_new == f.log_id_new,
        ack_view(f).payload_encoding.len() == 0,
        ack_view(f).payload_type.len() == 0,
        exists|status: JsonV|
            ack_view(f).payload == encode_utf8(#[trigger] json::text_of(status)) && status.count(
                "StatusCode"@,
            ) == Some(0u64),
{
    lemma_first_header(f, "type"@, 0);
    let status = json::obj1("StatusCode"@, json::num(0));
    match status {
        JsonV::Object(m) => {
            assert(m[0].0 == "StatusCode"@);
        },
        _ => {},
    }
    assert(status.count("StatusCode"@) == Some(0u64));
    assert(ack_view(f).payload == encode_utf8(json::text_of(status)));
}

proof fn lemma_first_header(f: pb::FrameV, key: Seq<char>, i: int)
    requires
        0 <= i,
    ensures
        match f.header_from(key, i) {
            Some(x) => exists|k: int|
                i <= k < f.headers.len() && (#[trigger] f.headers[k]).key == key
                    && f.headers[k].value == x && forall|j: int|
                    i <= j < k ==> (#[trigger] f.headers[j]).key != key,
            None => forall|k: int| i <= k < f.headers.len() ==> (#[trigger] f.headers[k]).key
                != key,
        },
    decreases f.headers.len() - i,
{
    if i < f.headers.len() && f.headers[i].key != key {
        lemma_first_header(f, key, i + 1);
    } else if i < f.headers.len() {
        assert(f.headers[i].key == key);
    }
}

/// A ping is a frame of control that says so in a header, for the service that it is
/// asked for.
pub proof fn law_ping(service: i32)
    ensures
        ping_view(service).service == service,
        ping_view(service).method == 0,
        ping_view(service).header_from("type"@, 0) == Some("ping"@),
        ping_view(service).payload.len() == 0,
{
    assert(ping_view(service).headers[0].key == "type"@);
}

/// A call with a challenge is answered with just this challenge, where no token is
/// configured or the call brings the configured one; with another token it is refused.
/// Any other call is accepted and handled.
pub proof fn law_webhook(body: JsonV, expected: Option<Seq<char>>, step: WebhookStep)
    requires
        webhook_step_is(body, expected, step),
    ensures
        step is Handle <==> !(body.get("challenge"@) matches Some(JsonV::Text(_))),
        step is Handle ==> step->Handle_0@.get("code"@) == Some(json::num(0)),
        step is Answer && (expected is None || expected->0.len() == 0 || body.get("token"@) == Some(
            JsonV::Text(expected->0),
        )) ==> step->Answer_0@.get("challenge"@) == body.get("challenge"@),
        step is Answer && expected is Some && expected->0.len() > 0 && body.get("token"@) != Some(
            JsonV::Text(expected->0),
        ) ==> step->Answer_0@.get("challenge"@) is None && step->Answer_0@.get("error"@) == Some(
            JsonV::Text("invalid token"@),
        ),
{
    reveal_strlit("challenge");
    reveal_strlit("error");
    assert("challenge"@.len() != "error"@.len());
    match step {
        WebhookStep::Handle(a) => {
            match a@ {
                JsonV::Object(m) => {
                    assert(m[0].0 == "code"@);
                },
                _ => {},
            }
        },
        WebhookStep::Answer(a) => {
            match a@ {
                JsonV::Object(m) => {
                    assert(m.len() == 1);
                    reveal_with_fuel(json::member_from, 2);
                    assert(m[0].0 == "challenge"@ || m[0].0 == "error"@);
                },
                _ => {},
            }
        },
    }
}

/// A downloaded file is shown as an image where it is named as one and holds at most
/// five megabytes; as text where it is named as text, holds at most half a megabyte and
/// has no zero byte among the first eight kilobytes, and then with all that it holds;
/// else by its name, in megabytes from one megabyte on.
pub proof fn law_file_is_shown(
    name: Seq<char>,
    ext: Seq<char>,
    data: Seq<u8>,
    route: FileRoute,
)
    requires
        file_route_is(name, ext, data, route),
    ensures
        route is Image <==> feishu::names_image(text::lowercase(ext)) && data.len() <= 5 * 1024
            * 1024,
        route is Inline <==> !(route is Image) && feishu::names_text(text::lowercase(ext))
            && data.len() <= 512 * 1024 && forall|i: int|
            0 <= i < data.len() && i < 8 * 1024 ==> (#[trigger] data[i]) != 0,
        match route {
            FileRoute::Image(t) => name.is_suffix_of(t@),
            FileRoute::Inline(t) => text::contains(t@, name) && text::contains(
                t@,
                text::digits(data.len()),
            ) && text::contains(t@, text::lossy(data)) && text::contains(t@, ext),
            FileRoute::Marker(mega) => mega <==> data.len() >= 1024 * 1024,
        },
{
    match route {
        FileRoute::Image(t) => {
            let front = "Please analyze this image file: "@;
            assert(t@.subrange(front.len() as int, t@.len() as int) =~= name);
        },
        FileRoute::Inline(t) => {
            let a = "The user sent a file `"@;
            let b = "` ("@;
            let size = text::digits(data.len());
            let c = " bytes). Here is its content:\n\n```"@;
            let held = text::lossy(data);
            let end = "\n```"@;
            assert(t@ =~= a + name + (b + size + c + ext + "\n"@ + held + end));
            text::lemma_middle_is_contained(a, name, b + size + c + ext + "\n"@ + held + end);
            assert(t@ =~= (a + name + b) + size + (c + ext + "\n"@ + held + end));
            text::lemma_middle_is_contained(a + name + b, size, c + ext + "\n"@ + held + end);
            assert(t@ =~= (a + name + b + size + c) + ext + ("\n"@ + held + end));
            text::lemma_middle_is_contained(a + name + b + size + c, ext, "\n"@ + held + end);
            text::lemma_middle_is_contained(a + name + b + size + c + ext + "\n"@, held, end);
        },
        FileRoute::Marker(_) => {},
    }
}

} // verus!
