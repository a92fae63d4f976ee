//! One message and what follows from it: the conversation between a chat, the
//! store and the agent, as a machine of states, events and actions.

use crate::stamps;
use crate::text;
use vstd::prelude::*;

verus! {

broadcast use vstd::string::group_string_axioms;

/// The channel that a message came over.
#[derive(Clone, Copy, Debug, PartialEq, Eq)]
pub enum Channel {
    Feishu,
    Weixin,
}

/// Whether a chat is between two, or of a group.
#[derive(Clone, Copy, Debug, PartialEq, Eq, Structural)]
pub enum ConversationKind {
    Private,
    Group,
}

/// The types of the chats of a channel, and the kind of each.
pub open spec fn chat_types(channel: Channel) -> Seq<(Seq<char>, ConversationKind)> {
    match channel {
        Channel::Feishu => Seq::empty().push(("feishu_group"@, ConversationKind::Group)).push(
            ("feishu_dm"@, ConversationKind::Private),
        ),
        Channel::Weixin => Seq::empty().push(("weixin_dm"@, ConversationKind::Private)),
    }
}

impl Channel {
    /// The types of the chats of the channel, and the kind of each.
    pub fn chat_type_routes(&self) -> (res: Vec<(String, ConversationKind)>)
        ensures
            res@.len() == chat_types(*self).len(),
            forall|i: int|
                0 <= i < res@.len() ==> (#[trigger] res@[i]).0@ == chat_types(*self)[i].0
                    && res@[i].1 == chat_types(*self)[i].1,
    {
        let mut out: Vec<(String, ConversationKind)> = Vec::new();
        match self {
            Channel::Feishu => {
                out.push((text::owned("feishu_group"), ConversationKind::Group));
                out.push((text::owned("feishu_dm"), ConversationKind::Private));
            },
            Channel::Weixin => {
                out.push((text::owned("weixin_dm"), ConversationKind::Private));
            },
        }
        out
    }
}

/// A message to be answered.
pub struct Turn {
    pub channel: Channel,
    pub external_chat_id: String,
    pub user: String,
    pub text: String,
    pub is_dm: bool,
    pub is_mentioned: bool,
    pub message_id: String,
}

/// The mathematical form of a `Turn`.
pub struct TurnV {
    pub channel: Channel,
    pub external_chat_id: Seq<char>,
    pub user: Seq<char>,
    pub text: Seq<char>,
    pub is_dm: bool,
    pub is_mentioned: bool,
    pub message_id: Seq<char>,
}

impl Turn {
    pub open spec fn view(self) -> TurnV {
        TurnV {
            channel: self.channel,
            external_chat_id: self.external_chat_id@,
            user: self.user@,
            text: self.text@,
            is_dm: self.is_dm,
            is_mentioned: self.is_mentioned,
            message_id: self.message_id@,
        }
    }
}

/// How far the answer to a message has come. `S` is the type of its texts.
pub enum TurnState<S> {
    Start,
    /// The chat is being looked up.
    Resolving,
    /// The message is being stored.
    Storing(i64),
    /// An access token is being asked for.
    Authorizing(i64),
    Clearing,
    ListingSkills,
    LoadingSession(i64),
    /// A session of so many messages is being archived.
    Archiving(u64),
    QueryingUsage,
    RunningAgent(i64),
    /// The reply is being sent, and will be stored.
    Replying(i64, S),
    /// The last action is under way.
    Closing,
    Done,
}

/// What came of the last action.
pub enum TurnEvent<S> {
    Started,
    /// The chat has this number; zero where it could not be found.
    ChatResolved(i64),
    Stored,
    TokenReady,
    TokenFailed,
    Cleared,
    SkillsListed(S),
    /// The session holds so many messages; none where there is no session.
    SessionLoaded(u64),
    Archived,
    UsageReported(S),
    UsageFailed(S),
    /// The agent's answer, and whether it sent a message by itself.
    AgentAnswered(S, bool),
    AgentFailed(S),
    Sent,
}

/// What to do next.
pub enum TurnAction<S> {
    /// Look the chat up under its title and type, or create it.
    ResolveChat(S, S),
    /// Store the message in the chat of this number.
    StoreIncoming(i64),
    GetToken,
    ClearContext(i64),
    ListSkills,
    LoadSession(i64),
    Archive(i64),
    QueryUsage(i64),
    /// Run the agent on the chat of this number, of this kind.
    RunAgent(i64, S),
    Send(S),
    /// Store the reply in the chat of this number.
    StoreReply(i64, S),
    Finish,
}

impl TurnState<String> {
    pub open spec fn view(self) -> TurnState<Seq<char>> {
        match self {
            TurnState::Start => TurnState::Start,
            TurnState::Resolving => TurnState::Resolving,
            TurnState::Storing(c) => TurnState::Storing(c),
            TurnState::Authorizing(c) => TurnState::Authorizing(c),
            TurnState::Clearing => TurnState::Clearing,
            TurnState::ListingSkills => TurnState::ListingSkills,
            TurnState::LoadingSession(c) => TurnState::LoadingSession(c),
            TurnState::Archiving(n) => TurnState::Archiving(n),
            TurnState::QueryingUsage => TurnState::QueryingUsage,
            TurnState::RunningAgent(c) => TurnState::RunningAgent(c),
            TurnState::Replying(c, s) => TurnState::Replying(c, s@),
            TurnState::Closing => TurnState::Closing,
            TurnState::Done => TurnState::Done,
        }
    }
}

impl TurnEvent<String> {
    pub open spec fn view(self) -> TurnEvent<Seq<char>> {
        match self {
            TurnEvent::Started => TurnEvent::Started,
            TurnEvent::ChatResolved(c) => TurnEvent::ChatResolved(c),
            TurnEvent::Stored => TurnEvent::Stored,
            TurnEvent::TokenReady => TurnEvent::TokenReady,
            TurnEvent::TokenFailed => TurnEvent::TokenFailed,
            TurnEvent::Cleared => TurnEvent::Cleared,
            TurnEvent::SkillsListed(s) => TurnEvent::SkillsListed(s@),
            TurnEvent::SessionLoaded(n) => TurnEvent::SessionLoaded(n),
            TurnEvent::Archived => TurnEvent::Archived,
            TurnEvent::UsageReported(s) => TurnEvent::UsageReported(s@),
            TurnEvent::UsageFailed(s) => TurnEvent::UsageFailed(s@),
            TurnEvent::AgentAnswered(s, b) => TurnEvent::AgentAnswered(s@, b),
            TurnEvent::AgentFailed(s) => TurnEvent::AgentFailed(s@),
            TurnEvent::Sent => TurnEvent::Sent,
        }
    }
}

impl TurnAction<String> {
    pub open spec fn view(self) -> TurnAction<Seq<char>> {
        match self {
            TurnAction::ResolveChat(a, b) => TurnAction::ResolveChat(a@, b@),
            TurnAction::StoreIncoming(c) => TurnAction::StoreIncoming(c),
            TurnAction::GetToken => TurnAction::GetToken,
            TurnAction::ClearContext(c) => TurnAction::ClearContext(c),
            TurnAction::ListSkills => TurnAction::ListSkills,
            TurnAction::LoadSession(c) => TurnAction::LoadSession(c),
            TurnAction::Archive(c) => TurnAction::Archive(c),
            TurnAction::QueryUsage(c) => TurnAction::QueryUsage(c),
            TurnAction::RunAgent(c, s) => TurnAction::RunAgent(c, s@),
            TurnAction::Send(s) => TurnAction::Send(s@),
            TurnAction::StoreReply(c, s) => TurnAction::StoreReply(c, s@),
            TurnAction::Finish => TurnAction::Finish,
        }
    }
}

/// The name of a channel.
pub open spec fn channel_name(channel: Channel) -> Seq<char> {
    match channel {
        Channel::Feishu => "feishu"@,
        Channel::Weixin => "weixin"@,
    }
}

/// The type under which a chat is kept.
pub open spec fn stored_chat_type(turn: TurnV) -> Seq<char> {
    match turn.channel {
        Channel::Feishu => if turn.is_dm {
            "feishu_dm"@
        } else {
            "feishu_group"@
        },
        Channel::Weixin => "weixin_dm"@,
    }
}

/// Whether the agent answers: always on Weixin; on Feishu in conversations of
/// two and where the bot is named.
pub open spec fn answers(turn: TurnV) -> bool {
    turn.channel == Channel::Weixin || turn.is_dm || turn.is_mentioned
}

/// The kind of conversation that the agent is told.
pub open spec fn agent_chat_type(turn: TurnV) -> Seq<char> {
    if turn.channel == Channel::Weixin || turn.is_dm {
        "private"@
    } else {
        "group"@
    }
}

/// The type under which a chat is kept is one of the types of the channel, and
/// its kind is the one that the agent is told.
pub proof fn law_chat_type_is_routed(turn: TurnV)
    ensures
        exists|i: int|
            0 <= i < chat_types(turn.channel).len() && #[trigger] chat_types(turn.channel)[i] == (
                stored_chat_type(turn),
                if agent_chat_type(turn) == "private"@ {
                    ConversationKind::Private
                } else {
                    ConversationKind::Group
                },
            ),
{
    reveal_strlit("private");
    reveal_strlit("group");
    assert("private"@.len() == 7 && "group"@.len() == 5);
    let at: int = if turn.channel == Channel::Feishu && turn.is_dm {
        1
    } else {
        0
    };
    assert(chat_types(turn.channel)[at].0 == stored_chat_type(turn));
}

/// Whether a text is one of the commands that the channel itself carries out.
pub open spec fn is_command(t: Seq<char>) -> bool {
    t == "/reset"@ || t == "/skills"@ || t == "/archive"@ || t == "/usage"@
}

/// What a stored message leads to: a command, the agent, or nothing.
pub open spec fn dispatch(turn: TurnV, chat: i64) -> (TurnState<Seq<char>>, TurnAction<Seq<char>>) {
    let t = text::trim(turn.text);
    if t == "/reset"@ {
        (TurnState::Clearing, TurnAction::ClearContext(chat))
    } else if t == "/skills"@ {
        (TurnState::ListingSkills, TurnAction::ListSkills)
    } else if t == "/archive"@ {
        (TurnState::LoadingSession(chat), TurnAction::LoadSession(chat))
    } else if t == "/usage"@ {
        (TurnState::QueryingUsage, TurnAction::QueryUsage(chat))
    } else if answers(turn) {
        (TurnState::RunningAgent(chat), TurnAction::RunAgent(chat, agent_chat_type(turn)))
    } else {
        (TurnState::Done, TurnAction::Finish)
    }
}

/// What stands in for an answer of the agent that says nothing.
pub open spec fn fallback_text() -> Seq<char> {
    "I couldn't produce a visible reply after an automatic retry. Please try again."@
}

/// What follows from an answer of the agent. On Weixin an answer is not sent
/// again where the agent sent a message by itself; on Feishu an empty answer is
/// replaced, unless the agent did.
pub open spec fn after_answer(
    turn: TurnV,
    chat: i64,
    response: Seq<char>,
    sent_by_tool: bool,
) -> (TurnState<Seq<char>>, TurnAction<Seq<char>>) {
    match turn.channel {
        Channel::Feishu => if response.len() > 0 {
            (TurnState::Replying(chat, response), TurnAction::Send(response))
        } else if !sent_by_tool {
            (TurnState::Replying(chat, fallback_text()), TurnAction::Send(fallback_text()))
        } else {
            (TurnState::Done, TurnAction::Finish)
        },
        Channel::Weixin => if response.len() == 0 {
            (TurnState::Done, TurnAction::Finish)
        } else if sent_by_tool {
            (TurnState::Closing, TurnAction::StoreReply(chat, response))
        } else {
            (TurnState::Replying(chat, response), TurnAction::Send(response))
        },
    }
}

/// What is said of a failure of the agent.
pub open spec fn failure_text(channel: Channel, error: Seq<char>) -> Seq<char> {
    match channel {
        Channel::Feishu => "Error: "@ + error,
        Channel::Weixin => "Sorry, an error occurred: "@ + error,
    }
}

/// The next state and action. An event that the state does not wait for ends
/// the turn.
pub open spec fn turn_step(
    turn: TurnV,
    state: TurnState<Seq<char>>,
    event: TurnEvent<Seq<char>>,
) -> (TurnState<Seq<char>>, TurnAction<Seq<char>>) {
    match (state, event) {
        (TurnState::Start, TurnEvent::Started) => (
            TurnState::Resolving,
            TurnAction::ResolveChat(
                channel_name(turn.channel) + "-"@ + turn.external_chat_id,
                stored_chat_type(turn),
            ),
        ),
        (TurnState::Resolving, TurnEvent::ChatResolved(chat)) => if chat == 0 {
            (TurnState::Done, TurnAction::Finish)
        } else {
            (TurnState::Storing(chat), TurnAction::StoreIncoming(chat))
        },
        (TurnState::Storing(chat), TurnEvent::Stored) => match turn.channel {
            Channel::Feishu => (TurnState::Authorizing(chat), TurnAction::GetToken),
            Channel::Weixin => dispatch(turn, chat),
        },
        (TurnState::Authorizing(chat), TurnEvent::TokenReady) => dispatch(turn, chat),
        (TurnState::Clearing, TurnEvent::Cleared) => (
            TurnState::Closing,
            TurnAction::Send("Context cleared (session + chat history)."@),
        ),
        (TurnState::ListingSkills, TurnEvent::SkillsListed(list)) => (
            TurnState::Closing,
            TurnAction::Send(list),
        ),
        (TurnState::LoadingSession(chat), TurnEvent::SessionLoaded(n)) => if n == 0 {
            (TurnState::Closing, TurnAction::Send("No session to archive."@))
        } else {
            (TurnState::Archiving(n), TurnAction::Archive(chat))
        },
        (TurnState::Archiving(n), TurnEvent::Archived) => (
            TurnState::Closing,
            TurnAction::Send("Archived "@ + text::digits(n as nat) + " messages."@),
        ),
        (TurnState::QueryingUsage, TurnEvent::UsageReported(report)) => (
            TurnState::Closing,
            TurnAction::Send(report),
        ),
        (TurnState::QueryingUsage, TurnEvent::UsageFailed(e)) => (
            TurnState::Closing,
            TurnAction::Send("Failed to query usage statistics: "@ + e),
        ),
        (TurnState::RunningAgent(chat), TurnEvent::AgentAnswered(response, sent_by_tool)) =>
            after_answer(turn, chat, response, sent_by_tool),
        (TurnState::RunningAgent(_), TurnEvent::AgentFailed(e)) => (
            TurnState::Closing,
            TurnAction::Send(failure_text(turn.channel, e)),
        ),
        (TurnState::Replying(chat, content), TurnEvent::Sent) => (
            TurnState::Closing,
            TurnAction::StoreReply(chat, content),
        ),
        _ => (TurnState::Done, TurnAction::Finish),
    }
}

/// How many actions may still come.
pub open spec fn steps_left(state: TurnState<Seq<char>>) -> nat {
    match state {
        TurnState::Start => 8,
        TurnState::Resolving => 7,
        TurnState::Storing(_) => 6,
        TurnState::Authorizing(_) => 5,
        TurnState::Clearing => 4,
        TurnState::ListingSkills => 4,
        TurnState::LoadingSession(_) => 4,
        TurnState::QueryingUsage => 4,
        TurnState::RunningAgent(_) => 4,
        TurnState::Archiving(_) => 3,
        TurnState::Replying(_, _) => 2,
        TurnState::Closing => 1,
        TurnState::Done => 0,
    }
}

/// Every turn ends: each step leaves fewer to come.
pub proof fn law_turn_ends(
    turn: TurnV,
    state: TurnState<Seq<char>>,
    event: TurnEvent<Seq<char>>,
)
    requires
        state !is Done,
    ensures
        steps_left(turn_step(turn, state, event).0) < steps_left(state),
        turn_step(turn, state, event).0 is Done <==> turn_step(turn, state, event).1 is Finish,
{
}

/// The agent runs only where it is to answer, and never on a command.
pub proof fn law_agent_runs_when_asked(
    turn: TurnV,
    state: TurnState<Seq<char>>,
    event: TurnEvent<Seq<char>>,
)
    ensures
        turn_step(turn, state, event).1 is RunAgent ==> answers(turn) && !is_command(
            text::trim(turn.text),
        ),
{
}

/// A turn that was given these events: its state, and the actions it asked for.
pub open spec fn run(turn: TurnV, events: Seq<TurnEvent<Seq<char>>>) -> (
    TurnState<Seq<char>>,
    Seq<TurnAction<Seq<char>>>,
)
    decreases events.len(),
{
    if events.len() == 0 {
        (TurnState::Start, Seq::empty())
    } else {
        let (state, actions) = run(turn, events.drop_last());
        let (next, action) = turn_step(turn, state, events.last());
        (next, actions.push(action))
    }
}

/// Whether the message was asked to be stored among these actions.
pub open spec fn stores_message(actions: Seq<TurnAction<Seq<char>>>) -> bool {
    exists|j: int| 0 <= j < actions.len() && (#[trigger] actions[j]) is StoreIncoming
}

proof fn lemma_run_stores(turn: TurnV, events: Seq<TurnEvent<Seq<char>>>)
    ensures
        run(turn, events).1.len() == events.len(),
        ({
            let (state, actions) = run(turn, events);
            state is Start || state is Resolving || state is Done || stores_message(actions)
        }),
    decreases events.len(),
{
    if events.len() > 0 {
        lemma_run_stores(turn, events.drop_last());
        let (before, earlier) = run(turn, events.drop_last());
        let (state, actions) = run(turn, events);
        if stores_message(earlier) {
            let j = choose|j: int| 0 <= j < earlier.len() && (#[trigger] earlier[j]) is StoreIncoming;
            assert(actions[j] == earlier[j]);
        } else if !(state is Start || state is Resolving || state is Done) {
            assert(actions[earlier.len() as int] is StoreIncoming);
        }
    }
}

/// Whatever happens in a turn, nothing is sent and no agent runs before the
/// message was to be stored.
pub proof fn law_stored_before_sent(turn: TurnV, events: Seq<TurnEvent<Seq<char>>>, i: int)
    requires
        0 <= i < run(turn, events).1.len(),
        run(turn, events).1[i] is Send || run(turn, events).1[i] is RunAgent,
    ensures
        stores_message(run(turn, events).1.take(i)),
    decreases events.len(),
{
    let (before, earlier) = run(turn, events.drop_last());
    let actions = run(turn, events).1;
    lemma_run_stores(turn, events.drop_last());
    if i < earlier.len() {
        assert(earlier[i] == actions[i]);
        law_stored_before_sent(turn, events.drop_last(), i);
        assert(actions.take(i) =~= earlier.take(i));
    } else {
        assert(actions.take(i) =~= earlier);
    }
}

proof fn lemma_agent_ran(turn: TurnV, events: Seq<TurnEvent<Seq<char>>>, i: int)
    requires
        0 <= i < run(turn, events).1.len(),
        run(turn, events).1[i] is RunAgent,
    ensures
        steps_left(run(turn, events).0) <= 4,
    decreases events.len(),
{
    let (before, earlier) = run(turn, events.drop_last());
    if i < earlier.len() {
        assert(earlier[i] == run(turn, events).1[i]);
        lemma_agent_ran(turn, events.drop_last(), i);
        if before !is Done {
            law_turn_ends(turn, before, events.last());
        }
    }
}

/// Whatever happens in a turn, the agent runs at most once.
pub proof fn law_agent_runs_once(turn: TurnV, events: Seq<TurnEvent<Seq<char>>>, i: int, j: int)
    requires
        0 <= i < run(turn, events).1.len(),
        0 <= j < run(turn, events).1.len(),
        run(turn, events).1[i] is RunAgent,
        run(turn, events).1[j] is RunAgent,
    ensures
        i == j,
    decreases events.len(),
{
    let (before, earlier) = run(turn, events.drop_last());
    let actions = run(turn, events).1;
    if i < earlier.len() && j < earlier.len() {
        assert(earlier[i] == actions[i]);
        assert(earlier[j] == actions[j]);
        law_agent_runs_once(turn, events.drop_last(), i, j);
    } else if i != j {
        let first = if i < j {
            i
        } else {
            j
        };
        assert(earlier[first] == actions[first]);
        lemma_agent_ran(turn, events.drop_last(), first);
    }
}

impl Turn {
    /// What a stored message leads to.
    fn dispatch(&self, chat: i64) -> (res: (TurnState<String>, TurnAction<String>))
        ensures
            (res.0@, res.1@) == dispatch(self@, chat),
    {
        let t = text::trimmed(self.text.as_str());
        if text::same(t.as_str(), "/reset") {
            (TurnState::Clearing, TurnAction::ClearContext(chat))
        } else if text::same(t.as_str(), "/skills") {
            (TurnState::ListingSkills, TurnAction::ListSkills)
        } else if text::same(t.as_str(), "/archive") {
            (TurnState::LoadingSession(chat), TurnAction::LoadSession(chat))
        } else if text::same(t.as_str(), "/usage") {
            (TurnState::QueryingUsage, TurnAction::QueryUsage(chat))
        } else {
            match self.channel {
                Channel::Weixin => (
                    TurnState::RunningAgent(chat),
                    TurnAction::RunAgent(chat, text::owned("private")),
                ),
                Channel::Feishu => if self.is_dm {
                    (
                        TurnState::RunningAgent(chat),
                        TurnAction::RunAgent(chat, text::owned("private")),
                    )
                } else if self.is_mentioned {
                    (
                        TurnState::RunningAgent(chat),
                        TurnAction::RunAgent(chat, text::owned("group")),
                    )
                } else {
                    (TurnState::Done, TurnAction::Finish)
                },
            }
        }
    }

    /// What follows from an answer of the agent.
    fn after_answer(&self, chat: i64, response: String, sent_by_tool: bool) -> (res: (
        TurnState<String>,
        TurnAction<String>,
    ))
        ensures
            (res.0@, res.1@) == after_answer(self@, chat, response@, sent_by_tool),
    {
        let empty = response.as_str().is_empty();
        match self.channel {
            Channel::Feishu => if !empty {
                let sent = response.clone();
                (TurnState::Replying(chat, response), TurnAction::Send(sent))
            } else if !sent_by_tool {
                let fallback = text::owned(
                    "I couldn't produce a visible reply after an automatic retry. Please try again.",
                );
                let sent = fallback.clone();
                (TurnState::Replying(chat, fallback), TurnAction::Send(sent))
            } else {
                (TurnState::Done, TurnAction::Finish)
            },
            Channel::Weixin => if empty {
                (TurnState::Done, TurnAction::Finish)
            } else if sent_by_tool {
                (TurnState::Closing, TurnAction::StoreReply(chat, response))
            } else {
                let sent = response.clone();
                (TurnState::Replying(chat, response), TurnAction::Send(sent))
            },
        }
    }

    /// The next state and action.
    pub fn step(&self, state: TurnState<String>, event: TurnEvent<String>) -> (res: (
        TurnState<String>,
        TurnAction<String>,
    ))
        ensures
            (res.0@, res.1@) == turn_step(self@, state@, event@),
    {
        match (state, event) {
            (TurnState::Start, TurnEvent::Started) => {
                let (title, kind) = match self.channel {
                    Channel::Feishu => (
                        text::cat3("feishu", "-", self.external_chat_id.as_str()),
                        if self.is_dm {
                            text::owned("feishu_dm")
                        } else {
                            text::owned("feishu_group")
                        },
                    ),
                    Channel::Weixin => (
                        text::cat3("weixin", "-", self.external_chat_id.as_str()),
                        text::owned("weixin_dm"),
                    ),
                };
                (TurnState::Resolving, TurnAction::ResolveChat(title, kind))
            },
            (TurnState::Resolving, TurnEvent::ChatResolved(chat)) => if chat == 0 {
                (TurnState::Done, TurnAction::Finish)
            } else {
                (TurnState::Storing(chat), TurnAction::StoreIncoming(chat))
            },
            (TurnState::Storing(chat), TurnEvent::Stored) => match self.channel {
                Channel::Feishu => (TurnState::Authorizing(chat), TurnAction::GetToken),
                Channel::Weixin => self.dispatch(chat),
            },
            (TurnState::Authorizing(chat), TurnEvent::TokenReady) => self.dispatch(chat),
            (TurnState::Clearing, TurnEvent::Cleared) => (
                TurnState::Closing,
                TurnAction::Send(text::owned("Context cleared (session + chat history).")),
            ),
            (TurnState::ListingSkills, TurnEvent::SkillsListed(list)) => (
                TurnState::Closing,
                TurnAction::Send(list),
            ),
            (TurnState::LoadingSession(chat), TurnEvent::SessionLoaded(n)) => if n == 0 {
                (TurnState::Closing, TurnAction::Send(text::owned("No session to archive.")))
            } else {
                (TurnState::Archiving(n), TurnAction::Archive(chat))
            },
            (TurnState::Archiving(n), TurnEvent::Archived) => {
                let count = text::decimal(n);
                (
                    TurnState::Closing,
                    TurnAction::Send(text::cat3("Archived ", count.as_str(), " messages.")),
                )
            },
            (TurnState::QueryingUsage, TurnEvent::UsageReported(report)) => (
                TurnState::Closing,
                TurnAction::Send(report),
            ),
            (TurnState::QueryingUsage, TurnEvent::UsageFailed(e)) => (
                TurnState::Closing,
                TurnAction::Send(text::cat("Failed to query usage statistics: ", e.as_str())),
            ),
            (TurnState::RunningAgent(chat), TurnEvent::AgentAnswered(response, sent_by_tool)) =>
                self.after_answer(chat, response, sent_by_tool),
            (TurnState::RunningAgent(_), TurnEvent::AgentFailed(e)) => (
                TurnState::Closing,
                TurnAction::Send(
                    match self.channel {
                        Channel::Feishu => text::cat("Error: ", e.as_str()),
                        Channel::Weixin => text::cat("Sorry, an error occurred: ", e.as_str()),
                    },
                ),
            ),
            (TurnState::Replying(chat, content), TurnEvent::Sent) => (
                TurnState::Closing,
                TurnAction::StoreReply(chat, content),
            ),
            _ => (TurnState::Done, TurnAction::Finish),
        }
    }
}

// ---------------------------------------------------------------------------
// Stored messages
// ---------------------------------------------------------------------------

/// A message as it is stored.
pub struct StoredMessage {
    pub id: String,
    pub chat_id: i64,
    pub sender_name: String,
    pub content: String,
    pub is_from_bot: bool,
    pub timestamp: String,
}

impl Turn {
    /// The record of this message, with a fresh id for one without an id.
    pub fn incoming_record_at(&self, chat_id: i64, fresh_id: String, timestamp: String) -> (res:
        StoredMessage)
        ensures
            res.id@ == if self.message_id@.len() == 0 {
                fresh_id@
            } else {
                self.message_id@
            },
            res.chat_id == chat_id,
            res.sender_name@ == self.user@,
            res.content@ == self.text@,
            !res.is_from_bot,
            res.timestamp@ == timestamp@,
    {
        StoredMessage {
            id: if self.message_id.as_str().is_empty() {
                fresh_id
            } else {
                self.message_id.clone()
            },
            chat_id,
            sender_name: self.user.clone(),
            content: self.text.clone(),
            is_from_bot: false,
            timestamp,
        }
    }

    /// The record of this message as of now.
    pub fn incoming_record(&self, chat_id: i64) -> (res: StoredMessage)
        ensures
            self.message_id@.len() > 0 ==> res.id@ == self.message_id@,
            res.id@.len() > 0,
            res.chat_id == chat_id,
            res.sender_name@ == self.user@,
            res.content@ == self.text@,
            !res.is_from_bot,
    {
        self.incoming_record_at(chat_id, stamps::fresh_id(), stamps::now_rfc3339())
    }
}

/// The record of a reply of the bot as of now.
pub fn reply_record(chat_id: i64, bot_name: &str, content: &str) -> (res: StoredMessage)
    ensures
        res.id@.len() > 0,
        res.chat_id == chat_id,
        res.sender_name@ == bot_name@,
        res.content@ == content@,
        res.is_from_bot,
{
    StoredMessage {
        id: stamps::fresh_id(),
        chat_id,
        sender_name: bot_name.to_owned(),
        content: content.to_owned(),
        is_from_bot: true,
        timestamp: stamps::now_rfc3339(),
    }
}

/// Whether the agent started the tool that sends messages.
pub open spec fn used_tool(started: Seq<Seq<char>>) -> bool {
    started.contains("send_message"@)
}

/// Whether the agent started the tool that sends messages.
pub fn used_send_message_tool(started: &Vec<String>) -> (res: bool)
    ensures
        res == used_tool(text::strs(started@)),
{
    let ghost views = text::strs(started@);
    let mut i: usize = 0;
    while i < started.len()
        invariant
            i <= started@.len(),
            views == text::strs(started@),
            forall|j: int| 0 <= j < i ==> views[j] != "send_message"@,
        decreases started@.len() - i,
    {
        if text::same(started[i].as_str(), "send_message") {
            assert(views[i as int] == "send_message"@);
            return true;
        }
        i += 1;
    }
    false
}

// ---------------------------------------------------------------------------
// What holds of turns
// ---------------------------------------------------------------------------

/// What happens first in a turn where nothing fails: the chat is found, the message is
/// stored and, over Feishu, a token is there.
pub open spec fn opened(turn: TurnV, chat: i64) -> Seq<TurnEvent<Seq<char>>> {
    let common = seq![TurnEvent::Started, TurnEvent::ChatResolved(chat), TurnEvent::Stored];
    match turn.channel {
        Channel::Feishu => common.push(TurnEvent::TokenReady),
        Channel::Weixin => common,
    }
}

/// One more event leads one step on and leaves what was asked for as it is.
proof fn lemma_run_on(turn: TurnV, events: Seq<TurnEvent<Seq<char>>>, event: TurnEvent<Seq<char>>)
    ensures
        run(turn, events.push(event)).0 == turn_step(turn, run(turn, events).0, event).0,
        run(turn, events.push(event)).1 == run(turn, events).1.push(
            turn_step(turn, run(turn, events).0, event).1,
        ),
{
    assert(events.push(event).drop_last() =~= events);
}

/// Every turn looks for its chat by the name of the channel and the id of the chat, then
/// stores the message, and only then answers: a command with what it asks for, anything
/// else by the agent, in a private chat always and in a group only where the bot is
/// mentioned.
pub proof fn law_turn_opens(turn: TurnV, chat: i64)
    requires
        chat != 0,
    ensures
        ({
            let asked = run(turn, opened(turn, chat)).1;
            let said = text::trim(turn.text);
            let n = opened(turn, chat).len();
            let name = match turn.channel {
                Channel::Feishu => "feishu"@,
                Channel::Weixin => "weixin"@,
            };
            &&& asked.len() == n
            &&& asked[0] matches TurnAction::ResolveChat(id, kind) && id == name + "-"@
                + turn.external_chat_id && kind == match turn.channel {
                Channel::Weixin => "weixin_dm"@,
                Channel::Feishu => if turn.is_dm {
                    "feishu_dm"@
                } else {
                    "feishu_group"@
                },
            }
            &&& asked[1] == TurnAction::<Seq<char>>::StoreIncoming(chat)
            &&& turn.channel == Channel::Feishu ==> asked[2] == TurnAction::<Seq<char>>::GetToken
            &&& said == "/reset"@ ==> asked.last() == TurnAction::<Seq<char>>::ClearContext(chat)
            &&& said == "/skills"@ ==> asked.last() == TurnAction::<Seq<char>>::ListSkills
            &&& said == "/archive"@ ==> asked.last() == TurnAction::<Seq<char>>::LoadSession(chat)
            &&& said == "/usage"@ ==> asked.last() == TurnAction::<Seq<char>>::QueryUsage(chat)
            &&& said != "/reset"@ && said != "/skills"@ && said != "/archive"@ && said != "/usage"@
                ==> asked.last() == if turn.channel == Channel::Weixin || turn.is_dm {
                TurnAction::RunAgent(chat, "private"@)
            } else if turn.is_mentioned {
                TurnAction::RunAgent(chat, "group"@)
            } else {
                TurnAction::Finish
            }
        }),
{
    reveal_strlit("/reset");
    reveal_strlit("/skills");
    reveal_strlit("/archive");
    reveal_strlit("/usage");
    assert("/reset"@.len() == 6 && "/skills"@.len() == 7 && "/archive"@.len() == 8 && "/usage"@.len()
        == 6);
    assert("/reset"@[1] == 'r' && "/usage"@[1] == 'u');
    let none = Seq::<TurnEvent<Seq<char>>>::empty();
    let one = none.push(TurnEvent::Started);
    let two = one.push(TurnEvent::ChatResolved(chat));
    let three = two.push(TurnEvent::Stored);
    lemma_run_on(turn, none, TurnEvent::Started);
    lemma_run_on(turn, one, TurnEvent::ChatResolved(chat));
    lemma_run_on(turn, two, TurnEvent::Stored);
    match turn.channel {
        Channel::Feishu => {
            lemma_run_on(turn, three, TurnEvent::TokenReady);
            assert(opened(turn, chat) =~= three.push(TurnEvent::TokenReady));
        },
        Channel::Weixin => {
            assert(opened(turn, chat) =~= three);
        },
    }
}

/// A reply that a tool has not already sent is sent as it is, and what was sent is
/// stored. Over Feishu a reply is sent in any case, and where there is none and no tool
/// has sent anything, words of excuse are. Over Weixin a reply that a tool has sent is
/// stored only, and where there is none nothing is sent.
pub proof fn law_reply_is_sent(turn: TurnV, chat: i64, reply: Seq<char>, by_tool: bool)
    ensures
        ({
            let (next, asked) = turn_step(
                turn,
                TurnState::RunningAgent(chat),
                TurnEvent::AgentAnswered(reply, by_tool),
            );
            &&& reply.len() > 0 && (!by_tool || turn.channel == Channel::Feishu) ==> asked
                == TurnAction::Send(reply) && turn_step(turn, next, TurnEvent::Sent).1
                == TurnAction::StoreReply(chat, reply)
            &&& reply.len() > 0 && by_tool && turn.channel == Channel::Weixin ==> asked
                == TurnAction::StoreReply(chat, reply)
            &&& reply.len() == 0 && turn.channel == Channel::Feishu && !by_tool ==> (
            asked matches TurnAction::Send(words) && words.len() > 0 && turn_step(
                turn,
                next,
                TurnEvent::Sent,
            ).1 == TurnAction::StoreReply(chat, words))
            &&& reply.len() == 0 && (turn.channel == Channel::Weixin || by_tool) ==> asked is Finish
        }),
{
    reveal_strlit("I couldn't produce a visible reply after an automatic retry. Please try again.");
}

/// What goes wrong ends a turn: a chat that is not found and a token that is not given
/// without a word, the agent and the report of the usage with words that tell the error
/// whole.
pub proof fn law_failures_are_told(turn: TurnV, chat: i64, error: Seq<char>)
    ensures
        turn_step(turn, TurnState::Resolving, TurnEvent::ChatResolved(0)).1 is Finish,
        turn_step(turn, TurnState::Authorizing(chat), TurnEvent::TokenFailed).1 is Finish,
        turn_step(turn, TurnState::RunningAgent(chat), TurnEvent::AgentFailed(
            error,
        )).1 matches TurnAction::Send(words) && error.is_suffix_of(words),
        turn_step(turn, TurnState::QueryingUsage, TurnEvent::UsageFailed(
            error,
        )).1 matches TurnAction::Send(words) && error.is_suffix_of(words),
{
    let feishu = "Error: "@ + error;
    let weixin = "Sorry, an error occurred: "@ + error;
    let usage = "Failed to query usage statistics: "@ + error;
    assert(feishu.subrange(feishu.len() - error.len(), feishu.len() as int) =~= error);
    assert(weixin.subrange(weixin.len() - error.len(), weixin.len() as int) =~= error);
    assert(usage.subrange(usage.len() - error.len(), usage.len() as int) =~= error);
}

/// A command is answered with what was found: the list of skills and the report of the
/// usage as they are, that nothing was there to archive where the session is empty, and
/// else, once it is archived, how many messages it held.
pub proof fn law_commands_are_answered(turn: TurnV, chat: i64, found: Seq<char>, n: u64)
    ensures
        turn_step(turn, TurnState::ListingSkills, TurnEvent::SkillsListed(found)).1
            == TurnAction::Send(found),
        turn_step(turn, TurnState::QueryingUsage, TurnEvent::UsageReported(found)).1
            == TurnAction::Send(found),
        turn_step(turn, TurnState::Clearing, TurnEvent::Cleared).1 is Send,
        n == 0 ==> turn_step(
            turn,
            TurnState::LoadingSession(chat),
            TurnEvent::SessionLoaded(n),
        ).1 is Send,
        n > 0 ==> {
            let (next, asked) = turn_step(
                turn,
                TurnState::LoadingSession(chat),
                TurnEvent::SessionLoaded(n),
            );
            &&& asked == TurnAction::<Seq<char>>::Archive(chat)
            &&& turn_step(turn, next, TurnEvent::Archived).1 matches TurnAction::Send(words)
                && text::contains(words, text::digits(n as nat))
        },
{
    text::lemma_middle_is_contained("Archived "@, text::digits(n as nat), " messages."@);
}

/// A tool has sent something if and only if one of the calls, at whatever place, was of
/// the tool that sends.
pub proof fn law_used_tool(before: Seq<Seq<char>>, after: Seq<Seq<char>>, started: Seq<Seq<char>>)
    ensures
        used_tool(before + seq!["send_message"@] + after),
        used_tool(started) <==> exists|i: int|
            0 <= i < started.len() && #[trigger] started[i] == "send_message"@,
{
    let all = before + seq!["send_message"@] + after;
    assert(all[before.len() as int] == "send_message"@);
    if used_tool(started) {
        let i = choose|i: int| 0 <= i < started.len() && started[i] == "send_message"@;
        assert(started[i] == "send_message"@);
    }
}

} // verus!
