use rayclaw::channels::turn::{
    reply_record, used_send_message_tool, Channel, ConversationKind, Turn, TurnAction, TurnEvent,
    TurnState,
};

fn turn(channel: Channel, text: &str) -> Turn {
    Turn {
        channel,
        external_chat_id: "x1".into(),
        user: "u".into(),
        text: text.into(),
        is_dm: true,
        is_mentioned: false,
        message_id: "m".into(),
    }
}

fn describe(action: &TurnAction<String>) -> String {
    match action {
        TurnAction::ResolveChat(title, kind) => format!("resolve {title} {kind}"),
        TurnAction::StoreIncoming(c) => format!("store {c}"),
        TurnAction::GetToken => "token".into(),
        TurnAction::ClearContext(c) => format!("clear {c}"),
        TurnAction::ListSkills => "skills".into(),
        TurnAction::LoadSession(c) => format!("load {c}"),
        TurnAction::Archive(c) => format!("archive {c}"),
        TurnAction::QueryUsage(c) => format!("usage {c}"),
        TurnAction::RunAgent(c, kind) => format!("agent {c} {kind}"),
        TurnAction::Send(text) => format!("send {text}"),
        TurnAction::StoreReply(c, text) => format!("reply {c} {text}"),
        TurnAction::Finish => "finish".into(),
    }
}

/// The actions of a turn when these events come.
fn run(turn: &Turn, events: Vec<TurnEvent<String>>) -> Vec<String> {
    let mut state = TurnState::Start;
    let mut actions = Vec::new();
    for event in events {
        let (next, action) = turn.step(state, event);
        actions.push(describe(&action));
        state = next;
    }
    actions
}

fn feishu_start() -> Vec<TurnEvent<String>> {
    vec![
        TurnEvent::Started,
        TurnEvent::ChatResolved(9),
        TurnEvent::Stored,
        TurnEvent::TokenReady,
    ]
}

fn weixin_start() -> Vec<TurnEvent<String>> {
    vec![TurnEvent::Started, TurnEvent::ChatResolved(9), TurnEvent::Stored]
}

fn with(mut events: Vec<TurnEvent<String>>, more: Vec<TurnEvent<String>>) -> Vec<TurnEvent<String>> {
    events.extend(more);
    events
}

#[test]
fn feishu_answers() {
    let actions = run(
        &turn(Channel::Feishu, "hi"),
        with(
            feishu_start(),
            vec![
                TurnEvent::AgentAnswered("yo".into(), true),
                TurnEvent::Sent,
                TurnEvent::Stored,
            ],
        ),
    );
    assert_eq!(
        actions,
        vec![
            "resolve feishu-x1 feishu_dm",
            "store 9",
            "token",
            "agent 9 private",
            "send yo",
            "reply 9 yo",
            "finish"
        ]
    );
}

#[test]
fn feishu_says_something_in_place_of_nothing() {
    let text = "I couldn't produce a visible reply after an automatic retry. Please try again.";
    let actions = run(
        &turn(Channel::Feishu, "hi"),
        with(feishu_start(), vec![TurnEvent::AgentAnswered("".into(), false), TurnEvent::Sent]),
    );
    assert_eq!(actions[4], format!("send {text}"));
    assert_eq!(actions[5], format!("reply 9 {text}"));
    let silent = run(
        &turn(Channel::Feishu, "hi"),
        with(feishu_start(), vec![TurnEvent::AgentAnswered("".into(), true)]),
    );
    assert_eq!(silent[4], "finish");
}

#[test]
fn feishu_answers_in_groups_where_it_is_named() {
    let mut group = Turn { is_dm: false, ..turn(Channel::Feishu, "hi") };
    let actions = run(&group, feishu_start());
    assert_eq!(actions[0], "resolve feishu-x1 feishu_group");
    assert_eq!(actions[3], "finish");
    group.is_mentioned = true;
    assert_eq!(run(&group, feishu_start())[3], "agent 9 group");
    let command = Turn { is_dm: false, ..turn(Channel::Feishu, " /reset\n") };
    assert_eq!(run(&command, feishu_start())[3], "clear 9");
}

#[test]
fn weixin_answers() {
    let answered = |text: &str, sent| {
        run(
            &turn(Channel::Weixin, "hi"),
            with(weixin_start(), vec![TurnEvent::AgentAnswered(text.into(), sent), TurnEvent::Sent]),
        )
    };
    assert_eq!(
        answered("yo", false),
        vec!["resolve weixin-x1 weixin_dm", "store 9", "agent 9 private", "send yo", "reply 9 yo"]
    );
    // What the agent sent by itself is stored, not sent again.
    assert_eq!(answered("yo", true)[3], "reply 9 yo");
    assert_eq!(answered("", false)[3], "finish");
}

#[test]
fn commands() {
    let command = |text: &str, events| {
        run(&turn(Channel::Weixin, text), with(weixin_start(), events))[2..].to_vec()
    };
    assert_eq!(
        command("/reset", vec![TurnEvent::Cleared, TurnEvent::Sent]),
        vec!["clear 9", "send Context cleared (session + chat history).", "finish"]
    );
    assert_eq!(
        command("/skills", vec![TurnEvent::SkillsListed("list".into())]),
        vec!["skills", "send list"]
    );
    assert_eq!(
        command("/archive", vec![TurnEvent::SessionLoaded(12), TurnEvent::Archived]),
        vec!["load 9", "archive 9", "send Archived 12 messages."]
    );
    assert_eq!(
        command("/archive", vec![TurnEvent::SessionLoaded(0)]),
        vec!["load 9", "send No session to archive."]
    );
    assert_eq!(
        command("/usage", vec![TurnEvent::UsageReported("r".into())]),
        vec!["usage 9", "send r"]
    );
    assert_eq!(
        command("/usage", vec![TurnEvent::UsageFailed("e".into())]),
        vec!["usage 9", "send Failed to query usage statistics: e"]
    );
}

#[test]
fn failures_end_a_turn() {
    let lost = run(
        &turn(Channel::Feishu, "hi"),
        vec![TurnEvent::Started, TurnEvent::ChatResolved(0)],
    );
    assert_eq!(lost[1], "finish");
    let refused = run(
        &turn(Channel::Feishu, "hi"),
        with(weixin_start(), vec![TurnEvent::TokenFailed]),
    );
    assert_eq!(refused[3], "finish");
    let feishu = run(
        &turn(Channel::Feishu, "hi"),
        with(feishu_start(), vec![TurnEvent::AgentFailed("e".into())]),
    );
    assert_eq!(feishu[4], "send Error: e");
    let weixin = run(
        &turn(Channel::Weixin, "hi"),
        with(weixin_start(), vec![TurnEvent::AgentFailed("e".into())]),
    );
    assert_eq!(weixin[3], "send Sorry, an error occurred: e");
}

#[test]
fn records() {
    let message = turn(Channel::Feishu, "hi");
    let record = message.incoming_record(4);
    assert_eq!(record.id, "m");
    assert_eq!(record.chat_id, 4);
    assert_eq!(record.sender_name, "u");
    assert_eq!(record.content, "hi");
    assert!(!record.is_from_bot);
    assert!(chrono::DateTime::parse_from_rfc3339(&record.timestamp).is_ok());
    let unnamed = Turn { message_id: "".into(), ..turn(Channel::Feishu, "hi") };
    assert!(uuid::Uuid::parse_str(&unnamed.incoming_record(4).id).is_ok());
    assert_ne!(unnamed.incoming_record(4).id, unnamed.incoming_record(4).id);
    assert_eq!(unnamed.incoming_record_at(4, "f".into(), "t".into()).id, "f");
    let reply = reply_record(4, "bot", "yo");
    assert!(reply.is_from_bot);
    assert_eq!(reply.sender_name, "bot");
    assert_eq!(reply.content, "yo");
}

#[test]
fn tools_that_were_started() {
    assert!(used_send_message_tool(&vec!["bash".into(), "send_message".into()]));
    assert!(!used_send_message_tool(&vec!["bash".into()]));
}

#[test]
fn types_of_chats() {
    let feishu = Channel::Feishu.chat_type_routes();
    assert_eq!(feishu[0], ("feishu_group".to_string(), ConversationKind::Group));
    assert_eq!(feishu[1], ("feishu_dm".to_string(), ConversationKind::Private));
    let weixin = Channel::Weixin.chat_type_routes();
    assert_eq!(weixin, vec![("weixin_dm".to_string(), ConversationKind::Private)]);
}

fn any_event(k: usize) -> TurnEvent<String> {
    match k {
        0 => TurnEvent::Started,
        1 => TurnEvent::ChatResolved(9),
        2 => TurnEvent::Stored,
        3 => TurnEvent::TokenReady,
        4 => TurnEvent::AgentAnswered("a".into(), false),
        5 => TurnEvent::Sent,
        _ => TurnEvent::AgentFailed("e".into()),
    }
}

#[test]
fn orders_of_events() {
    // Whatever comes in whatever order: the message is stored first, the agent
    // runs once, and the turn has ended after eight steps.
    for channel in [Channel::Feishu, Channel::Weixin] {
        let turn = turn(channel, "hi");
        for first in 0..7usize.pow(5) {
            let mut events = Vec::new();
            let mut rest = first;
            for _ in 0..5 {
                events.push(any_event(rest % 7));
                rest /= 7;
            }
            events.extend([any_event(4), any_event(5), any_event(2)]);
            let actions = run(&turn, events);
            let stored = actions.iter().position(|a| a.starts_with("store "));
            for (i, action) in actions.iter().enumerate() {
                if action.starts_with("send ") || action.starts_with("agent ") {
                    assert!(stored.is_some_and(|s| s < i), "{actions:?}");
                }
            }
            assert!(actions.iter().filter(|a| a.starts_with("agent ")).count() <= 1);
            assert_eq!(actions.last().unwrap(), "finish");
        }
    }
}
