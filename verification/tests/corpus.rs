use codex_relay::corpus::{CorpusRecorder, TurnRecord};
use serde_json::Value;

#[derive(Clone, Debug, PartialEq)]
struct ChatMessage {
    role: String,
    content: Option<Value>,
    reasoning_content: Option<String>,
    tool_calls: Option<Vec<Value>>,
    tool_call_id: Option<String>,
    name: Option<String>,
}

fn msg(role: &str, content: &str) -> ChatMessage {
    ChatMessage {
        role: role.into(),
        content: Some(Value::String(content.into())),
        reasoning_content: None,
        tool_calls: None,
        tool_call_id: None,
        name: None,
    }
}

fn content(m: &ChatMessage) -> &str {
    m.content.as_ref().and_then(|c| c.as_str()).unwrap()
}

fn events_of<'a>(events: Vec<Option<TurnRecord<'a, ChatMessage>>>) -> Vec<TurnRecord<'a, ChatMessage>> {
    events.into_iter().flatten().collect()
}

#[test]
fn records_full_conversation_on_first_turn() {
    let mut recorder = CorpusRecorder::new();

    let full = vec![
        msg("system", "you are helpful"),
        msg("user", "hi"),
        msg("assistant", "hello"),
    ];
    let lines = events_of(vec![recorder.record_turn(None, "resp_a", "test-model", &full)]);

    assert_eq!(lines.len(), 1);
    assert_eq!(lines[0].conversation_id, "resp_a");
    assert_eq!(lines[0].response_id, "resp_a");
    assert!(lines[0].parent_response_id.is_none());
    assert_eq!(lines[0].model, "test-model");
    assert_eq!(lines[0].messages.len(), 3);
}

#[test]
fn records_only_delta_on_continued_turn() {
    let mut recorder = CorpusRecorder::new();

    let turn1 = vec![
        msg("system", "sys"),
        msg("user", "q1"),
        msg("assistant", "a1"),
    ];
    let first = recorder.record_turn(None, "resp_1", "m", &turn1);

    // Second turn replays turn1 as history and appends new input + reply.
    let turn2 = vec![
        msg("system", "sys"),
        msg("user", "q1"),
        msg("assistant", "a1"),
        msg("user", "q2"),
        msg("assistant", "a2"),
    ];
    let second = recorder.record_turn(Some("resp_1"), "resp_2", "m", &turn2);

    let lines = events_of(vec![first, second]);
    assert_eq!(lines.len(), 2);

    // Both events share the conversation id (the chain root).
    assert_eq!(lines[1].conversation_id, "resp_1");
    assert_eq!(lines[1].response_id, "resp_2");
    assert_eq!(lines[1].parent_response_id.as_deref(), Some("resp_1"));

    let delta = lines[1].messages;
    assert_eq!(delta.len(), 2, "only the new turn's messages are recorded");
    assert_eq!(content(&delta[0]), "q2");
    assert_eq!(content(&delta[1]), "a2");
}

#[test]
fn preserves_tool_calls_and_reasoning() {
    let mut recorder = CorpusRecorder::new();

    let mut assistant = msg("assistant", "");
    assistant.reasoning_content = Some("let me think".into());
    let call: Value = serde_json::from_str(
        r#"{"id": "call_1", "type": "function", "function": {"name": "exec", "arguments": "{\"cmd\":\"ls\"}"}}"#,
    )
    .unwrap();
    assistant.tool_calls = Some(vec![call]);
    let mut tool = msg("tool", "file.txt");
    tool.tool_call_id = Some("call_1".into());

    let full = vec![msg("user", "list files"), assistant, tool];
    let lines = events_of(vec![recorder.record_turn(None, "resp_t", "m", &full)]);

    let messages = lines[0].messages;
    assert_eq!(messages[1].reasoning_content.as_deref(), Some("let me think"));
    assert_eq!(messages[1].tool_calls.as_ref().unwrap()[0]["function"]["name"], "exec");
    assert_eq!(messages[2].tool_call_id.as_deref(), Some("call_1"));
}

#[test]
fn isolated_child_with_unknown_parent_starts_new_conversation() {
    let mut recorder = CorpusRecorder::new();

    // Parent id was never recorded (e.g. spawn-child isolation cleared history).
    let full = vec![msg("user", "child task"), msg("assistant", "done")];
    let lines = events_of(vec![recorder.record_turn(Some("resp_unknown"), "resp_child", "m", &full)]);

    assert_eq!(lines.len(), 1);
    assert_eq!(
        lines[0].conversation_id, "resp_child",
        "unknown parent => new conversation rooted at self"
    );
    assert_eq!(lines[0].messages.len(), 2);
}

#[test]
fn turn_without_new_messages_records_nothing() {
    let mut recorder = CorpusRecorder::new();
    let turn1 = vec![msg("user", "q1"), msg("assistant", "a1")];
    assert!(recorder.record_turn(None, "resp_1", "m", &turn1).is_some());

    // Same history again: nothing new.
    assert!(recorder.record_turn(Some("resp_1"), "resp_2", "m", &turn1).is_none());
    // A shorter history than the parent's: nothing new either.
    let shorter = vec![msg("user", "q1")];
    assert!(recorder.record_turn(Some("resp_1"), "resp_3", "m", &shorter).is_none());
    // An empty first turn has nothing to record.
    let empty: Vec<ChatMessage> = Vec::new();
    assert!(recorder.record_turn(None, "resp_4", "m", &empty).is_none());

    // The silent turns are still remembered: a child of resp_2 continues its chain.
    let turn3 = vec![msg("user", "q1"), msg("assistant", "a1"), msg("user", "q3")];
    let ev = recorder.record_turn(Some("resp_2"), "resp_5", "m", &turn3).unwrap();
    assert_eq!(ev.conversation_id, "resp_1");
    assert_eq!(ev.messages.len(), 1);
    assert_eq!(content(&ev.messages[0]), "q3");
}

#[test]
fn concatenated_deltas_rebuild_the_conversation() {
    let mut recorder = CorpusRecorder::new();
    let turn1 = vec![msg("system", "sys"), msg("user", "q1"), msg("assistant", "a1")];
    let turn2 = vec![
        msg("system", "sys"),
        msg("user", "q1"),
        msg("assistant", "a1"),
        msg("user", "q2"),
        msg("assistant", "a2"),
    ];
    let turn3 = vec![
        msg("system", "sys"),
        msg("user", "q1"),
        msg("assistant", "a1"),
        msg("user", "q2"),
        msg("assistant", "a2"),
        msg("user", "q3"),
        msg("assistant", "a3"),
    ];
    let events = events_of(vec![
        recorder.record_turn(None, "r1", "m", &turn1),
        recorder.record_turn(Some("r1"), "r2", "m", &turn2),
        recorder.record_turn(Some("r2"), "r3", "m", &turn3),
    ]);
    assert_eq!(events.len(), 3);
    let mut rebuilt: Vec<ChatMessage> = Vec::new();
    for ev in &events {
        assert_eq!(ev.conversation_id, "r1");
        rebuilt.extend_from_slice(ev.messages);
    }
    assert_eq!(rebuilt, turn3);
}

#[test]
fn evicted_parent_starts_new_conversation() {
    let mut recorder = CorpusRecorder::with_max_tracked(2);
    let a = vec![msg("user", "a")];
    let a2 = vec![msg("user", "a"), msg("assistant", "a'")];
    recorder.record_turn(None, "r1", "m", &a);
    recorder.record_turn(None, "r2", "m", &a);
    recorder.record_turn(None, "r3", "m", &a);

    // r1 was the least recently recorded, so it has been forgotten.
    let ev = recorder.record_turn(Some("r1"), "r4", "m", &a2).unwrap();
    assert_eq!(ev.conversation_id, "r4");
    assert_eq!(ev.messages.len(), 2);

    // r3 is still remembered.
    let ev = recorder.record_turn(Some("r3"), "r5", "m", &a2).unwrap();
    assert_eq!(ev.conversation_id, "r3");
    assert_eq!(ev.messages.len(), 1);
}

#[test]
fn recording_a_response_again_refreshes_it() {
    let mut recorder = CorpusRecorder::with_max_tracked(2);
    let a = vec![msg("user", "a")];
    let a2 = vec![msg("user", "a"), msg("assistant", "b")];
    recorder.record_turn(None, "r1", "m", &a);
    recorder.record_turn(None, "r2", "m", &a);
    // r1 again: it becomes the most recent, with the new message count.
    recorder.record_turn(None, "r1", "m", &a2);
    // r3 pushes out the oldest, which is now r2.
    recorder.record_turn(None, "r3", "m", &a);

    let ev = recorder.record_turn(Some("r1"), "r4", "m", &a2);
    assert!(ev.is_none(), "r1 is remembered with two messages");
    let ev = recorder.record_turn(Some("r2"), "r5", "m", &a2).unwrap();
    assert_eq!(ev.conversation_id, "r5", "r2 was forgotten");
}

#[test]
fn recorder_that_remembers_nothing_never_links_turns() {
    let mut recorder = CorpusRecorder::with_max_tracked(0);
    let a = vec![msg("user", "a")];
    let a2 = vec![msg("user", "a"), msg("assistant", "b")];
    recorder.record_turn(None, "r1", "m", &a);
    let ev = recorder.record_turn(Some("r1"), "r2", "m", &a2).unwrap();
    assert_eq!(ev.conversation_id, "r2");
    assert_eq!(ev.messages.len(), 2);
}
