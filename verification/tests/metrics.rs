use rayclaw::metrics::{detect_feedback_signals, FeedbackSignal, SessionMetrics};

#[test]
fn test_detect_correction_chinese() {
    let signals = detect_feedback_signals("不对，应该是另一个文件");
    assert!(signals.contains(&FeedbackSignal::Correction));
    assert!(!signals.contains(&FeedbackSignal::Positive));
}

#[test]
fn test_detect_correction_english() {
    let signals = detect_feedback_signals("That's not right, try again");
    assert!(signals.contains(&FeedbackSignal::Correction));
}

#[test]
fn test_detect_positive_chinese() {
    let signals = detect_feedback_signals("谢谢，太好了");
    assert!(signals.contains(&FeedbackSignal::Positive));
    assert!(!signals.contains(&FeedbackSignal::Correction));
}

#[test]
fn test_detect_positive_english() {
    let signals = detect_feedback_signals("Perfect, exactly what I needed");
    assert!(signals.contains(&FeedbackSignal::Positive));
}

#[test]
fn test_detect_both_signals() {
    let signals = detect_feedback_signals("不对，但谢谢你的尝试");
    assert!(signals.contains(&FeedbackSignal::Correction));
    assert!(signals.contains(&FeedbackSignal::Positive));
}

#[test]
fn test_detect_no_signals() {
    let signals = detect_feedback_signals("请帮我查看这个文件");
    assert!(signals.is_empty());
}

#[test]
fn test_detect_case_insensitive() {
    let signals = detect_feedback_signals("WRONG answer");
    assert!(signals.contains(&FeedbackSignal::Correction));
}

#[test]
fn test_detect_empty_input() {
    let signals = detect_feedback_signals("");
    assert!(signals.is_empty());
}

#[test]
fn test_session_metrics_record_tool_call() {
    let mut m = SessionMetrics::new(123, "telegram");
    m.record_tool_call("bash", true, 150);
    m.record_tool_call("read_file", false, 20);
    assert_eq!(m.tool_calls.len(), 2);
    assert!(m.tool_calls[0].success);
    assert!(!m.tool_calls[1].success);
}

#[test]
fn test_session_metrics_record_llm_usage() {
    let mut m = SessionMetrics::new(123, "web");
    m.record_llm_usage(1000, 500);
    m.record_llm_usage(800, 300);
    assert_eq!(m.llm_input_tokens, 1800);
    assert_eq!(m.llm_output_tokens, 800);
}

#[test]
fn test_session_metrics_record_error_dedup() {
    let mut m = SessionMetrics::new(123, "discord");
    m.record_error("context_overflow");
    m.record_error("tool_error");
    m.record_error("context_overflow");
    assert_eq!(m.error_count, 3);
    assert_eq!(m.error_categories.len(), 2);
}

#[test]
fn signals_of_words() {
    for text in ["Great", "great job!", "THANKS", "Exactly", "谢谢"] {
        assert_eq!(detect_feedback_signals(text), vec![FeedbackSignal::Positive], "{text}");
    }
    for text in ["that's incorrect", "错了", "wrong"] {
        assert_eq!(detect_feedback_signals(text), vec![FeedbackSignal::Correction], "{text}");
    }
}

#[test]
fn sessions_are_counted() {
    let mut m = SessionMetrics::new(-5, "feishu");
    assert_eq!(m.chat_id, -5);
    assert_eq!(m.channel, "feishu");
    assert_eq!(m.timestamp, "");
    m.record_tool_call("read", false, 3);
    assert!(chrono::DateTime::parse_from_rfc3339(&m.tool_calls[0].timestamp).is_ok());
    m.tool_calls.clear();
    m.record_tool_call_at("bash", true, 7, "t".into());
    assert_eq!(m.tool_calls[0].tool_name, "bash");
    assert_eq!(m.tool_calls[0].duration_ms, 7);
    assert_eq!(m.tool_calls[0].timestamp, "t");
    m.record_error("a");
    m.record_error("b");
    m.record_error("a");
    assert_eq!(m.error_categories, vec!["a", "b"]);
}
