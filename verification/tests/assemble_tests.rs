use yumchat::assemble::TurnAssembler;
use yumchat::classify::StreamEvent;

#[test]
fn test_token_count_after_appends() {
    // "a b c" is 3 words: 4 + ceil(3 * 1.3) = 8; after " d" it is 4 words:
    // 4 + ceil(4 * 1.3) = 10, a delta of 2
    let mut t = TurnAssembler::new(false);
    t.apply_event(&StreamEvent::AnswerChunk("a b c".to_string()), 0);
    assert_eq!(t.token_count, 8);
    t.apply_event(&StreamEvent::AnswerChunk(" d".to_string()), 2000);
    assert_eq!(t.token_count, 10);
    assert_eq!(t.content, "a b c d");
    assert_eq!(t.generated_tokens, 10);
    // 10 tokens over 2 seconds: 5 tokens per second, in thousandths
    assert_eq!(t.tokens_per_second_milli, 5000);
}

#[test]
fn test_rate_not_updated_without_elapsed_time() {
    let mut t = TurnAssembler::new(false);
    t.apply_event(&StreamEvent::AnswerChunk("one".to_string()), 500);
    // the timer starts on the first append, so no time has elapsed yet
    assert_eq!(t.started_at_ms, Some(500));
    assert_eq!(t.tokens_per_second_milli, 0);
}

#[test]
fn test_cancel_mid_stream() {
    let mut t = TurnAssembler::new(false);
    t.apply_event(&StreamEvent::AnswerChunk("partial answer".to_string()), 0);
    t.cancel();
    assert!(t.finished);
    assert!(t
        .content
        .ends_with("\n\n[Response stream aborted by user]"));
    assert!(t.content.starts_with("partial answer"));
    assert!(t.started_at_ms.is_none());

    // a late event for the turn mutates nothing
    let content_before = t.content.clone();
    let rate_before = t.tokens_per_second_milli;
    let count_before = t.token_count;
    t.apply_event(&StreamEvent::AnswerChunk("late".to_string()), 9999);
    assert_eq!(t.content, content_before);
    assert_eq!(t.tokens_per_second_milli, rate_before);
    assert_eq!(t.token_count, count_before);
}

#[test]
fn test_finalizing_twice_is_idempotent() {
    let mut t = TurnAssembler::new(false);
    t.apply_event(&StreamEvent::AnswerChunk("body".to_string()), 0);
    t.apply_event(&StreamEvent::StreamFailed("boom".to_string()), 10);
    assert!(t.finished);
    assert_eq!(t.failure_notice, Some("Error: boom".to_string()));

    // duplicate terminal deliveries change nothing
    t.apply_event(&StreamEvent::StreamFailed("again".to_string()), 20);
    assert_eq!(t.failure_notice, Some("Error: boom".to_string()));
    t.apply_event(&StreamEvent::StreamComplete, 30);
    assert_eq!(t.failure_notice, Some("Error: boom".to_string()));
    assert_eq!(t.content, "body");
}

#[test]
fn test_cancelling_twice_appends_one_marker() {
    let mut t = TurnAssembler::new(false);
    t.apply_event(&StreamEvent::AnswerChunk("text".to_string()), 0);
    t.cancel();
    let once = t.content.clone();
    t.cancel();
    assert_eq!(t.content, once);
    assert_eq!(t.content.matches("[Response stream aborted by user]").count(), 1);
}

#[test]
fn test_hidden_reasoning_still_counts_tokens() {
    let mut t = TurnAssembler::new(false);
    t.apply_event(&StreamEvent::ReasoningOpen, 0);
    assert!(t.in_reasoning_span);
    t.apply_event(
        &StreamEvent::ReasoningChunk("deep thought".to_string()),
        1,
    );
    t.apply_event(&StreamEvent::ReasoningClose, 2);
    assert!(!t.in_reasoning_span);
    // nothing is shown, but the reasoning tokens were generated and counted
    assert_eq!(t.content, "");
    assert!(t.token_count > 4);
    assert!(t.generated_tokens > 0);
}

#[test]
fn test_shown_reasoning_is_wrapped_in_markers() {
    let mut t = TurnAssembler::new(true);
    t.apply_event(&StreamEvent::ReasoningOpen, 0);
    t.apply_event(&StreamEvent::ReasoningChunk("why".to_string()), 1);
    t.apply_event(&StreamEvent::ReasoningClose, 2);
    t.apply_event(&StreamEvent::AnswerChunk("because".to_string()), 3);
    assert_eq!(t.content, "<thinking>\nwhy\n</thinking>\nbecause");
}

#[test]
fn test_complete_stops_the_timer() {
    let mut t = TurnAssembler::new(false);
    t.apply_event(&StreamEvent::AnswerChunk("done soon".to_string()), 100);
    assert!(t.started_at_ms.is_some());
    t.apply_event(&StreamEvent::StreamComplete, 200);
    assert!(t.finished);
    assert!(t.started_at_ms.is_none());
    assert_eq!(t.content, "done soon");
    assert!(t.failure_notice.is_none());
}
