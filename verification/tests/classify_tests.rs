use yumchat::api::GenerateResponse;
use yumchat::classify::SegmentClassifier;
use yumchat::classify::StreamEvent;

fn unit(response: &str, thinking: &str, done: bool) -> GenerateResponse {
    GenerateResponse {
        response: response.to_string(),
        thinking: thinking.to_string(),
        done,
    }
}

#[test]
fn test_classify_reasoning_then_answer() {
    // units [{reasoning:"A"}, {reasoning:"B"}, {response:"C", done:true}]
    let mut c = SegmentClassifier::new();
    let mut events = Vec::new();
    events.extend(c.on_unit(&unit("", "A", false)));
    events.extend(c.on_unit(&unit("", "B", false)));
    events.extend(c.on_unit(&unit("C", "", true)));
    assert_eq!(
        events,
        vec![
            StreamEvent::ReasoningOpen,
            StreamEvent::ReasoningChunk("A".to_string()),
            StreamEvent::ReasoningChunk("B".to_string()),
            StreamEvent::ReasoningClose,
            StreamEvent::AnswerChunk("C".to_string()),
            StreamEvent::StreamComplete,
        ]
    );
}

#[test]
fn test_classify_answer_only() {
    let mut c = SegmentClassifier::new();
    let events = c.on_unit(&unit("hello", "", false));
    assert_eq!(events, vec![StreamEvent::AnswerChunk("hello".to_string())]);
    assert!(!c.in_reasoning);
}

#[test]
fn test_premature_end_still_completes() {
    // a source exhausted without done:true still terminates with StreamComplete
    let mut c = SegmentClassifier::new();
    let mut events = Vec::new();
    events.extend(c.on_unit(&unit("", "thinking...", false)));
    events.extend(c.on_end());
    assert_eq!(
        events,
        vec![
            StreamEvent::ReasoningOpen,
            StreamEvent::ReasoningChunk("thinking...".to_string()),
            StreamEvent::ReasoningClose,
            StreamEvent::StreamComplete,
        ]
    );
    assert!(c.terminated);
}

#[test]
fn test_error_closes_span_then_fails() {
    let mut c = SegmentClassifier::new();
    let opening = c.on_unit(&unit("", "A", false));
    assert_eq!(opening.len(), 2);
    let events = c.on_error("connection dropped".to_string());
    assert_eq!(
        events,
        vec![
            StreamEvent::ReasoningClose,
            StreamEvent::StreamFailed("connection dropped".to_string()),
        ]
    );
}

#[test]
fn test_nothing_follows_the_terminal_event() {
    let mut c = SegmentClassifier::new();
    let _ = c.on_unit(&unit("x", "", true));
    assert!(c.terminated);
    assert!(c.on_unit(&unit("y", "", false)).is_empty());
    assert!(c.on_error("late".to_string()).is_empty());
    assert!(c.on_end().is_empty());
}

#[test]
fn test_unit_with_both_fields_brackets_reasoning() {
    let mut c = SegmentClassifier::new();
    let events = c.on_unit(&unit("answer", "thought", false));
    assert_eq!(
        events,
        vec![
            StreamEvent::ReasoningOpen,
            StreamEvent::ReasoningChunk("thought".to_string()),
            StreamEvent::ReasoningClose,
            StreamEvent::AnswerChunk("answer".to_string()),
        ]
    );
    assert!(!c.in_reasoning);
}
