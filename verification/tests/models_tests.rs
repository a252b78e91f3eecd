use yumchat::models::AppConfig;
use yumchat::models::ConversationMetadata;
use yumchat::models::Message;
use yumchat::models::MessageRole;

#[test]
fn test_message_creation() {
    let msg = Message::new(MessageRole::User, "Hello".to_string(), 10);
    assert_eq!(msg.role, MessageRole::User);
    assert_eq!(msg.content, "Hello");
    assert_eq!(msg.tokens, 10);
}

#[test]
fn test_message_with_token_count() {
    let msg = Message::new_with_token_count(MessageRole::User, "Hello world".to_string());
    assert_eq!(msg.role, MessageRole::User);
    assert_eq!(msg.content, "Hello world");
    assert!(msg.tokens > 0);
}

#[test]
fn test_app_config_default() {
    let config = AppConfig::default();
    assert_eq!(config.ollama_url, "http://localhost:11434");
    assert_eq!(config.default_model, "qwen3:4b");
}

#[test]
fn test_conversation_metadata_new() {
    let meta = ConversationMetadata::new();
    assert!(meta.summary.is_none());
    assert_eq!(meta.total_tokens, 0);
}

#[test]
fn test_conversation_metadata_update_tokens() {
    let mut meta = ConversationMetadata::new();
    meta.update_tokens(100);
    assert_eq!(meta.total_tokens, 100);
    meta.update_tokens(50);
    assert_eq!(meta.total_tokens, 150);
}

#[test]
fn test_conversation_metadata_set_summary() {
    let mut meta = ConversationMetadata::new();
    meta.set_summary("Test summary".to_string());
    assert_eq!(meta.summary, Some("Test summary".to_string()));
}
