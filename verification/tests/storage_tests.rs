use yumchat::models::Message;
use yumchat::models::MessageRole;
use yumchat::storage::format_conversation;
use yumchat::storage::Storage;

#[test]
fn test_parse_conversation() {
    let content = "## User\n\nHello world\n\n## Assistant\n\nHi there!\n\n";

    let messages = Storage::parse_conversation(content);
    assert_eq!(messages.len(), 2);
    assert_eq!(messages[0].content, "Hello world");
    assert_eq!(messages[1].content, "Hi there!");
}

#[test]
fn test_parse_conversation_roles() {
    let content = "## User\n\nquestion\n\n## Assistant\n\nanswer\n\n";
    let messages = Storage::parse_conversation(content);
    assert_eq!(messages[0].role, MessageRole::User);
    assert_eq!(messages[1].role, MessageRole::Assistant);
    assert_eq!(messages[0].tokens, 0);
}

#[test]
fn test_format_conversation_exact() {
    let messages = vec![
        Message::new(MessageRole::User, "Hello".to_string(), 10),
        Message::new(MessageRole::Assistant, "Hi there!".to_string(), 15),
    ];
    let text = format_conversation(&messages);
    assert_eq!(text, "## User\n\nHello\n\n## Assistant\n\nHi there!\n\n");
}

#[test]
fn test_format_then_parse_round_trip() {
    let messages = vec![
        Message::new(MessageRole::User, "Hello".to_string(), 10),
        Message::new(MessageRole::Assistant, "Hi there!".to_string(), 15),
    ];
    let text = format_conversation(&messages);
    let parsed = Storage::parse_conversation(&text);
    assert_eq!(parsed.len(), 2);
    assert_eq!(parsed[0].role, MessageRole::User);
    assert_eq!(parsed[0].content, "Hello");
    assert_eq!(parsed[1].role, MessageRole::Assistant);
    assert_eq!(parsed[1].content, "Hi there!");
}

#[test]
fn test_conversation_paths() {
    let storage = Storage::from_config_dir("/tmp/yumchat-config".to_string());
    let id = uuid::Uuid::new_v4();

    let conv_path = storage.get_conversation_path(id.as_u128());
    assert!(conv_path.contains(&id.to_string()));
    assert!(conv_path.ends_with(".md"));

    let meta_path = storage.get_metadata_path(id.as_u128());
    assert!(meta_path.contains(&id.to_string()));
    assert!(meta_path.ends_with("_meta.json"));
}

#[test]
fn test_uuid_rendering_matches_canonical_form() {
    // a fixed identifier with every nibble exercised
    let id: u128 = 0x0123_4567_89ab_cdef_0f1e_2d3c_4b5a_6978;
    let path = Storage::from_config_dir("/c".to_string()).get_conversation_path(id);
    assert_eq!(path, "/c/chats/01234567-89ab-cdef-0f1e-2d3c4b5a6978.md");
}
