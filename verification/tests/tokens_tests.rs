use yumchat::count_conversation_tokens;
use yumchat::count_message_tokens;
use yumchat::estimate_tokens;
use yumchat::remaining_tokens;

#[test]
fn test_estimate_tokens() {
    assert!(estimate_tokens("Hello world") > 0);
    assert!(estimate_tokens("") == 0);

    let short = estimate_tokens("Hi");
    let long = estimate_tokens("This is a much longer sentence with many words");
    assert!(long > short);
}

#[test]
fn test_count_message_tokens() {
    let tokens = count_message_tokens("user", "Hello world");
    assert!(tokens > 4);

    let user_tokens = count_message_tokens("user", "Test");
    let assistant_tokens = count_message_tokens("assistant", "Test");
    assert_eq!(user_tokens, assistant_tokens);
}

#[test]
fn test_count_conversation_tokens() {
    let messages = vec![
        ("user".to_string(), "Hello".to_string()),
        ("assistant".to_string(), "Hi there!".to_string()),
    ];

    let total = count_conversation_tokens(&messages);
    assert!(total > 0);

    let individual_sum =
        count_message_tokens("user", "Hello") + count_message_tokens("assistant", "Hi there!");
    assert_eq!(total, individual_sum);
}

#[test]
fn test_remaining_tokens() {
    assert_eq!(remaining_tokens(100, 1000), 900);
    assert_eq!(remaining_tokens(1000, 1000), 0);
    assert_eq!(remaining_tokens(1500, 1000), 0);
}

#[test]
fn test_token_estimation_consistency() {
    let text = "The quick brown fox jumps over the lazy dog";
    let tokens1 = estimate_tokens(text);
    let tokens2 = estimate_tokens(text);
    assert_eq!(tokens1, tokens2);
}

#[test]
fn test_empty_conversation() {
    let messages: Vec<(String, String)> = vec![];
    assert_eq!(count_conversation_tokens(&messages), 0);
}

#[test]
fn test_long_text() {
    let long_text = "word ".repeat(1000);
    let tokens = estimate_tokens(&long_text);
    assert!(tokens > 1000);
    assert!(tokens < 2000);
}

#[test]
fn test_estimate_tokens_exact_ceiling() {
    // three words: 4 words-per-token estimate is ceil(3 * 1.3) = 4
    assert_eq!(estimate_tokens("a b c"), 4);
    // four words: ceil(4 * 1.3) = 6
    assert_eq!(estimate_tokens("a b c d"), 6);
    // ten words: ceil(10 * 1.3) = 13 exactly
    assert_eq!(estimate_tokens("a b c d e f g h i j"), 13);
    // whitespace variety still separates words
    assert_eq!(estimate_tokens("  a\t b \n c  "), 4);
}
