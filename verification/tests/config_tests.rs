use yumchat::config::get_config_path;
use yumchat::config::get_models_path;

#[test]
fn test_config_path_in_directory() {
    assert_eq!(get_config_path("/home/u/.config/yumchat"), "/home/u/.config/yumchat/config.toml");
}

#[test]
fn test_models_path_in_directory() {
    assert_eq!(get_models_path("/home/u/.config/yumchat"), "/home/u/.config/yumchat/models.json");
}

#[test]
fn test_api_get_text_prefers_response() {
    let with_response = yumchat::api::GenerateResponse {
        response: "answer".to_string(),
        thinking: "thought".to_string(),
        done: false,
    };
    assert_eq!(with_response.get_text(), "answer");

    let thinking_only = yumchat::api::GenerateResponse {
        response: String::new(),
        thinking: "thought".to_string(),
        done: false,
    };
    assert_eq!(thinking_only.get_text(), "thought");
}
