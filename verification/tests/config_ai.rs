use log_squeeze::ai::{bearer_authorization, chat_completions_url, first_choice_content, render_ai_summary};
use log_squeeze::config::{
    default_litellm_endpoint, default_litellm_key_env, default_litellm_model, default_lingua_method,
    default_config_path, default_max_tokens, default_timeout, default_true, select_api_key, GeneralConfig, ThresholdsConfig,
};

#[test]
fn defaults_match_the_documented_configuration() {
    let g = GeneralConfig::default();
    assert_eq!(g.mode, "auto");
    assert_eq!(g.max_lines, 200);
    let t = ThresholdsConfig::default();
    assert_eq!(t.min_lines_for_ai, 100);
    assert_eq!(t.min_lines_for_lingua, 30);
    assert!(default_true());
    assert_eq!(default_litellm_endpoint(), "http://localhost:11434/v1");
    assert_eq!(default_litellm_key_env(), "OPENAI_API_KEY");
    assert_eq!(default_litellm_model(), "llama3.2");
    assert_eq!(default_timeout(), 15);
    assert_eq!(default_max_tokens(), 500);
    assert_eq!(default_lingua_method(), "auto");
}

#[test]
fn configured_key_wins_unless_blank() {
    let s = |x: &str| Some(x.to_string());
    assert_eq!(select_api_key(s("cfg"), s("env")), s("cfg"));
    assert_eq!(select_api_key(s("  "), s("env")), s("env"));
    assert_eq!(select_api_key(None, s("env")), s("env"));
    assert_eq!(select_api_key(None, s(" \t")), None);
    assert_eq!(select_api_key(None, None), None);
}

#[test]
fn request_url_and_header() {
    assert_eq!(chat_completions_url("http://localhost:11434/v1"), "http://localhost:11434/v1/chat/completions");
    assert_eq!(chat_completions_url("http://h/v1///"), "http://h/v1/chat/completions");
    assert_eq!(chat_completions_url(""), "/chat/completions");
    assert_eq!(bearer_authorization(""), None);
    assert_eq!(bearer_authorization("abc"), Some("Bearer abc".to_string()));
}

#[test]
fn first_choice_is_the_summary() {
    assert_eq!(first_choice_content(vec!["one".to_string(), "two".to_string()]), Ok("one".to_string()));
    assert_eq!(first_choice_content(vec![]), Err("Empty choices in LiteLLM response".to_string()));
}

#[test]
fn summary_is_framed_and_trimmed() {
    assert_eq!(
        render_ai_summary("llama3.2", "\n  Root cause: disk  \n"),
        "=== [log-squeeze: AI Semantic Summary (model: llama3.2)] ===\n\nRoot cause: disk\n"
    );
}

#[test]
fn config_path_defaults_to_the_home_directory() {
    assert_eq!(default_config_path(Some("/home/ann".to_string())), "/home/ann/.config/log-squeeze/config.toml");
    assert_eq!(default_config_path(Some("/root/".to_string())), "/root/.config/log-squeeze/config.toml");
    assert_eq!(default_config_path(Some(String::new())), ".config/log-squeeze/config.toml");
    assert_eq!(default_config_path(None), "config.toml");
}
