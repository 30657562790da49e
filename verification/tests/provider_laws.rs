use aldebaran::providers::{
    dotenv_value_in, max_tokens_for_model, max_tokens_for_model_with_override, metadata_for_model,
    model_token_limit, preflight_message_request, resolve_model_alias, ApiError, InputContentBlock,
    InputMessage, MessageRequest, ModelTokenLimit, ProviderKind, ToolResultContentBlock,
    DEFAULT_DEEPSEEK_BASE_URL,
};

#[test]
fn aliases_ignore_case_and_space() {
    assert_eq!(resolve_model_alias("  PRO "), "deepseek-v4-pro");
    assert_eq!(resolve_model_alias("Auto"), "deepseek-v4-flash");
    assert_eq!(resolve_model_alias("deepseek"), "deepseek-v4-flash");
    assert_eq!(resolve_model_alias(" Other-Model "), "Other-Model");
    for m in ["pro", "flash", "auto", " x ", "deepseek-v4-pro"] {
        let once = resolve_model_alias(m);
        assert_eq!(resolve_model_alias(&once), once);
    }
}

#[test]
fn token_limits_by_model() {
    let v4 = ModelTokenLimit { max_output_tokens: 128_000, context_window_tokens: 1_000_000 };
    let legacy = ModelTokenLimit { max_output_tokens: 32_000, context_window_tokens: 128_000 };
    assert_eq!(model_token_limit("pro"), Some(v4));
    assert_eq!(model_token_limit("deepseek-chat"), Some(legacy));
    assert_eq!(model_token_limit("vendor/deepseek-coder"), Some(legacy));
    assert_eq!(model_token_limit("gpt-x"), Some(v4));
    assert_eq!(max_tokens_for_model("deepseek-chat"), 32_000);
    assert_eq!(max_tokens_for_model("flash"), 128_000);
    assert_eq!(max_tokens_for_model_with_override("deepseek-chat", Some(7)), 7);
    assert_eq!(max_tokens_for_model_with_override("deepseek-chat", None), 32_000);
}

#[test]
fn metadata_for_deepseek_or_configured() {
    let m = metadata_for_model("pro", false).unwrap();
    assert_eq!(m.provider, ProviderKind::Deepseek);
    assert_eq!(m.auth_env, "DEEPSEEK_API_KEY");
    assert_eq!(m.base_url_env, "DEEPSEEK_BASE_URL");
    assert_eq!(m.default_base_url, DEFAULT_DEEPSEEK_BASE_URL);
    assert!(metadata_for_model("gpt-x", false).is_none());
    assert!(metadata_for_model("gpt-x", true).is_some());
}

fn request(model: &str, max_tokens: u32, text: &str) -> MessageRequest {
    MessageRequest {
        model: model.to_string(),
        max_tokens,
        system: Some("abcd".to_string()),
        messages: vec![InputMessage {
            content: vec![
                InputContentBlock::Text { text: text.to_string() },
                InputContentBlock::ToolResult {
                    tool_use_id: "id".to_string(),
                    content: vec![ToolResultContentBlock::Json { value: "{}".to_string() }],
                },
            ],
        }],
    }
}

#[test]
fn preflight_checks_context_window() {
    assert!(preflight_message_request(&request("deepseek-chat", 1000, "hello")).is_ok());
    // 4 + 8 + 2 + 2 = 16 characters: 4 tokens; 4 + 127_997 > 128_000.
    match preflight_message_request(&request(" deepseek-chat ", 127_997, "héllo€€€")) {
        Err(ApiError::ContextWindowExceeded {
            model,
            estimated_input_tokens,
            requested_output_tokens,
            estimated_total_tokens,
            context_window_tokens,
        }) => {
            assert_eq!(model, "deepseek-chat");
            assert_eq!(estimated_input_tokens, 4);
            assert_eq!(requested_output_tokens, 127_997);
            assert_eq!(estimated_total_tokens, 128_001);
            assert_eq!(context_window_tokens, 128_000);
        }
        Ok(()) => panic!("expected the context window to be exceeded"),
    }
    match preflight_message_request(&request("pro", u32::MAX, "")) {
        Err(ApiError::ContextWindowExceeded { estimated_total_tokens, .. }) => {
            assert_eq!(estimated_total_tokens, u32::MAX)
        }
        Ok(()) => panic!("expected the context window to be exceeded"),
    }
}

#[test]
fn dotenv_lookup() {
    let text = "# comment\n\nOTHER=1\nKEY = \"'quoted'\"\nKEY=second\n";
    assert_eq!(dotenv_value_in(text, "KEY"), Some("quoted".to_string()));
    assert_eq!(dotenv_value_in("KEY=\"\"\nKEY=x", "KEY"), Some("x".to_string()));
    assert_eq!(dotenv_value_in("#KEY=x\nKEYS=y", "KEY"), None);
}
