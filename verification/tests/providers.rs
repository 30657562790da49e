use aldebaran::providers::{detect_provider_kind, resolve_model_alias, ProviderKind};

#[test]
fn resolves_deepseek_aliases() {
    assert_eq!(resolve_model_alias("pro"), "deepseek-v4-pro");
    assert_eq!(resolve_model_alias("flash"), "deepseek-v4-flash");
    assert_eq!(
        resolve_model_alias("deepseek-v4-pro"),
        "deepseek-v4-pro"
    );
}

#[test]
fn detect_provider_is_always_deepseek() {
    assert_eq!(
        detect_provider_kind("deepseek-v4-pro"),
        ProviderKind::Deepseek
    );
    assert_eq!(
        detect_provider_kind("unknown-model"),
        ProviderKind::Deepseek // fallback
    );
}
