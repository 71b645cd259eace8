use bohay::pricing::{
    effective_window, model_family, model_window, override_match, short_model_tag, ModelFamily,
};

#[test]
fn families_are_matched_by_substring() {
    assert_eq!(model_family("opus-4-8"), Some(ModelFamily::Opus));
    assert_eq!(model_family("Sonnet-4"), Some(ModelFamily::Sonnet));
    assert_eq!(model_family("3-5-haiku"), Some(ModelFamily::Haiku));
    assert_eq!(model_family("gpt-4.1-mini"), Some(ModelFamily::Gpt));
    assert_eq!(model_family("GPT-5"), Some(ModelFamily::Gpt));
    assert_eq!(model_family("o3-mini"), Some(ModelFamily::Reasoning));
    assert_eq!(model_family("some-unknown-model"), None);
    assert_eq!(model_family("gpt-3.5"), None);
}

#[test]
fn windows_follow_the_model_and_the_context() {
    assert_eq!(model_window("opus-x"), 200_000);
    assert_eq!(model_window("GPT-4o"), 128_000);
    assert_eq!(model_window("o1-preview"), 128_000);
    assert_eq!(effective_window("opus-x", 100_000), 200_000);
    assert_eq!(effective_window("opus-x", 200_000), 200_000);
    assert_eq!(effective_window("opus-4-8", 978_000), 1_000_000);
    assert_eq!(effective_window("gpt-4o", 978_000), 128_000);
}

#[test]
fn first_matching_override_wins() {
    let keys = vec!["sonnet".to_string(), "OPUS".to_string(), "opus-4".to_string()];
    assert_eq!(override_match("opus-4-8", &keys), Some(1));
    assert_eq!(override_match("haiku-x", &keys), None);
    assert_eq!(override_match("opus-x", &Vec::new()), None);
}

#[test]
fn short_model_tags() {
    assert_eq!(short_model_tag("opus-4-8").as_deref(), Some("opus"));
    assert_eq!(short_model_tag("gpt-5-codex").as_deref(), Some("gpt-5"));
    assert_eq!(short_model_tag("GPT-4o").as_deref(), Some("gpt-4o"));
    assert_eq!(short_model_tag("o1"), Some("o1".to_string()));
    assert_eq!(short_model_tag("mystery-model"), None);
}
