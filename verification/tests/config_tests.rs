use doctreeai::config::Config;
use doctreeai::retry::{RetryDecision, RetryPolicy};
use doctreeai::DocTreeError;

fn sample_config() -> Config {
    Config {
        openai_api_base: "http://localhost:11434/v1".to_string(),
        openai_api_key: "local".to_string(),
        openai_model_name: "test-model".to_string(),
        cache_dir_name: ".doctreeai_cache".to_string(),
        log_level: "info".to_string(),
    }
}

#[test]
fn test_validate_accepts_complete_config() {
    assert!(sample_config().validate().is_ok());
    let mut https = sample_config();
    https.openai_api_base = "https://api.example.com/v1".to_string();
    assert!(https.validate().is_ok());
}

#[test]
fn test_validate_rejects_empty_fields() {
    let mut c = sample_config();
    c.openai_api_base = String::new();
    assert!(matches!(c.validate(), Err(DocTreeError::Config(_))));

    let mut c = sample_config();
    c.openai_model_name = String::new();
    assert!(matches!(c.validate(), Err(DocTreeError::Config(_))));

    let mut c = sample_config();
    c.cache_dir_name = String::new();
    assert!(matches!(c.validate(), Err(DocTreeError::Config(_))));
}

#[test]
fn test_validate_rejects_non_http_endpoint() {
    let mut c = sample_config();
    c.openai_api_base = "ftp://example.com".to_string();
    assert!(matches!(c.validate(), Err(DocTreeError::Config(_))));
}

#[test]
fn test_cache_dir_path() {
    let c = sample_config();
    assert_eq!(c.get_cache_dir_path("/work/proj"), "/work/proj/.doctreeai_cache");
}

#[test]
fn test_error_messages_carry_their_text() {
    let e = DocTreeError::summarizer("Failed to generate root-level project summary".to_string());
    assert_eq!(e.message(), "Failed to generate root-level project summary");
    assert!(matches!(e, DocTreeError::Summarizer(_)));
    let e = DocTreeError::cache("boom".to_string());
    assert!(matches!(e, DocTreeError::Cache(_)));
    let e = DocTreeError::path("no relative form".to_string());
    assert!(matches!(e, DocTreeError::Path(_)));
    let e = DocTreeError::config("missing endpoint".to_string());
    assert!(matches!(e, DocTreeError::Config(_)));
    let e = DocTreeError::scanner("malformed tree".to_string());
    assert!(matches!(e, DocTreeError::Scanner(_)));
    let e = DocTreeError::readme("unreadable document".to_string());
    assert!(matches!(e, DocTreeError::Readme(_)));
    let e = DocTreeError::unknown("anything else".to_string());
    assert!(matches!(e, DocTreeError::Unknown(_)));
}

#[test]
fn test_retry_policy_decisions() {
    let policy = RetryPolicy::new(3, 2);
    assert!(matches!(policy.on_failure(0), RetryDecision::Retry { delay_secs: 2 }));
    assert!(matches!(policy.on_failure(1), RetryDecision::Retry { delay_secs: 4 }));
    assert!(matches!(policy.on_failure(2), RetryDecision::Retry { delay_secs: 6 }));
    assert!(matches!(policy.on_failure(3), RetryDecision::GiveUp));
    assert!(matches!(policy.on_failure(100), RetryDecision::GiveUp));
}
