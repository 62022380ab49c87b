use peer_discovery_center::auth::{Admission, AuthConfig, AuthState};

const SECOND: u64 = 1_000_000_000;

#[test]
fn test_api_key_disabled() {
    let state = AuthState::new(AuthConfig::default());
    assert!(state.validate_api_key(None, None));
}

#[test]
fn test_api_key_enabled_no_keys() {
    let config = AuthConfig { enabled: true, api_keys: vec![], ..Default::default() };
    let state = AuthState::new(config);
    assert!(state.validate_api_key(None, None));
}

#[test]
fn test_api_key_valid() {
    let config = AuthConfig {
        enabled: true,
        api_keys: vec!["test-key-123".to_string()],
        ..Default::default()
    };
    let state = AuthState::new(config);
    assert!(state.validate_api_key(Some("test-key-123"), None));
}

#[test]
fn test_api_key_invalid() {
    let config = AuthConfig {
        enabled: true,
        api_keys: vec!["test-key-123".to_string()],
        ..Default::default()
    };
    let state = AuthState::new(config);
    assert!(!state.validate_api_key(Some("wrong-key"), None));
}

#[test]
fn test_api_key_bearer_token() {
    let config = AuthConfig {
        enabled: true,
        api_keys: vec!["bearer-key".to_string()],
        ..Default::default()
    };
    let state = AuthState::new(config);
    assert!(state.validate_api_key(None, Some("Bearer bearer-key")));
}

#[test]
fn test_rate_limit_disabled() {
    let mut state = AuthState::new(AuthConfig::default());
    for _ in 0..1000 {
        assert!(state.check_rate_limit("client1"));
    }
}

#[test]
fn test_rate_limit_enabled() {
    let config = AuthConfig {
        rate_limit_per_second: 10,
        rate_limit_window_secs: 1,
        ..Default::default()
    };
    let mut state = AuthState::new(config);

    for i in 0..10 {
        assert!(state.check_rate_limit("client1"), "request {} is within the limit", i);
    }
    assert!(!state.check_rate_limit("client1"));
}

#[test]
fn test_rate_limit_independent_clients() {
    let config = AuthConfig {
        rate_limit_per_second: 5,
        rate_limit_window_secs: 1,
        ..Default::default()
    };
    let mut state = AuthState::new(config);

    for _ in 0..5 {
        assert!(state.check_rate_limit("client1"));
    }
    assert!(!state.check_rate_limit("client1"));
    for _ in 0..5 {
        assert!(state.check_rate_limit("client2"));
    }
}

#[test]
fn test_update_config() {
    let mut state = AuthState::new(AuthConfig::default());
    assert!(state.validate_api_key(None, None));

    let new_config = AuthConfig {
        enabled: true,
        api_keys: vec!["new-key".to_string()],
        ..Default::default()
    };
    state.update_config(new_config);
    assert!(!state.validate_api_key(None, None));
}

#[test]
fn bearer_needs_its_prefix() {
    let config = AuthConfig {
        enabled: true,
        api_keys: vec!["bearer-key".to_string()],
        ..Default::default()
    };
    let state = AuthState::new(config);
    assert!(!state.validate_api_key(None, Some("bearer-key")));
    assert!(!state.validate_api_key(None, Some("Basic bearer-key")));
    assert!(!state.validate_api_key(None, Some("Bearer other-key")));
}

#[test]
fn a_new_window_lets_requests_through_again() {
    let config = AuthConfig {
        rate_limit_per_second: 2,
        rate_limit_window_secs: 3,
        ..Default::default()
    };
    let mut state = AuthState::new(config);
    for _ in 0..6 {
        assert!(state.check_rate_limit_at("client", 0));
    }
    assert!(!state.check_rate_limit_at("client", 0));
    assert!(!state.check_rate_limit_at("client", 2 * SECOND));
    assert!(state.check_rate_limit_at("client", 10 * SECOND));
}

#[test]
fn judging_a_request() {
    let config = AuthConfig {
        enabled: true,
        api_keys: vec!["key".to_string()],
        rate_limit_per_second: 1,
        rate_limit_window_secs: 1,
        ..Default::default()
    };
    let mut state = AuthState::new(config);
    assert_eq!(state.judge_at(None, None, "client", 0), Admission::Unauthorized);
    assert_eq!(state.judge_at(Some("key"), None, "client", 0), Admission::Admitted);
    assert_eq!(state.judge_at(Some("key"), None, "client", 0), Admission::TooManyRequests);
    assert_eq!(state.judge_at(Some("key"), None, "other", 0), Admission::Admitted);
}
