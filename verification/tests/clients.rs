use llmao::client::{
    completion_url, prepare_request_body, request_headers, DispatchStep, LlmClient,
};
use llmao::config::{
    ConfigLoader, KeyPoolConfig, ProviderConfig, ProvidersConfig, RotationStrategy,
    SpecialHandling,
};
use llmao::error::LlmaoError;

const NOW: u64 = 42_000_000;

fn provider(base_url: &str, key_env: Option<&str>) -> ProviderConfig {
    ProviderConfig {
        base_url: base_url.to_string(),
        api_key_env: key_env.map(|s| s.to_string()),
        api_keys_env: None,
        api_base_env: None,
        models: vec![],
        param_mappings: vec![],
        headers: vec![],
        rate_limit: None,
        special_handling: SpecialHandling::default(),
    }
}

fn test_config(pool_keys: &[&str]) -> ProvidersConfig {
    ProvidersConfig {
        providers: vec![("test".to_string(), provider("https://api.test.com/v1", None))],
        key_pools: vec![(
            "test".to_string(),
            KeyPoolConfig {
                keys_env: vec![],
                keys: pool_keys.iter().map(|k| k.to_string()).collect(),
                rotation_strategy: RotationStrategy::RoundRobin,
            },
        )],
    }
}

#[test]
fn test_load_builtin_defaults() {
    let loader = ConfigLoader::new();
    assert!(!loader.config().providers.is_empty());
}

#[test]
fn test_merge_configs() {
    let mut loader = ConfigLoader::new();
    let initial_count = loader.config().providers.len();

    let custom = ProvidersConfig {
        providers: vec![(
            "new_provider".to_string(),
            provider("https://new.api.com", Some("NEW_KEY")),
        )],
        key_pools: vec![],
    };

    loader.merge_config(custom);
    assert_eq!(loader.config().providers.len(), initial_count + 1);
}

#[test]
fn test_merge_overrides_same_name() {
    let mut loader = ConfigLoader::from_config(ProvidersConfig {
        providers: vec![("p".to_string(), provider("https://old.example", None))],
        key_pools: vec![],
    });
    loader.merge_config(ProvidersConfig {
        providers: vec![("p".to_string(), provider("https://new.example", None))],
        key_pools: vec![],
    });
    assert_eq!(loader.config().providers.len(), 1);
    assert_eq!(loader.config().providers[0].1.base_url, "https://new.example");
}

#[test]
fn test_from_loader_builds_pools() {
    let loader = ConfigLoader::from_config(test_config(&["k1", "k2"]));
    let client = LlmClient::from_loader(loader);
    assert_eq!(client.key_pools.len(), 1);
    assert_eq!(client.key_pools[0].provider(), "test");
    assert_eq!(client.key_pools[0].len(), 2);
}

#[test]
fn test_get_provider_not_found() {
    let loader = ConfigLoader::from_config(test_config(&["k1"]));
    let client = LlmClient::from_loader(loader);
    assert!(client.get_provider("test").is_ok());
    let err = client.get_provider("nope").unwrap_err();
    assert!(matches!(err, LlmaoError::ProviderNotFound(_)));
    assert!(err.message().contains("nope"));
}

#[test]
fn test_get_api_key_from_pool() {
    let loader = ConfigLoader::from_config(test_config(&["k1", "k2"]));
    let mut client = LlmClient::from_loader(loader);
    let env: Vec<(String, String)> = vec![];
    assert_eq!(client.get_api_key("test", NOW, 0, &env).unwrap(), "k1");
    assert_eq!(client.get_api_key("test", NOW, 0, &env).unwrap(), "k2");
    assert_eq!(client.get_api_key("test", NOW, 0, &env).unwrap(), "k1");
}

#[test]
fn test_get_api_key_from_env() {
    let cfg = ProvidersConfig {
        providers: vec![("acme".to_string(), provider("https://a", Some("ACME_KEY")))],
        key_pools: vec![],
    };
    let mut client = LlmClient::from_loader(ConfigLoader::from_config(cfg));
    let env = vec![("ACME_KEY".to_string(), "sk-1".to_string())];
    assert_eq!(client.get_api_key("acme", NOW, 0, &env).unwrap(), "sk-1");
    let empty: Vec<(String, String)> = vec![];
    let err = client.get_api_key("acme", NOW, 0, &empty).unwrap_err();
    assert!(matches!(err, LlmaoError::NoKeysAvailable(_)));
}

#[test]
fn test_dispatch_exhausts_budget() {
    // every attempt is rate limited: dispatch uses each credential once,
    // then surfaces a rate-limited error naming the provider
    let loader = ConfigLoader::from_config(test_config(&["k1", "k2", "k3"]));
    let mut client = LlmClient::from_loader(loader);
    let env: Vec<(String, String)> = vec![];

    let mut st = client.begin_dispatch("test");
    assert_eq!(st.attempts_left, 3);

    let mut attempts = 0;
    loop {
        match client.dispatch_select(&mut st, NOW, 0, &env) {
            DispatchStep::UseKey(key) => {
                attempts += 1;
                assert!(attempts <= 3, "dispatch kept retrying past its budget");
                client.dispatch_rate_limited(&mut st, &key, Some(30_000), NOW);
            }
            DispatchStep::Fail(e) => {
                match &e {
                    LlmaoError::RateLimited { provider, retry_after } => {
                        assert_eq!(provider, "test");
                        assert_eq!(*retry_after, Some(30_000));
                    }
                    _ => panic!("expected a rate-limited error"),
                }
                assert!(e.message().contains("test"));
                break;
            }
        }
    }
    assert_eq!(attempts, 3);
}

#[test]
fn test_dispatch_without_pool_has_single_attempt() {
    let cfg = ProvidersConfig {
        providers: vec![("acme".to_string(), provider("https://a", Some("ACME_KEY")))],
        key_pools: vec![],
    };
    let mut client = LlmClient::from_loader(ConfigLoader::from_config(cfg));
    let env = vec![("ACME_KEY".to_string(), "sk-1".to_string())];
    let mut st = client.begin_dispatch("acme");
    assert_eq!(st.attempts_left, 1);
    match client.dispatch_select(&mut st, NOW, 0, &env) {
        DispatchStep::UseKey(k) => assert_eq!(k, "sk-1"),
        DispatchStep::Fail(_) => panic!("expected a key"),
    }
    client.dispatch_rate_limited(&mut st, "sk-1", None, NOW);
    match client.dispatch_select(&mut st, NOW, 0, &env) {
        DispatchStep::Fail(e) => {
            assert!(matches!(e, LlmaoError::RateLimited { .. }));
        }
        DispatchStep::UseKey(_) => panic!("expected exhaustion"),
    }
}

#[test]
fn test_provider_info() {
    let loader = ConfigLoader::from_config(test_config(&["k1"]));
    let client = LlmClient::from_loader(loader);
    let info = client.provider_info("test").unwrap();
    assert_eq!(info.name, "test");
    assert_eq!(info.base_url, "https://api.test.com/v1");
    assert!(info.has_keys);
    assert!(client.provider_info("nope").is_none());
    assert_eq!(client.providers(), vec!["test".to_string()]);
}

#[test]
fn test_completion_url() {
    assert_eq!(completion_url("https://api.test.com/v1"), "https://api.test.com/v1/chat/completions");
    assert_eq!(completion_url("https://api.test.com/v1/"), "https://api.test.com/v1/chat/completions");
    assert_eq!(completion_url("https://api.test.com/v1//"), "https://api.test.com/v1/chat/completions");
}

#[test]
fn test_apply_param_mappings() {
    let mut cfg = provider("https://api.example.com", None);
    cfg.param_mappings = vec![("max_completion_tokens".to_string(), "max_tokens".to_string())];

    let mut params: Vec<(String, serde_json::Value)> = vec![
        ("model".to_string(), serde_json::Value::String("gpt-4".to_string())),
        (
            "max_completion_tokens".to_string(),
            serde_json::Value::Number(serde_json::Number::from(1000u64)),
        ),
    ];

    cfg.apply_param_mappings(&mut params);

    assert!(!params.iter().any(|(k, _)| k == "max_completion_tokens"));
    let max = params.iter().find(|(k, _)| k == "max_tokens").map(|(_, v)| v.clone()).unwrap();
    assert_eq!(max, serde_json::Value::Number(serde_json::Number::from(1000u64)));
}

#[test]
fn test_prepare_request_body() {
    let mut cfg = provider("https://api.example.com", None);
    cfg.param_mappings = vec![("max_tokens".to_string(), "max_completion_tokens".to_string())];
    let mut body: Vec<(String, serde_json::Value)> = vec![(
        "max_tokens".to_string(),
        serde_json::Value::Number(serde_json::Number::from(5u64)),
    )];
    prepare_request_body(&cfg, "gpt-4/dep1".to_string(), true, &mut body);
    let model = body.iter().find(|(k, _)| k == "model").map(|(_, v)| v.clone()).unwrap();
    assert_eq!(model, serde_json::Value::String("gpt-4/dep1".to_string()));
    let stream = body.iter().find(|(k, _)| k == "stream").map(|(_, v)| v.clone()).unwrap();
    assert_eq!(stream, serde_json::Value::Bool(true));
    assert!(body.iter().any(|(k, _)| k == "max_completion_tokens"));
    assert!(!body.iter().any(|(k, _)| k == "max_tokens"));
}

#[test]
fn test_get_api_keys_deduplicates() {
    let mut cfg = provider("https://a", Some("KEY_A"));
    cfg.api_keys_env = Some(vec!["KEY_B".to_string(), "KEY_A2".to_string()]);
    let env = vec![
        ("KEY_A".to_string(), "one".to_string()),
        ("KEY_B".to_string(), "two".to_string()),
        ("KEY_A2".to_string(), "one".to_string()),
    ];
    let keys = cfg.get_api_keys(&env);
    assert_eq!(keys, vec!["one".to_string(), "two".to_string()]);
}

#[test]
fn test_get_base_url_override() {
    let mut cfg = provider("https://default.example", None);
    cfg.api_base_env = Some("ACME_BASE".to_string());
    let env = vec![("ACME_BASE".to_string(), "https://override.example".to_string())];
    assert_eq!(cfg.get_base_url(&env), "https://override.example");
    let empty: Vec<(String, String)> = vec![];
    assert_eq!(cfg.get_base_url(&empty), "https://default.example");
}

#[test]
fn test_special_handling_default() {
    let flags = SpecialHandling::default();
    assert!(flags.is_default());
    let set = SpecialHandling {
        convert_content_list_to_string: true,
        add_text_to_tool_calls: false,
        use_legacy_completions: false,
    };
    assert!(!set.is_default());
}

#[test]
fn test_request_headers_precedence() {
    let extra = vec![("x-acme".to_string(), "1".to_string())];
    let hs = request_headers("sk-1", &extra);
    let get = |name: &str| {
        hs.iter().rev().find(|(k, _)| k == name).map(|(_, v)| v.clone())
    };
    assert_eq!(get("content-type"), Some("application/json".to_string()));
    assert_eq!(get("authorization"), Some("Bearer sk-1".to_string()));
    assert_eq!(get("x-acme"), Some("1".to_string()));

    // an explicit header wins over the computed one
    let override_ct = vec![("content-type".to_string(), "text/plain".to_string())];
    let hs2 = request_headers("sk-1", &override_ct);
    assert_eq!(get_in(&hs2, "content-type"), Some("text/plain".to_string()));
}

fn get_in(hs: &[(String, String)], name: &str) -> Option<String> {
    hs.iter().rev().find(|(k, _)| k == name).map(|(_, v)| v.clone())
}
