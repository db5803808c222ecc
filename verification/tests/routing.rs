use llmao::route::ModelRoute;

#[test]
fn test_parse_simple() {
    let route = ModelRoute::parse("openai/gpt-4").unwrap();
    assert_eq!(route.provider, "openai");
    assert_eq!(route.model, "gpt-4");
    assert_eq!(route.variant, None);
}

#[test]
fn test_parse_with_variant() {
    let route = ModelRoute::parse("azure/gpt-4/my-deployment").unwrap();
    assert_eq!(route.provider, "azure");
    assert_eq!(route.model, "gpt-4");
    assert_eq!(route.variant, Some("my-deployment".to_string()));
}

#[test]
fn test_parse_invalid() {
    assert!(ModelRoute::parse("just-a-model").is_err());
    assert!(ModelRoute::parse("a/b/c/d").is_err());
}

#[test]
fn test_model_id() {
    let simple = ModelRoute::parse("openai/gpt-4").unwrap();
    assert_eq!(simple.model_id(), "gpt-4");

    let with_variant = ModelRoute::parse("azure/gpt-4/deployment").unwrap();
    assert_eq!(with_variant.model_id(), "gpt-4/deployment");
}

#[test]
fn test_display() {
    let simple = ModelRoute::parse("openai/gpt-4").unwrap();
    assert_eq!(simple.route_string(), "openai/gpt-4");

    let with_variant = ModelRoute::parse("azure/gpt-4/deployment").unwrap();
    assert_eq!(with_variant.route_string(), "azure/gpt-4/deployment");
}

#[test]
fn test_parse_empty_segment_rejected() {
    assert!(ModelRoute::parse("openai/").is_err());
    assert!(ModelRoute::parse("/gpt-4").is_err());
    assert!(ModelRoute::parse("a//b").is_err());
}

#[test]
fn test_parse_error_names_input() {
    let err = ModelRoute::parse("bad").unwrap_err();
    let msg = err.message();
    assert!(msg.contains("bad"));
    assert!(msg.contains("provider/model"));
}
