use llmao::duration::parse_duration_string;

#[test]
fn test_parse_duration_string() {
    assert_eq!(parse_duration_string("30s"), Some(30_000));
    assert_eq!(parse_duration_string("5m"), Some(300_000));
    assert_eq!(parse_duration_string("1h"), Some(3_600_000));
    assert_eq!(parse_duration_string("1m30s"), Some(90_000));
    assert_eq!(parse_duration_string("500ms"), Some(500));
}

#[test]
fn test_parse_duration_compound() {
    assert_eq!(parse_duration_string("2h30m"), Some(9_000_000));
    assert_eq!(parse_duration_string("1h1m1s"), Some(3_661_000));
}

#[test]
fn test_parse_duration_trims_whitespace() {
    assert_eq!(parse_duration_string("  45s "), Some(45_000));
}

#[test]
fn test_parse_duration_rejects_garbage() {
    assert_eq!(parse_duration_string("soon"), None);
    assert_eq!(parse_duration_string(""), None);
    assert_eq!(parse_duration_string("ms"), None);
    assert_eq!(parse_duration_string("12"), None);
}
