use llmao::api::{
    Choice, CompletionRequest, CompletionResponse, ContentPart, FunctionCall, Message,
    MessageContent, ToolCall, Usage,
};

fn message(role: &str, content: MessageContent) -> Message {
    Message {
        role: role.to_string(),
        content,
        name: None,
        tool_calls: None,
        tool_call_id: None,
    }
}

#[test]
fn test_message_content_string() {
    let content = MessageContent::Text("Hello".to_string());
    assert_eq!(content.to_string_content(), "Hello");
    assert!(!content.is_empty());
}

#[test]
fn test_message_content_parts() {
    let content = MessageContent::Parts(vec![
        ContentPart::Text { text: "Hello ".to_string() },
        ContentPart::Text { text: "World".to_string() },
    ]);
    assert_eq!(content.to_string_content(), "Hello World");
}

#[test]
fn test_convert_content_to_strings() {
    let mut request = CompletionRequest::new(
        "gpt-4".to_string(),
        vec![message(
            "user",
            MessageContent::Parts(vec![
                ContentPart::Text { text: "a".to_string() },
                ContentPart::Text { text: "b".to_string() },
            ]),
        )],
    );
    request.convert_content_to_strings();
    match &request.messages[0].content {
        MessageContent::Text(s) => assert_eq!(s, "ab"),
        _ => panic!("expected plain text content"),
    }
}

#[test]
fn test_add_text_to_tool_calls() {
    let mut with_tools = message("assistant", MessageContent::Text(String::new()));
    with_tools.tool_calls = Some(vec![ToolCall {
        id: "1".to_string(),
        call_type: "function".to_string(),
        function: FunctionCall { name: "f".to_string(), arguments: "{}".to_string() },
    }]);
    let untouched = message("user", MessageContent::Text(String::new()));

    let mut request = CompletionRequest::new("gpt-4".to_string(), vec![with_tools, untouched]);
    request.add_text_to_tool_calls();

    match &request.messages[0].content {
        MessageContent::Text(s) => assert_eq!(s, " "),
        _ => panic!("expected plain text content"),
    }
    match &request.messages[1].content {
        MessageContent::Text(s) => assert_eq!(s, ""),
        _ => panic!("expected plain text content"),
    }
}

#[test]
fn test_completion_response_accessors() {
    let response = CompletionResponse {
        id: "chatcmpl-123".to_string(),
        object: "chat.completion".to_string(),
        created: 1677652288,
        model: "gpt-4".to_string(),
        choices: vec![Choice {
            index: 0,
            message: message("assistant", MessageContent::Text("Hello!".to_string())),
            finish_reason: Some("stop".to_string()),
        }],
        usage: Some(Usage { prompt_tokens: 10, completion_tokens: 5, total_tokens: 15 }),
    };
    assert_eq!(response.content(), Some("Hello!".to_string()));
    assert!(response.tool_calls().is_none());
    assert_eq!(response.usage.unwrap().total_tokens, 15);
}

#[test]
fn test_builders() {
    let request = CompletionRequest::new("gpt-4".to_string(), vec![])
        .with_max_tokens(100)
        .with_stream(true);
    assert_eq!(request.max_tokens, Some(100));
    assert_eq!(request.stream, Some(true));
}
