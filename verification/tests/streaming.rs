use llmao::api::Usage;
use llmao::stream::{
    parse_sse_line, FunctionDelta, SseLine, SseLineBuffer, StreamAccumulator, StreamChoice,
    StreamChunk, StreamDelta, ToolCallDelta,
};

fn chunk_with(choices: Vec<StreamChoice>) -> StreamChunk {
    StreamChunk {
        id: "test".to_string(),
        object: "chat.completion.chunk".to_string(),
        created: 12345,
        model: "gpt-4".to_string(),
        choices,
        usage: None,
    }
}

fn content_choice(role: Option<&str>, content: Option<&str>, finish: Option<&str>) -> StreamChoice {
    StreamChoice {
        index: 0,
        delta: StreamDelta {
            role: role.map(|s| s.to_string()),
            content: content.map(|s| s.to_string()),
            tool_calls: None,
        },
        finish_reason: finish.map(|s| s.to_string()),
    }
}

fn tool_delta(index: u32, id: Option<&str>, name: Option<&str>, args: Option<&str>) -> ToolCallDelta {
    ToolCallDelta {
        index,
        id: id.map(|s| s.to_string()),
        call_type: id.map(|_| "function".to_string()),
        function: Some(FunctionDelta {
            name: name.map(|s| s.to_string()),
            arguments: args.map(|s| s.to_string()),
        }),
    }
}

fn tool_chunk(deltas: Vec<ToolCallDelta>) -> StreamChunk {
    chunk_with(vec![StreamChoice {
        index: 0,
        delta: StreamDelta { role: None, content: None, tool_calls: Some(deltas) },
        finish_reason: None,
    }])
}

#[test]
fn test_stream_accumulator() {
    let mut acc = StreamAccumulator::new();

    let chunk1 = chunk_with(vec![content_choice(Some("assistant"), Some("Hello"), None)]);
    let chunk2 = chunk_with(vec![content_choice(None, Some(" World"), Some("stop"))]);

    acc.process_chunk(&chunk1).unwrap();
    acc.process_chunk(&chunk2).unwrap();

    assert_eq!(acc.content, "Hello World");
    assert_eq!(acc.role, Some("assistant".to_string()));
    assert_eq!(acc.finish_reason, Some("stop".to_string()));

    let message = acc.into_message();
    assert_eq!(message.role, "assistant");
    assert_eq!(message.content.to_string_content(), "Hello World");
}

#[test]
fn test_accumulator_captures_identity_once() {
    let mut acc = StreamAccumulator::new();
    acc.process_chunk(&chunk_with(vec![])).unwrap();
    let mut other = chunk_with(vec![]);
    other.id = "other".to_string();
    other.model = "gpt-5".to_string();
    acc.process_chunk(&other).unwrap();
    assert_eq!(acc.id, Some("test".to_string()));
    assert_eq!(acc.model, Some("gpt-4".to_string()));
    assert_eq!(acc.created, Some(12345));
}

#[test]
fn test_missing_role_defaults_to_assistant() {
    let mut acc = StreamAccumulator::new();
    acc.process_chunk(&chunk_with(vec![content_choice(None, Some("hi"), None)])).unwrap();
    let message = acc.into_message();
    assert_eq!(message.role, "assistant");
    assert!(message.tool_calls.is_none());
}

#[test]
fn test_tool_call_fragment_order() {
    // fragments for different indices commute; argument fragments for
    // one index do not
    let mut a = StreamAccumulator::new();
    a.process_chunk(&tool_chunk(vec![tool_delta(0, Some("a"), Some("f"), Some("{\"x\""))]))
        .unwrap();
    a.process_chunk(&tool_chunk(vec![tool_delta(1, Some("b"), Some("g"), Some("{}"))]))
        .unwrap();

    let mut b = StreamAccumulator::new();
    b.process_chunk(&tool_chunk(vec![tool_delta(1, Some("b"), Some("g"), Some("{}"))]))
        .unwrap();
    b.process_chunk(&tool_chunk(vec![tool_delta(0, Some("a"), Some("f"), Some("{\"x\""))]))
        .unwrap();

    let ma = a.into_message().tool_calls.unwrap();
    let mb = b.into_message().tool_calls.unwrap();
    assert_eq!(ma.len(), 2);
    assert_eq!(ma.len(), mb.len());
    for (x, y) in ma.iter().zip(mb.iter()) {
        assert_eq!(x.id, y.id);
        assert_eq!(x.function.name, y.function.name);
        assert_eq!(x.function.arguments, y.function.arguments);
    }

    // same index, swapped argument fragments: the results differ
    let mut c = StreamAccumulator::new();
    c.process_chunk(&tool_chunk(vec![tool_delta(0, Some("a"), Some("f"), Some("AB"))])).unwrap();
    c.process_chunk(&tool_chunk(vec![tool_delta(0, None, None, Some("CD"))])).unwrap();
    let mut d = StreamAccumulator::new();
    d.process_chunk(&tool_chunk(vec![tool_delta(0, Some("a"), Some("f"), Some("CD"))])).unwrap();
    d.process_chunk(&tool_chunk(vec![tool_delta(0, None, None, Some("AB"))])).unwrap();
    let mc = c.into_message().tool_calls.unwrap();
    let md = d.into_message().tool_calls.unwrap();
    assert_eq!(mc[0].function.arguments, "ABCD");
    assert_eq!(md[0].function.arguments, "CDAB");
    assert_ne!(mc[0].function.arguments, md[0].function.arguments);
}

#[test]
fn test_sparse_tool_indices_grow_on_demand() {
    let mut acc = StreamAccumulator::new();
    acc.process_chunk(&tool_chunk(vec![tool_delta(2, Some("c"), Some("h"), None)])).unwrap();
    assert_eq!(acc.tool_calls.len(), 3);
    assert_eq!(acc.tool_calls[2].id, "c");
    assert_eq!(acc.tool_calls[0].id, "");
}

#[test]
fn test_usage_last_chunk_wins() {
    let mut acc = StreamAccumulator::new();
    let mut c1 = chunk_with(vec![]);
    c1.usage = Some(Usage { prompt_tokens: 1, completion_tokens: 1, total_tokens: 2 });
    let mut c2 = chunk_with(vec![]);
    c2.usage = Some(Usage { prompt_tokens: 10, completion_tokens: 5, total_tokens: 15 });
    acc.process_chunk(&c1).unwrap();
    acc.process_chunk(&c2).unwrap();
    assert_eq!(acc.usage.unwrap().total_tokens, 15);
}

#[test]
fn test_parse_sse_line() {
    let line = r#"data: {"id":"chatcmpl-123","object":"chat.completion.chunk","created":1677652288,"model":"gpt-4","choices":[{"index":0,"delta":{"content":"Hello"},"finish_reason":null}]}"#;

    match parse_sse_line(line) {
        SseLine::Payload(payload) => {
            let v: serde_json::Value = serde_json::from_str(&payload).unwrap();
            assert_eq!(v["id"].as_str(), Some("chatcmpl-123"));
            assert_eq!(v["choices"][0]["delta"]["content"].as_str(), Some("Hello"));
        }
        _ => panic!("expected a payload"),
    }
}

#[test]
fn test_parse_sse_done() {
    let line = "data: [DONE]";
    assert!(matches!(parse_sse_line(line), SseLine::Done));
}

#[test]
fn test_parse_sse_ignores_comments_and_fields() {
    assert!(matches!(parse_sse_line(""), SseLine::Ignored));
    assert!(matches!(parse_sse_line("   "), SseLine::Ignored));
    assert!(matches!(parse_sse_line(": keep-alive"), SseLine::Ignored));
    assert!(matches!(parse_sse_line("event: message"), SseLine::Ignored));
    assert!(matches!(parse_sse_line("id: 7"), SseLine::Ignored));
}

#[test]
fn test_line_buffer_splits_lines() {
    let mut buf = SseLineBuffer::new();
    let lines = buf.push_text("data: a\ndata: b\npartial");
    assert_eq!(lines, vec!["data: a".to_string(), "data: b".to_string()]);
    let lines2 = buf.push_text(" rest\n");
    assert_eq!(lines2, vec!["partial rest".to_string()]);
    assert_eq!(buf.take_rest(), "");
}
