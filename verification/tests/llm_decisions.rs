use manhattan_spec_parser::llm::config::{
    chat_endpoint, client_settings, parse_base_url, resolve_client_settings,
};
use manhattan_spec_parser::llm::reply::{
    check_chat_reply, check_reply_body, check_tool_call, check_tool_type, reply_body_facts, reply_choices, reply_header,
    BodyFacts, ChoiceText,
    ChoiceFacts, JsonShape,
};
use manhattan_spec_parser::llm::session::{admit_tool_call, next_history, session_reply_step, SessionStep};
use manhattan_spec_parser::{ClientConfig, InvocationError};

fn choice(finish: Option<&str>, error: Option<&str>, content: JsonShape, tools: JsonShape) -> BodyFacts {
    BodyFacts::Parsed {
        error: None,
        first_choice: Some(ChoiceFacts {
            finish_reason: finish.map(|s| s.to_string()),
            rendered: "{\"index\":0}".to_string(),
            error: error.map(|s| s.to_string()),
            content,
            tool_calls: tools,
        }),
    }
}

#[test]
fn returns_http_error_on_non_success() {
    let facts = BodyFacts::Parsed { error: Some("\"bad key\"".to_string()), first_choice: None };
    assert_eq!(
        check_chat_reply(401, "{\"error\":\"bad key\"}", &facts),
        Err(InvocationError::Http { status: 401, body: "{\"error\":\"bad key\"}".to_string() })
    );
    assert!(matches!(
        check_chat_reply(199, "", &facts),
        Err(InvocationError::Http { status: 199, .. })
    ));
    assert!(matches!(
        check_chat_reply(300, "", &facts),
        Err(InvocationError::Http { status: 300, .. })
    ));
}

#[test]
fn returns_provider_error_from_200_payload() {
    let facts = BodyFacts::Parsed {
        error: Some("{\"message\":\"rate limited\"}".to_string()),
        first_choice: None,
    };
    assert_eq!(
        check_chat_reply(200, "{}", &facts),
        Err(InvocationError::Provider("{\"message\":\"rate limited\"}".to_string()))
    );
}

#[test]
fn invalid_json_bodies() {
    assert_eq!(
        check_chat_reply(200, "{\"id\":", &BodyFacts::Invalid { eof: true, message: "eof".to_string() }),
        Err(InvocationError::Parse("truncated JSON response: {\"id\":".to_string()))
    );
    assert_eq!(
        check_chat_reply(
            200,
            "nope",
            &BodyFacts::Invalid { eof: false, message: "expected value at line 1 column 1".to_string() }
        ),
        Err(InvocationError::Parse(
            "invalid JSON response (expected value at line 1 column 1): nope".to_string()
        ))
    );
}

#[test]
fn choice_checks() {
    assert_eq!(
        check_chat_reply(200, "{}", &BodyFacts::Parsed { error: None, first_choice: None }),
        Err(InvocationError::InvalidResponse("missing choices".to_string()))
    );
    assert_eq!(
        check_chat_reply(200, "{}", &choice(Some("error"), None, JsonShape::Text("hi".to_string()), JsonShape::Absent)),
        Err(InvocationError::Provider("{\"index\":0}".to_string()))
    );
    assert_eq!(
        check_chat_reply(200, "{}", &choice(Some("stop"), Some("\"boom\""), JsonShape::Text("hi".to_string()), JsonShape::Absent)),
        Err(InvocationError::Provider("\"boom\"".to_string()))
    );
    let none = Err(InvocationError::InvalidResponse(
        "assistant returned no content and no tool calls".to_string(),
    ));
    assert_eq!(check_chat_reply(200, "{}", &choice(Some("stop"), None, JsonShape::Null, JsonShape::Absent)), none);
    assert_eq!(
        check_chat_reply(200, "{}", &choice(None, None, JsonShape::Text("  \n".to_string()), JsonShape::Array(0))),
        none
    );
    assert_eq!(check_chat_reply(200, "{}", &choice(None, None, JsonShape::Absent, JsonShape::Other)), none);
}

#[test]
fn rejects_empty_actionless_response() {
    assert!(matches!(
        check_chat_reply(200, "{}", &choice(Some("stop"), None, JsonShape::Null, JsonShape::Absent)),
        Err(InvocationError::InvalidResponse(_))
    ));
}

#[test]
fn supports_tool_call_without_content() {
    assert_eq!(
        check_chat_reply(200, "{}", &choice(Some("tool_calls"), None, JsonShape::Absent, JsonShape::Array(1))),
        Ok(())
    );
    assert_eq!(check_tool_type("function"), Ok(()));
}

#[test]
fn accepted_replies() {
    assert_eq!(
        check_chat_reply(200, "{}", &choice(Some("stop"), None, JsonShape::Text("hi".to_string()), JsonShape::Absent)),
        Ok(())
    );
    assert_eq!(
        check_chat_reply(200, "{}", &choice(Some("tool_calls"), None, JsonShape::Absent, JsonShape::Array(1))),
        Ok(())
    );
    assert_eq!(
        check_chat_reply(299, "{}", &choice(None, None, JsonShape::Other, JsonShape::Absent)),
        Ok(())
    );
}

#[test]
fn tool_type_must_be_function() {
    assert_eq!(check_tool_type("function"), Ok(()));
    assert_eq!(
        check_tool_type("retrieval"),
        Err(InvocationError::InvalidResponse("unsupported tool type 'retrieval'".to_string()))
    );
}

#[test]
fn session_steps() {
    assert_eq!(
        session_reply_step(None),
        Err(InvocationError::InvalidResponse("missing choices".to_string()))
    );
    assert_eq!(session_reply_step(Some((1, None))), Ok(SessionStep::RunTools));
    assert_eq!(session_reply_step(Some((0, Some("final answer")))), Ok(SessionStep::Finish));
    let blank = Err(InvocationError::InvalidResponse(
        "terminal assistant message has no content".to_string(),
    ));
    assert_eq!(session_reply_step(Some((0, None))), blank);
    assert_eq!(session_reply_step(Some((0, Some(" \t")))), blank);
}

#[test]
fn enforces_tool_call_limit() {
    assert!(matches!(admit_tool_call(0, 0), Err(InvocationError::ToolCallLimitExceeded { max: 0 })));
}

#[test]
fn runs_until_terminal_output() {
    assert_eq!(session_reply_step(Some((1, None))), Ok(SessionStep::RunTools));
    assert_eq!(admit_tool_call(0, 4), Ok(1));
    assert_eq!(session_reply_step(Some((0, Some("final answer")))), Ok(SessionStep::Finish));
}

#[test]
fn tool_call_limit() {
    assert_eq!(admit_tool_call(0, 4), Ok(1));
    assert_eq!(admit_tool_call(3, 4), Ok(4));
    assert_eq!(admit_tool_call(4, 4), Err(InvocationError::ToolCallLimitExceeded { max: 4 }));
    assert_eq!(admit_tool_call(0, 0), Err(InvocationError::ToolCallLimitExceeded { max: 0 }));
    // A session admitting calls one by one stops after `max` of them.
    let mut used = 0;
    let mut ran = 0;
    while let Ok(n) = admit_tool_call(used, 3) {
        used = n;
        ran += 1;
    }
    assert_eq!(ran, 3);
}

#[test]
fn settings_resolution() {
    let none = ClientConfig::default();
    assert_eq!(resolve_client_settings(&none, &None, &None), Err(InvocationError::MissingApiKey));
    assert_eq!(
        resolve_client_settings(&none, &Some("env-key".to_string()), &None),
        Ok(("env-key".to_string(), "https://api.openai.com/v1/".to_string()))
    );
    let explicit = ClientConfig {
        api_key: Some("k".to_string()),
        base_url: Some("http://localhost:1/".to_string()),
    };
    assert_eq!(
        resolve_client_settings(&explicit, &Some("env-key".to_string()), &Some("http://env/".to_string())),
        Ok(("k".to_string(), "http://localhost:1/".to_string()))
    );
    assert_eq!(
        resolve_client_settings(&none, &Some("e".to_string()), &Some("http://env/".to_string())),
        Ok(("e".to_string(), "http://env/".to_string()))
    );
}

#[test]
fn base_url_parsing() {
    assert_eq!(parse_base_url("https://api.openai.com/v1/"), Ok("https://api.openai.com/v1/".to_string()));
    assert_eq!(parse_base_url("http://localhost:8080"), Ok("http://localhost:8080/".to_string()));
    assert_eq!(
        parse_base_url("not a url"),
        Err(InvocationError::InvalidBaseUrl {
            value: "not a url".to_string(),
            message: "relative URL without a base".to_string(),
        })
    );
    let (key, url) = client_settings(&ClientConfig::default(), &Some("k".to_string()), &None).unwrap();
    assert_eq!(key, "k");
    assert_eq!(url.as_str(), "https://api.openai.com/v1/");
    assert_eq!(
        client_settings(&ClientConfig::default(), &None, &Some("::".to_string())).map(|(k, _)| k),
        Err(InvocationError::MissingApiKey)
    );
    assert_eq!(
        client_settings(&ClientConfig::default(), &Some("k".to_string()), &Some("http://[::1".to_string()))
            .map(|(k, _)| k),
        Err(InvocationError::InvalidBaseUrl {
            value: "http://[::1".to_string(),
            message: "invalid IPv6 address".to_string(),
        })
    );
}

#[test]
fn chat_endpoint_joins_the_path() {
    assert_eq!(
        chat_endpoint("https://api.openai.com/v1/"),
        Ok("https://api.openai.com/v1/chat/completions".to_string())
    );
    assert_eq!(chat_endpoint("http://localhost:8080/"), Ok("http://localhost:8080/chat/completions".to_string()));
    assert_eq!(chat_endpoint("https://h/v1"), Ok("https://h/v1/chat/completions".to_string()));
    assert_eq!(
        chat_endpoint("https://example.com/v1"),
        Ok("https://example.com/v1/chat/completions".to_string())
    );
    assert_eq!(chat_endpoint("http://localhost:8080"), Ok("http://localhost:8080/chat/completions".to_string()));
    assert_eq!(
        chat_endpoint("nope"),
        Err(InvocationError::InvalidBaseUrl {
            value: "nope".to_string(),
            message: "relative URL without a base".to_string(),
        })
    );
}

#[test]
fn reply_bodies_checked_from_their_text() {
    let ok = r#"{"id":"chatcmpl-1","model":"openai/gpt-5","choices":[{"index":0,"finish_reason":"stop","message":{"role":"assistant","content":"hi"}}],"usage":{"prompt_tokens":1,"completion_tokens":1,"total_tokens":2}}"#;
    assert_eq!(check_reply_body(200, ok), Ok(()));
    assert_eq!(reply_header(ok), Some(("chatcmpl-1".to_string(), "openai/gpt-5".to_string())));
    assert_eq!(
        reply_choices(ok),
        vec![ChoiceText { content: Some("hi".to_string()), finish_reason: Some("stop".to_string()) }]
    );
    match reply_body_facts(ok) {
        BodyFacts::Parsed { error: None, first_choice: Some(c) } => {
            assert_eq!(c.finish_reason, Some("stop".to_string()));
            assert_eq!(c.content, JsonShape::Text("hi".to_string()));
            assert_eq!(c.tool_calls, JsonShape::Absent);
        }
        other => panic!("unexpected facts {other:?}"),
    }
    assert!(matches!(
        check_reply_body(401, r#"{"error":"bad key"}"#),
        Err(InvocationError::Http { status: 401, .. })
    ));
    assert_eq!(
        check_reply_body(200, r#"{"error":{"message":"rate limited"}}"#),
        Err(InvocationError::Provider(r#"{"message":"rate limited"}"#.to_string()))
    );
    let empty = r#"{"id":"chatcmpl-1","model":"openai/gpt-5","choices":[{"index":0,"finish_reason":"stop","message":{"role":"assistant","content":null}}]}"#;
    assert!(matches!(check_reply_body(200, empty), Err(InvocationError::InvalidResponse(_))));
    let tools = r#"{"id":"chatcmpl-1","model":"openai/gpt-5","choices":[{"index":0,"finish_reason":"tool_calls","message":{"role":"assistant","tool_calls":[{"id":"call_1","type":"function","function":{"name":"search_files","arguments":"{\"q\":\"lint\"}"}}]}}]}"#;
    assert_eq!(check_reply_body(200, tools), Ok(()));
    assert_eq!(reply_choices(tools), vec![ChoiceText { content: None, finish_reason: Some("tool_calls".to_string()) }]);
    assert_eq!(
        check_reply_body(200, r#"{"choices":[]}"#),
        Err(InvocationError::InvalidResponse("missing choices".to_string()))
    );
    assert_eq!(
        check_reply_body(200, r#"{"id":"#),
        Err(InvocationError::Parse(r#"truncated JSON response: {"id":"#.to_string()))
    );
    assert!(matches!(check_reply_body(200, "nope"), Err(InvocationError::Parse(_))));
    assert_eq!(
        check_reply_body(200, r#"{"choices":[{"finish_reason":"error","message":{"content":"x"}}]}"#),
        Err(InvocationError::Provider(r#"{"finish_reason":"error","message":{"content":"x"}}"#.to_string()))
    );
    assert_eq!(
        check_reply_body(200, r#"{"choices":[{"message":{"content":"x","error":{"code":1}}}]}"#),
        Err(InvocationError::Provider(r#"{"code":1}"#.to_string()))
    );
}

#[test]
fn next_request_history() {
    let history = vec!["user: review this".to_string()];
    let next = next_history(
        history,
        "assistant: read_file".to_string(),
        vec!["tool call_1: file body".to_string(), "tool call_2: more".to_string()],
    );
    assert_eq!(
        next,
        vec!["user: review this", "assistant: read_file", "tool call_1: file body", "tool call_2: more"]
    );
}

fn search_arguments() -> serde_json::Value {
    let mut map = serde_json::Map::new();
    map.insert("q".to_string(), serde_json::Value::String("rust".to_string()));
    serde_json::Value::Object(map)
}

#[test]
fn normalize_tool_args_from_object() {
    // A tool call `call_1` to `search` whose arguments came as a JSON value:
    // the checks pass and the value is kept as it is.
    let arguments = search_arguments();
    assert_eq!(check_tool_call("function", None), Ok(()));
    assert_eq!(arguments, search_arguments());
}

#[test]
fn normalize_tool_args_from_json_string() {
    // The same call with its arguments sent as JSON-encoded text.
    let raw = "{\"q\":\"rust\"}";
    assert_eq!(check_tool_call("function", Some(raw)), Ok(()));
    let mapped: serde_json::Value = serde_json::from_str(raw).expect("maps");
    assert_eq!(mapped, search_arguments());
}

#[test]
fn tool_arguments_must_encode_an_object() {
    let not_object = Err(InvocationError::InvalidResponse(
        "failed to normalize tool arguments: expected a JSON object".to_string(),
    ));
    assert_eq!(check_tool_call("function", Some("[1, 2]")), not_object);
    assert_eq!(check_tool_call("function", Some("\"q\"")), not_object);
    assert_eq!(check_tool_call("function", Some("null")), not_object);
    match check_tool_call("function", Some("{\"q\": ")) {
        Err(InvocationError::InvalidResponse(m)) => {
            assert!(m.starts_with("failed to normalize tool arguments: EOF"), "{m}")
        }
        other => panic!("unexpected {other:?}"),
    }
    match check_tool_call("function", Some("not json")) {
        Err(InvocationError::InvalidResponse(m)) => {
            assert!(m.starts_with("failed to normalize tool arguments: expected"), "{m}")
        }
        other => panic!("unexpected {other:?}"),
    }
    assert_eq!(
        check_tool_call("retrieval", Some("{}")),
        Err(InvocationError::InvalidResponse("unsupported tool type 'retrieval'".to_string()))
    );
}
