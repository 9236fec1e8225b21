//! Chat Completions payloads.
use chat_context::chat_source::{
    content_source, tool_calls_source, tool_results_source, ParsedContent, SourcedMessage,
    ToolResult,
};
use chat_context::error::RequestError;
use chat_context::json::{parse_json, Json};
use chat_context::message::ChatContextMessage;
use chat_context::payload::{
    assemble_chat_payload, build_chat_completions_payload, build_chat_reasoning_effort,
    needs_api_base_url, normalize_message_role, reasoning_effort_from_config,
    resolve_chat_completions_endpoint, ApiConfigRecord, ChatRequest,
};
use serde_json::Value;

const TINY_PNG_BASE64: &str =
    "iVBORw0KGgoAAAANSUhEUgAAAAEAAAABCAYAAAAfFcSJAAAADUlEQVR42mNkYPhfDwAChwGA60e6kgAAAABJRU5ErkJggg==";

/// A document as a `serde_json` value.
fn to_value(json: &Json) -> Value {
    match json {
        Json::Null => Value::Null,
        Json::Bool(flag) => Value::Bool(*flag),
        Json::Number(text) => serde_json::from_str(text).unwrap(),
        Json::Text(text) => Value::String(text.clone()),
        Json::Array(items) => Value::Array(items.iter().map(to_value).collect()),
        Json::Object(fields) => {
            Value::Object(fields.iter().map(|(key, item)| (key.clone(), to_value(item))).collect())
        }
    }
}

/// Takes the `@@image:...@@` tags out of a text.
fn split_images(text: &str) -> (String, Vec<String>) {
    let mut rest = text;
    let mut plain = String::new();
    let mut images = Vec::new();
    while let Some(start) = rest.find("@@image:") {
        let tag = &rest[start + "@@image:".len()..];
        let end = tag.find("@@").unwrap();
        plain.push_str(&rest[..start]);
        images.push(tag[..end].to_string());
        rest = &tag[end + "@@".len()..];
    }
    plain.push_str(rest);
    (plain.trim().to_string(), images)
}

fn parse_tool_results(raw: &str) -> Vec<ToolResult> {
    let parsed: Value = serde_json::from_str(raw).unwrap();
    let mut results = Vec::new();
    for entry in parsed.as_array().unwrap() {
        let (text, images) = split_images(entry["result"].as_str().unwrap());
        results.push(ToolResult {
            call_id: entry["callId"].as_str().unwrap().to_string(),
            text,
            images,
        });
    }
    results
}

/// Reads what a message needs.
fn source(message: ChatContextMessage, skip_image_parsing: bool) -> SourcedMessage {
    let tool_results = match tool_results_source(&message) {
        Some(raw) => parse_tool_results(raw),
        None => Vec::new(),
    };
    let tool_calls = match tool_calls_source(&message) {
        Some(raw) => match parse_json(raw) {
            Some(Json::Array(items)) => items,
            _ => Vec::new(),
        },
        None => Vec::new(),
    };
    let content = match content_source(&message, &tool_calls, skip_image_parsing) {
        Some(text) => {
            let (text, images) = split_images(text);
            ParsedContent { text, images }
        }
        None => ParsedContent { text: String::new(), images: Vec::new() },
    };
    SourcedMessage { message, tool_results, tool_calls, content }
}

fn create_test_request() -> ChatRequest {
    ChatRequest { skip_context: None, context_compaction: None, internal_recovery_prompt: None }
}

fn create_test_record() -> ApiConfigRecord {
    ApiConfigRecord { max_tokens: None, config_json: "{}".to_string() }
}

fn message(role: &str, content: &str) -> ChatContextMessage {
    ChatContextMessage {
        role: role.to_string(),
        content: content.to_string(),
        tool_calls_json: None,
        tool_results_json: None,
        thinking: None,
        thinking_blocks_json: None,
    }
}

fn assistant_with_calls(call_ids: &[&str]) -> ChatContextMessage {
    let calls: Vec<String> = call_ids
        .iter()
        .map(|id| {
            format!(
                "{{\"id\":\"{id}\",\"type\":\"function\",\"function\":{{\"name\":\"read\",\"arguments\":\"{{}}\"}}}}"
            )
        })
        .collect();
    ChatContextMessage {
        tool_calls_json: Some(format!("[{}]", calls.join(","))),
        ..message("assistant", "")
    }
}

fn tool_message(call_id: &str, result: &str) -> ChatContextMessage {
    let results = format!(
        "[{{\"name\":\"read\",\"callId\":\"{call_id}\",\"result\":{}}}]",
        Value::String(result.to_string())
    );
    ChatContextMessage {
        tool_results_json: Some(results),
        ..message("tool", "tool result summary")
    }
}

/// The result of reading an image file.
fn image_tool_message(call_id: &str) -> ChatContextMessage {
    let result = format!(
        "{{\"content\":\"@@image:data:image/png;base64,{}@@\",\"isImage\":true}}",
        TINY_PNG_BASE64
    );
    tool_message(call_id, &result)
}

/// The result of a browser screenshot: a JSON body followed by an image tag.
fn screenshot_tool_message(call_id: &str) -> ChatContextMessage {
    let result = format!(
        "{{\"content\":[{{\"text\":\"Browser screenshot captured: shot.png (832x1216)\",\"type\":\"text\"}}],\"fullPage\":false}}\n@@image:data:image/png;base64,{}@@",
        TINY_PNG_BASE64
    );
    tool_message(call_id, &result)
}

fn build_payload_with_messages(messages: Vec<ChatContextMessage>) -> Value {
    let request = create_test_request();
    let api_record = create_test_record();
    let history: Vec<SourcedMessage> =
        messages.into_iter().map(|message| source(message, false)).collect();
    let payload =
        build_chat_completions_payload(&history, &request, &api_record, "gpt-4o", None, &[]);
    to_value(&payload.unwrap_or_else(|error| panic!("{}", error.reason())))
}

/// The synthesized user message must land only after every tool reply of
/// the same turn, keeping tool_call_id pairing contiguous (OpenAI requires
/// each assistant tool_calls message to be immediately followed by the
/// matching tool messages).
#[test]
fn tool_result_images_flush_after_all_tool_replies() {
    let payload = build_payload_with_messages(vec![
        message("user", "read and screenshot"),
        assistant_with_calls(&["call_1", "call_2"]),
        tool_message("call_1", "file contents"),
        image_tool_message("call_2"),
        message("assistant", "done"),
    ]);
    let messages = payload["messages"].as_array().unwrap();
    // user, assistant(+tool_calls), tool, tool, synthetic user, assistant
    assert_eq!(messages.len(), 6);
    assert_eq!(messages[1]["role"], "assistant");
    assert!(messages[1]["tool_calls"].is_array());
    assert_eq!(messages[2]["role"], "tool");
    assert_eq!(messages[3]["role"], "tool");
    assert_eq!(messages[4]["role"], "user");
    assert_eq!(messages[5]["role"], "assistant");

    // Exactly one synthetic user message holds the image.
    let image_messages: Vec<_> = messages
        .iter()
        .filter(|m| m["role"] == "user" && m["content"].is_array())
        .collect();
    assert_eq!(image_messages.len(), 1);
    let parts = image_messages[0]["content"].as_array().unwrap();
    assert_eq!(parts.len(), 1);
    assert_eq!(parts[0]["type"], "image_url");
}

/// Tool message content stays a plain string so strict providers accept
/// it; the base64 image never appears inside a tool message.
#[test]
fn tool_message_content_is_plain_text() {
    let payload = build_payload_with_messages(vec![
        message("user", "screenshot"),
        assistant_with_calls(&["call_1"]),
        image_tool_message("call_1"),
        message("assistant", "ok"),
    ]);
    let messages = payload["messages"].as_array().unwrap();
    for message in messages.iter().filter(|m| m["role"] == "tool") {
        let content = message["content"].as_str().unwrap();
        assert!(!content.contains("@@image:"));
        assert!(!content.contains(TINY_PNG_BASE64));
    }
}

/// A `browser-screenshot` tool result (JSON body + trailing image tag) must
/// still hand its image to the synthetic user message while its own content
/// stays a string. Every message in the payload is additionally checked for
/// a type the strict endpoint accepts.
#[test]
fn screenshot_tool_result_keeps_tool_content_a_string() {
    let payload = build_payload_with_messages(vec![
        message("user", "take a screenshot"),
        assistant_with_calls(&["call_shot"]),
        screenshot_tool_message("call_shot"),
    ]);
    let messages = payload["messages"].as_array().unwrap();

    // Strict endpoints refuse a tool message whose content is a list of parts.
    for entry in messages.iter().filter(|m| m["role"] == "tool") {
        assert!(
            entry["content"].is_string(),
            "tool content must be a string, got {}",
            entry["content"]
        );
    }

    let tool_messages: Vec<_> = messages.iter().filter(|m| m["role"] == "tool").collect();
    assert_eq!(tool_messages.len(), 1);
    let text = tool_messages[0]["content"].as_str().unwrap();
    assert!(!text.contains("@@image:"));
    assert!(!text.contains(TINY_PNG_BASE64));

    // The screenshot itself must survive as a real image block on the
    // synthetic user message.
    let image_parts: Vec<_> = messages
        .iter()
        .filter(|m| m["role"] == "user")
        .filter_map(|m| m["content"].as_array())
        .flatten()
        .filter(|part| part["type"] == "image_url")
        .collect();
    assert_eq!(image_parts.len(), 1);
    assert!(image_parts[0]["image_url"]["url"]
        .as_str()
        .unwrap()
        .starts_with("data:image/png;base64,"));
}

/// A turn whose tool results have no images must not gain a synthetic
/// empty user message.
#[test]
fn no_images_means_no_synthetic_user_message() {
    let payload = build_payload_with_messages(vec![
        message("user", "hi"),
        assistant_with_calls(&["call_1", "call_2"]),
        tool_message("call_1", "plain result"),
        tool_message("call_2", "another plain result"),
        message("assistant", "ok"),
    ]);
    let messages = payload["messages"].as_array().unwrap();
    // user, assistant, tool, tool, assistant — no extra message.
    assert_eq!(messages.len(), 5);
    let roles: Vec<_> = messages
        .iter()
        .map(|m| m["role"].as_str().unwrap())
        .collect();
    assert_eq!(roles, vec!["user", "assistant", "tool", "tool", "assistant"]);
}

/// If the last message of the request is a tool result with an image, the
/// trailing flush still emits the synthetic user message.
#[test]
fn trailing_tool_image_flushes_at_end() {
    let payload = build_payload_with_messages(vec![
        message("user", "screenshot"),
        assistant_with_calls(&["call_1"]),
        image_tool_message("call_1"),
    ]);
    let messages = payload["messages"].as_array().unwrap();
    let last = messages.last().unwrap();
    assert_eq!(last["role"], "user");
    assert_eq!(last["content"][0]["type"], "image_url");
}

fn sourced(messages: Vec<ChatContextMessage>) -> Vec<SourcedMessage> {
    messages.into_iter().map(|message| source(message, false)).collect()
}

fn value(text: &str) -> Value {
    serde_json::from_str(text).unwrap()
}

#[test]
fn payload_holds_the_required_fields() {
    let payload = build_payload_with_messages(vec![message(" user ", " hi ")]);
    assert_eq!(
        payload,
        value(
            r#"{"model":"gpt-4o","messages":[{"role":"user","content":"hi"}],"stream":true,
            "stream_options":{"include_usage":true}}"#
        )
    );
}

#[test]
fn payload_without_messages_is_refused() {
    let result = build_chat_completions_payload(
        &sourced(vec![message("user", "   "), message("tool", "")]),
        &create_test_request(),
        &create_test_record(),
        "gpt-4o",
        None,
        &[],
    );
    match result {
        Err(error) => {
            assert_eq!(error, RequestError::ContentRequired);
            assert_eq!(error.reason(), "Chat message content is required");
        }
        Ok(_) => panic!("a payload without messages must be refused"),
    }
}

#[test]
fn payload_sends_limit_effort_and_tools() {
    let api_config = ApiConfigRecord {
        max_tokens: Some(384_000),
        config_json:
            r#"{"snowcfg":{"chatThinking":{"enabled":true,"reasoning_effort":" high "}}}"#
                .to_string(),
    };
    let tools = parse_json(r#"[{"type":"function","limit":0.5,"n":-3}]"#);
    let mut request = create_test_request();
    let payload = build_chat_completions_payload(
        &sourced(vec![message("user", "hi")]),
        &request,
        &api_config,
        "m",
        tools.clone(),
        &[],
    );
    let payload = to_value(&payload.ok().unwrap());
    assert_eq!(payload["max_tokens"], 384_000);
    assert_eq!(payload["reasoning_effort"], "high");
    assert_eq!(payload["tools"], value(r#"[{"type":"function","limit":0.5,"n":-3}]"#));

    request.context_compaction = Some(true);
    let payload = build_chat_completions_payload(
        &sourced(vec![message("user", "hi")]),
        &request,
        &api_config,
        "m",
        parse_json("[]"),
        &[],
    );
    let payload = to_value(&payload.ok().unwrap());
    assert_eq!(payload["max_tokens"], 16_384);
    assert!(payload.get("tools").is_none());
}

#[test]
fn payload_leaves_out_a_limit_that_is_not_positive() {
    for max_tokens in [None, Some(0), Some(-5)] {
        let payload = assemble_chat_payload(
            &sourced(vec![message("user", "hi")]),
            &create_test_request(),
            "m",
            max_tokens,
            &None,
            None,
            &[],
        );
        let payload = to_value(&payload.ok().unwrap());
        assert!(payload.get("max_tokens").is_none());
        assert!(payload.get("reasoning_effort").is_none());
    }
}

#[test]
fn builtin_prompt_is_the_system_message_without_user_prompts() {
    let payload = build_payload_with_messages(vec![
        message("system", "one"),
        message("developer", " two "),
        message("system", "  "),
        message("user", "hi"),
    ]);
    assert_eq!(
        payload["messages"],
        value(r#"[{"role":"system","content":"one\n\ntwo"},{"role":"user","content":"hi"}]"#)
    );
}

#[test]
fn user_prompts_take_the_system_slot() {
    let request = ChatRequest {
        internal_recovery_prompt: Some("  go on ".to_string()),
        ..create_test_request()
    };
    let payload = build_chat_completions_payload(
        &sourced(vec![message("system", "builtin"), message("user", "hi")]),
        &request,
        &create_test_record(),
        "m",
        None,
        &["mine".to_string()],
    );
    let payload = to_value(&payload.ok().unwrap());
    assert_eq!(
        payload["messages"],
        value(
            r#"[{"role":"system","content":[{"type":"text","text":"mine"},
            {"type":"text","text":"go on"}]},{"role":"user","content":"builtin"},
            {"role":"user","content":"hi"}]"#
        )
    );
}

#[test]
fn recovery_prompt_alone_takes_the_system_slot() {
    let request = ChatRequest {
        internal_recovery_prompt: Some("go on".to_string()),
        ..create_test_request()
    };
    let payload = build_chat_completions_payload(
        &[],
        &request,
        &create_test_record(),
        "m",
        None,
        &[],
    );
    let payload = to_value(&payload.ok().unwrap());
    assert_eq!(
        payload["messages"],
        value(r#"[{"role":"system","content":[{"type":"text","text":"go on"}]}]"#)
    );
}

#[test]
fn tool_calls_carry_content_and_reasoning() {
    let mut silent = assistant_with_calls(&["c1"]);
    let payload = build_payload_with_messages(vec![assistant_with_calls(&["c1"])]);
    let sent = &payload["messages"][0];
    assert_eq!(sent["content"], Value::Null);
    assert_eq!(sent["reasoning_content"], "");
    assert_eq!(sent["tool_calls"][0]["id"], "c1");

    silent.content = " text ".to_string();
    silent.thinking = Some("because".to_string());
    let payload = build_payload_with_messages(vec![silent]);
    let sent = &payload["messages"][0];
    assert_eq!(sent["content"], "text");
    assert_eq!(sent["reasoning_content"], "because");
}

#[test]
fn assistant_without_calls_is_sent_for_its_content() {
    let mut turn = message("assistant", "answer");
    turn.tool_calls_json = Some("[]".to_string());
    turn.thinking = Some("because".to_string());
    let mut blank = message("assistant", "");
    blank.tool_calls_json = Some("[]".to_string());
    let mut other = message("user", "question");
    other.thinking = Some("ignored".to_string());
    let payload = build_payload_with_messages(vec![turn, blank, other]);
    assert_eq!(
        payload["messages"],
        value(
            r#"[{"role":"assistant","content":"answer","reasoning_content":"because"},
            {"role":"user","content":"question"}]"#
        )
    );
}

#[test]
fn content_images_become_parts() {
    let payload = build_payload_with_messages(vec![
        message("user", "look @@image:data:image/png;base64,AA@@"),
        message("user", "@@image:data:image/png;base64,BB@@"),
    ]);
    assert_eq!(
        payload["messages"],
        value(
            r#"[{"role":"user","content":[{"type":"text","text":"look"},
            {"type":"image_url","image_url":{"url":"data:image/png;base64,AA"}}]},
            {"role":"user","content":[
            {"type":"image_url","image_url":{"url":"data:image/png;base64,BB"}}]}]"#
        )
    );
}

#[test]
fn skipped_context_sends_contents_as_they_stand() {
    let request = ChatRequest { skip_context: Some(true), ..create_test_request() };
    let history = vec![source(message("user", " @@image:data:image/png;base64,AA@@ "), true)];
    let payload = build_chat_completions_payload(
        &history,
        &request,
        &create_test_record(),
        "m",
        None,
        &[],
    );
    let payload = to_value(&payload.ok().unwrap());
    assert_eq!(payload["messages"][0]["content"], "@@image:data:image/png;base64,AA@@");
}

#[test]
fn results_without_a_call_are_user_messages() {
    let payload = build_payload_with_messages(vec![
        tool_message("", "plain"),
        tool_message("", "@@image:data:image/png;base64,AA@@"),
    ]);
    assert_eq!(
        payload["messages"],
        value(
            r#"[{"role":"user","content":"plain"},
            {"role":"user","content":[{"type":"text","text":"[image attached]"},
            {"type":"image_url","image_url":{"url":"data:image/png;base64,AA"}}]}]"#
        )
    );
}

#[test]
fn image_only_result_is_replied_with_a_placeholder() {
    let payload = build_payload_with_messages(vec![
        assistant_with_calls(&["c1"]),
        tool_message("c1", "@@image:data:image/png;base64,AA@@"),
    ]);
    assert_eq!(payload["messages"][1]["content"], "[image attached]");
    assert_eq!(payload["messages"][1]["tool_call_id"], "c1");
    assert_eq!(
        payload["messages"][2]["content"][0]["image_url"]["url"],
        "data:image/png;base64,AA"
    );
}

#[test]
fn empty_tool_turns_are_not_sent() {
    let with_results = |content: &str, results: &str| ChatContextMessage {
        tool_results_json: Some(results.to_string()),
        ..message("tool", content)
    };
    assert_eq!(tool_results_source(&with_results("", "{}")), None);
    assert_eq!(tool_results_source(&with_results(" ", "")), None);
    assert_eq!(tool_results_source(&message("tool", "text")), None);
    assert_eq!(tool_results_source(&with_results("text", "{}")), Some("{}"));
    assert_eq!(tool_results_source(&with_results("", "[1]")), Some("[1]"));
    let mut user = with_results("text", "[1]");
    user.role = "user".to_string();
    assert_eq!(tool_results_source(&user), None);
    assert_eq!(tool_calls_source(&message("assistant", "text")), None);
    let mut caller = message(" user ", "text");
    caller.tool_calls_json = Some("[1]".to_string());
    assert_eq!(tool_calls_source(&caller), None);
    assert_eq!(content_source(&caller, &Vec::new(), false), Some("text"));
    assert_eq!(content_source(&caller, &Vec::new(), true), None);
}

#[test]
fn several_turns_share_one_images_message() {
    let payload = build_payload_with_messages(vec![
        assistant_with_calls(&["c1", "c2"]),
        tool_message("c1", "@@image:data:image/png;base64,AA@@"),
        tool_message("c2", "two @@image:data:image/png;base64,BB@@"),
        message("system", "late"),
        message("user", "next"),
    ]);
    let messages = payload["messages"].as_array().unwrap();
    let roles: Vec<_> = messages.iter().map(|m| m["role"].as_str().unwrap()).collect();
    assert_eq!(roles, vec!["system", "assistant", "tool", "tool", "user", "user"]);
    assert_eq!(messages[4]["content"].as_array().unwrap().len(), 2);
    assert_eq!(messages[5]["content"], "next");
}

#[test]
fn reasoning_effort_follows_the_settings() {
    let effort = |text: &str| build_chat_reasoning_effort(text);
    let thinking = |inner: &str| format!(r#"{{"snowcfg":{{"chatThinking":{inner}}}}}"#);
    assert_eq!(effort(&thinking(r#"{"reasoning_effort":"low"}"#)), Some("low".to_string()));
    assert_eq!(
        effort(&thinking(r#"{"enabled":"no","reasoning_effort":" low "}"#)),
        Some("low".to_string())
    );
    assert_eq!(effort(&thinking(r#"{"enabled":false,"reasoning_effort":"low"}"#)), None);
    assert_eq!(effort(&thinking(r#"{"reasoning_effort":"none"}"#)), None);
    assert_eq!(effort(&thinking(r#"{"reasoning_effort":"  "}"#)), None);
    assert_eq!(effort(&thinking(r#"{"reasoning_effort":3}"#)), None);
    assert_eq!(effort(&thinking("[]")), None);
    assert_eq!(effort("{}"), None);
    assert_eq!(effort("not json"), None);
    let config = Json::Object(vec![]);
    assert_eq!(reasoning_effort_from_config(&config), None);
}

#[test]
fn roles_on_the_wire() {
    assert_eq!(normalize_message_role(" assistant "), "assistant");
    assert_eq!(normalize_message_role("system"), "system");
    assert_eq!(normalize_message_role("developer"), "developer");
    assert_eq!(normalize_message_role("tool"), "user");
    assert_eq!(normalize_message_role(""), "user");
}

#[test]
fn endpoint_follows_the_mode() {
    assert!(!needs_api_base_url("", "default"));
    assert!(!needs_api_base_url("https://a/b", "endpoint"));
    assert!(needs_api_base_url("https://a", "default"));
    assert_eq!(resolve_chat_completions_endpoint("", "default", "x"), "");
    assert_eq!(
        resolve_chat_completions_endpoint("https://a/b", "endpoint", "https://a/v1"),
        "https://a/b"
    );
    assert_eq!(
        resolve_chat_completions_endpoint("https://a", "default", "https://a/v1"),
        "https://a/v1/chat/completions"
    );
}
