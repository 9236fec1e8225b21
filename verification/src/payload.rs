//! Chat Completions payloads and their endpoint.
use vstd::prelude::*;
use vstd::string::*;

use crate::chat_source::{
    calls_tools, is_sent_for_content, result_views, sends_content, sourced_views,
    tool_calls_source, tool_results_source, tool_results_text, SourcedMessage, SourcedView,
    ToolResult, ToolResultView,
};
use crate::error::RequestError;
use crate::guard::{effective_max_tokens, output_reserve, resolve_effective_max_tokens};
use crate::json::{
    field_views, item_views, lemma_json_view, parse_json, parsed_json, Json, JsonView,
};
use crate::message::{has_role, is_system_prompt, is_tool_turn, MessageView};
use crate::text::{
    decimal, decimal_text, join_texts, joined, optional_text, same_text, str_or_empty,
    text_or_empty, texts, trim, trimmed,
};

verus! {

/// The fields of an API profile that a payload depends on.
#[derive(Debug)]
pub struct ApiConfigRecord {
    pub max_tokens: Option<i32>,
    /// Further settings, as a JSON document.
    pub config_json: String,
}

/// The fields of a request that a payload depends on.
#[derive(Debug)]
pub struct ChatRequest {
    /// The request is sent without history; its contents are sent as they stand.
    pub skip_context: Option<bool>,
    /// The request compacts the conversation.
    pub context_compaction: Option<bool>,
    /// A prompt for the recovery from an interrupted answer.
    pub internal_recovery_prompt: Option<String>,
}

/// Whether the endpoint of a profile is found under the base URL of its API.
pub open spec fn lies_under_api(normalized_base_url: Seq<char>, base_url_mode: Seq<char>) -> bool {
    normalized_base_url.len() > 0 && base_url_mode != "endpoint"@
}

/// Whether the endpoint of a profile is found under the base URL of its API.
pub fn needs_api_base_url(normalized_base_url: &str, base_url_mode: &str) -> (r: bool)
    ensures
        r == lies_under_api(normalized_base_url@, base_url_mode@),
{
    !normalized_base_url.is_empty() && !same_text(base_url_mode, "endpoint")
}

/// The endpoint of a profile, given its normalized base URL and the base URL of the API.
///
/// A profile without a base URL has no endpoint; in the mode `endpoint` the base URL is it.
pub fn resolve_chat_completions_endpoint(
    normalized_base_url: &str,
    base_url_mode: &str,
    sdk_api_base_url: &str,
) -> (r: String)
    ensures
        r@ == (if lies_under_api(normalized_base_url@, base_url_mode@) {
            sdk_api_base_url@ + "/chat/completions"@
        } else {
            normalized_base_url@
        }),
{
    if !needs_api_base_url(normalized_base_url, base_url_mode) {
        return normalized_base_url.to_owned();
    }
    let mut endpoint = sdk_api_base_url.to_owned();
    endpoint.append("/chat/completions");
    endpoint
}

/// The role on the wire for a role in the history.
pub open spec fn wire_role(role: Seq<char>) -> Seq<char> {
    if trimmed(role) == "assistant"@ || trimmed(role) == "system"@ || trimmed(role)
        == "developer"@ {
        trimmed(role)
    } else {
        "user"@
    }
}

/// The role on the wire for a role in the history.
pub fn normalize_message_role(role: &str) -> (r: &str)
    ensures
        r@ == wire_role(role@),
{
    let trimmed_role = trim(role);
    if same_text(trimmed_role, "assistant") {
        "assistant"
    } else if same_text(trimmed_role, "system") {
        "system"
    } else if same_text(trimmed_role, "developer") {
        "developer"
    } else {
        "user"
    }
}

/// The reasoning effort that the settings of a profile ask for.
///
/// The settings are ignored where reasoning is switched off; the effort `none` is none.
pub open spec fn effort_setting(config: JsonView) -> Option<Seq<char>> {
    match config.field("snowcfg"@) {
        Some(section) => match section.field("chatThinking"@) {
            Some(JsonView::Object(fields)) => {
                let thinking = JsonView::Object(fields);
                if thinking.field("enabled"@) == Some(JsonView::Bool(false)) {
                    None
                } else {
                    match thinking.field("reasoning_effort"@) {
                        Some(JsonView::Text(effort)) if trimmed(effort).len() > 0 && trimmed(effort)
                            != "none"@ => Some(trimmed(effort)),
                        _ => None,
                    }
                }
            },
            _ => None,
        },
        None => None,
    }
}

/// The reasoning effort that the settings of a profile ask for.
pub fn reasoning_effort_from_config(config: &Json) -> (r: Option<String>)
    ensures
        optional_text(r) == effort_setting(config@),
{
    broadcast use lemma_json_view;

    let section = match config.field("snowcfg") {
        Some(section) => section,
        None => return None,
    };
    let thinking = match section.field("chatThinking") {
        Some(thinking) => thinking,
        None => return None,
    };
    match thinking {
        Json::Object(_) => {},
        _ => return None,
    }
    if let Some(value) = thinking.field("enabled") {
        if let Some(enabled) = value.as_bool() {
            if !enabled {
                return None;
            }
        }
    }
    let effort = match thinking.field("reasoning_effort") {
        Some(value) => match value.as_text() {
            Some(text) => trim(text),
            None => return None,
        },
        None => return None,
    };
    if effort.is_empty() || same_text(effort, "none") {
        return None;
    }
    Some(effort.to_owned())
}

/// The reasoning effort that the settings in `config_json` ask for; `None` where the text is no
/// JSON document.
pub fn build_chat_reasoning_effort(config_json: &str) -> (r: Option<String>)
    ensures
        optional_text(r) == configured_effort(config_json@),
{
    match parse_json(config_json) {
        Some(config) => reasoning_effort_from_config(&config),
        None => None,
    }
}

/// The reasoning effort that the settings in a text ask for.
pub open spec fn configured_effort(config_json: Seq<char>) -> Option<Seq<char>> {
    match parsed_json(config_json) {
        Some(config) => effort_setting(config),
        None => None,
    }
}

/// A text as a part of a content.
pub open spec fn text_part(text: Seq<char>) -> JsonView {
    JsonView::Object(
        seq![("type"@, JsonView::Text("text"@)), ("text"@, JsonView::Text(text))],
    )
}

/// An image as a part of a content.
pub open spec fn image_part(data_url: Seq<char>) -> JsonView {
    JsonView::Object(
        seq![
            ("type"@, JsonView::Text("image_url"@)),
            ("image_url"@, JsonView::Object(seq![("url"@, JsonView::Text(data_url))])),
        ],
    )
}

/// Images as parts of a content.
pub open spec fn image_parts(images: Seq<Seq<char>>) -> Seq<JsonView> {
    images.map_values(|data_url: Seq<char>| image_part(data_url))
}

/// Texts as parts of a content.
pub open spec fn text_parts(parts: Seq<Seq<char>>) -> Seq<JsonView> {
    parts.map_values(|text: Seq<char>| text_part(text))
}

/// A content of a text and images: the text alone where there are no images, otherwise parts,
/// with one for the text where it is not empty.
pub open spec fn mixed_content(text: Seq<char>, images: Seq<Seq<char>>) -> JsonView {
    if images.len() == 0 {
        JsonView::Text(text)
    } else if text.len() == 0 {
        JsonView::Array(image_parts(images))
    } else {
        JsonView::Array(seq![text_part(text)] + image_parts(images))
    }
}

/// A message with a role and a content.
pub open spec fn wire_message(role: Seq<char>, content: JsonView) -> JsonView {
    JsonView::Object(seq![("role"@, JsonView::Text(role)), ("content"@, content)])
}

/// The reply to a tool call. Its content is always a text.
pub open spec fn tool_reply(call_id: Seq<char>, text: Seq<char>) -> JsonView {
    JsonView::Object(
        seq![
            ("role"@, JsonView::Text("tool"@)),
            ("tool_call_id"@, JsonView::Text(call_id)),
            ("content"@, JsonView::Text(text)),
        ],
    )
}

/// The text that is sent for a tool result; a placeholder for one that is nothing but images.
pub open spec fn result_text(result: ToolResultView) -> Seq<char> {
    if result.text.len() == 0 && result.images.len() > 0 {
        "[image attached]"@
    } else {
        result.text
    }
}

/// The message for a tool result: the reply to its call, or a user message for a result that
/// answers no call.
pub open spec fn result_message(result: ToolResultView) -> JsonView {
    if result.call_id.len() == 0 {
        wire_message("user"@, mixed_content(result_text(result), result.images))
    } else {
        tool_reply(result.call_id, result_text(result))
    }
}

/// The messages for tool results.
pub open spec fn result_messages(results: Seq<ToolResultView>) -> Seq<JsonView> {
    results.map_values(|result: ToolResultView| result_message(result))
}

/// The images of tool results that cannot go into the replies to their calls.
pub open spec fn detached_images(results: Seq<ToolResultView>) -> Seq<JsonView>
    decreases results.len(),
{
    if results.len() == 0 {
        seq![]
    } else {
        let earlier = detached_images(results.drop_last());
        if results.last().call_id.len() == 0 {
            earlier
        } else {
            earlier + image_parts(results.last().images)
        }
    }
}

/// The results of a tool turn that are sent.
pub open spec fn sent_results(sourced: SourcedView) -> Seq<ToolResultView> {
    if tool_results_text(sourced.message) is Some {
        sourced.tool_results
    } else {
        seq![]
    }
}

/// An assistant turn with tool calls. Its reasoning is always sent, and may be empty.
pub open spec fn tool_calls_message(message: MessageView, tool_calls: Seq<JsonView>) -> JsonView {
    JsonView::Object(
        seq![
            ("role"@, JsonView::Text("assistant"@)),
            ("tool_calls"@, JsonView::Array(tool_calls)),
            (
                "content"@,
                if trimmed(message.content).len() > 0 {
                    JsonView::Text(trimmed(message.content))
                } else {
                    JsonView::Null
                },
            ),
            ("reasoning_content"@, JsonView::Text(text_or_empty(message.thinking))),
        ],
    )
}

/// A message that is sent for its content, with the reasoning of an assistant turn that has
/// some.
pub open spec fn content_message(sourced: SourcedView, skip_image_parsing: bool) -> JsonView {
    let message = sourced.message;
    let content = if skip_image_parsing {
        JsonView::Text(trimmed(message.content))
    } else {
        mixed_content(sourced.content.text, sourced.content.images)
    };
    let fields = seq![
        ("role"@, JsonView::Text(wire_role(message.role))),
        ("content"@, content),
    ];
    if has_role(message, "assistant"@) && text_or_empty(message.thinking).len() > 0 {
        JsonView::Object(
            fields.push(("reasoning_content"@, JsonView::Text(message.thinking->0))),
        )
    } else {
        JsonView::Object(fields)
    }
}

/// The messages for a turn that is no tool turn.
pub open spec fn turn_messages(sourced: SourcedView, skip_image_parsing: bool) -> Seq<JsonView> {
    if calls_tools(sourced.message, sourced.tool_calls) {
        seq![tool_calls_message(sourced.message, sourced.tool_calls)]
    } else if sends_content(sourced.message, sourced.tool_calls) {
        seq![content_message(sourced, skip_image_parsing)]
    } else {
        seq![]
    }
}

/// The user message that carries detached images; none where there are none.
pub open spec fn images_message(images: Seq<JsonView>) -> Seq<JsonView> {
    if images.len() == 0 {
        seq![]
    } else {
        seq![wire_message("user"@, JsonView::Array(images))]
    }
}

/// The messages on the wire, and the detached images that still wait for the end of their tool
/// turns.
pub struct WireHistory {
    pub messages: Seq<JsonView>,
    pub waiting: Seq<JsonView>,
}

/// The messages on the wire for a history, up to its last turn.
///
/// The images of tool turns wait until the next turn that is no tool turn, so that the replies
/// to the calls of one turn stay together.
pub open spec fn wire_history(history: Seq<SourcedView>, skip_image_parsing: bool) -> WireHistory
    decreases history.len(),
{
    if history.len() == 0 {
        WireHistory { messages: seq![], waiting: seq![] }
    } else {
        let earlier = wire_history(history.drop_last(), skip_image_parsing);
        let sourced = history.last();
        if is_tool_turn(sourced.message) {
            WireHistory {
                messages: earlier.messages + result_messages(sent_results(sourced)),
                waiting: earlier.waiting + detached_images(sent_results(sourced)),
            }
        } else {
            WireHistory {
                messages: earlier.messages + images_message(earlier.waiting) + turn_messages(
                    sourced,
                    skip_image_parsing,
                ),
                waiting: seq![],
            }
        }
    }
}

/// The messages on the wire for a whole history.
pub open spec fn wire_messages(history: Seq<SourcedView>, skip_image_parsing: bool) -> Seq<JsonView> {
    let wire = wire_history(history, skip_image_parsing);
    wire.messages + images_message(wire.waiting)
}

/// The contents of the system prompts in a history, trimmed; blank ones are left out.
pub open spec fn system_parts(history: Seq<SourcedView>) -> Seq<Seq<char>>
    decreases history.len(),
{
    if history.len() == 0 {
        seq![]
    } else {
        let earlier = system_parts(history.drop_last());
        let message = history.last().message;
        if is_system_prompt(message) && trimmed(message.content).len() > 0 {
            earlier.push(trimmed(message.content))
        } else {
            earlier
        }
    }
}

/// The prompts that take the place of the system message: those of the user, and the prompt for
/// a recovery where it is not blank.
pub open spec fn system_slot(
    user_system_prompts: Seq<Seq<char>>,
    recovery_prompt: Option<Seq<char>>,
) -> Seq<Seq<char>> {
    let recovery = trimmed(text_or_empty(recovery_prompt));
    if recovery.len() == 0 {
        user_system_prompts
    } else {
        user_system_prompts.push(recovery)
    }
}

/// The messages in front of the history.
///
/// Prompts in the system slot are sent as the system message, and the built-in prompt behind
/// them as a user message; without such prompts the built-in prompt is the system message.
pub open spec fn prompt_messages(slot: Seq<Seq<char>>, builtin: Seq<Seq<char>>) -> Seq<JsonView> {
    let builtin_text = JsonView::Text(joined(builtin, "\n\n"@));
    if slot.len() > 0 {
        let system = wire_message("system"@, JsonView::Array(text_parts(slot)));
        if builtin.len() > 0 {
            seq![system, wire_message("user"@, builtin_text)]
        } else {
            seq![system]
        }
    } else if builtin.len() > 0 {
        seq![wire_message("system"@, builtin_text)]
    } else {
        seq![]
    }
}

/// All messages of a payload.
pub open spec fn payload_messages(
    history: Seq<SourcedView>,
    skip_image_parsing: bool,
    user_system_prompts: Seq<Seq<char>>,
    recovery_prompt: Option<Seq<char>>,
) -> Seq<JsonView> {
    prompt_messages(system_slot(user_system_prompts, recovery_prompt), system_parts(history))
        + wire_messages(history, skip_image_parsing)
}

/// The `max_tokens` of a payload; none where the limit is not positive.
pub open spec fn payload_max_tokens(max_tokens: Option<i32>, is_compaction: bool) -> Option<i32> {
    match effective_max_tokens(max_tokens, is_compaction) {
        Some(value) if value > 0 => Some(value),
        _ => None,
    }
}

/// A payload.
pub open spec fn chat_payload(
    model: Seq<char>,
    messages: Seq<JsonView>,
    max_tokens: Option<i32>,
    reasoning_effort: Option<Seq<char>>,
    tools: Option<JsonView>,
) -> JsonView {
    let required = seq![
        ("model"@, JsonView::Text(model)),
        ("messages"@, JsonView::Array(messages)),
        ("stream"@, JsonView::Bool(true)),
        ("stream_options"@, JsonView::Object(seq![("include_usage"@, JsonView::Bool(true))])),
    ];
    let limited = match max_tokens {
        Some(value) => required.push(("max_tokens"@, JsonView::Number(decimal(value as nat)))),
        None => required,
    };
    let reasoned = match reasoning_effort {
        Some(effort) => limited.push(("reasoning_effort"@, JsonView::Text(effort))),
        None => limited,
    };
    JsonView::Object(
        match tools {
            Some(items) if items.has_entries() => reasoned.push(("tools"@, items)),
            _ => reasoned,
        },
    )
}

fn push_field(fields: &mut Vec<(String, Json)>, key: &str, value: Json)
    ensures
        field_views(final(fields)@) == field_views(old(fields)@).push((key@, value@)),
{
    let ghost before = fields@;
    fields.push((key.to_owned(), value));
    assert(field_views(fields@) =~= field_views(before).push((key@, value@)));
}

fn push_item(items: &mut Vec<Json>, item: Json)
    ensures
        item_views(final(items)@) == item_views(old(items)@).push(item@),
{
    let ghost before = items@;
    items.push(item);
    assert(item_views(items@) =~= item_views(before).push(item@));
}

fn no_fields() -> (r: Vec<(String, Json)>)
    ensures
        field_views(r@) == Seq::<(Seq<char>, JsonView)>::empty(),
{
    let fields: Vec<(String, Json)> = Vec::new();
    assert(field_views(fields@) =~= seq![]);
    fields
}

fn json_text(text: &str) -> (r: Json)
    ensures
        r@ == JsonView::Text(text@),
{
    Json::Text(text.to_owned())
}

fn make_text_part(text: &str) -> (r: Json)
    ensures
        r@ == text_part(text@),
{
    broadcast use lemma_json_view;

    let mut fields = no_fields();
    push_field(&mut fields, "type", json_text("text"));
    push_field(&mut fields, "text", json_text(text));
    assert(field_views(fields@) =~= text_part(text@)->Object_0);
    Json::Object(fields)
}

fn make_image_part(data_url: &str) -> (r: Json)
    ensures
        r@ == image_part(data_url@),
{
    broadcast use lemma_json_view;

    let mut target = no_fields();
    push_field(&mut target, "url", json_text(data_url));
    assert(field_views(target@) =~= seq![("url"@, JsonView::Text(data_url@))]);
    let mut fields = no_fields();
    push_field(&mut fields, "type", json_text("image_url"));
    push_field(&mut fields, "image_url", Json::Object(target));
    assert(field_views(fields@) =~= image_part(data_url@)->Object_0);
    Json::Object(fields)
}

fn push_image_parts(parts: &mut Vec<Json>, images: &Vec<String>)
    ensures
        item_views(final(parts)@) == item_views(old(parts)@) + image_parts(texts(images@)),
{
    let ghost before = item_views(parts@);
    let ghost all = image_parts(texts(images@));
    let mut i: usize = 0;
    assert(item_views(parts@) =~= before + all.take(0));
    while i < images.len()
        invariant
            i <= images@.len(),
            all == image_parts(texts(images@)),
            item_views(parts@) == before + all.take(i as int),
        decreases images@.len() - i,
    {
        push_item(parts, make_image_part(images[i].as_str()));
        assert(item_views(parts@) =~= before + all.take(i + 1));
        i += 1;
    }
    assert(all.take(all.len() as int) =~= all);
}

fn make_mixed_content(text: &str, images: &Vec<String>) -> (r: Json)
    ensures
        r@ == mixed_content(text@, texts(images@)),
{
    broadcast use lemma_json_view;

    if images.len() == 0 {
        return json_text(text);
    }
    let mut parts: Vec<Json> = Vec::new();
    assert(item_views(parts@) =~= seq![]);
    if !text.is_empty() {
        push_item(&mut parts, make_text_part(text));
        assert(item_views(parts@) =~= seq![text_part(text@)]);
    }
    push_image_parts(&mut parts, images);
    proof {
        if text@.len() == 0 {
            assert(item_views(parts@) =~= image_parts(texts(images@)));
        }
    }
    Json::Array(parts)
}

fn make_wire_message(role: &str, content: Json) -> (r: Json)
    ensures
        r@ == wire_message(role@, content@),
{
    broadcast use lemma_json_view;

    let mut fields = no_fields();
    push_field(&mut fields, "role", json_text(role));
    push_field(&mut fields, "content", content);
    assert(field_views(fields@) =~= wire_message(role@, content@)->Object_0);
    Json::Object(fields)
}

fn make_tool_reply(call_id: &str, text: &str) -> (r: Json)
    ensures
        r@ == tool_reply(call_id@, text@),
{
    broadcast use lemma_json_view;

    let mut fields = no_fields();
    push_field(&mut fields, "role", json_text("tool"));
    push_field(&mut fields, "tool_call_id", json_text(call_id));
    push_field(&mut fields, "content", json_text(text));
    assert(field_views(fields@) =~= tool_reply(call_id@, text@)->Object_0);
    Json::Object(fields)
}

/// Sends the images that wait as one user message.
pub fn flush_tool_image_parts(payload_messages: &mut Vec<Json>, pending: &mut Vec<Json>)
    ensures
        item_views(final(payload_messages)@) == item_views(old(payload_messages)@)
            + images_message(item_views(old(pending)@)),
        final(pending)@ == Seq::<Json>::empty(),
{
    broadcast use lemma_json_view;

    let ghost before = item_views(payload_messages@);
    let ghost images = item_views(pending@);
    if pending.len() == 0 {
        assert(before + images_message(images) =~= before);
        assert(pending@ =~= Seq::<Json>::empty());
        return;
    }
    let mut parts: Vec<Json> = Vec::new();
    parts.append(pending);
    assert(item_views(parts@) =~= images);
    push_item(payload_messages, make_wire_message("user", Json::Array(parts)));
    assert(item_views(payload_messages@) =~= before + images_message(images));
}

fn push_result_messages(
    messages: &mut Vec<Json>,
    pending: &mut Vec<Json>,
    results: &Vec<ToolResult>,
)
    ensures
        item_views(final(messages)@) == item_views(old(messages)@) + result_messages(
            result_views(results@),
        ),
        item_views(final(pending)@) == item_views(old(pending)@) + detached_images(
            result_views(results@),
        ),
{
    let ghost before = item_views(messages@);
    let ghost waiting = item_views(pending@);
    let ghost views = result_views(results@);
    let mut i: usize = 0;
    assert(before + result_messages(views.take(0)) =~= before);
    assert(waiting + detached_images(views.take(0)) =~= waiting);
    while i < results.len()
        invariant
            i <= results@.len(),
            views == result_views(results@),
            item_views(messages@) == before + result_messages(views.take(i as int)),
            item_views(pending@) == waiting + detached_images(views.take(i as int)),
        decreases results@.len() - i,
    {
        let result = &results[i];
        proof {
            assert(views.take(i + 1).drop_last() =~= views.take(i as int));
            assert(views.take(i + 1).last() == result@);
            assert(result_messages(views.take(i + 1)) =~= result_messages(
                views.take(i as int),
            ).push(result_message(result@)));
        }
        let text = if result.text.as_str().is_empty() && result.images.len() > 0 {
            "[image attached]"
        } else {
            result.text.as_str()
        };
        if result.call_id.as_str().is_empty() {
            push_item(messages, make_wire_message("user", make_mixed_content(text, &result.images)));
        } else {
            push_image_parts(pending, &result.images);
            push_item(messages, make_tool_reply(result.call_id.as_str(), text));
        }
        proof {
            assert(item_views(messages@) =~= before + result_messages(views.take(i + 1)));
            assert(item_views(pending@) =~= waiting + detached_images(views.take(i + 1)));
        }
        i += 1;
    }
    assert(views.take(views.len() as int) =~= views);
}

fn copy_items(items: &Vec<Json>) -> (r: Vec<Json>)
    ensures
        item_views(r@) == item_views(items@),
{
    let mut copies: Vec<Json> = Vec::new();
    let mut i: usize = 0;
    while i < items.len()
        invariant
            i <= items@.len(),
            item_views(copies@) == item_views(items@).take(i as int),
        decreases items@.len() - i,
    {
        push_item(&mut copies, items[i].clone());
        assert(item_views(copies@) =~= item_views(items@).take(i + 1));
        i += 1;
    }
    assert(item_views(items@).take(items@.len() as int) =~= item_views(items@));
    copies
}

fn make_tool_calls_message(sourced: &SourcedMessage) -> (r: Json)
    ensures
        r@ == tool_calls_message(sourced@.message, sourced@.tool_calls),
{
    broadcast use lemma_json_view;

    let content = trim(sourced.message.content.as_str());
    let mut fields = no_fields();
    push_field(&mut fields, "role", json_text("assistant"));
    push_field(&mut fields, "tool_calls", Json::Array(copy_items(&sourced.tool_calls)));
    push_field(
        &mut fields,
        "content",
        if content.is_empty() {
            Json::Null
        } else {
            json_text(content)
        },
    );
    push_field(
        &mut fields,
        "reasoning_content",
        json_text(str_or_empty(&sourced.message.thinking)),
    );
    assert(field_views(fields@) =~= tool_calls_message(
        sourced@.message,
        sourced@.tool_calls,
    )->Object_0);
    Json::Object(fields)
}

fn make_content_message(sourced: &SourcedMessage, skip_image_parsing: bool) -> (r: Json)
    ensures
        r@ == content_message(sourced@, skip_image_parsing),
{
    broadcast use lemma_json_view;

    let message = &sourced.message;
    let content = if skip_image_parsing {
        json_text(trim(message.content.as_str()))
    } else {
        make_mixed_content(sourced.content.text.as_str(), &sourced.content.images)
    };
    let mut fields = no_fields();
    push_field(&mut fields, "role", json_text(normalize_message_role(message.role.as_str())));
    push_field(&mut fields, "content", content);
    let thinking = str_or_empty(&message.thinking);
    if message.has_role("assistant") && !thinking.is_empty() {
        push_field(&mut fields, "reasoning_content", json_text(thinking));
    }
    assert(field_views(fields@) =~= content_message(sourced@, skip_image_parsing)->Object_0);
    Json::Object(fields)
}

/// The messages on the wire for a history.
pub fn build_wire_messages(history: &[SourcedMessage], skip_image_parsing: bool) -> (r: Vec<Json>)
    ensures
        item_views(r@) == wire_messages(sourced_views(history@), skip_image_parsing),
{
    let ghost views = sourced_views(history@);
    let mut messages: Vec<Json> = Vec::new();
    let mut pending: Vec<Json> = Vec::new();
    let mut i: usize = 0;
    assert(item_views(messages@) =~= seq![]);
    assert(item_views(pending@) =~= seq![]);
    while i < history.len()
        invariant
            i <= history@.len(),
            views == sourced_views(history@),
            item_views(messages@) == wire_history(
                views.take(i as int),
                skip_image_parsing,
            ).messages,
            item_views(pending@) == wire_history(views.take(i as int), skip_image_parsing).waiting,
        decreases history@.len() - i,
    {
        let sourced = &history[i];
        proof {
            assert(views.take(i + 1).drop_last() =~= views.take(i as int));
            assert(views.take(i + 1).last() == sourced@);
        }
        let ghost before = item_views(messages@);
        let ghost waiting = item_views(pending@);
        if sourced.message.has_role("tool") {
            if tool_results_source(&sourced.message).is_some() {
                push_result_messages(&mut messages, &mut pending, &sourced.tool_results);
            } else {
                assert(before + result_messages(seq![]) =~= before);
                assert(waiting + detached_images(seq![]) =~= waiting);
            }
        } else {
            flush_tool_image_parts(&mut messages, &mut pending);
            let ghost flushed = item_views(messages@);
            assert(item_views(pending@) =~= seq![]);
            if tool_calls_source(&sourced.message).is_some() && sourced.tool_calls.len() > 0 {
                push_item(&mut messages, make_tool_calls_message(sourced));
            } else if is_sent_for_content(&sourced.message, &sourced.tool_calls) {
                push_item(&mut messages, make_content_message(sourced, skip_image_parsing));
            }
            assert(item_views(messages@) =~= flushed + turn_messages(sourced@, skip_image_parsing));
        }
        i += 1;
    }
    assert(views.take(views.len() as int) =~= views);
    flush_tool_image_parts(&mut messages, &mut pending);
    messages
}

fn collect_system_parts(history: &[SourcedMessage]) -> (r: Vec<String>)
    ensures
        texts(r@) == system_parts(sourced_views(history@)),
{
    let ghost views = sourced_views(history@);
    let mut parts: Vec<String> = Vec::new();
    let mut i: usize = 0;
    assert(texts(parts@) =~= seq![]);
    while i < history.len()
        invariant
            i <= history@.len(),
            views == sourced_views(history@),
            texts(parts@) == system_parts(views.take(i as int)),
        decreases history@.len() - i,
    {
        let message = &history[i].message;
        proof {
            assert(views.take(i + 1).drop_last() =~= views.take(i as int));
            assert(views.take(i + 1).last().message == message@);
        }
        let content = trim(message.content.as_str());
        let ghost before = texts(parts@);
        if message.is_system_prompt() && !content.is_empty() {
            parts.push(content.to_owned());
            assert(texts(parts@) =~= before.push(content@));
        }
        i += 1;
    }
    assert(views.take(views.len() as int) =~= views);
    parts
}

fn make_text_parts(prompts: &Vec<String>) -> (r: Vec<Json>)
    ensures
        item_views(r@) == text_parts(texts(prompts@)),
{
    let ghost all = text_parts(texts(prompts@));
    let mut parts: Vec<Json> = Vec::new();
    let mut i: usize = 0;
    assert(item_views(parts@) =~= all.take(0));
    while i < prompts.len()
        invariant
            i <= prompts@.len(),
            all == text_parts(texts(prompts@)),
            item_views(parts@) == all.take(i as int),
        decreases prompts@.len() - i,
    {
        push_item(&mut parts, make_text_part(prompts[i].as_str()));
        assert(item_views(parts@) =~= all.take(i + 1));
        i += 1;
    }
    assert(all.take(all.len() as int) =~= all);
    parts
}

fn collect_system_slot(user_system_prompts: &[String], recovery_prompt: &Option<String>) -> (r: Vec<
    String,
>)
    ensures
        texts(r@) == system_slot(texts(user_system_prompts@), optional_text(*recovery_prompt)),
{
    let ghost all = texts(user_system_prompts@);
    let mut slot: Vec<String> = Vec::new();
    let mut i: usize = 0;
    assert(texts(slot@) =~= all.take(0));
    while i < user_system_prompts.len()
        invariant
            i <= user_system_prompts@.len(),
            all == texts(user_system_prompts@),
            texts(slot@) == all.take(i as int),
        decreases user_system_prompts@.len() - i,
    {
        let ghost before = texts(slot@);
        slot.push(user_system_prompts[i].clone());
        assert(texts(slot@) =~= before.push(all[i as int]));
        assert(texts(slot@) =~= all.take(i + 1));
        i += 1;
    }
    assert(all.take(all.len() as int) =~= all);
    let recovery = trim(str_or_empty(recovery_prompt));
    if !recovery.is_empty() {
        slot.push(recovery.to_owned());
        assert(texts(slot@) =~= all.push(recovery@));
    }
    slot
}

/// The messages in front of the history, given the prompts in the system slot and the parts of
/// the built-in prompt.
pub fn build_prompt_messages(slot: &Vec<String>, builtin: &Vec<String>) -> (r: Vec<Json>)
    ensures
        item_views(r@) == prompt_messages(texts(slot@), texts(builtin@)),
{
    broadcast use lemma_json_view;

    let mut messages: Vec<Json> = Vec::new();
    assert(item_views(messages@) =~= seq![]);
    let builtin_text = join_texts(builtin, "\n\n");
    if slot.len() > 0 {
        push_item(&mut messages, make_wire_message("system", Json::Array(make_text_parts(slot))));
        if builtin.len() > 0 {
            push_item(&mut messages, make_wire_message("user", json_text(builtin_text.as_str())));
        }
    } else if builtin.len() > 0 {
        push_item(&mut messages, make_wire_message("system", json_text(builtin_text.as_str())));
    }
    assert(item_views(messages@) =~= prompt_messages(texts(slot@), texts(builtin@)));
    messages
}

fn make_chat_payload(
    model: &str,
    messages: Vec<Json>,
    max_tokens: Option<i32>,
    reasoning_effort: &Option<String>,
    tools: Option<Json>,
) -> (r: Json)
    requires
        max_tokens matches Some(value) ==> value > 0,
    ensures
        r@ == chat_payload(
            model@,
            item_views(messages@),
            max_tokens,
            optional_text(*reasoning_effort),
            match tools {
                Some(items) => Some(items@),
                None => None,
            },
        ),
{
    broadcast use lemma_json_view;

    let mut options = no_fields();
    push_field(&mut options, "include_usage", Json::Bool(true));
    assert(field_views(options@) =~= seq![("include_usage"@, JsonView::Bool(true))]);
    let mut fields = no_fields();
    push_field(&mut fields, "model", json_text(model));
    push_field(&mut fields, "messages", Json::Array(messages));
    push_field(&mut fields, "stream", Json::Bool(true));
    push_field(&mut fields, "stream_options", Json::Object(options));
    if let Some(value) = max_tokens {
        push_field(&mut fields, "max_tokens", Json::Number(decimal_text(value as usize)));
    }
    if let Some(effort) = reasoning_effort {
        push_field(&mut fields, "reasoning_effort", json_text(effort.as_str()));
    }
    if let Some(items) = tools {
        if items.has_entries() {
            push_field(&mut fields, "tools", items);
        }
    }
    assert(field_views(fields@) =~= chat_payload(
        model@,
        item_views(messages@),
        max_tokens,
        optional_text(*reasoning_effort),
        match tools {
            Some(items) => Some(items@),
            None => None,
        },
    )->Object_0);
    Json::Object(fields)
}

/// Assembles a payload, given the reasoning effort. A payload without messages is refused.
pub fn assemble_chat_payload(
    history: &[SourcedMessage],
    request: &ChatRequest,
    model: &str,
    max_tokens: Option<i32>,
    reasoning_effort: &Option<String>,
    tools: Option<Json>,
    user_system_prompts: &[String],
) -> (r: Result<Json, RequestError>)
    ensures
        ({
            let messages = payload_messages(
                sourced_views(history@),
                request.skip_context == Some(true),
                texts(user_system_prompts@),
                optional_text(request.internal_recovery_prompt),
            );
            &&& messages.len() == 0 ==> r == Err::<Json, RequestError>(
                RequestError::ContentRequired,
            )
            &&& messages.len() > 0 ==> r is Ok && r->Ok_0@ == chat_payload(
                model@,
                messages,
                payload_max_tokens(max_tokens, request.context_compaction == Some(true)),
                optional_text(*reasoning_effort),
                match tools {
                    Some(items) => Some(items@),
                    None => None,
                },
            )
        }),
{
    let skip_image_parsing = match request.skip_context {
        Some(skip) => skip,
        None => false,
    };
    let is_compaction = match request.context_compaction {
        Some(compaction) => compaction,
        None => false,
    };
    let slot = collect_system_slot(user_system_prompts, &request.internal_recovery_prompt);
    let builtin = collect_system_parts(history);
    let mut messages = build_prompt_messages(&slot, &builtin);
    let ghost front = item_views(messages@);
    let mut rest = build_wire_messages(history, skip_image_parsing);
    let ghost back = item_views(rest@);
    messages.append(&mut rest);
    assert(item_views(messages@) =~= front + back);
    assert(item_views(messages@).len() == messages@.len());
    if messages.len() == 0 {
        return Err(RequestError::ContentRequired);
    }
    let limit = match resolve_effective_max_tokens(max_tokens, is_compaction) {
        Some(value) if value > 0 => Some(value),
        _ => None,
    };
    Ok(make_chat_payload(model, messages, limit, reasoning_effort, tools))
}

/// Builds the Chat Completions payload of a request.
///
/// `history` holds the messages with what was read for them, `model` the model to use.
pub fn build_chat_completions_payload(
    history: &[SourcedMessage],
    request: &ChatRequest,
    api_config: &ApiConfigRecord,
    model: &str,
    tools: Option<Json>,
    user_system_prompts: &[String],
) -> (r: Result<Json, RequestError>)
    ensures
        ({
            let messages = payload_messages(
                sourced_views(history@),
                request.skip_context == Some(true),
                texts(user_system_prompts@),
                optional_text(request.internal_recovery_prompt),
            );
            &&& messages.len() == 0 ==> r == Err::<Json, RequestError>(
                RequestError::ContentRequired,
            )
            &&& messages.len() > 0 ==> r is Ok && r->Ok_0@ == chat_payload(
                model@,
                messages,
                payload_max_tokens(
                    api_config.max_tokens,
                    request.context_compaction == Some(true),
                ),
                configured_effort(api_config.config_json@),
                match tools {
                    Some(items) => Some(items@),
                    None => None,
                },
            )
        }),
{
    let reasoning_effort = build_chat_reasoning_effort(api_config.config_json.as_str());
    assemble_chat_payload(
        history,
        request,
        model,
        api_config.max_tokens,
        &reasoning_effort,
        tools,
        user_system_prompts,
    )
}

/// The messages for the results of consecutive tool turns.
pub open spec fn turns_replies(turns: Seq<SourcedView>) -> Seq<JsonView>
    decreases turns.len(),
{
    if turns.len() == 0 {
        seq![]
    } else {
        turns_replies(turns.drop_last()) + result_messages(sent_results(turns.last()))
    }
}

/// The detached images of consecutive tool turns.
pub open spec fn turns_images(turns: Seq<SourcedView>) -> Seq<JsonView>
    decreases turns.len(),
{
    if turns.len() == 0 {
        seq![]
    } else {
        turns_images(turns.drop_last()) + detached_images(sent_results(turns.last()))
    }
}

/// The tool turns between two other turns are sent as their replies, all together, followed by
/// one user message with all their images, or by none where they have no images. What stands
/// before and after them is sent as it would be without them.
pub proof fn law_tool_images_follow_all_replies(
    before: Seq<SourcedView>,
    turns: Seq<SourcedView>,
    after: Seq<SourcedView>,
    skip_image_parsing: bool,
)
    requires
        before.len() > 0 ==> !is_tool_turn(before.last().message),
        forall|i: int| 0 <= i < turns.len() ==> is_tool_turn((#[trigger] turns[i]).message),
        after.len() > 0 ==> !is_tool_turn(after.first().message),
    ensures
        wire_messages(before + turns + after, skip_image_parsing) == wire_messages(
            before,
            skip_image_parsing,
        ) + turns_replies(turns) + images_message(turns_images(turns)) + wire_messages(
            after,
            skip_image_parsing,
        ),
{
    lemma_tool_turns_wait(before, turns, skip_image_parsing);
    let head = wire_messages(before + turns, skip_image_parsing);
    assert(head =~= wire_messages(before, skip_image_parsing) + turns_replies(turns)
        + images_message(turns_images(turns)));
    if after.len() == 0 {
        assert(before + turns + after =~= before + turns);
        assert(wire_messages(after, skip_image_parsing) =~= seq![]);
        assert(head + wire_messages(after, skip_image_parsing) =~= head);
    } else {
        lemma_turns_after(before + turns, after, skip_image_parsing);
        let wire = wire_history(after, skip_image_parsing);
        assert(head + wire.messages + images_message(wire.waiting) =~= head + (wire.messages
            + images_message(wire.waiting)));
    }
}

proof fn lemma_tool_turns_wait(
    before: Seq<SourcedView>,
    turns: Seq<SourcedView>,
    skip_image_parsing: bool,
)
    requires
        before.len() > 0 ==> !is_tool_turn(before.last().message),
        forall|i: int| 0 <= i < turns.len() ==> is_tool_turn((#[trigger] turns[i]).message),
    ensures
        wire_history(before + turns, skip_image_parsing).messages =~= wire_messages(
            before,
            skip_image_parsing,
        ) + turns_replies(turns),
        wire_history(before + turns, skip_image_parsing).waiting =~= turns_images(turns),
    decreases turns.len(),
{
    if turns.len() == 0 {
        assert(before + turns =~= before);
    } else {
        let earlier = turns.drop_last();
        lemma_tool_turns_wait(before, earlier, skip_image_parsing);
        assert((before + turns).drop_last() =~= before + earlier);
        assert((before + turns).last() == turns.last());
    }
}

pub(crate) proof fn lemma_turns_after(
    front: Seq<SourcedView>,
    after: Seq<SourcedView>,
    skip_image_parsing: bool,
)
    requires
        after.len() > 0,
        !is_tool_turn(after.first().message),
    ensures
        wire_history(front + after, skip_image_parsing).messages =~= wire_messages(
            front,
            skip_image_parsing,
        ) + wire_history(after, skip_image_parsing).messages,
        wire_history(front + after, skip_image_parsing).waiting =~= wire_history(
            after,
            skip_image_parsing,
        ).waiting,
    decreases after.len(),
{
    let earlier = after.drop_last();
    assert((front + after).drop_last() =~= front + earlier);
    assert((front + after).last() == after.last());
    if earlier.len() == 0 {
        assert(front + earlier =~= front);
        assert(wire_history(earlier, skip_image_parsing).messages =~= seq![]);
    } else {
        assert(earlier.first() == after.first());
        lemma_turns_after(front, earlier, skip_image_parsing);
    }
}

/// Results that answer calls are sent as nothing but replies, one for each result and in order.
pub proof fn law_answered_results_are_replies(results: Seq<ToolResultView>)
    requires
        forall|i: int| 0 <= i < results.len() ==> (#[trigger] results[i]).call_id.len() > 0,
    ensures
        result_messages(results).len() == results.len(),
        forall|i: int|
            0 <= i < results.len() ==> #[trigger] result_messages(results)[i] == tool_reply(
                results[i].call_id,
                result_text(results[i]),
            ),
{
}

/// Whether the content of a message is a text where its role is `tool`.
pub open spec fn tool_content_is_text(message: JsonView) -> bool {
    message.field("role"@) == Some(JsonView::Text("tool"@)) ==> message.field("content"@) matches Some(
        JsonView::Text(_),
    )
}

/// The content of every tool message in a payload is a text, never a list of parts.
pub proof fn law_tool_content_is_text(
    history: Seq<SourcedView>,
    skip_image_parsing: bool,
    user_system_prompts: Seq<Seq<char>>,
    recovery_prompt: Option<Seq<char>>,
)
    ensures
        forall|i: int|
            0 <= i < payload_messages(
                history,
                skip_image_parsing,
                user_system_prompts,
                recovery_prompt,
            ).len() ==> tool_content_is_text(
                #[trigger] payload_messages(
                    history,
                    skip_image_parsing,
                    user_system_prompts,
                    recovery_prompt,
                )[i],
            ),
{
    let front = prompt_messages(
        system_slot(user_system_prompts, recovery_prompt),
        system_parts(history),
    );
    let wire = wire_history(history, skip_image_parsing);
    lemma_wire_tool_content(history, skip_image_parsing);
    lemma_wire_message_roles();
    let all = payload_messages(history, skip_image_parsing, user_system_prompts, recovery_prompt);
    assert forall|i: int| 0 <= i < all.len() implies tool_content_is_text(#[trigger] all[i]) by {
        if i < front.len() {
            assert(all[i] == front[i]);
        } else if i < front.len() + wire.messages.len() {
            assert(all[i] == wire.messages[i - front.len()]);
        } else {
            assert(all[i] == images_message(wire.waiting)[0]);
        }
    }
}

proof fn lemma_wire_message_roles()
    ensures
        forall|content: JsonView| tool_content_is_text(#[trigger] wire_message("user"@, content)),
        forall|content: JsonView| tool_content_is_text(#[trigger] wire_message("system"@, content)),
        forall|call_id: Seq<char>, text: Seq<char>|
            tool_content_is_text(#[trigger] tool_reply(call_id, text)),
{
    reveal_strlit("user");
    reveal_strlit("system");
    reveal_strlit("tool");
    reveal_strlit("role");
    reveal_strlit("content");
    reveal_strlit("tool_call_id");
    assert("user"@[0] != "tool"@[0]);
    assert("system"@.len() != "tool"@.len());
    assert forall|call_id: Seq<char>, text: Seq<char>|
        tool_content_is_text(#[trigger] tool_reply(call_id, text)) by {
        let fields = tool_reply(call_id, text)->Object_0;
        assert("role"@.len() != "content"@.len());
        assert("tool_call_id"@.len() != "content"@.len());
        assert(fields.drop_first().drop_first()[0] == fields[2]);
        reveal_with_fuel(crate::json::first_field, 4);
    }
}

proof fn lemma_turn_tool_content(sourced: SourcedView, skip_image_parsing: bool)
    ensures
        forall|i: int|
            0 <= i < turn_messages(sourced, skip_image_parsing).len() ==> tool_content_is_text(
                #[trigger] turn_messages(sourced, skip_image_parsing)[i],
            ),
{
    reveal_strlit("user");
    reveal_strlit("assistant");
    reveal_strlit("system");
    reveal_strlit("developer");
    reveal_strlit("tool");
    assert("user"@[0] != "tool"@[0]);
    assert("assistant"@.len() != "tool"@.len());
    assert("system"@.len() != "tool"@.len());
    assert("developer"@.len() != "tool"@.len());
}

proof fn lemma_wire_tool_content(history: Seq<SourcedView>, skip_image_parsing: bool)
    ensures
        forall|i: int|
            0 <= i < wire_history(history, skip_image_parsing).messages.len()
                ==> tool_content_is_text(
                #[trigger] wire_history(history, skip_image_parsing).messages[i],
            ),
    decreases history.len(),
{
    if history.len() > 0 {
        let earlier = wire_history(history.drop_last(), skip_image_parsing);
        let sourced = history.last();
        lemma_wire_tool_content(history.drop_last(), skip_image_parsing);
        lemma_wire_message_roles();
        lemma_turn_tool_content(sourced, skip_image_parsing);
        let all = wire_history(history, skip_image_parsing).messages;
        assert forall|i: int| 0 <= i < all.len() implies tool_content_is_text(
            #[trigger] all[i],
        ) by {
            if i < earlier.messages.len() {
                assert(all[i] == earlier.messages[i]);
            } else if is_tool_turn(sourced.message) {
                let k = i - earlier.messages.len();
                assert(all[i] == result_messages(sent_results(sourced))[k]);
            } else if i < earlier.messages.len() + images_message(earlier.waiting).len() {
                assert(all[i] == images_message(earlier.waiting)[0]);
            } else {
                let k = i - earlier.messages.len() - images_message(earlier.waiting).len();
                assert(all[i] == turn_messages(sourced, skip_image_parsing)[k]);
            }
        }
    }
}

/// Whether a message has a role that is no system prompt's.
pub open spec fn is_dialogue(message: JsonView) -> bool {
    ||| message.field("role"@) == Some(JsonView::Text("user"@))
    ||| message.field("role"@) == Some(JsonView::Text("assistant"@))
    ||| message.field("role"@) == Some(JsonView::Text("tool"@))
}

/// Whatever prompts there are, only the first message of a payload can be a system message: the
/// user's prompts have the system slot to themselves, and it is filled wherever there is a
/// prompt.
pub proof fn law_only_the_first_message_is_a_system_message(
    history: Seq<SourcedView>,
    skip_image_parsing: bool,
    user_system_prompts: Seq<Seq<char>>,
    recovery_prompt: Option<Seq<char>>,
)
    ensures
        ({
            let slot = system_slot(user_system_prompts, recovery_prompt);
            let builtin = system_parts(history);
            let all = payload_messages(
                history,
                skip_image_parsing,
                user_system_prompts,
                recovery_prompt,
            );
            &&& forall|i: int| #![trigger all[i]] 0 < i < all.len() ==> is_dialogue(all[i])
            &&& slot.len() > 0 ==> all[0] == wire_message(
                "system"@,
                JsonView::Array(text_parts(slot)),
            )
            &&& slot.len() == 0 && builtin.len() > 0 ==> all[0] == wire_message(
                "system"@,
                JsonView::Text(joined(builtin, "\n\n"@)),
            )
            &&& slot.len() == 0 && builtin.len() == 0 ==> all == wire_messages(
                history,
                skip_image_parsing,
            )
        }),
{
    let slot = system_slot(user_system_prompts, recovery_prompt);
    let builtin = system_parts(history);
    let front = prompt_messages(slot, builtin);
    let wire = wire_history(history, skip_image_parsing);
    lemma_wire_is_dialogue(history, skip_image_parsing);
    let all = payload_messages(history, skip_image_parsing, user_system_prompts, recovery_prompt);
    if front.len() > 0 {
        assert(all[0] == front[0]);
    } else {
        assert(all =~= wire_messages(history, skip_image_parsing));
    }
    assert forall|i: int| #![trigger all[i]] 0 < i < all.len() implies is_dialogue(all[i]) by {
        if i < front.len() {
            assert(all[i] == front[1]);
        } else if i < front.len() + wire.messages.len() {
            assert(all[i] == wire.messages[i - front.len()]);
        } else {
            assert(all[i] == images_message(wire.waiting)[0]);
        }
    }
}

proof fn lemma_wire_is_dialogue(history: Seq<SourcedView>, skip_image_parsing: bool)
    ensures
        forall|i: int|
            0 <= i < wire_history(history, skip_image_parsing).messages.len() ==> is_dialogue(
                #[trigger] wire_history(history, skip_image_parsing).messages[i],
            ),
    decreases history.len(),
{
    if history.len() > 0 {
        let earlier = wire_history(history.drop_last(), skip_image_parsing);
        let sourced = history.last();
        lemma_wire_is_dialogue(history.drop_last(), skip_image_parsing);
        let all = wire_history(history, skip_image_parsing).messages;
        assert forall|i: int| 0 <= i < all.len() implies is_dialogue(#[trigger] all[i]) by {
            if i < earlier.messages.len() {
                assert(all[i] == earlier.messages[i]);
            } else if is_tool_turn(sourced.message) {
                let k = i - earlier.messages.len();
                assert(all[i] == result_messages(sent_results(sourced))[k]);
            } else if i < earlier.messages.len() + images_message(earlier.waiting).len() {
                assert(all[i] == images_message(earlier.waiting)[0]);
            } else {
                let k = i - earlier.messages.len() - images_message(earlier.waiting).len();
                assert(all[i] == turn_messages(sourced, skip_image_parsing)[k]);
            }
        }
    }
}

/// The limit that a payload sends is what the context guard reserves for the answer, and no
/// limit is sent where the guard reserves nothing.
pub proof fn law_payload_agrees_with_guard(max_tokens: Option<i32>, is_compaction: bool)
    ensures
        output_reserve(max_tokens, is_compaction) == (match payload_max_tokens(
            max_tokens,
            is_compaction,
        ) {
            Some(value) => value as int,
            None => 0,
        }),
{
}

} // verus!
