//! What is read for a message before it is put on the wire.
//!
//! Tool results and contents can refer to images on disk, and tool calls are stored in the
//! format of the provider that made them. What a message needs is read first; the payload is
//! then assembled from what was read.
use vstd::prelude::*;

use crate::json::{item_views, Json, JsonView};
use crate::message::{has_role, is_system_prompt, is_tool_turn, ChatContextMessage, MessageView};
use crate::text::{same_text, texts, trim, trimmed};

verus! {

/// One result of a tool turn, with the images that it refers to.
pub struct ToolResult {
    /// The call that the result answers; empty for one without a call.
    pub call_id: String,
    pub text: String,
    /// The images as data URLs.
    pub images: Vec<String>,
}

/// What a [`ToolResult`] holds.
pub struct ToolResultView {
    pub call_id: Seq<char>,
    pub text: Seq<char>,
    pub images: Seq<Seq<char>>,
}

impl View for ToolResult {
    type V = ToolResultView;

    open spec fn view(&self) -> ToolResultView {
        ToolResultView { call_id: self.call_id@, text: self.text@, images: texts(self.images@) }
    }
}

/// What a sequence of tool results holds.
pub open spec fn result_views(results: Seq<ToolResult>) -> Seq<ToolResultView> {
    results.map_values(|result: ToolResult| result@)
}

/// The content of a message, with the images that it refers to.
pub struct ParsedContent {
    pub text: String,
    /// The images as data URLs.
    pub images: Vec<String>,
}

/// What a [`ParsedContent`] holds.
pub struct ContentView {
    pub text: Seq<char>,
    pub images: Seq<Seq<char>>,
}

impl View for ParsedContent {
    type V = ContentView;

    open spec fn view(&self) -> ContentView {
        ContentView { text: self.text@, images: texts(self.images@) }
    }
}

/// A message together with what was read for it.
pub struct SourcedMessage {
    pub message: ChatContextMessage,
    /// What [`tool_results_source`] holds.
    pub tool_results: Vec<ToolResult>,
    /// What [`tool_calls_source`] holds, as Chat Completions tool calls.
    pub tool_calls: Vec<Json>,
    /// What [`content_source`] holds.
    pub content: ParsedContent,
}

/// What a [`SourcedMessage`] holds.
pub struct SourcedView {
    pub message: MessageView,
    pub tool_results: Seq<ToolResultView>,
    pub tool_calls: Seq<JsonView>,
    pub content: ContentView,
}

impl View for SourcedMessage {
    type V = SourcedView;

    open spec fn view(&self) -> SourcedView {
        SourcedView {
            message: self.message@,
            tool_results: result_views(self.tool_results@),
            tool_calls: item_views(self.tool_calls@),
            content: self.content@,
        }
    }
}

/// What a sequence of sourced messages holds.
pub open spec fn sourced_views(messages: Seq<SourcedMessage>) -> Seq<SourcedView> {
    messages.map_values(|message: SourcedMessage| message@)
}

/// The stored results of a tool turn that are sent.
///
/// A turn without content whose results are empty, or an empty object, is not sent.
pub open spec fn tool_results_text(message: MessageView) -> Option<Seq<char>> {
    if !is_tool_turn(message) {
        None
    } else {
        match message.tool_results_json {
            Some(raw) if trimmed(message.content).len() > 0 || (raw.len() > 0 && raw != "{}"@) =>
                Some(raw),
            _ => None,
        }
    }
}

/// The stored calls of an assistant turn.
pub open spec fn tool_calls_text(message: MessageView) -> Option<Seq<char>> {
    if has_role(message, "assistant"@) {
        message.tool_calls_json
    } else {
        None
    }
}

/// Whether a message is sent as an assistant turn with tool calls, given its calls.
pub open spec fn calls_tools(message: MessageView, tool_calls: Seq<JsonView>) -> bool {
    tool_calls_text(message) is Some && tool_calls.len() > 0
}

/// Whether a message is sent for its content, given its tool calls.
pub open spec fn sends_content(message: MessageView, tool_calls: Seq<JsonView>) -> bool {
    &&& !is_tool_turn(message)
    &&& !is_system_prompt(message)
    &&& !calls_tools(message, tool_calls)
    &&& trimmed(message.content).len() > 0
}

/// The stored results of a tool turn that have to be read.
pub fn tool_results_source(message: &ChatContextMessage) -> (r: Option<&str>)
    ensures
        r is Some == tool_results_text(message@) is Some,
        r is Some ==> r->0@ == tool_results_text(message@)->0,
{
    if !message.has_role("tool") {
        return None;
    }
    match &message.tool_results_json {
        Some(raw) => {
            if !trim(message.content.as_str()).is_empty() || (!raw.as_str().is_empty()
                && !same_text(raw.as_str(), "{}")) {
                Some(raw.as_str())
            } else {
                None
            }
        },
        None => None,
    }
}

/// The stored calls of an assistant turn that have to be read.
pub fn tool_calls_source(message: &ChatContextMessage) -> (r: Option<&str>)
    ensures
        r is Some == tool_calls_text(message@) is Some,
        r is Some ==> r->0@ == tool_calls_text(message@)->0,
{
    if !message.has_role("assistant") {
        return None;
    }
    match &message.tool_calls_json {
        Some(raw) => Some(raw.as_str()),
        None => None,
    }
}

/// Whether a message is sent for its content, given its tool calls.
pub(crate) fn is_sent_for_content(message: &ChatContextMessage, tool_calls: &Vec<Json>) -> (r: bool)
    ensures
        r == sends_content(message@, item_views(tool_calls@)),
{
    let has_calls = tool_calls_source(message).is_some() && tool_calls.len() > 0;
    !message.has_role("tool") && !message.is_system_prompt() && !has_calls && !trim(
        message.content.as_str(),
    ).is_empty()
}

/// The content of a message whose references have to be read, given its tool calls; `None`
/// where the content is not sent, or is sent as it stands.
pub fn content_source<'a>(
    message: &'a ChatContextMessage,
    tool_calls: &Vec<Json>,
    skip_image_parsing: bool,
) -> (r: Option<&'a str>)
    ensures
        r is Some == (!skip_image_parsing && sends_content(message@, item_views(tool_calls@))),
        r is Some ==> r->0@ == trimmed(message@.content),
{
    if !skip_image_parsing && is_sent_for_content(message, tool_calls) {
        Some(trim(message.content.as_str()))
    } else {
        None
    }
}

/// What was read for a message is held whole: its results, its calls and its content, each with
/// all its fields.
pub proof fn law_sourced_messages_hold_what_was_read(
    sourced: SourcedMessage,
    messages: Seq<SourcedMessage>,
    results: Seq<ToolResult>,
)
    ensures
        sourced@.message == sourced.message@,
        sourced@.tool_results == result_views(sourced.tool_results@),
        sourced@.tool_calls == item_views(sourced.tool_calls@),
        sourced@.content.text == sourced.content.text@,
        sourced@.content.images == texts(sourced.content.images@),
        sourced_views(messages).len() == messages.len(),
        forall|i: int|
            0 <= i < messages.len() ==> #[trigger] sourced_views(messages)[i] == messages[i]@,
        result_views(results).len() == results.len(),
        forall|i: int|
            0 <= i < results.len() ==> {
                &&& (#[trigger] result_views(results)[i]).call_id == results[i].call_id@
                &&& result_views(results)[i].text == results[i].text@
                &&& result_views(results)[i].images == texts(results[i].images@)
            },
{
}

/// Results are read for a tool turn that has some, unless it has no content and its results are
/// empty or an empty object; calls are read for an assistant turn that has some; the content is
/// read of a turn that has some and neither calls tools nor is a tool turn or a system prompt.
pub proof fn law_what_is_read_for_a_message(message: MessageView, tool_calls: Seq<JsonView>)
    ensures
        tool_results_text(message) == if trimmed(message.role) == "tool"@ && (
        message.tool_results_json matches Some(raw) && (trimmed(message.content).len() > 0 || (
        raw.len() > 0 && raw != "{}"@))) {
            message.tool_results_json
        } else {
            None
        },
        tool_calls_text(message) == if trimmed(message.role) == "assistant"@ {
            message.tool_calls_json
        } else {
            None
        },
        sends_content(message, tool_calls) <==> {
            &&& trimmed(message.content).len() > 0
            &&& trimmed(message.role) != "tool"@
            &&& trimmed(message.role) != "system"@
            &&& trimmed(message.role) != "developer"@
            &&& !(trimmed(message.role) == "assistant"@ && message.tool_calls_json is Some
                && tool_calls.len() > 0)
        },
{
}

} // verus!
