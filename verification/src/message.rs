//! The messages of a conversation.
use vstd::prelude::*;

use crate::text::{copy_optional, optional_text, same_text, trim, trimmed};

verus! {

/// One message of a conversation, as the history keeps it.
#[derive(Debug)]
pub struct ChatContextMessage {
    pub role: String,
    pub content: String,
    /// The tool calls of an assistant turn, as JSON.
    pub tool_calls_json: Option<String>,
    /// The results of a tool turn, as JSON.
    pub tool_results_json: Option<String>,
    /// The reasoning of an assistant turn, as text.
    pub thinking: Option<String>,
    /// The reasoning of an assistant turn, as signed blocks.
    pub thinking_blocks_json: Option<String>,
}

/// What a [`ChatContextMessage`] holds.
pub struct MessageView {
    pub role: Seq<char>,
    pub content: Seq<char>,
    pub tool_calls_json: Option<Seq<char>>,
    pub tool_results_json: Option<Seq<char>>,
    pub thinking: Option<Seq<char>>,
    pub thinking_blocks_json: Option<Seq<char>>,
}

impl View for ChatContextMessage {
    type V = MessageView;

    open spec fn view(&self) -> MessageView {
        MessageView {
            role: self.role@,
            content: self.content@,
            tool_calls_json: optional_text(self.tool_calls_json),
            tool_results_json: optional_text(self.tool_results_json),
            thinking: optional_text(self.thinking),
            thinking_blocks_json: optional_text(self.thinking_blocks_json),
        }
    }
}

/// What a sequence of messages holds.
pub open spec fn message_views(messages: Seq<ChatContextMessage>) -> Seq<MessageView> {
    messages.map_values(|message: ChatContextMessage| message@)
}

/// A message with a role and a content and nothing else.
pub open spec fn plain_message(role: Seq<char>, content: Seq<char>) -> MessageView {
    MessageView {
        role,
        content,
        tool_calls_json: None,
        tool_results_json: None,
        thinking: None,
        thinking_blocks_json: None,
    }
}

/// Whether a message has a role, apart from white space around it.
pub open spec fn has_role(message: MessageView, role: Seq<char>) -> bool {
    trimmed(message.role) == role
}

/// Whether a message is a tool turn.
pub open spec fn is_tool_turn(message: MessageView) -> bool {
    has_role(message, "tool"@)
}

/// Whether a message is a system prompt.
pub open spec fn is_system_prompt(message: MessageView) -> bool {
    has_role(message, "system"@) || has_role(message, "developer"@)
}

impl ChatContextMessage {
    /// Whether the message has a role, apart from white space around it.
    pub fn has_role(&self, role: &str) -> (r: bool)
        ensures
            r == has_role(self@, role@),
    {
        same_text(trim(self.role.as_str()), role)
    }

    /// Whether the message is a system prompt.
    pub fn is_system_prompt(&self) -> (r: bool)
        ensures
            r == is_system_prompt(self@),
    {
        self.has_role("system") || self.has_role("developer")
    }

    /// A message with a role and a content and nothing else.
    pub fn plain(role: &str, content: String) -> (r: ChatContextMessage)
        ensures
            r@ == plain_message(role@, content@),
    {
        ChatContextMessage {
            role: role.to_owned(),
            content,
            tool_calls_json: None,
            tool_results_json: None,
            thinking: None,
            thinking_blocks_json: None,
        }
    }
}

impl Clone for ChatContextMessage {
    fn clone(&self) -> (r: Self)
        ensures
            r@ == self@,
    {
        ChatContextMessage {
            role: self.role.clone(),
            content: self.content.clone(),
            tool_calls_json: copy_optional(&self.tool_calls_json),
            tool_results_json: copy_optional(&self.tool_results_json),
            thinking: copy_optional(&self.thinking),
            thinking_blocks_json: copy_optional(&self.thinking_blocks_json),
        }
    }
}

/// What a message holds is each of its fields, and the messages of a list are held one for one
/// and in order.
pub proof fn law_messages_hold_their_fields(messages: Seq<ChatContextMessage>, i: int)
    requires
        0 <= i < messages.len(),
    ensures
        message_views(messages).len() == messages.len(),
        ({
            let message = messages[i];
            let held = message_views(messages)[i];
            &&& held == message@
            &&& held.role == message.role@
            &&& held.content == message.content@
            &&& held.tool_calls_json == optional_text(message.tool_calls_json)
            &&& held.tool_results_json == optional_text(message.tool_results_json)
            &&& held.thinking == optional_text(message.thinking)
            &&& held.thinking_blocks_json == optional_text(message.thinking_blocks_json)
        }),
{
}

/// The role of a message counts apart from white space around it: `tool` makes a tool turn,
/// `system` and `developer` make a system prompt.
pub proof fn law_roles_count_trimmed(message: MessageView, role: Seq<char>)
    ensures
        has_role(message, role) <==> trimmed(message.role) == role,
        is_tool_turn(message) <==> trimmed(message.role) == "tool"@,
        is_system_prompt(message) <==> trimmed(message.role) == "system"@ || trimmed(message.role)
            == "developer"@,
{
}

} // verus!
