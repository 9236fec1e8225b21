//! Normalization of the messages that a request brings along.
use vstd::prelude::*;

use crate::json::{parse_json, parsed_json, JsonView};
use crate::message::{
    has_role, is_tool_turn, message_views, ChatContextMessage, MessageView,
};
use crate::text::{copy_optional, lemma_trimmed_idempotent, trim, trimmed};

verus! {

/// Whether a text is a JSON array with at least one item.
pub open spec fn json_entries(text: Seq<char>) -> bool {
    parsed_json(text) matches Some(document) && document.has_entries()
}

/// Whether a text is a JSON array with at least one item.
pub fn has_json_entries(raw: &str) -> (r: bool)
    ensures
        r == json_entries(raw@),
{
    match parse_json(raw) {
        Some(document) => document.has_entries(),
        None => false,
    }
}

/// Whether a message carries the tool data of its role: an assistant its calls, a tool its
/// results.
pub open spec fn has_tool_data(message: MessageView) -> bool {
    if has_role(message, "assistant"@) {
        message.tool_calls_json matches Some(raw) && json_entries(raw)
    } else if is_tool_turn(message) {
        message.tool_results_json matches Some(raw) && json_entries(raw)
    } else {
        false
    }
}

/// A message with its role and content trimmed; `None` for one without content, unless it
/// carries tool data.
pub open spec fn normalized_message(message: MessageView, tool_data: bool) -> Option<MessageView> {
    if trimmed(message.content).len() == 0 && !tool_data {
        None
    } else {
        Some(
            MessageView {
                role: trimmed(message.role),
                content: trimmed(message.content),
                ..message
            },
        )
    }
}

/// The messages that say something, in order and trimmed.
pub open spec fn normalized(messages: Seq<MessageView>) -> Seq<MessageView>
    decreases messages.len(),
{
    if messages.len() == 0 {
        seq![]
    } else {
        let last = messages.last();
        match normalized_message(last, has_tool_data(last)) {
            Some(message) => normalized(messages.drop_last()).push(message),
            None => normalized(messages.drop_last()),
        }
    }
}

/// A message with its role and content trimmed; `None` for one without content, unless it
/// carries tool data.
pub fn normalize_message(message: &ChatContextMessage, tool_data: bool) -> (r: Option<
    ChatContextMessage,
>)
    ensures
        r is Some == normalized_message(message@, tool_data) is Some,
        r is Some ==> r->0@ == normalized_message(message@, tool_data)->0,
{
    let content = trim(message.content.as_str());
    if content.is_empty() && !tool_data {
        return None;
    }
    Some(
        ChatContextMessage {
            role: trim(message.role.as_str()).to_owned(),
            content: content.to_owned(),
            tool_calls_json: copy_optional(&message.tool_calls_json),
            tool_results_json: copy_optional(&message.tool_results_json),
            thinking: copy_optional(&message.thinking),
            thinking_blocks_json: copy_optional(&message.thinking_blocks_json),
        },
    )
}

/// Whether a message carries the tool data of its role.
fn carries_tool_data(message: &ChatContextMessage) -> (r: bool)
    ensures
        r == has_tool_data(message@),
{
    if message.has_role("assistant") {
        match &message.tool_calls_json {
            Some(raw) => has_json_entries(raw.as_str()),
            None => false,
        }
    } else if message.has_role("tool") {
        match &message.tool_results_json {
            Some(raw) => has_json_entries(raw.as_str()),
            None => false,
        }
    } else {
        false
    }
}

/// The messages that say something, in order and trimmed.
///
/// A message without content is kept only where it carries tool calls or tool results.
pub fn normalize_messages(messages: &[ChatContextMessage]) -> (r: Vec<ChatContextMessage>)
    ensures
        message_views(r@) == normalized(message_views(messages@)),
{
    let ghost views = message_views(messages@);
    let mut kept: Vec<ChatContextMessage> = Vec::new();
    let mut i: usize = 0;
    while i < messages.len()
        invariant
            i <= messages@.len(),
            views == message_views(messages@),
            message_views(kept@) == normalized(views.take(i as int)),
        decreases messages@.len() - i,
    {
        let message = &messages[i];
        let ghost before = kept@;
        proof {
            assert(views.take(i + 1).drop_last() =~= views.take(i as int));
            assert(views.take(i + 1).last() == message@);
        }
        match normalize_message(message, carries_tool_data(message)) {
            Some(normal) => {
                kept.push(normal);
                assert(message_views(kept@) =~= message_views(before).push(normal@));
            },
            None => {},
        }
        i += 1;
    }
    assert(views.take(views.len() as int) =~= views);
    kept
}

/// Normalizing messages twice is normalizing them once.
pub proof fn law_normalized_idempotent(messages: Seq<MessageView>)
    ensures
        normalized(normalized(messages)) == normalized(messages),
    decreases messages.len(),
{
    if messages.len() > 0 {
        law_normalized_idempotent(messages.drop_last());
        let last = messages.last();
        match normalized_message(last, has_tool_data(last)) {
            Some(message) => {
                lemma_trimmed_idempotent(last.role);
                lemma_trimmed_idempotent(last.content);
                let kept = normalized(messages.drop_last());
                assert(kept.push(message).drop_last() =~= kept);
                assert(normalized_message(message, has_tool_data(message)) == Some(message));
            },
            None => {},
        }
    }
}

/// Every normalized message has content or carries tool data.
pub proof fn law_normalized_messages_say_something(messages: Seq<MessageView>)
    ensures
        forall|i: int|
            0 <= i < normalized(messages).len() ==> {
                ||| (#[trigger] normalized(messages)[i]).content.len() > 0
                ||| has_tool_data(normalized(messages)[i])
            },
    decreases messages.len(),
{
    if messages.len() > 0 {
        law_normalized_messages_say_something(messages.drop_last());
        lemma_trimmed_idempotent(messages.last().role);
    }
}

/// Whether a text is a JSON document that is an array with items.
pub open spec fn reads_as_items(text: Option<Seq<char>>) -> bool {
    text matches Some(raw) && parsed_json(raw) matches Some(JsonView::Array(items)) && items.len()
        > 0
}

/// Whether a message has content apart from white space, calls tools as an assistant, or brings
/// results as a tool.
pub open spec fn says_something(message: MessageView) -> bool {
    ||| trimmed(message.content).len() > 0
    ||| trimmed(message.role) == "assistant"@ && reads_as_items(message.tool_calls_json)
    ||| trimmed(message.role) == "tool"@ && reads_as_items(message.tool_results_json)
}

/// Whether `kept` are the messages at the positions in `origin`, in order, with their role and
/// content trimmed and everything else as it was.
pub open spec fn keeps(
    messages: Seq<MessageView>,
    kept: Seq<MessageView>,
    origin: Seq<int>,
) -> bool {
    &&& origin.len() == kept.len()
    &&& forall|k: int| 0 <= k < kept.len() ==> 0 <= #[trigger] origin[k] < messages.len()
    &&& forall|j: int, k: int| 0 <= j < k < kept.len() ==> #[trigger] origin[j] < #[trigger] origin[k]
    &&& forall|k: int|
        0 <= k < kept.len() ==> {
            let given = messages[origin[k]];
            &&& (#[trigger] kept[k]).role == trimmed(given.role)
            &&& kept[k].content == trimmed(given.content)
            &&& kept[k].tool_calls_json == given.tool_calls_json
            &&& kept[k].tool_results_json == given.tool_results_json
            &&& kept[k].thinking == given.thinking
            &&& kept[k].thinking_blocks_json == given.thinking_blocks_json
        }
}

/// Exactly the messages that say something are kept, each once and in order. A kept message is
/// the given one with its role and content trimmed: its tool calls, tool results and reasoning
/// are those that were given.
pub proof fn law_normalizing_keeps_what_says_something(messages: Seq<MessageView>)
    ensures
        exists|origin: Seq<int>|
            {
                &&& #[trigger] keeps(messages, normalized(messages), origin)
                &&& forall|i: int|
                    0 <= i < messages.len() ==> (says_something(#[trigger] messages[i])
                        <==> origin.contains(i))
            },
{
    let _ = lemma_normalized_origin(messages);
}

proof fn lemma_normalized_origin(messages: Seq<MessageView>) -> (origin: Seq<int>)
    ensures
        keeps(messages, normalized(messages), origin),
        forall|i: int|
            0 <= i < messages.len() ==> (says_something(#[trigger] messages[i])
                <==> origin.contains(i)),
    decreases messages.len(),
{
    if messages.len() == 0 {
        seq![]
    } else {
        let earlier = messages.drop_last();
        let last = messages.last();
        let n = messages.len() - 1;
        let before = lemma_normalized_origin(earlier);
        lemma_assistants_are_no_tools(last);
        assert(!before.contains(n)) by {
            if before.contains(n) {
                let k = before.index_of(n);
                assert(before[k] < earlier.len());
            }
        }
        if says_something(last) {
            let origin = before.push(n);
            assert(keeps(messages, normalized(messages), origin)) by {
                assert forall|k: int| 0 <= k < origin.len() implies 0 <= #[trigger] origin[k]
                    < messages.len() by {
                    if k < before.len() {
                        assert(before[k] < earlier.len());
                    }
                }
                let kept = normalized(messages);
                assert forall|k: int| 0 <= k < kept.len() implies {
                    let given = messages[origin[k]];
                    &&& (#[trigger] kept[k]).role == trimmed(given.role)
                    &&& kept[k].content == trimmed(given.content)
                    &&& kept[k].tool_calls_json == given.tool_calls_json
                    &&& kept[k].tool_results_json == given.tool_results_json
                    &&& kept[k].thinking == given.thinking
                    &&& kept[k].thinking_blocks_json == given.thinking_blocks_json
                } by {
                    if k < before.len() {
                        assert(kept[k] == normalized(earlier)[k]);
                        assert(earlier[before[k]] == messages[origin[k]]);
                    }
                }
            }
            assert forall|i: int| 0 <= i < messages.len() implies (says_something(
                #[trigger] messages[i],
            ) <==> origin.contains(i)) by {
                if i == n {
                    assert(origin[before.len() as int] == n);
                } else {
                    assert(earlier[i] == messages[i]);
                    if before.contains(i) {
                        assert(origin[before.index_of(i)] == i);
                    }
                    if origin.contains(i) {
                        let k = origin.index_of(i);
                        assert(before[k] == i);
                    }
                }
            }
            origin
        } else {
            assert(keeps(messages, normalized(messages), before)) by {
                let kept = normalized(messages);
                assert forall|k: int| 0 <= k < kept.len() implies {
                    let given = messages[before[k]];
                    &&& (#[trigger] kept[k]).role == trimmed(given.role)
                    &&& kept[k].content == trimmed(given.content)
                    &&& kept[k].tool_calls_json == given.tool_calls_json
                    &&& kept[k].tool_results_json == given.tool_results_json
                    &&& kept[k].thinking == given.thinking
                    &&& kept[k].thinking_blocks_json == given.thinking_blocks_json
                } by {
                    assert(kept[k] == normalized(earlier)[k]);
                    assert(earlier[before[k]] == messages[before[k]]);
                }
            }
            assert forall|i: int| 0 <= i < messages.len() implies (says_something(
                #[trigger] messages[i],
            ) <==> before.contains(i)) by {
                if i < n {
                    assert(earlier[i] == messages[i]);
                }
            }
            before
        }
    }
}

proof fn lemma_assistants_are_no_tools(message: MessageView)
    ensures
        says_something(message) <==> trimmed(message.content).len() > 0 || has_tool_data(message),
{
    reveal_strlit("assistant");
    reveal_strlit("tool");
    assert("assistant"@.len() != "tool"@.len());
}

/// Messages are normalized one by one: a list is normalized piece by piece.
pub proof fn law_normalizing_is_piecewise(front: Seq<MessageView>, back: Seq<MessageView>)
    ensures
        normalized(front + back) == normalized(front) + normalized(back),
    decreases back.len(),
{
    if back.len() == 0 {
        assert(front + back =~= front);
        assert(normalized(front) + normalized(back) =~= normalized(front));
    } else {
        law_normalizing_is_piecewise(front, back.drop_last());
        assert((front + back).drop_last() =~= front + back.drop_last());
        assert((front + back).last() == back.last());
        assert(normalized(front + back) =~= normalized(front) + normalized(back));
    }
}

} // verus!
