//! What holds of Chat Completions payloads, told by the fields of what is sent.
use vstd::prelude::*;
use vstd::string::*;

use crate::chat_source::{SourcedView, ToolResultView};
use crate::guard::reserved_tokens;
use crate::json::{law_field_is_the_first_with_its_key, parsed_json, JsonView};
use crate::message::is_tool_turn;
use crate::payload::{
    chat_payload, configured_effort, detached_images, effort_setting, image_part, image_parts,
    images_message, lemma_turns_after, lies_under_api, mixed_content, payload_max_tokens,
    payload_messages, prompt_messages, result_message, result_messages, sent_results, system_parts,
    system_slot, text_part, text_parts, turn_messages, wire_history, wire_message, wire_messages,
    wire_role,
};
use crate::text::{decimal, joined, trimmed};

verus! {

proof fn lemma_field_at(fields: Seq<(Seq<char>, JsonView)>, i: int)
    requires
        0 <= i < fields.len(),
        forall|j: int| 0 <= j < i ==> (#[trigger] fields[j]).0 != fields[i].0,
    ensures
        JsonView::Object(fields).field(fields[i].0) == Some(fields[i].1),
{
    let key = fields[i].0;
    law_field_is_the_first_with_its_key(JsonView::Object(fields), key);
    assert(fields[i].0 == key);
}

proof fn lemma_no_field(fields: Seq<(Seq<char>, JsonView)>, key: Seq<char>)
    requires
        forall|j: int| 0 <= j < fields.len() ==> (#[trigger] fields[j]).0 != key,
    ensures
        JsonView::Object(fields).field(key) is None,
{
    law_field_is_the_first_with_its_key(JsonView::Object(fields), key);
}

/// The keys that stand together in one object are different.
proof fn lemma_keys_differ()
    ensures
        "role"@ != "content"@,
        "role"@ != "tool_calls"@,
        "role"@ != "tool_call_id"@,
        "role"@ != "reasoning_content"@,
        "content"@ != "tool_calls"@,
        "content"@ != "tool_call_id"@,
        "content"@ != "reasoning_content"@,
        "tool_calls"@ != "reasoning_content"@,
        "type"@ != "text"@,
        "type"@ != "image_url"@,
        "model"@ != "messages"@,
        "model"@ != "stream"@,
        "model"@ != "stream_options"@,
        "model"@ != "max_tokens"@,
        "model"@ != "reasoning_effort"@,
        "model"@ != "tools"@,
        "messages"@ != "stream"@,
        "messages"@ != "stream_options"@,
        "messages"@ != "max_tokens"@,
        "messages"@ != "reasoning_effort"@,
        "messages"@ != "tools"@,
        "stream"@ != "stream_options"@,
        "stream"@ != "max_tokens"@,
        "stream"@ != "reasoning_effort"@,
        "stream"@ != "tools"@,
        "stream_options"@ != "max_tokens"@,
        "stream_options"@ != "reasoning_effort"@,
        "stream_options"@ != "tools"@,
        "max_tokens"@ != "reasoning_effort"@,
        "max_tokens"@ != "tools"@,
        "reasoning_effort"@ != "tools"@,
{
    reveal_strlit("role");
    reveal_strlit("content");
    reveal_strlit("tool_calls");
    reveal_strlit("tool_call_id");
    reveal_strlit("reasoning_content");
    reveal_strlit("type");
    reveal_strlit("text");
    reveal_strlit("image_url");
    reveal_strlit("model");
    reveal_strlit("messages");
    reveal_strlit("stream");
    reveal_strlit("stream_options");
    reveal_strlit("max_tokens");
    reveal_strlit("reasoning_effort");
    reveal_strlit("tools");
    assert("role"@.len() == 4);
    assert("content"@.len() == 7);
    assert("tool_calls"@.len() == 10);
    assert("tool_call_id"@.len() == 12);
    assert("reasoning_content"@.len() == 17);
    assert("type"@.len() == 4);
    assert("text"@.len() == 4);
    assert("image_url"@.len() == 9);
    assert("model"@.len() == 5);
    assert("messages"@.len() == 8);
    assert("stream"@.len() == 6);
    assert("stream_options"@.len() == 14);
    assert("max_tokens"@.len() == 10);
    assert("reasoning_effort"@.len() == 16);
    assert("tools"@.len() == 5);
    assert("type"@[1] != "text"@[1]);
    assert("model"@[0] != "tools"@[0]);
}

/// The roles on the wire are different.
proof fn lemma_roles_differ()
    ensures
        "user"@ != "assistant"@,
        "user"@ != "tool"@,
        "user"@ != "system"@,
        "assistant"@ != "tool"@,
        "assistant"@ != "system"@,
        "assistant"@ != "developer"@,
        "tool"@ != "system"@,
        "tool"@ != "developer"@,
{
    reveal_strlit("user");
    reveal_strlit("assistant");
    reveal_strlit("tool");
    reveal_strlit("system");
    reveal_strlit("developer");
    assert("user"@.len() == 4);
    assert("assistant"@.len() == 9);
    assert("tool"@.len() == 4);
    assert("system"@.len() == 6);
    assert("developer"@.len() == 9);
    assert("user"@[0] != "tool"@[0]);
    assert("assistant"@[0] != "developer"@[0]);
}

/// Whether a part of a content is this text.
pub open spec fn is_text_part(part: JsonView, text: Seq<char>) -> bool {
    &&& part.field("type"@) == Some(JsonView::Text("text"@))
    &&& part.field("text"@) == Some(JsonView::Text(text))
}

/// Whether a part of a content is the image with this data URL.
pub open spec fn is_image_part(part: JsonView, data_url: Seq<char>) -> bool {
    &&& part.field("type"@) == Some(JsonView::Text("image_url"@))
    &&& part.field("image_url"@) matches Some(image) && image.field("url"@) == Some(
        JsonView::Text(data_url),
    )
}

/// Whether a content is a text and images: the text alone where there are no images, otherwise
/// one part for the text, unless it is empty, and one for each image, in order.
pub open spec fn is_content_of(
    content: JsonView,
    text: Seq<char>,
    images: Seq<Seq<char>>,
) -> bool {
    if images.len() == 0 {
        content == JsonView::Text(text)
    } else {
        let lead = if text.len() > 0 {
            1int
        } else {
            0
        };
        content matches JsonView::Array(parts) && {
            &&& parts.len() == lead + images.len()
            &&& text.len() > 0 ==> is_text_part(parts[0], text)
            &&& forall|k: int|
                0 <= k < images.len() ==> is_image_part(parts[lead + k], #[trigger] images[k])
        }
    }
}

/// Whether a message on the wire has this role and this content.
pub open spec fn is_sent_as(message: JsonView, role: Seq<char>, content: JsonView) -> bool {
    &&& message.field("role"@) == Some(JsonView::Text(role))
    &&& message.field("content"@) == Some(content)
}

proof fn lemma_text_part(text: Seq<char>)
    ensures
        is_text_part(text_part(text), text),
{
    lemma_keys_differ();
    let fields = text_part(text)->Object_0;
    lemma_field_at(fields, 0);
    lemma_field_at(fields, 1);
}

proof fn lemma_image_part(data_url: Seq<char>)
    ensures
        is_image_part(image_part(data_url), data_url),
{
    lemma_keys_differ();
    let fields = image_part(data_url)->Object_0;
    lemma_field_at(fields, 0);
    lemma_field_at(fields, 1);
    lemma_field_at(fields[1].1->Object_0, 0);
}

proof fn lemma_mixed_content(text: Seq<char>, images: Seq<Seq<char>>)
    ensures
        is_content_of(mixed_content(text, images), text, images),
{
    if images.len() > 0 {
        let parts = mixed_content(text, images)->Array_0;
        let lead = if text.len() > 0 {
            1int
        } else {
            0
        };
        lemma_text_part(text);
        assert forall|k: int| 0 <= k < images.len() implies is_image_part(
            parts[lead + k],
            #[trigger] images[k],
        ) by {
            lemma_image_part(images[k]);
            assert(parts[lead + k] == image_parts(images)[k]);
        }
    }
}

proof fn lemma_wire_message(role: Seq<char>, content: JsonView)
    ensures
        is_sent_as(wire_message(role, content), role, content),
{
    lemma_keys_differ();
    let fields = wire_message(role, content)->Object_0;
    lemma_field_at(fields, 0);
    lemma_field_at(fields, 1);
}

proof fn lemma_wire_of_one(sourced: SourcedView, skip_image_parsing: bool)
    ensures
        !is_tool_turn(sourced.message) ==> wire_messages(seq![sourced], skip_image_parsing)
            == turn_messages(sourced, skip_image_parsing),
        is_tool_turn(sourced.message) ==> wire_messages(seq![sourced], skip_image_parsing)
            == result_messages(sent_results(sourced)) + images_message(
            detached_images(sent_results(sourced)),
        ),
{
    let one = seq![sourced];
    let none = one.drop_last();
    assert(none =~= seq![]);
    assert(one.last() == sourced);
    let before = wire_history(none, skip_image_parsing);
    assert(before.messages =~= seq![] && before.waiting =~= seq![]);
    let after = wire_history(one, skip_image_parsing);
    if is_tool_turn(sourced.message) {
        assert(after.messages =~= result_messages(sent_results(sourced)));
        assert(after.waiting =~= detached_images(sent_results(sourced)));
    } else {
        assert(images_message(before.waiting) =~= seq![]);
        assert(after.messages =~= turn_messages(sourced, skip_image_parsing));
        assert(images_message(after.waiting) =~= seq![]);
        assert(wire_messages(one, skip_image_parsing) =~= turn_messages(
            sourced,
            skip_image_parsing,
        ));
    }
}

/// An assistant turn that calls tools is sent as one message with all its calls, each as it is
/// and in order, with its content where that is not blank and a null where it is, and with its
/// reasoning, which may be empty.
pub proof fn law_tool_calls_are_sent_whole(sourced: SourcedView, skip_image_parsing: bool)
    requires
        trimmed(sourced.message.role) == "assistant"@,
        sourced.message.tool_calls_json is Some,
        sourced.tool_calls.len() > 0,
    ensures
        ({
            let sent = wire_messages(seq![sourced], skip_image_parsing);
            let content = trimmed(sourced.message.content);
            &&& sent.len() == 1
            &&& is_sent_as(
                sent[0],
                "assistant"@,
                if content.len() > 0 {
                    JsonView::Text(content)
                } else {
                    JsonView::Null
                },
            )
            &&& sent[0].field("tool_calls"@) matches Some(JsonView::Array(calls)) && {
                &&& calls.len() == sourced.tool_calls.len()
                &&& forall|i: int|
                    0 <= i < calls.len() ==> #[trigger] calls[i] == sourced.tool_calls[i]
            }
            &&& sent[0].field("reasoning_content"@) == Some(
                JsonView::Text(
                    match sourced.message.thinking {
                        Some(thinking) => thinking,
                        None => seq![],
                    },
                ),
            )
        }),
{
    lemma_keys_differ();
    lemma_roles_differ();
    lemma_wire_of_one(sourced, skip_image_parsing);
    let sent = wire_messages(seq![sourced], skip_image_parsing);
    let fields = sent[0]->Object_0;
    lemma_field_at(fields, 0);
    lemma_field_at(fields, 1);
    lemma_field_at(fields, 2);
    lemma_field_at(fields, 3);
}

/// A turn with content that calls no tools is sent as one message: an assistant's as an
/// assistant's and any other as a user's, with its text and images, or its content as it stands
/// where images are not looked for, and with the reasoning of an assistant that has some.
pub proof fn law_contents_are_sent(sourced: SourcedView, skip_image_parsing: bool)
    requires
        trimmed(sourced.message.content).len() > 0,
        trimmed(sourced.message.role) != "tool"@,
        trimmed(sourced.message.role) != "system"@,
        trimmed(sourced.message.role) != "developer"@,
        !(trimmed(sourced.message.role) == "assistant"@ && sourced.message.tool_calls_json is Some
            && sourced.tool_calls.len() > 0),
    ensures
        ({
            let sent = wire_messages(seq![sourced], skip_image_parsing);
            let is_assistant = trimmed(sourced.message.role) == "assistant"@;
            &&& sent.len() == 1
            &&& sent[0].field("role"@) == Some(
                JsonView::Text(
                    if is_assistant {
                        "assistant"@
                    } else {
                        "user"@
                    },
                ),
            )
            &&& sent[0].field("content"@) matches Some(content) && if skip_image_parsing {
                content == JsonView::Text(trimmed(sourced.message.content))
            } else {
                is_content_of(content, sourced.content.text, sourced.content.images)
            }
            &&& sent[0].field("tool_calls"@) is None
            &&& sent[0].field("reasoning_content"@) == match sourced.message.thinking {
                Some(thinking) if is_assistant && thinking.len() > 0 => Some(
                    JsonView::Text(thinking),
                ),
                _ => None,
            }
        }),
{
    lemma_keys_differ();
    lemma_roles_differ();
    lemma_wire_of_one(sourced, skip_image_parsing);
    lemma_mixed_content(sourced.content.text, sourced.content.images);
    let sent = wire_messages(seq![sourced], skip_image_parsing);
    let fields = sent[0]->Object_0;
    lemma_field_at(fields, 0);
    lemma_field_at(fields, 1);
    lemma_no_field(fields, "tool_calls"@);
    if fields.len() == 3 {
        lemma_field_at(fields, 2);
    } else {
        lemma_no_field(fields, "reasoning_content"@);
    }
}

/// System prompts, and turns that have no content and call no tools, are not sent where they
/// stand.
pub proof fn law_silent_turns_are_not_sent(sourced: SourcedView, skip_image_parsing: bool)
    requires
        trimmed(sourced.message.role) != "tool"@,
        ({
            ||| trimmed(sourced.message.role) == "system"@
            ||| trimmed(sourced.message.role) == "developer"@
            ||| trimmed(sourced.message.content).len() == 0 && !(trimmed(sourced.message.role)
                == "assistant"@ && sourced.message.tool_calls_json is Some
                && sourced.tool_calls.len() > 0)
        }),
    ensures
        wire_messages(seq![sourced], skip_image_parsing) == Seq::<JsonView>::empty(),
{
    lemma_roles_differ();
    lemma_wire_of_one(sourced, skip_image_parsing);
}

/// A history is sent piece by piece: where it is cut in front of a turn or behind one that is no
/// tool turn, the pieces are sent as they would be alone.
pub proof fn law_histories_are_sent_piecewise(
    front: Seq<SourcedView>,
    back: Seq<SourcedView>,
    skip_image_parsing: bool,
)
    requires
        ({
            ||| front.len() == 0
            ||| back.len() == 0
            ||| trimmed(front.last().message.role) != "tool"@
            ||| trimmed(back.first().message.role) != "tool"@
        }),
    ensures
        wire_messages(front + back, skip_image_parsing) == wire_messages(front, skip_image_parsing)
            + wire_messages(back, skip_image_parsing),
{
    let whole = wire_messages(front + back, skip_image_parsing);
    let first = wire_messages(front, skip_image_parsing);
    let second = wire_messages(back, skip_image_parsing);
    if back.len() == 0 {
        assert(front + back =~= front);
        assert(second =~= seq![]);
        assert(first + second =~= first);
    } else if front.len() == 0 {
        assert(front + back =~= back);
        assert(first =~= seq![]);
        assert(first + second =~= second);
    } else {
        let wire = wire_history(back, skip_image_parsing);
        if trimmed(back.first().message.role) != "tool"@ {
            lemma_turns_after(front, back, skip_image_parsing);
        } else {
            lemma_turns_behind(front, back, skip_image_parsing);
        }
        assert(whole =~= first + second);
    }
}

proof fn lemma_turns_behind(
    front: Seq<SourcedView>,
    back: Seq<SourcedView>,
    skip_image_parsing: bool,
)
    requires
        front.len() > 0,
        !is_tool_turn(front.last().message),
    ensures
        wire_history(front + back, skip_image_parsing).messages =~= wire_messages(
            front,
            skip_image_parsing,
        ) + wire_history(back, skip_image_parsing).messages,
        wire_history(front + back, skip_image_parsing).waiting =~= wire_history(
            back,
            skip_image_parsing,
        ).waiting,
    decreases back.len(),
{
    if back.len() == 0 {
        assert(front + back =~= front);
        assert(wire_history(front, skip_image_parsing).waiting =~= seq![]);
    } else {
        let earlier = back.drop_last();
        lemma_turns_behind(front, earlier, skip_image_parsing);
        assert((front + back).drop_last() =~= front + earlier);
        assert((front + back).last() == back.last());
    }
}

/// The images of the results that answer calls, in order.
pub open spec fn answered_images(results: Seq<ToolResultView>) -> Seq<Seq<char>>
    decreases results.len(),
{
    if results.len() == 0 {
        seq![]
    } else {
        (if results[0].call_id.len() > 0 {
            results[0].images
        } else {
            seq![]
        }) + answered_images(results.drop_first())
    }
}

/// Whether a message on the wire is that of a tool result: the reply to its call with its text,
/// or a placeholder where it is nothing but images; without a call, a user's message with its
/// text and images.
pub open spec fn is_message_of(message: JsonView, result: ToolResultView) -> bool {
    let text = if result.text.len() == 0 && result.images.len() > 0 {
        "[image attached]"@
    } else {
        result.text
    };
    if result.call_id.len() > 0 {
        &&& is_sent_as(message, "tool"@, JsonView::Text(text))
        &&& message.field("tool_call_id"@) == Some(JsonView::Text(result.call_id))
    } else {
        &&& message.field("role"@) == Some(JsonView::Text("user"@))
        &&& message.field("content"@) matches Some(content) && is_content_of(
            content,
            text,
            result.images,
        )
    }
}

proof fn lemma_result_message(result: ToolResultView)
    ensures
        is_message_of(result_message(result), result),
{
    lemma_keys_differ();
    let text = if result.text.len() == 0 && result.images.len() > 0 {
        "[image attached]"@
    } else {
        result.text
    };
    let fields = result_message(result)->Object_0;
    if result.call_id.len() > 0 {
        lemma_field_at(fields, 0);
        lemma_field_at(fields, 1);
        lemma_field_at(fields, 2);
    } else {
        lemma_wire_message("user"@, mixed_content(text, result.images));
        lemma_mixed_content(text, result.images);
    }
}

proof fn lemma_detached_images(results: Seq<ToolResultView>)
    ensures
        detached_images(results) == image_parts(answered_images(results)),
    decreases results.len(),
{
    if results.len() == 0 {
        assert(image_parts(answered_images(results)) =~= seq![]);
    } else {
        let front = results.drop_last();
        let last = results.last();
        lemma_detached_images(front);
        lemma_answered_images_of_two(front, seq![last]);
        assert(front + seq![last] =~= results);
        assert(seq![last].drop_first() =~= seq![]);
        assert(answered_images(seq![last].drop_first()) =~= seq![]);
        let own = if last.call_id.len() > 0 {
            last.images
        } else {
            seq![]
        };
        assert(answered_images(seq![last]) =~= own);
        assert(image_parts(answered_images(front) + own) =~= image_parts(answered_images(front))
            + image_parts(own));
        assert(detached_images(results) =~= detached_images(front) + image_parts(own));
    }
}

proof fn lemma_answered_images_of_two(front: Seq<ToolResultView>, back: Seq<ToolResultView>)
    ensures
        answered_images(front + back) == answered_images(front) + answered_images(back),
    decreases front.len(),
{
    if front.len() == 0 {
        assert(front + back =~= back);
        assert(answered_images(front) + answered_images(back) =~= answered_images(back));
    } else {
        assert((front + back).drop_first() =~= front.drop_first() + back);
        lemma_answered_images_of_two(front.drop_first(), back);
        assert(answered_images(front + back) =~= answered_images(front) + answered_images(back));
    }
}

/// A tool turn is sent as one message for each of its results, in order. The images of the
/// results that answer calls follow in one user's message, all of them and in order. A turn
/// without results, or without content whose results are empty or an empty object, is not sent.
pub proof fn law_tool_results_are_sent_whole(sourced: SourcedView, skip_image_parsing: bool)
    requires
        trimmed(sourced.message.role) == "tool"@,
    ensures
        ({
            let sent = wire_messages(seq![sourced], skip_image_parsing);
            let counts = sourced.message.tool_results_json matches Some(raw) && (trimmed(
                sourced.message.content,
            ).len() > 0 || (raw.len() > 0 && raw != "{}"@));
            let results = sourced.tool_results;
            let images = answered_images(results);
            &&& !counts ==> sent.len() == 0
            &&& counts ==> {
                &&& sent.len() == results.len() + if images.len() > 0 {
                    1int
                } else {
                    0
                }
                &&& forall|i: int|
                    0 <= i < results.len() ==> is_message_of(sent[i], #[trigger] results[i])
                &&& images.len() > 0 ==> {
                    &&& sent.last().field("role"@) == Some(JsonView::Text("user"@))
                    &&& sent.last().field("content"@) matches Some(JsonView::Array(parts)) && {
                        &&& parts.len() == images.len()
                        &&& forall|k: int|
                            0 <= k < images.len() ==> is_image_part(
                                #[trigger] parts[k],
                                images[k],
                            )
                    }
                }
            }
        }),
{
    lemma_wire_of_one(sourced, skip_image_parsing);
    let sent = wire_messages(seq![sourced], skip_image_parsing);
    let results = sent_results(sourced);
    lemma_detached_images(results);
    let images = answered_images(results);
    assert forall|i: int| 0 <= i < results.len() implies is_message_of(
        sent[i],
        #[trigger] results[i],
    ) by {
        lemma_result_message(results[i]);
        assert(sent[i] == result_messages(results)[i]);
    }
    if images.len() > 0 {
        let parts = image_parts(images);
        lemma_wire_message("user"@, JsonView::Array(parts));
        assert(sent.last() == wire_message("user"@, JsonView::Array(parts)));
        assert forall|k: int| 0 <= k < images.len() implies is_image_part(
            #[trigger] parts[k],
            images[k],
        ) by {
            lemma_image_part(images[k]);
        }
    } else {
        assert(detached_images(results) =~= seq![]);
    }
    if !(sourced.message.tool_results_json matches Some(raw) && (trimmed(
        sourced.message.content,
    ).len() > 0 || (raw.len() > 0 && raw != "{}"@))) {
        assert(results =~= seq![]);
        assert(answered_images(results) =~= seq![]);
    }
}

/// Two tool turns in a row are sent as one turn with the results of both.
pub proof fn law_tool_turns_in_a_row_are_one(
    before: Seq<SourcedView>,
    first: SourcedView,
    second: SourcedView,
    both: SourcedView,
    after: Seq<SourcedView>,
    skip_image_parsing: bool,
)
    requires
        forall|turn: SourcedView|
            turn == first || turn == second || turn == both ==> {
                &&& trimmed((#[trigger] turn.message).role) == "tool"@
                &&& turn.message.tool_results_json is Some
                &&& trimmed(turn.message.content).len() > 0
            },
        both.tool_results == first.tool_results + second.tool_results,
    ensures
        wire_messages(before + seq![first, second] + after, skip_image_parsing) == wire_messages(
            before + seq![both] + after,
            skip_image_parsing,
        ),
{
    assert(trimmed(first.message.role) == "tool"@);
    assert(trimmed(second.message.role) == "tool"@);
    assert(trimmed(both.message.role) == "tool"@);
    let apart = before + seq![first, second];
    let together = before + seq![both];
    assert(apart.drop_last() =~= before + seq![first]);
    assert(apart.drop_last().drop_last() =~= before);
    assert(together.drop_last() =~= before);
    lemma_detached_images_of_two(first.tool_results, second.tool_results);
    let one = wire_history(apart, skip_image_parsing);
    let other = wire_history(together, skip_image_parsing);
    assert(result_messages(both.tool_results) =~= result_messages(first.tool_results)
        + result_messages(second.tool_results));
    assert(wire_history(apart.drop_last(), skip_image_parsing).messages == wire_history(
        before,
        skip_image_parsing,
    ).messages + result_messages(first.tool_results));
    assert(one.messages =~= other.messages);
    assert(one.waiting =~= other.waiting);
    lemma_same_so_far(apart, together, after, skip_image_parsing);
}

/// A tool turn without results to send leaves no trace.
pub proof fn law_empty_tool_turns_leave_no_trace(
    before: Seq<SourcedView>,
    turn: SourcedView,
    after: Seq<SourcedView>,
    skip_image_parsing: bool,
)
    requires
        trimmed(turn.message.role) == "tool"@,
        turn.message.tool_results_json matches Some(raw) ==> turn.tool_results.len() == 0 || (
        trimmed(turn.message.content).len() == 0 && (raw.len() == 0 || raw == "{}"@)),
    ensures
        wire_messages(before + seq![turn] + after, skip_image_parsing) == wire_messages(
            before + after,
            skip_image_parsing,
        ),
{
    let with = before + seq![turn];
    assert(with.drop_last() =~= before);
    assert(sent_results(turn) =~= seq![]);
    assert(result_messages(sent_results(turn)) =~= seq![]);
    assert(detached_images(sent_results(turn)) =~= seq![]);
    let one = wire_history(with, skip_image_parsing);
    let other = wire_history(before, skip_image_parsing);
    assert(one.messages =~= other.messages);
    assert(one.waiting =~= other.waiting);
    lemma_same_so_far(with, before, after, skip_image_parsing);
}

proof fn lemma_detached_images_of_two(front: Seq<ToolResultView>, back: Seq<ToolResultView>)
    ensures
        detached_images(front + back) == detached_images(front) + detached_images(back),
{
    lemma_detached_images(front);
    lemma_detached_images(back);
    lemma_detached_images(front + back);
    lemma_answered_images_of_two(front, back);
    assert(image_parts(answered_images(front) + answered_images(back)) =~= image_parts(
        answered_images(front),
    ) + image_parts(answered_images(back)));
}

proof fn lemma_same_so_far(
    one: Seq<SourcedView>,
    other: Seq<SourcedView>,
    after: Seq<SourcedView>,
    skip_image_parsing: bool,
)
    requires
        wire_history(one, skip_image_parsing) == wire_history(other, skip_image_parsing),
    ensures
        wire_history(one + after, skip_image_parsing) == wire_history(
            other + after,
            skip_image_parsing,
        ),
    decreases after.len(),
{
    if after.len() == 0 {
        assert(one + after =~= one);
        assert(other + after =~= other);
    } else {
        lemma_same_so_far(one, other, after.drop_last(), skip_image_parsing);
        assert((one + after).drop_last() =~= one + after.drop_last());
        assert((other + after).drop_last() =~= other + after.drop_last());
        assert((one + after).last() == after.last());
        assert((other + after).last() == after.last());
    }
}

/// Whether one of the calls has this identifier.
pub open spec fn has_call(calls: Seq<JsonView>, call_id: Seq<char>) -> bool {
    exists|c: int|
        0 <= c < calls.len() && (#[trigger] calls[c]).field("id"@) == Some(JsonView::Text(call_id))
}

/// Whether a message on the wire replies to one of the calls.
pub open spec fn names_a_call(message: JsonView, calls: Seq<JsonView>) -> bool {
    message.field("tool_call_id"@) matches Some(JsonView::Text(call_id)) && has_call(calls, call_id)
}

/// Where every result of the tool turns behind an assistant turn answers one of its calls, every
/// reply on the wire names a call of the assistant's message in front of it.
pub proof fn law_replies_name_calls_that_are_sent(
    sourced: SourcedView,
    turns: Seq<SourcedView>,
    skip_image_parsing: bool,
)
    requires
        trimmed(sourced.message.role) == "assistant"@,
        sourced.message.tool_calls_json is Some,
        sourced.tool_calls.len() > 0,
        forall|t: int| 0 <= t < turns.len() ==> trimmed((#[trigger] turns[t]).message.role) == "tool"@,
        forall|t: int, r: int|
            0 <= t < turns.len() && 0 <= r < turns[t].tool_results.len() ==> {
                let result = #[trigger] turns[t].tool_results[r];
                result.call_id.len() > 0 && has_call(sourced.tool_calls, result.call_id)
            },
    ensures
        ({
            let sent = wire_messages(seq![sourced] + turns, skip_image_parsing);
            &&& sent.len() > 0
            &&& sent[0].field("tool_calls"@) matches Some(JsonView::Array(calls)) && forall|i: int|
                0 < i < sent.len() && (#[trigger] sent[i]).field("role"@) == Some(
                    JsonView::Text("tool"@),
                ) ==> names_a_call(sent[i], calls)
        }),
{
    lemma_roles_differ();
    let front = seq![sourced];
    assert(front.last() == sourced);
    law_histories_are_sent_piecewise(front, turns, skip_image_parsing);
    law_tool_calls_are_sent_whole(sourced, skip_image_parsing);
    let sent = wire_messages(front + turns, skip_image_parsing);
    let calls = sent[0].field("tool_calls"@)->0->Array_0;
    assert(calls =~= sourced.tool_calls);
    let wire = wire_history(turns, skip_image_parsing);
    lemma_replies_name_calls(turns, sourced.tool_calls, skip_image_parsing);
    assert forall|i: int|
        0 < i < sent.len() && (#[trigger] sent[i]).field("role"@) == Some(
            JsonView::Text("tool"@),
        ) implies names_a_call(sent[i], calls) by {
        if i - 1 < wire.messages.len() {
            assert(sent[i] == wire.messages[i - 1]);
            assert(names_a_call(wire.messages[i - 1], calls));
        } else {
            assert(sent[i] == images_message(wire.waiting)[0]);
            lemma_wire_message("user"@, JsonView::Array(wire.waiting));
        }
    }
}

proof fn lemma_replies_name_calls(
    turns: Seq<SourcedView>,
    calls: Seq<JsonView>,
    skip_image_parsing: bool,
)
    requires
        forall|t: int| 0 <= t < turns.len() ==> trimmed((#[trigger] turns[t]).message.role) == "tool"@,
        forall|t: int, r: int|
            0 <= t < turns.len() && 0 <= r < turns[t].tool_results.len() ==> {
                let result = #[trigger] turns[t].tool_results[r];
                result.call_id.len() > 0 && has_call(calls, result.call_id)
            },
    ensures
        forall|i: int|
            0 <= i < wire_history(turns, skip_image_parsing).messages.len() ==> names_a_call(
                #[trigger] wire_history(turns, skip_image_parsing).messages[i],
                calls,
            ),
    decreases turns.len(),
{
    if turns.len() > 0 {
        let front = turns.drop_last();
        assert forall|t: int, r: int|
            0 <= t < front.len() && 0 <= r < front[t].tool_results.len() implies {
            let result = #[trigger] front[t].tool_results[r];
            result.call_id.len() > 0 && has_call(calls, result.call_id)
        } by {
            let result = turns[t].tool_results[r];
        }
        lemma_replies_name_calls(front, calls, skip_image_parsing);
        let last = turns.last();
        assert(turns[turns.len() - 1] == last);
        let earlier = wire_history(front, skip_image_parsing).messages;
        let all = wire_history(turns, skip_image_parsing).messages;
        let results = sent_results(last);
        assert forall|i: int| 0 <= i < all.len() implies names_a_call(
            #[trigger] all[i],
            calls,
        ) by {
            if i < earlier.len() {
                assert(all[i] == earlier[i]);
            } else {
                let r = i - earlier.len();
                assert(all[i] == result_messages(results)[r]);
                lemma_result_message(results[r]);
                let result = turns[turns.len() - 1].tool_results[r];
                assert(result == results[r]);
            }
        }
    }
}

/// The parts of the built-in prompt are the contents of the system prompts of the history that
/// are not blank, trimmed and in order.
pub proof fn law_builtin_prompt_is_the_systems(
    front: Seq<SourcedView>,
    back: Seq<SourcedView>,
    sourced: SourcedView,
)
    ensures
        system_parts(front + back) == system_parts(front) + system_parts(back),
        ({
            let content = trimmed(sourced.message.content);
            let is_system = trimmed(sourced.message.role) == "system"@ || trimmed(
                sourced.message.role,
            ) == "developer"@;
            system_parts(seq![sourced]) == if is_system && content.len() > 0 {
                seq![content]
            } else {
                seq![]
            }
        }),
    decreases back.len(),
{
    let none = seq![sourced].drop_last();
    assert(none =~= seq![]);
    assert(system_parts(none) =~= seq![]);
    assert(seq![sourced].last() == sourced);
    assert(Seq::<Seq<char>>::empty().push(trimmed(sourced.message.content)) =~= seq![
        trimmed(sourced.message.content),
    ]);
    if back.len() == 0 {
        assert(front + back =~= front);
        assert(system_parts(front) + system_parts(back) =~= system_parts(front));
    } else {
        law_builtin_prompt_is_the_systems(front, back.drop_last(), sourced);
        assert((front + back).drop_last() =~= front + back.drop_last());
        assert((front + back).last() == back.last());
        assert(system_parts(front + back) =~= system_parts(front) + system_parts(back));
    }
}

/// The history is sent whole, behind the prompts. Prompts of the user and a prompt for a
/// recovery that is not blank are the parts of the system message, all of them and in order, and
/// the built-in prompt follows as a user's message; without them the built-in prompt is the
/// system message. There is no message for a prompt that is not there.
pub proof fn law_prompts_stand_in_front(
    history: Seq<SourcedView>,
    skip_image_parsing: bool,
    user_system_prompts: Seq<Seq<char>>,
    recovery_prompt: Option<Seq<char>>,
)
    ensures
        ({
            let sent = payload_messages(
                history,
                skip_image_parsing,
                user_system_prompts,
                recovery_prompt,
            );
            let recovers = recovery_prompt matches Some(prompt) && trimmed(prompt).len() > 0;
            let given = user_system_prompts.len() + if recovers {
                1int
            } else {
                0
            };
            let builtin = system_parts(history);
            let lead = (if given > 0 {
                1int
            } else {
                0
            }) + if builtin.len() > 0 {
                1int
            } else {
                0
            };
            &&& sent.len() >= lead
            &&& sent.skip(lead) == wire_messages(history, skip_image_parsing)
            &&& given > 0 ==> {
                &&& sent[0].field("role"@) == Some(JsonView::Text("system"@))
                &&& sent[0].field("content"@) matches Some(JsonView::Array(parts)) && {
                    &&& parts.len() == given
                    &&& forall|i: int|
                        0 <= i < user_system_prompts.len() ==> is_text_part(
                            parts[i],
                            #[trigger] user_system_prompts[i],
                        )
                    &&& recovers ==> is_text_part(
                        parts[user_system_prompts.len() as int],
                        trimmed(recovery_prompt->0),
                    )
                }
            }
            &&& builtin.len() > 0 ==> is_sent_as(
                sent[lead - 1],
                if given > 0 {
                    "user"@
                } else {
                    "system"@
                },
                JsonView::Text(joined(builtin, "\n\n"@)),
            )
        }),
{
    let sent = payload_messages(history, skip_image_parsing, user_system_prompts, recovery_prompt);
    let slot = system_slot(user_system_prompts, recovery_prompt);
    let builtin = system_parts(history);
    let front = prompt_messages(slot, builtin);
    let wire = wire_messages(history, skip_image_parsing);
    let recovers = recovery_prompt matches Some(prompt) && trimmed(prompt).len() > 0;
    assert(trimmed(seq![]) =~= seq![]);
    assert(slot.len() == user_system_prompts.len() + if recovers {
        1int
    } else {
        0
    });
    assert(sent.skip(front.len() as int) =~= wire);
    lemma_wire_message("user"@, JsonView::Text(joined(builtin, "\n\n"@)));
    lemma_wire_message("system"@, JsonView::Text(joined(builtin, "\n\n"@)));
    lemma_wire_message("system"@, JsonView::Array(text_parts(slot)));
    assert forall|i: int| 0 <= i < user_system_prompts.len() implies is_text_part(
        text_parts(slot)[i],
        #[trigger] user_system_prompts[i],
    ) by {
        lemma_text_part(user_system_prompts[i]);
        assert(slot[i] == user_system_prompts[i]);
    }
    if recovers {
        lemma_text_part(trimmed(recovery_prompt->0));
        assert(slot[user_system_prompts.len() as int] == trimmed(recovery_prompt->0));
    }
}

/// A payload names the model, holds the messages, asks for a stream with its usage, and holds a
/// limit, a reasoning effort and tools where there are some.
pub proof fn law_payloads_hold_what_they_are_made_of(
    model: Seq<char>,
    messages: Seq<JsonView>,
    max_tokens: Option<i32>,
    reasoning_effort: Option<Seq<char>>,
    tools: Option<JsonView>,
)
    ensures
        ({
            let payload = chat_payload(model, messages, max_tokens, reasoning_effort, tools);
            &&& payload.field("model"@) == Some(JsonView::Text(model))
            &&& payload.field("messages"@) == Some(JsonView::Array(messages))
            &&& payload.field("stream"@) == Some(JsonView::Bool(true))
            &&& payload.field("stream_options"@) matches Some(options) && options.field(
                "include_usage"@,
            ) == Some(JsonView::Bool(true))
            &&& payload.field("max_tokens"@) == match max_tokens {
                Some(limit) => Some(JsonView::Number(decimal(limit as nat))),
                None => None,
            }
            &&& payload.field("reasoning_effort"@) == match reasoning_effort {
                Some(effort) => Some(JsonView::Text(effort)),
                None => None,
            }
            &&& payload.field("tools"@) == match tools {
                Some(JsonView::Array(items)) if items.len() > 0 => Some(JsonView::Array(items)),
                _ => None,
            }
        }),
{
    lemma_keys_differ();
    let payload = chat_payload(model, messages, max_tokens, reasoning_effort, tools);
    let fields = payload->Object_0;
    lemma_field_at(fields, 0);
    lemma_field_at(fields, 1);
    lemma_field_at(fields, 2);
    lemma_field_at(fields, 3);
    lemma_field_at(fields[3].1->Object_0, 0);
    let limits = if max_tokens is Some {
        1int
    } else {
        0
    };
    let efforts = if reasoning_effort is Some {
        1int
    } else {
        0
    };
    if max_tokens is Some {
        lemma_field_at(fields, 4);
    } else {
        lemma_no_field(fields, "max_tokens"@);
    }
    if reasoning_effort is Some {
        lemma_field_at(fields, 4 + limits);
    } else {
        lemma_no_field(fields, "reasoning_effort"@);
    }
    if fields.len() > 4 + limits + efforts {
        lemma_field_at(fields, 4 + limits + efforts);
    } else {
        lemma_no_field(fields, "tools"@);
    }
}

/// The limit of a payload is what is reserved for the answer; there is none where nothing is.
pub proof fn law_payload_limit_is_the_reserve(max_tokens: Option<i32>, is_compaction: bool)
    ensures
        payload_max_tokens(max_tokens, is_compaction) == if reserved_tokens(
            max_tokens,
            is_compaction,
        ) > 0 {
            Some(reserved_tokens(max_tokens, is_compaction) as i32)
        } else {
            None
        },
{
}

/// A reasoning effort is asked for exactly where the settings hold one under `chatThinking` of
/// `snowcfg` that is neither blank nor `none`, and reasoning is not switched off; it is sent
/// trimmed. A text that is no document asks for none.
pub proof fn law_efforts_are_those_configured(
    config: JsonView,
    effort: Seq<char>,
    config_json: Seq<char>,
)
    ensures
        effort_setting(config) == Some(effort) <==> {
            &&& config.field("snowcfg"@) matches Some(section) && section.field("chatThinking"@)
                matches Some(thinking) && {
                &&& thinking is Object
                &&& thinking.field("enabled"@) != Some(JsonView::Bool(false))
                &&& thinking.field("reasoning_effort"@) matches Some(JsonView::Text(text))
                    && trimmed(text) == effort
            }
            &&& effort.len() > 0
            &&& effort != "none"@
        },
        parsed_json(config_json) == Some(config) ==> configured_effort(config_json)
            == effort_setting(config),
        parsed_json(config_json) is None ==> configured_effort(config_json) is None,
{
}

/// The roles of assistants, systems and developers are kept, apart from white space around
/// them; every other role is a user's.
pub proof fn law_roles_on_the_wire(role: Seq<char>)
    ensures
        trimmed(role) == "assistant"@ ==> wire_role(role) == "assistant"@,
        trimmed(role) == "system"@ ==> wire_role(role) == "system"@,
        trimmed(role) == "developer"@ ==> wire_role(role) == "developer"@,
        trimmed(role) != "assistant"@ && trimmed(role) != "system"@ && trimmed(role)
            != "developer"@ ==> wire_role(role) == "user"@,
{
}

/// An endpoint lies under the API of a profile that has a base URL and is not in the mode
/// `endpoint`.
pub proof fn law_endpoints_under_the_api(base_url: Seq<char>, mode: Seq<char>)
    ensures
        lies_under_api(base_url, mode) <==> base_url.len() > 0 && mode != "endpoint"@,
{
}

} // verus!
