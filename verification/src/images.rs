//! Images that stand inline in messages and belong on disk.
//!
//! An inline image is billed as text, an image on disk at a flat estimate; so inline images
//! are put on disk before a request is measured. The texts that hold some are collected, their
//! images stored, and the rewritten texts put in their place.
use vstd::prelude::*;

use crate::message::{message_views, ChatContextMessage, MessageView};
use crate::text::{contains_text, occurs_in, texts};

verus! {

/// The start of an image that stands inline in a text.
pub open spec fn inline_image_tag() -> Seq<char> {
    "@@image:data:"@
}

/// Whether a text holds an inline image.
pub open spec fn has_inline_image(text: Seq<char>) -> bool {
    occurs_in(text, inline_image_tag())
}

/// Whether the tool results of a message hold an inline image.
pub open spec fn results_have_inline_image(message: MessageView) -> bool {
    message.tool_results_json matches Some(raw) && has_inline_image(raw)
}

/// The texts of a message that hold inline images: its content before its tool results.
pub open spec fn message_inline_texts(message: MessageView) -> Seq<Seq<char>> {
    (if has_inline_image(message.content) {
        seq![message.content]
    } else {
        seq![]
    }) + (if results_have_inline_image(message) {
        seq![message.tool_results_json->0]
    } else {
        seq![]
    })
}

/// The texts of messages that hold inline images, in order.
pub open spec fn inline_texts(messages: Seq<MessageView>) -> Seq<Seq<char>>
    decreases messages.len(),
{
    if messages.len() == 0 {
        seq![]
    } else {
        inline_texts(messages.drop_last()) + message_inline_texts(messages.last())
    }
}

/// A message with the first of the `persisted` texts in place of its texts that hold inline
/// images.
pub open spec fn rewritten_message(message: MessageView, persisted: Seq<Seq<char>>) -> MessageView {
    MessageView {
        content: if has_inline_image(message.content) {
            persisted[0]
        } else {
            message.content
        },
        tool_results_json: if results_have_inline_image(message) {
            Some(persisted[if has_inline_image(message.content) { 1 } else { 0 }])
        } else {
            message.tool_results_json
        },
        ..message
    }
}

/// Messages with the `persisted` texts, in order, in place of those that hold inline images.
pub open spec fn rewritten(messages: Seq<MessageView>, persisted: Seq<Seq<char>>) -> Seq<MessageView> {
    Seq::new(
        messages.len(),
        |i: int|
            rewritten_message(
                messages[i],
                persisted.skip(inline_texts(messages.take(i)).len() as int),
            ),
    )
}

fn holds_inline_image(text: &str) -> (r: bool)
    ensures
        r == has_inline_image(text@),
{
    proof {
        reveal_strlit("@@image:data:");
    }
    contains_text(text, "@@image:data:")
}

/// The texts of messages that hold inline images, in order.
pub fn inline_image_texts(messages: &[ChatContextMessage]) -> (r: Vec<String>)
    ensures
        texts(r@) == inline_texts(message_views(messages@)),
{
    let ghost views = message_views(messages@);
    let mut found: Vec<String> = Vec::new();
    let mut i: usize = 0;
    while i < messages.len()
        invariant
            i <= messages@.len(),
            views == message_views(messages@),
            texts(found@) == inline_texts(views.take(i as int)),
        decreases messages@.len() - i,
    {
        let message = &messages[i];
        let ghost before = texts(found@);
        proof {
            assert(views.take(i + 1).drop_last() =~= views.take(i as int));
            assert(views.take(i + 1).last() == message@);
        }
        if holds_inline_image(message.content.as_str()) {
            found.push(message.content.clone());
            assert(texts(found@) =~= before.push(message.content@));
        }
        let ghost middle = texts(found@);
        if let Some(raw) = &message.tool_results_json {
            if holds_inline_image(raw.as_str()) {
                found.push(raw.clone());
                assert(texts(found@) =~= middle.push(raw@));
            }
        }
        assert(texts(found@) =~= before + message_inline_texts(message@));
        i += 1;
    }
    assert(views.take(views.len() as int) =~= views);
    found
}

/// Puts the `persisted` texts, in order, in place of the texts that hold inline images.
///
/// Takes one text for each that [`inline_image_texts`] gives for the messages.
pub fn persist_images_in_history(
    messages: Vec<ChatContextMessage>,
    persisted: &Vec<String>,
) -> (r: Vec<ChatContextMessage>)
    requires
        persisted@.len() == inline_texts(message_views(messages@)).len(),
    ensures
        message_views(r@) == rewritten(message_views(messages@), texts(persisted@)),
{
    let ghost views = message_views(messages@);
    let ghost replacements = texts(persisted@);
    let mut result: Vec<ChatContextMessage> = Vec::new();
    let mut used: usize = 0;
    let mut i: usize = 0;
    while i < messages.len()
        invariant
            i <= messages@.len(),
            views == message_views(messages@),
            replacements == texts(persisted@),
            persisted@.len() == inline_texts(views).len(),
            used == inline_texts(views.take(i as int)).len(),
            message_views(result@) == rewritten(views, replacements).take(i as int),
        decreases messages@.len() - i,
    {
        let mut message = messages[i].clone();
        proof {
            assert(views.take(i + 1).drop_last() =~= views.take(i as int));
            assert(views.take(i + 1).last() == views[i as int]);
            lemma_inline_texts_grow(views, i + 1);
        }
        assert(used <= persisted.len());
        let ghost before = result@;
        let ghost here = replacements.skip(used as int);
        if holds_inline_image(message.content.as_str()) {
            message.content = persisted[used].clone();
            used += 1;
        }
        let inline_results = match &message.tool_results_json {
            Some(raw) => holds_inline_image(raw.as_str()),
            None => false,
        };
        if inline_results {
            message.tool_results_json = Some(persisted[used].clone());
            used += 1;
        }
        assert(message@ == rewritten_message(views[i as int], here));
        result.push(message);
        proof {
            assert(message_views(result@) =~= message_views(before).push(message@));
            assert(message_views(result@) =~= rewritten(views, replacements).take(i + 1));
        }
        i += 1;
    }
    assert(rewritten(views, replacements).take(views.len() as int) =~= rewritten(
        views,
        replacements,
    ));
    result
}

proof fn lemma_inline_texts_grow(messages: Seq<MessageView>, count: int)
    requires
        0 <= count <= messages.len(),
    ensures
        inline_texts(messages.take(count)).len() <= inline_texts(messages).len(),
    decreases messages.len(),
{
    if count == messages.len() {
        assert(messages.take(count) =~= messages);
    } else {
        assert(messages.drop_last().take(count) =~= messages.take(count));
        lemma_inline_texts_grow(messages.drop_last(), count);
    }
}

/// Messages without inline images stay as they are.
pub proof fn law_no_inline_images_no_change(messages: Seq<MessageView>, persisted: Seq<Seq<char>>)
    requires
        inline_texts(messages).len() == 0,
    ensures
        rewritten(messages, persisted) == messages,
{
    assert forall|i: int| 0 <= i < messages.len() implies rewritten(messages, persisted)[i]
        == messages[i] by {
        lemma_inline_texts_grow(messages, i + 1);
        assert(messages.take(i + 1).drop_last() =~= messages.take(i));
        assert(messages.take(i + 1).last() == messages[i]);
        let message = messages[i];
        assert(message_inline_texts(message).len() == 0);
        assert(!has_inline_image(message.content));
        assert(!results_have_inline_image(message));
    }
    assert(rewritten(messages, persisted) =~= messages);
}

/// Inline images are looked for message by message: the content of a message before its tool
/// results, and both as they stand.
pub proof fn law_inline_texts_are_collected_in_order(
    front: Seq<MessageView>,
    back: Seq<MessageView>,
    message: MessageView,
)
    ensures
        inline_texts(front + back) == inline_texts(front) + inline_texts(back),
        ({
            let in_content = occurs_in(message.content, "@@image:data:"@);
            let in_results = message.tool_results_json matches Some(raw) && occurs_in(
                raw,
                "@@image:data:"@,
            );
            inline_texts(seq![message]) == if in_content && in_results {
                seq![message.content, message.tool_results_json->0]
            } else if in_content {
                seq![message.content]
            } else if in_results {
                seq![message.tool_results_json->0]
            } else {
                seq![]
            }
        }),
    decreases back.len(),
{
    lemma_inline_texts_of_one(message);
    if back.len() == 0 {
        assert(front + back =~= front);
        assert(inline_texts(front) + inline_texts(back) =~= inline_texts(front));
    } else {
        law_inline_texts_are_collected_in_order(front, back.drop_last(), message);
        assert((front + back).drop_last() =~= front + back.drop_last());
        assert((front + back).last() == back.last());
        assert(inline_texts(front + back) =~= inline_texts(front) + inline_texts(back));
    }
}

/// The stored texts take the places of the texts that were collected, and nothing else changes:
/// collecting the texts and putting them back gives the same messages, and every message keeps
/// its role, its tool calls, its reasoning, and each text without an inline image.
pub proof fn law_only_inline_texts_are_replaced(
    messages: Seq<MessageView>,
    persisted: Seq<Seq<char>>,
    i: int,
)
    requires
        persisted.len() == inline_texts(messages).len(),
        0 <= i < messages.len(),
    ensures
        rewritten(messages, inline_texts(messages)) == messages,
        rewritten(messages, persisted).len() == messages.len(),
        ({
            let given = messages[i];
            let result = rewritten(messages, persisted)[i];
            let first = inline_texts(messages.take(i)).len() as int;
            let in_content = occurs_in(given.content, "@@image:data:"@);
            let in_results = given.tool_results_json matches Some(raw) && occurs_in(
                raw,
                "@@image:data:"@,
            );
            &&& result.role == given.role
            &&& result.tool_calls_json == given.tool_calls_json
            &&& result.thinking == given.thinking
            &&& result.thinking_blocks_json == given.thinking_blocks_json
            &&& result.content == if in_content {
                persisted[first]
            } else {
                given.content
            }
            &&& result.tool_results_json == if in_results {
                Some(
                    persisted[if in_content {
                        first + 1
                    } else {
                        first
                    }],
                )
            } else {
                given.tool_results_json
            }
        }),
{
    lemma_inline_texts_split(messages, i);
    lemma_collected_texts_put_back(messages);
}

proof fn lemma_collected_texts_put_back(messages: Seq<MessageView>)
    ensures
        rewritten(messages, inline_texts(messages)) == messages,
{
    let all = inline_texts(messages);
    assert forall|j: int| 0 <= j < messages.len() implies #[trigger] rewritten(messages, all)[j]
        == messages[j] by {
        lemma_inline_texts_split(messages, j);
        let first = inline_texts(messages.take(j)).len() as int;
        let own = message_inline_texts(messages[j]);
        let found = all.subrange(first, first + own.len());
        if own.len() > 0 {
            assert(found[0] == all.skip(first)[0]);
        }
        if own.len() > 1 {
            assert(found[1] == all.skip(first)[1]);
        }
    }
    assert(rewritten(messages, all) =~= messages);
}

proof fn lemma_inline_texts_of_one(message: MessageView)
    ensures
        inline_texts(seq![message]) == message_inline_texts(message),
{
    let none = seq![message].drop_last();
    assert(none =~= seq![]);
    assert(inline_texts(none) =~= seq![]);
    assert(seq![message].last() == message);
    assert(inline_texts(seq![message]) == inline_texts(none) + message_inline_texts(message));
    assert(inline_texts(none) + message_inline_texts(message) =~= message_inline_texts(message));
}

proof fn lemma_inline_texts_split(messages: Seq<MessageView>, i: int)
    requires
        0 <= i < messages.len(),
    ensures
        ({
            let first = inline_texts(messages.take(i)).len() as int;
            let own = message_inline_texts(messages[i]);
            &&& first + own.len() <= inline_texts(messages).len()
            &&& inline_texts(messages).subrange(first, first + own.len()) == own
        }),
{
    let before = messages.take(i);
    let after = messages.skip(i + 1);
    let message = messages[i];
    assert(messages =~= before + seq![message] + after);
    law_inline_texts_are_collected_in_order(before + seq![message], after, message);
    law_inline_texts_are_collected_in_order(before, seq![message], message);
    lemma_inline_texts_of_one(message);
    let first = inline_texts(before).len() as int;
    let own = message_inline_texts(message);
    assert(inline_texts(messages).subrange(first, first + own.len()) =~= own);
}

} // verus!
