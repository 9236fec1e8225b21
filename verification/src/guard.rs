//! The context window guard: refuses a request that exceeds the budget of its profile before
//! it is sent.
use vstd::prelude::*;

use crate::error::{Remedy, RequestError};
use crate::message::{message_views, plain_message, ChatContextMessage, MessageView};
use crate::text::{
    after_word, count_occurrences, law_patterns_are_counted_from_the_first,
    law_text_without_enclosed_words_stays, occurrences, occurs_at, occurs_in, remove_enclosed,
    same_text, str_or_empty, text_or_empty, trim, trimmed, white_space, without_enclosed,
};

verus! {

/// The least safety margin in tokens: it covers the drift between the tokenizer and the
/// provider's own count, and the envelope of the request.
pub const CONTEXT_GUARD_SAFETY_MARGIN_TOKENS: usize = 8_192;

/// The estimated cost in tokens of one image on disk for an endpoint that sees images.
pub const CONTEXT_GUARD_VISION_IMAGE_TOKEN_ESTIMATE: usize = 1_600;

/// The estimated cost in tokens of one image on disk for an endpoint that reads a description
/// of it.
pub const CONTEXT_GUARD_TEXTIFY_IMAGE_TOKEN_ESTIMATE: usize = 800;

/// The most tokens that a compaction request reserves for its answer, a summary.
pub const CONTEXT_COMPACTION_OUTPUT_RESERVE_TOKENS: usize = 16_384;

/// Which of the two reasoning fields of a message a provider puts on the wire.
///
/// `thinking` and `thinking_blocks_json` mirror the same reasoning, so only one is billed.
#[derive(Clone, Copy, PartialEq, Eq, Debug, Structural)]
pub enum ReasoningPayload {
    /// Only `thinking` is sent.
    Text,
    /// `thinking_blocks_json` is sent, and `thinking` where a message has no blocks.
    Blocks,
}

impl ReasoningPayload {
    /// The field that the provider behind a request method sends.
    pub fn for_request_method(request_method: &str) -> (r: Self)
        ensures
            r == (if trimmed(request_method@) == "chat"@ {
                ReasoningPayload::Text
            } else {
                ReasoningPayload::Blocks
            }),
    {
        if same_text(trim(request_method), "chat") {
            ReasoningPayload::Text
        } else {
            ReasoningPayload::Blocks
        }
    }
}

/// The `max_tokens` that is sent for a request: a compaction is capped at the size of a
/// summary, and never left without a limit.
pub open spec fn effective_max_tokens(max_tokens: Option<i32>, is_compaction: bool) -> Option<i32> {
    if !is_compaction {
        max_tokens
    } else {
        match max_tokens {
            Some(value) if 0 < value < CONTEXT_COMPACTION_OUTPUT_RESERVE_TOKENS => Some(value),
            _ => Some(CONTEXT_COMPACTION_OUTPUT_RESERVE_TOKENS as i32),
        }
    }
}

/// The `max_tokens` to send for a request.
///
/// A compaction produces a summary, so it does not claim the whole output budget of the
/// profile; where the profile sets none, the cap is sent.
pub fn resolve_effective_max_tokens(max_tokens: Option<i32>, is_compaction: bool) -> (r: Option<i32>)
    ensures
        r == effective_max_tokens(max_tokens, is_compaction),
{
    if !is_compaction {
        return max_tokens;
    }
    let cap: i32 = CONTEXT_COMPACTION_OUTPUT_RESERVE_TOKENS as i32;
    match max_tokens {
        Some(value) if value > 0 => if value < cap {
            Some(value)
        } else {
            Some(cap)
        },
        _ => Some(cap),
    }
}

/// The tokens that are kept free for the answer to a request.
pub open spec fn output_reserve(max_output_tokens: Option<i32>, is_compaction: bool) -> int {
    match effective_max_tokens(max_output_tokens, is_compaction) {
        Some(value) if value > 0 => value as int,
        _ => 0,
    }
}

/// The safety margin of a context window: a twentieth of it, and no less than the floor.
pub open spec fn safety_margin(max_context: int) -> int {
    if max_context / 20 > CONTEXT_GUARD_SAFETY_MARGIN_TOKENS {
        max_context / 20
    } else {
        CONTEXT_GUARD_SAFETY_MARGIN_TOKENS as int
    }
}

/// The tokens that the messages of a request may take: what the context window leaves after
/// the output reserve and the safety margin.
///
/// There is no budget for a profile without a context window, nor for one whose window leaves
/// nothing for the messages.
pub open spec fn input_budget(
    max_context_tokens: Option<i32>,
    max_output_tokens: Option<i32>,
    is_compaction: bool,
) -> Option<int> {
    match max_context_tokens {
        Some(window) if window > 0 => {
            let left = window - output_reserve(max_output_tokens, is_compaction) - safety_margin(
                window as int,
            );
            if left > 0 {
                Some(left)
            } else {
                None
            }
        },
        _ => None,
    }
}

/// The limits that a profile sets for a request.
#[derive(Clone, Copy, PartialEq, Eq, Debug, Structural)]
pub struct ContextBudget {
    /// The context window of the profile.
    pub max_context: usize,
    /// The tokens reserved for the answer.
    pub output_reserve: usize,
    /// The tokens that the messages may take.
    pub budget: usize,
}

/// The limits that a profile sets for a request; `None` where it sets none, or none that can
/// be met.
pub fn resolve_context_budget(
    max_context_tokens: Option<i32>,
    max_output_tokens: Option<i32>,
    is_compaction: bool,
) -> (r: Option<ContextBudget>)
    ensures
        r is Some == input_budget(max_context_tokens, max_output_tokens, is_compaction) is Some,
        r matches Some(limits) ==> {
            &&& limits.max_context == max_context_tokens->0
            &&& limits.output_reserve == output_reserve(max_output_tokens, is_compaction)
            &&& limits.budget == input_budget(
                max_context_tokens,
                max_output_tokens,
                is_compaction,
            )->0
        },
{
    let max_context: usize = match max_context_tokens {
        Some(window) if window > 0 => window as usize,
        _ => return None,
    };
    let output_reserve: usize = match resolve_effective_max_tokens(
        max_output_tokens,
        is_compaction,
    ) {
        Some(value) if value > 0 => value as usize,
        _ => 0,
    };
    let share: usize = max_context / 20;
    let margin: usize = if share > CONTEXT_GUARD_SAFETY_MARGIN_TOKENS {
        share
    } else {
        CONTEXT_GUARD_SAFETY_MARGIN_TOKENS
    };
    if max_context <= output_reserve || max_context - output_reserve <= margin {
        return None;
    }
    Some(
        ContextBudget {
            max_context,
            output_reserve,
            budget: max_context - output_reserve - margin,
        },
    )
}

/// What a bounded token count of a text answers.
#[derive(Clone, Copy, PartialEq, Eq, Debug, Structural)]
pub struct TokenCount {
    /// The tokens counted.
    pub counted: usize,
    /// Whether the text has more tokens than the limit.
    pub exceeded: bool,
    /// The estimated tokens of the whole text where the count stopped at the limit.
    pub estimated_total: usize,
}

/// The start of a reference to an image on disk.
pub open spec fn disk_image_tag() -> Seq<char> {
    "@@image:upload/"@
}

/// The end of a reference to an image on disk.
pub open spec fn disk_image_end() -> Seq<char> {
    "@@"@
}

/// A text without its references to images on disk.
///
/// The name in a reference holds no white space. A start of a reference that has no end, or
/// white space or another start before it, is plain text.
pub open spec fn without_disk_images(text: Seq<char>) -> Seq<char> {
    without_enclosed(text, disk_image_tag(), disk_image_end())
}

/// How many images on disk a message refers to, by the starts of references in it.
pub open spec fn disk_images(message: MessageView) -> nat {
    occurrences(message.content, disk_image_tag()) + occurrences(
        text_or_empty(message.tool_results_json),
        disk_image_tag(),
    )
}

/// The estimated cost of one image on disk.
pub open spec fn image_unit_cost(supports_vision: bool) -> nat {
    if supports_vision {
        CONTEXT_GUARD_VISION_IMAGE_TOKEN_ESTIMATE as nat
    } else {
        CONTEXT_GUARD_TEXTIFY_IMAGE_TOKEN_ESTIMATE as nat
    }
}

/// The reasoning text of a message that is billed.
pub open spec fn billed_thinking(message: MessageView, reasoning: ReasoningPayload) -> Seq<char> {
    if reasoning == ReasoningPayload::Blocks && text_or_empty(message.thinking_blocks_json).len()
        > 0 {
        seq![]
    } else {
        text_or_empty(message.thinking)
    }
}

/// The reasoning blocks of a message that are billed.
pub open spec fn billed_blocks(message: MessageView, reasoning: ReasoningPayload) -> Seq<char> {
    match reasoning {
        ReasoningPayload::Text => seq![],
        ReasoningPayload::Blocks => text_or_empty(message.thinking_blocks_json),
    }
}

/// Something that a message is billed for.
pub enum Charge {
    /// The flat estimate for the images on disk.
    Images(nat),
    /// A text, at its tokens.
    Payload(Seq<char>),
    /// The end of a message, with the flat estimate for its images.
    MessageEnd(nat),
}

/// What one message is billed for, in order.
///
/// A reference to an image on disk is billed at its estimate, in place of its text.
pub open spec fn message_charges(
    message: MessageView,
    supports_vision: bool,
    reasoning: ReasoningPayload,
) -> Seq<Charge> {
    let images = disk_images(message) * image_unit_cost(supports_vision);
    seq![
        Charge::Images(images),
        Charge::Payload(without_disk_images(message.content)),
        Charge::Payload(text_or_empty(message.tool_calls_json)),
        Charge::Payload(without_disk_images(text_or_empty(message.tool_results_json))),
        Charge::Payload(billed_thinking(message, reasoning)),
        Charge::Payload(billed_blocks(message, reasoning)),
        Charge::MessageEnd(images),
    ]
}

/// What a request is billed for, in order.
pub open spec fn charges(
    messages: Seq<MessageView>,
    supports_vision: bool,
    reasoning: ReasoningPayload,
) -> Seq<Charge>
    decreases messages.len(),
{
    if messages.len() == 0 {
        seq![]
    } else {
        message_charges(messages[0], supports_vision, reasoning) + charges(
            messages.drop_first(),
            supports_vision,
            reasoning,
        )
    }
}

/// A running total, which stops at the largest `usize`.
pub open spec fn capped(total: int) -> int {
    if total > usize::MAX {
        usize::MAX as int
    } else {
        total
    }
}

/// What is left of the budget after `total` tokens.
pub open spec fn remaining(budget: int, total: int) -> int {
    if budget > total {
        budget - total
    } else {
        0
    }
}

/// What a token counter can answer, for a text and a limit.
pub type Answers = spec_fn(Seq<char>, usize, TokenCount) -> bool;

/// What `count_tokens` can answer, for a text and a limit.
#[verifier::inline]
pub open spec fn answers_of<F: Fn(&str, usize) -> TokenCount>(count_tokens: F) -> Answers {
    |text: Seq<char>, limit: usize, answer: TokenCount|
        exists|source: &str|
            source@ == text && #[trigger] count_tokens.ensures((source, limit), answer)
}

/// Whether the guard can come to `outcome` on `charges`, with `total` tokens billed before.
///
/// The charges are billed in order: images at their estimate, each text that is not empty at
/// what the counter answers for it and what is left of the budget. The first text that exceeds
/// what is left ends the run: the outcome is the estimated total up to and with it. Images that
/// exceed the budget leave nothing for the texts of their message; where none of these ends the
/// run, the end of the message does, with the total. Where nothing does, the outcome is `None`.
pub open spec fn decides(
    answers: Answers,
    charges: Seq<Charge>,
    budget: int,
    total: int,
    outcome: Option<int>,
) -> bool
    decreases charges.len(),
{
    if charges.len() == 0 {
        outcome is None
    } else {
        let rest = charges.drop_first();
        match charges[0] {
            Charge::Images(cost) => decides(
                answers,
                rest,
                budget,
                capped(total + cost),
                outcome,
            ),
            Charge::MessageEnd(cost) => if cost > 0 && total > budget {
                outcome == Some(total)
            } else {
                decides(answers, rest, budget, total, outcome)
            },
            Charge::Payload(payload) => if payload.len() == 0 {
                decides(answers, rest, budget, total, outcome)
            } else {
                exists|answer: TokenCount|
                    {
                        &&& #[trigger] answers(payload, remaining(budget, total) as usize, answer)
                        &&& if answer.exceeded {
                            outcome == Some(capped(total + answer.estimated_total))
                        } else {
                            decides(
                                answers,
                                rest,
                                budget,
                                capped(total + answer.counted),
                                outcome,
                            )
                        }
                    }
            },
        }
    }
}

/// The advice for a request that exceeds its budget.
pub open spec fn remedy_for(
    auto_compress_threshold: Option<i32>,
    budget: int,
    is_compaction: bool,
) -> Remedy {
    if is_compaction {
        Remedy::StartOver
    } else {
        match auto_compress_threshold {
            Some(threshold) if threshold > budget => Remedy::LowerThreshold(threshold as usize),
            _ => Remedy::Compact,
        }
    }
}

/// The estimated cost of the images on disk that a message refers to.
fn image_cost(message: &ChatContextMessage, supports_vision: bool) -> (r: usize)
    ensures
        r == capped((disk_images(message@) * image_unit_cost(supports_vision)) as int),
{
    proof {
        reveal_strlit("@@image:upload/");
    }
    let in_content: usize = count_occurrences(message.content.as_str(), "@@image:upload/");
    let in_results: usize = count_occurrences(
        str_or_empty(&message.tool_results_json),
        "@@image:upload/",
    );
    let images: usize = in_content.saturating_add(in_results);
    let unit: usize = if supports_vision {
        CONTEXT_GUARD_VISION_IMAGE_TOKEN_ESTIMATE
    } else {
        CONTEXT_GUARD_TEXTIFY_IMAGE_TOKEN_ESTIMATE
    };
    proof {
        let exact = in_content + in_results;
        assert(images <= exact && (images == exact || images == usize::MAX));
        assert(images * unit <= exact * unit) by (nonlinear_arith)
            requires
                images <= exact,
                unit >= 0,
        ;
        assert(images * unit >= images) by (nonlinear_arith)
            requires
                images >= 0,
                unit >= 800,
        ;
    }
    match images.checked_mul(unit) {
        Some(cost) => cost,
        None => usize::MAX,
    }
}

/// A text without its references to images on disk.
fn remove_disk_images(text: &str) -> (r: String)
    ensures
        r@ == without_disk_images(text@),
{
    proof {
        reveal_strlit("@@image:upload/");
    }
    remove_enclosed(text, "@@image:upload/", "@@")
}

/// The texts of a message that are billed, empty ones included.
fn billed_payloads(message: &ChatContextMessage, reasoning: ReasoningPayload) -> (r: Vec<String>)
    ensures
        r@.len() == 5,
        forall|supports_vision: bool, k: int|
            #![trigger message_charges(message@, supports_vision, reasoning)[k + 1]]
            0 <= k < 5 ==> message_charges(message@, supports_vision, reasoning)[k + 1]
                == Charge::Payload(r@[k]@),
{
    let blocks = str_or_empty(&message.thinking_blocks_json);
    let thinking = str_or_empty(&message.thinking);
    proof {
        reveal_strlit("");
    }
    let (billed_thinking, billed_blocks) = match reasoning {
        ReasoningPayload::Text => (thinking, ""),
        ReasoningPayload::Blocks => if blocks.is_empty() {
            (thinking, blocks)
        } else {
            ("", blocks)
        },
    };
    assert(""@ =~= seq![]);
    let mut payloads: Vec<String> = Vec::new();
    payloads.push(remove_disk_images(message.content.as_str()));
    payloads.push(str_or_empty(&message.tool_calls_json).to_owned());
    payloads.push(remove_disk_images(str_or_empty(&message.tool_results_json)));
    payloads.push(billed_thinking.to_owned());
    payloads.push(billed_blocks.to_owned());
    payloads
}

/// The estimated total of a request that exceeds `budget`, or `None` where it fits.
fn exceeding_estimate<F: Fn(&str, usize) -> TokenCount>(
    messages: &[ChatContextMessage],
    budget: usize,
    supports_vision: bool,
    reasoning_payload: ReasoningPayload,
    count_tokens: &F,
) -> (r: Option<usize>)
    requires
        forall|text: &str, limit: usize| count_tokens.requires((text, limit)),
    ensures
        decides(
            answers_of(*count_tokens),
            charges(message_views(messages@), supports_vision, reasoning_payload),
            budget as int,
            0,
            match r {
                Some(estimated) => Some(estimated as int),
                None => None,
            },
        ),
{
    let ghost answers = answers_of(*count_tokens);
    let ghost views = message_views(messages@);
    let ghost all = charges(views, supports_vision, reasoning_payload);
    let mut total: usize = 0;
    let mut i: usize = 0;
    assert(views.skip(0) =~= views);
    while i < messages.len()
        invariant
            i <= messages@.len(),
            answers == answers_of(*count_tokens),
            views == message_views(messages@),
            all == charges(views, supports_vision, reasoning_payload),
            forall|text: &str, limit: usize| count_tokens.requires((text, limit)),
            forall|outcome: Option<int>|
                decides(
                    answers,
                    charges(views.skip(i as int), supports_vision, reasoning_payload),
                    budget as int,
                    total as int,
                    outcome,
                ) ==> #[trigger] decides(answers, all, budget as int, 0, outcome),
        decreases messages@.len() - i,
    {
        let message = &messages[i];
        let ghost own = message_charges(message@, supports_vision, reasoning_payload);
        let ghost later = charges(views.skip(i + 1), supports_vision, reasoning_payload);
        proof {
            assert(views.skip(i as int).drop_first() =~= views.skip(i + 1));
            assert((own + later).drop_first() =~= own.skip(1) + later);
        }
        let images: usize = image_cost(message, supports_vision);
        total = total.saturating_add(images);
        let payloads = billed_payloads(message, reasoning_payload);
        let mut k: usize = 0;
        while k < payloads.len()
            invariant
                k <= payloads@.len() == 5,
                answers == answers_of(*count_tokens),
                own == message_charges(message@, supports_vision, reasoning_payload),
                all == charges(
                    message_views(messages@),
                    supports_vision,
                    reasoning_payload,
                ),
                forall|j: int|
                    0 <= j < 5 ==> #[trigger] own[j + 1] == Charge::Payload(payloads@[j]@),
                forall|text: &str, limit: usize| count_tokens.requires((text, limit)),
                forall|outcome: Option<int>|
                    decides(
                        answers,
                        own.skip(k + 1) + later,
                        budget as int,
                        total as int,
                        outcome,
                    ) ==> #[trigger] decides(answers, all, budget as int, 0, outcome),
            decreases payloads@.len() - k,
        {
            let payload = payloads[k].as_str();
            let ghost here = own.skip(k + 1) + later;
            proof {
                assert(here[0] == own[k + 1]);
                assert(here.drop_first() =~= own.skip(k + 2) + later);
            }
            if !payload.is_empty() {
                let limit = budget.saturating_sub(total);
                let answer = (*count_tokens)(payload, limit);
                assert(limit == remaining(budget as int, total as int) as usize);
                assert(answers(payload@, limit, answer));
                if answer.exceeded {
                    let estimated = total.saturating_add(answer.estimated_total);
                    assert(decides(
                        answers,
                        here,
                        budget as int,
                        total as int,
                        Some(estimated as int),
                    ));
                    return Some(estimated);
                }
                let ghost before = total;
                total = total.saturating_add(answer.counted);
                proof {
                    assert forall|outcome: Option<int>|
                        decides(
                            answers,
                            here.drop_first(),
                            budget as int,
                            total as int,
                            outcome,
                        ) implies #[trigger] decides(
                        answers,
                        all,
                        budget as int,
                        0,
                        outcome,
                    ) by {
                        assert(decides(answers, here, budget as int, before as int, outcome));
                    }
                }
            }
            k += 1;
        }
        proof {
            assert((own.skip(6) + later)[0] == own[6]);
            assert((own.skip(6) + later).drop_first() =~= later);
        }
        if images > 0 && total > budget {
            assert(decides(
                answers,
                own.skip(6) + later,
                budget as int,
                total as int,
                Some(total as int),
            ));
            return Some(total);
        }
        i += 1;
    }
    assert(views.skip(views.len() as int) =~= seq![]);
    assert(decides(
        answers,
        charges(views.skip(i as int), supports_vision, reasoning_payload),
        budget as int,
        total as int,
        None,
    ));
    None
}

/// The refusal of a request of the `estimated` size.
pub fn context_window_error(
    limits: ContextBudget,
    estimated: usize,
    auto_compress_threshold: Option<i32>,
    is_compaction: bool,
) -> (r: RequestError)
    ensures
        r == (RequestError::ContextWindow {
            estimated,
            budget: limits.budget,
            max_context: limits.max_context,
            output_reserve: limits.output_reserve,
            remedy: remedy_for(auto_compress_threshold, limits.budget as int, is_compaction),
        }),
{
    let remedy = if is_compaction {
        Remedy::StartOver
    } else {
        match auto_compress_threshold {
            Some(threshold) if threshold > 0 && threshold as usize > limits.budget =>
                Remedy::LowerThreshold(threshold as usize),
            _ => Remedy::Compact,
        }
    };
    RequestError::ContextWindow {
        estimated,
        budget: limits.budget,
        max_context: limits.max_context,
        output_reserve: limits.output_reserve,
        remedy,
    }
}

/// Whether `result` is an answer of the guard to a request.
///
/// Without a budget the guard stands aside. Otherwise it refuses a request that exceeds the
/// budget, with the estimated size, the limits of the profile and an advice.
pub open spec fn guard_answers(
    messages: Seq<MessageView>,
    max_context_tokens: Option<i32>,
    max_output_tokens: Option<i32>,
    auto_compress_threshold: Option<i32>,
    is_compaction: bool,
    supports_vision: bool,
    reasoning_payload: ReasoningPayload,
    answers: Answers,
    result: Result<(), RequestError>,
) -> bool {
    match input_budget(max_context_tokens, max_output_tokens, is_compaction) {
        None => result == Ok::<(), RequestError>(()),
        Some(budget) => exists|outcome: Option<int>|
            {
                &&& #[trigger] decides(
                    answers,
                    charges(messages, supports_vision, reasoning_payload),
                    budget,
                    0,
                    outcome,
                )
                &&& result == match outcome {
                    None => Ok::<(), RequestError>(()),
                    Some(estimated) => Err(
                        RequestError::ContextWindow {
                            estimated: estimated as usize,
                            budget: budget as usize,
                            max_context: max_context_tokens->0 as usize,
                            output_reserve: output_reserve(
                                max_output_tokens,
                                is_compaction,
                            ) as usize,
                            remedy: remedy_for(auto_compress_threshold, budget, is_compaction),
                        },
                    ),
                }
            },
    }
}

/// Refuses a request whose messages exceed the context budget of its profile.
///
/// `count_tokens` counts the tokens of a text up to a limit. It is asked about each text that is
/// sent, without its references to images on disk and with what is left of the budget as the
/// limit, until the budget is exceeded. The references are billed at a flat estimate. The guard
/// stands aside where the profile sets no context window, or one that leaves nothing for the
/// messages.
pub fn enforce_context_token_budget<F: Fn(&str, usize) -> TokenCount>(
    messages: &[ChatContextMessage],
    max_context_tokens: Option<i32>,
    max_output_tokens: Option<i32>,
    auto_compress_threshold: Option<i32>,
    is_compaction: bool,
    supports_vision: bool,
    reasoning_payload: ReasoningPayload,
    count_tokens: F,
) -> (r: Result<(), RequestError>)
    requires
        forall|text: &str, limit: usize| count_tokens.requires((text, limit)),
    ensures
        guard_answers(
            message_views(messages@),
            max_context_tokens,
            max_output_tokens,
            auto_compress_threshold,
            is_compaction,
            supports_vision,
            reasoning_payload,
            answers_of(count_tokens),
            r,
        ),
{
    let limits = match resolve_context_budget(
        max_context_tokens,
        max_output_tokens,
        is_compaction,
    ) {
        Some(limits) => limits,
        None => return Ok(()),
    };
    let estimated = match exceeding_estimate(
        messages,
        limits.budget,
        supports_vision,
        reasoning_payload,
        &count_tokens,
    ) {
        Some(estimated) => estimated,
        None => return Ok(()),
    };
    Err(context_window_error(limits, estimated, auto_compress_threshold, is_compaction))
}

/// Whether a counter counts exactly: it exceeds a limit when the text has more `tokens`
/// than that, and otherwise answers their number.
pub open spec fn counts_exactly(
    answers: Answers,
    tokens: spec_fn(Seq<char>) -> nat,
) -> bool {
    forall|text: Seq<char>, limit: usize, answer: TokenCount| #[trigger]
        answers(text, limit, answer) ==> {
            &&& answer.exceeded == (tokens(text) > limit)
            &&& !answer.exceeded ==> answer.counted == tokens(text)
        }
}

/// The size of a request: the estimates for its images and the tokens of its texts.
pub open spec fn bill(charges: Seq<Charge>, tokens: spec_fn(Seq<char>) -> nat) -> nat
    decreases charges.len(),
{
    if charges.len() == 0 {
        0
    } else {
        let first = match charges[0] {
            Charge::Images(cost) => cost,
            Charge::Payload(payload) => if payload.len() == 0 {
                0
            } else {
                tokens(payload)
            },
            Charge::MessageEnd(_) => 0,
        };
        first + bill(charges.drop_first(), tokens)
    }
}

/// The guard lets a request pass exactly when its size is within the budget of its profile, or
/// where the profile has no budget.
///
/// This holds of every tokenizer that counts exactly.
pub proof fn law_passes_exactly_within_budget(
    answers: Answers,
    tokens: spec_fn(Seq<char>) -> nat,
    messages: Seq<MessageView>,
    max_context_tokens: Option<i32>,
    max_output_tokens: Option<i32>,
    auto_compress_threshold: Option<i32>,
    is_compaction: bool,
    supports_vision: bool,
    reasoning: ReasoningPayload,
    result: Result<(), RequestError>,
)
    requires
        counts_exactly(answers, tokens),
        guard_answers(
            messages,
            max_context_tokens,
            max_output_tokens,
            auto_compress_threshold,
            is_compaction,
            supports_vision,
            reasoning,
            answers,
            result,
        ),
    ensures
        result is Ok <==> (input_budget(max_context_tokens, max_output_tokens, is_compaction)
            matches Some(budget) ==> bill(charges(messages, supports_vision, reasoning), tokens)
            <= budget),
{
    if let Some(budget) = input_budget(max_context_tokens, max_output_tokens, is_compaction) {
        let billed = charges(messages, supports_vision, reasoning);
        lemma_charges_are_closed(messages, supports_vision, reasoning);
        assert forall|outcome: Option<int>| #[trigger]
            decides(answers, billed, budget, 0, outcome) implies (outcome is None <==> bill(
            billed,
            tokens,
        ) <= budget) by {
            lemma_run_within_budget(answers, tokens, billed, budget, 0, outcome);
        }
    }
}

/// Whether the end of a message with images comes before any further images.
spec fn ends_with_images(charges: Seq<Charge>) -> bool
    decreases charges.len(),
{
    charges.len() > 0 && match charges[0] {
        Charge::Images(_) => false,
        Charge::Payload(_) => ends_with_images(charges.drop_first()),
        Charge::MessageEnd(cost) => cost > 0,
    }
}

/// Whether the estimate for images is always followed by the end of their message.
spec fn images_are_closed(charges: Seq<Charge>) -> bool
    decreases charges.len(),
{
    charges.len() == 0 || {
        &&& charges[0] matches Charge::Images(cost) ==> cost > 0 ==> ends_with_images(
            charges.drop_first(),
        )
        &&& images_are_closed(charges.drop_first())
    }
}

proof fn lemma_charges_are_closed(
    messages: Seq<MessageView>,
    supports_vision: bool,
    reasoning: ReasoningPayload,
)
    ensures
        images_are_closed(charges(messages, supports_vision, reasoning)),
    decreases messages.len(),
{
    if messages.len() > 0 {
        let own = message_charges(messages[0], supports_vision, reasoning);
        let later = charges(messages.drop_first(), supports_vision, reasoning);
        lemma_charges_are_closed(messages.drop_first(), supports_vision, reasoning);
        assert(own.skip(7) + later =~= later);
        assert forall|k: int| 0 <= k < 7 implies #[trigger] (own.skip(k) + later).drop_first()
            == own.skip(k + 1) + later && (own.skip(k) + later)[0] == own[k] by {
            assert((own.skip(k) + later).drop_first() =~= own.skip(k + 1) + later);
        }
        assert(own.skip(0) + later =~= own + later);
        assert((own.skip(0) + later).drop_first() == own.skip(1) + later);
        assert((own.skip(1) + later).drop_first() == own.skip(2) + later);
        assert((own.skip(2) + later).drop_first() == own.skip(3) + later);
        assert((own.skip(3) + later).drop_first() == own.skip(4) + later);
        assert((own.skip(4) + later).drop_first() == own.skip(5) + later);
        assert((own.skip(5) + later).drop_first() == own.skip(6) + later);
        assert((own.skip(6) + later).drop_first() == own.skip(7) + later);
        reveal_with_fuel(images_are_closed, 8);
        reveal_with_fuel(ends_with_images, 8);
    }
}

proof fn lemma_run_over_budget(
    answers: Answers,
    tokens: spec_fn(Seq<char>) -> nat,
    charges: Seq<Charge>,
    budget: int,
    total: int,
    outcome: Option<int>,
)
    requires
        counts_exactly(answers, tokens),
        0 <= budget < total <= usize::MAX,
        ends_with_images(charges),
        decides(answers, charges, budget, total, outcome),
    ensures
        outcome is Some,
    decreases charges.len(),
{
    if let Charge::Payload(payload) = charges[0] {
        if payload.len() == 0 || tokens(payload) == 0 {
            lemma_run_over_budget(
                answers,
                tokens,
                charges.drop_first(),
                budget,
                total,
                outcome,
            );
        }
    }
}

proof fn lemma_run_within_budget(
    answers: Answers,
    tokens: spec_fn(Seq<char>) -> nat,
    charges: Seq<Charge>,
    budget: int,
    total: int,
    outcome: Option<int>,
)
    requires
        counts_exactly(answers, tokens),
        0 <= total <= budget < usize::MAX,
        images_are_closed(charges),
        decides(answers, charges, budget, total, outcome),
    ensures
        outcome is None <==> total + bill(charges, tokens) <= budget,
    decreases charges.len(),
{
    if charges.len() > 0 {
        let rest = charges.drop_first();
        match charges[0] {
            Charge::Images(cost) => {
                if total + cost <= budget {
                    lemma_run_within_budget(
                        answers,
                        tokens,
                        rest,
                        budget,
                        total + cost,
                        outcome,
                    );
                } else {
                    lemma_run_over_budget(
                        answers,
                        tokens,
                        rest,
                        budget,
                        capped(total + cost),
                        outcome,
                    );
                }
            },
            Charge::Payload(payload) => {
                if payload.len() == 0 {
                    lemma_run_within_budget(answers, tokens, rest, budget, total, outcome);
                } else if tokens(payload) <= budget - total {
                    lemma_run_within_budget(
                        answers,
                        tokens,
                        rest,
                        budget,
                        total + tokens(payload),
                        outcome,
                    );
                }
            },
            Charge::MessageEnd(_) => {
                lemma_run_within_budget(answers, tokens, rest, budget, total, outcome);
            },
        }
    }
}

/// A reference to the image on disk with the given name.
pub open spec fn disk_reference(name: Seq<char>) -> Seq<char> {
    disk_image_tag() + name + disk_image_end()
}

/// References to the images on disk with the given names, one behind the other.
pub open spec fn disk_references(names: Seq<Seq<char>>) -> Seq<char>
    decreases names.len(),
{
    if names.len() == 0 {
        seq![]
    } else {
        disk_reference(names[0]) + disk_references(names.drop_first())
    }
}

/// Whether an image can have this name: a reference to it ends behind the name and not within
/// it, and the name holds no white space.
pub open spec fn is_image_name(name: Seq<char>) -> bool {
    &&& !occurs_in(name.push('@'), disk_image_end())
    &&& forall|i: int| 0 <= i < name.len() ==> !white_space(#[trigger] name[i])
}

/// A message that is nothing but references to images on disk costs the flat estimate for each
/// of them, and nothing for its text.
pub proof fn law_references_cost_their_estimate(
    role: Seq<char>,
    names: Seq<Seq<char>>,
    supports_vision: bool,
    reasoning: ReasoningPayload,
    tokens: spec_fn(Seq<char>) -> nat,
)
    requires
        forall|i: int| 0 <= i < names.len() ==> is_image_name(#[trigger] names[i]),
    ensures
        bill(
            charges(
                seq![plain_message(role, disk_references(names))],
                supports_vision,
                reasoning,
            ),
            tokens,
        ) == names.len() * image_unit_cost(supports_vision),
{
    let message = plain_message(role, disk_references(names));
    let own = message_charges(message, supports_vision, reasoning);
    lemma_references_are_taken_out(names);
    assert(charges(seq![message], supports_vision, reasoning) =~= own) by {
        assert(charges(seq![message].drop_first(), supports_vision, reasoning) =~= seq![]);
    }
    reveal_strlit("@@image:upload/");
    assert(occurrences(seq![], disk_image_tag()) == 0);
    reveal_with_fuel(bill, 8);
}

proof fn lemma_references_are_taken_out(names: Seq<Seq<char>>)
    requires
        forall|i: int| 0 <= i < names.len() ==> is_image_name(#[trigger] names[i]),
    ensures
        without_disk_images(disk_references(names)) == Seq::<char>::empty(),
        occurrences(disk_references(names), disk_image_tag()) == names.len(),
    decreases names.len(),
{
    reveal_strlit("@@image:upload/");
    reveal_strlit("@@");
    if names.len() > 0 {
        let name = names[0];
        let later = names.drop_first();
        let rest = disk_references(later);
        lemma_references_are_taken_out(later);
        lemma_reference_end(name, rest);
        let all = disk_references(names);
        let tag = disk_image_tag();
        assert(all.take(tag.len() as int) =~= tag);
        assert(all.skip(tag.len() as int) =~= name + disk_image_end() + rest);
    }
}

proof fn lemma_reference_end(name: Seq<char>, rest: Seq<char>)
    requires
        is_image_name(name),
        rest.len() == 0 || (rest.len() > 1 && rest[0] == '@' && rest[1] == '@'),
    ensures
        after_word(name + disk_image_end() + rest, disk_image_tag(), disk_image_end()) == Some(
            rest,
        ),
        occurrences(name + disk_image_end() + rest, disk_image_tag()) == occurrences(
            rest,
            disk_image_tag(),
        ),
    decreases name.len(),
{
    reveal_strlit("@@image:upload/");
    reveal_strlit("@@");
    let end = disk_image_end();
    let tag = disk_image_tag();
    let text = name + end + rest;
    if name.len() == 0 {
        assert(text.take(2) =~= end);
        assert(text.skip(2) =~= rest);
        assert(text.skip(1).skip(1) =~= rest);
        if text.len() >= tag.len() {
            assert(text.take(tag.len() as int)[2] != tag[2]);
        }
        if text.skip(1).len() >= tag.len() {
            assert(text.skip(1).take(tag.len() as int)[2] != tag[2]);
        }
        reveal_with_fuel(occurrences, 3);
    } else {
        let shorter = name.skip(1);
        assert(!(name[0] == '@' && text[1] == '@')) by {
            if name[0] == '@' && text[1] == '@' {
                assert(name.push('@').subrange(0, 2) =~= end);
                assert(occurs_at(name.push('@'), end, 0));
            }
        }
        assert(is_image_name(shorter)) by {
            if occurs_in(shorter.push('@'), end) {
                let at = choose|at: int| occurs_at(shorter.push('@'), end, at);
                assert(name.push('@').subrange(at + 1, at + 3) =~= shorter.push('@').subrange(
                    at,
                    at + 2,
                ));
                assert(occurs_at(name.push('@'), end, at + 1));
            }
        }
        assert(text.skip(1) =~= shorter + end + rest);
        assert(text.take(2)[0] == name[0] && text.take(2)[1] == text[1]);
        if text.len() >= tag.len() {
            assert(text.take(tag.len() as int)[0] == name[0]);
            assert(text.take(tag.len() as int)[1] == text[1]);
        }
        lemma_reference_end(shorter, rest);
    }
}

/// A profile with an output budget leaves a compaction at least the room for its input that it
/// leaves any other request, and more by what the output budget exceeds the cap.
///
/// So a conversation that a request has outgrown can still be compacted.
pub proof fn law_compaction_has_room(
    max_context_tokens: Option<i32>,
    max_output_tokens: Option<i32>,
)
    requires
        max_output_tokens matches Some(value) && value > 0,
        input_budget(max_context_tokens, max_output_tokens, false) is Some,
    ensures
        input_budget(max_context_tokens, max_output_tokens, true) is Some,
        input_budget(max_context_tokens, max_output_tokens, true)->0 == input_budget(
            max_context_tokens,
            max_output_tokens,
            false,
        )->0 + (if max_output_tokens->0 > CONTEXT_COMPACTION_OUTPUT_RESERVE_TOKENS {
            max_output_tokens->0 - CONTEXT_COMPACTION_OUTPUT_RESERVE_TOKENS
        } else {
            0
        }),
{
}

/// What passes as a request also passes as a compaction, on a profile with an output budget.
pub proof fn law_compaction_passes_where_a_request_does(
    answers: Answers,
    tokens: spec_fn(Seq<char>) -> nat,
    messages: Seq<MessageView>,
    max_context_tokens: Option<i32>,
    max_output_tokens: Option<i32>,
    auto_compress_threshold: Option<i32>,
    supports_vision: bool,
    reasoning: ReasoningPayload,
    request_result: Result<(), RequestError>,
    compaction_result: Result<(), RequestError>,
)
    requires
        counts_exactly(answers, tokens),
        max_output_tokens matches Some(value) && value > 0,
        input_budget(max_context_tokens, max_output_tokens, false) is Some,
        guard_answers(
            messages,
            max_context_tokens,
            max_output_tokens,
            auto_compress_threshold,
            false,
            supports_vision,
            reasoning,
            answers,
            request_result,
        ),
        guard_answers(
            messages,
            max_context_tokens,
            max_output_tokens,
            auto_compress_threshold,
            true,
            supports_vision,
            reasoning,
            answers,
            compaction_result,
        ),
    ensures
        request_result is Ok ==> compaction_result is Ok,
{
    law_compaction_has_room(max_context_tokens, max_output_tokens);
    law_passes_exactly_within_budget(
        answers,
        tokens,
        messages,
        max_context_tokens,
        max_output_tokens,
        auto_compress_threshold,
        false,
        supports_vision,
        reasoning,
        request_result,
    );
    law_passes_exactly_within_budget(
        answers,
        tokens,
        messages,
        max_context_tokens,
        max_output_tokens,
        auto_compress_threshold,
        true,
        supports_vision,
        reasoning,
        compaction_result,
    );
}

/// A compaction always sends a limit, and one within the cap.
pub proof fn law_compaction_is_bounded(max_tokens: Option<i32>)
    ensures
        effective_max_tokens(max_tokens, true) matches Some(value) && 0 < value
            <= CONTEXT_COMPACTION_OUTPUT_RESERVE_TOKENS,
{
}

/// Whether two messages are the same but for the mirror of the reasoning that is not sent.
pub open spec fn same_but_unsent_mirror(
    first: MessageView,
    second: MessageView,
    reasoning: ReasoningPayload,
) -> bool {
    match reasoning {
        ReasoningPayload::Text => second == (MessageView {
            thinking_blocks_json: second.thinking_blocks_json,
            ..first
        }),
        ReasoningPayload::Blocks => second == first || {
            &&& text_or_empty(first.thinking_blocks_json).len() > 0
            &&& second == (MessageView { thinking: second.thinking, ..first })
        },
    }
}

/// Whether a counter has one answer for each text and limit.
pub open spec fn answers_uniquely(answers: Answers) -> bool {
    forall|text: Seq<char>, limit: usize, first: TokenCount, second: TokenCount|
        #![trigger answers(text, limit, first), answers(text, limit, second)]
        answers(text, limit, first) && answers(text, limit, second) ==> first == second
}

/// The mirror of the reasoning that is not sent never changes what the guard answers: it is
/// not billed, so the guard can answer the same with and without it. A tokenizer that has one
/// answer for each text and limit gives one result.
pub proof fn law_unsent_mirror_changes_nothing(
    answers: Answers,
    first: Seq<MessageView>,
    second: Seq<MessageView>,
    max_context_tokens: Option<i32>,
    max_output_tokens: Option<i32>,
    auto_compress_threshold: Option<i32>,
    is_compaction: bool,
    supports_vision: bool,
    reasoning: ReasoningPayload,
    first_result: Result<(), RequestError>,
    second_result: Result<(), RequestError>,
)
    requires
        first.len() == second.len(),
        forall|i: int|
            0 <= i < first.len() ==> same_but_unsent_mirror(
                #[trigger] first[i],
                second[i],
                reasoning,
            ),
        guard_answers(
            first,
            max_context_tokens,
            max_output_tokens,
            auto_compress_threshold,
            is_compaction,
            supports_vision,
            reasoning,
            answers,
            first_result,
        ),
        guard_answers(
            second,
            max_context_tokens,
            max_output_tokens,
            auto_compress_threshold,
            is_compaction,
            supports_vision,
            reasoning,
            answers,
            second_result,
        ),
    ensures
        charges(first, supports_vision, reasoning) == charges(second, supports_vision, reasoning),
        guard_answers(
            second,
            max_context_tokens,
            max_output_tokens,
            auto_compress_threshold,
            is_compaction,
            supports_vision,
            reasoning,
            answers,
            first_result,
        ),
        answers_uniquely(answers) ==> first_result == second_result,
{
    law_unsent_mirror_is_not_billed(first, second, supports_vision, reasoning);
    if let Some(budget) = input_budget(max_context_tokens, max_output_tokens, is_compaction) {
        let billed = charges(first, supports_vision, reasoning);
        if answers_uniquely(answers) {
            assert forall|one: Option<int>, other: Option<int>| #[trigger]
                decides(answers, billed, budget, 0, one) && #[trigger] decides(
                answers,
                billed,
                budget,
                0,
                other,
            ) implies one == other by {
                lemma_one_outcome(answers, billed, budget, 0, one, other);
            }
        }
    }
}

/// The mirror of the reasoning that is not sent is not billed: requests that differ in nothing
/// else are billed for the same.
pub proof fn law_unsent_mirror_is_not_billed(
    first: Seq<MessageView>,
    second: Seq<MessageView>,
    supports_vision: bool,
    reasoning: ReasoningPayload,
)
    requires
        first.len() == second.len(),
        forall|i: int|
            0 <= i < first.len() ==> same_but_unsent_mirror(
                #[trigger] first[i],
                second[i],
                reasoning,
            ),
    ensures
        charges(first, supports_vision, reasoning) == charges(second, supports_vision, reasoning),
    decreases first.len(),
{
    if first.len() > 0 {
        assert(same_but_unsent_mirror(first[0], second[0], reasoning));
        assert forall|i: int| 0 <= i < first.drop_first().len() implies same_but_unsent_mirror(
            #[trigger] first.drop_first()[i],
            second.drop_first()[i],
            reasoning,
        ) by {
            assert(same_but_unsent_mirror(first[i + 1], second[i + 1], reasoning));
        }
        law_unsent_mirror_is_not_billed(
            first.drop_first(),
            second.drop_first(),
            supports_vision,
            reasoning,
        );
    }
}

proof fn lemma_one_outcome(
    answers: Answers,
    charges: Seq<Charge>,
    budget: int,
    total: int,
    one: Option<int>,
    other: Option<int>,
)
    requires
        answers_uniquely(answers),
        decides(answers, charges, budget, total, one),
        decides(answers, charges, budget, total, other),
    ensures
        one == other,
    decreases charges.len(),
{
    if charges.len() > 0 {
        let rest = charges.drop_first();
        match charges[0] {
            Charge::Images(cost) => {
                lemma_one_outcome(answers, rest, budget, capped(total + cost), one, other);
            },
            Charge::Payload(payload) => {
                if payload.len() == 0 {
                    lemma_one_outcome(answers, rest, budget, total, one, other);
                } else {
                    let limit = remaining(budget, total) as usize;
                    let answer = choose|answer: TokenCount|
                        {
                            &&& #[trigger] answers(payload, limit, answer)
                            &&& if answer.exceeded {
                                one == Some(capped(total + answer.estimated_total))
                            } else {
                                decides(
                                    answers,
                                    rest,
                                    budget,
                                    capped(total + answer.counted),
                                    one,
                                )
                            }
                        };
                    if !answer.exceeded {
                        lemma_one_outcome(
                            answers,
                            rest,
                            budget,
                            capped(total + answer.counted),
                            one,
                            other,
                        );
                    }
                }
            },
            Charge::MessageEnd(cost) => {
                if !(cost > 0 && total > budget) {
                    lemma_one_outcome(answers, rest, budget, total, one, other);
                }
            },
        }
    }
}

/// The reasoning of a message is billed once: never both of its mirrors, and one of them
/// whenever the provider sends one that is not empty.
pub proof fn law_reasoning_billed_once(message: MessageView, reasoning: ReasoningPayload)
    ensures
        billed_thinking(message, reasoning).len() == 0 || billed_blocks(message, reasoning).len()
            == 0,
        reasoning == ReasoningPayload::Text ==> billed_thinking(message, reasoning)
            == text_or_empty(message.thinking),
        reasoning == ReasoningPayload::Blocks && text_or_empty(message.thinking_blocks_json).len()
            > 0 ==> billed_blocks(message, reasoning) == text_or_empty(message.thinking_blocks_json),
        reasoning == ReasoningPayload::Blocks && text_or_empty(message.thinking_blocks_json).len()
            == 0 ==> billed_thinking(message, reasoning) == text_or_empty(message.thinking),
{
}

/// The tokens of a text, given a tokenizer; an empty text has none.
pub open spec fn tokens_of(tokens: spec_fn(Seq<char>) -> nat, text: Option<Seq<char>>) -> nat {
    match text {
        Some(text) if text.len() > 0 => tokens(text),
        _ => 0,
    }
}

/// A text with its references to images on disk taken out.
pub open spec fn plain_part(text: Option<Seq<char>>) -> Option<Seq<char>> {
    match text {
        Some(text) => Some(without_enclosed(text, "@@image:upload/"@, "@@"@)),
        None => None,
    }
}

/// How many images on disk a text refers to.
pub open spec fn images_in(text: Option<Seq<char>>) -> nat {
    match text {
        Some(text) => occurrences(text, "@@image:upload/"@),
        None => 0,
    }
}

/// The mirror of the reasoning of a message that is sent: the blocks, where the provider takes
/// blocks and the message has some, otherwise the text.
pub open spec fn sent_mirror(message: MessageView, reasoning: ReasoningPayload) -> Option<Seq<char>> {
    if reasoning == ReasoningPayload::Blocks && (message.thinking_blocks_json matches Some(blocks)
        && blocks.len() > 0) {
        message.thinking_blocks_json
    } else {
        message.thinking
    }
}

/// The size of a message in tokens, whatever its role: its content, its tool calls, its tool
/// results and the mirror of its reasoning that is sent, and the estimate for each image on disk
/// in its content and its tool results, in place of the reference to it.
pub open spec fn message_size(
    message: MessageView,
    supports_vision: bool,
    reasoning: ReasoningPayload,
    tokens: spec_fn(Seq<char>) -> nat,
) -> nat {
    tokens_of(tokens, plain_part(Some(message.content))) + tokens_of(
        tokens,
        message.tool_calls_json,
    ) + tokens_of(tokens, plain_part(message.tool_results_json)) + tokens_of(
        tokens,
        sent_mirror(message, reasoning),
    ) + (images_in(Some(message.content)) + images_in(message.tool_results_json)) * (
    if supports_vision {
        1_600nat
    } else {
        800nat
    })
}

/// The size of a request: the sum of the sizes of all its messages.
pub open spec fn request_size(
    messages: Seq<MessageView>,
    supports_vision: bool,
    reasoning: ReasoningPayload,
    tokens: spec_fn(Seq<char>) -> nat,
) -> nat
    decreases messages.len(),
{
    if messages.len() == 0 {
        0
    } else {
        request_size(messages.drop_last(), supports_vision, reasoning, tokens) + message_size(
            messages.last(),
            supports_vision,
            reasoning,
            tokens,
        )
    }
}

/// The tokens that are reserved for an answer: the limit of the profile, where it is positive.
/// A compaction reserves at most 16,384, and as many where the profile has no limit.
pub open spec fn reserved_tokens(max_output_tokens: Option<i32>, is_compaction: bool) -> int {
    match max_output_tokens {
        Some(limit) if limit > 0 => if is_compaction && limit > 16_384 {
            16_384
        } else {
            limit as int
        },
        _ => if is_compaction {
            16_384
        } else {
            0
        },
    }
}

proof fn lemma_bill_of_two(
    front: Seq<Charge>,
    back: Seq<Charge>,
    tokens: spec_fn(Seq<char>) -> nat,
)
    ensures
        bill(front + back, tokens) == bill(front, tokens) + bill(back, tokens),
    decreases front.len(),
{
    if front.len() == 0 {
        assert(front + back =~= back);
    } else {
        assert((front + back).drop_first() =~= front.drop_first() + back);
        lemma_bill_of_two(front.drop_first(), back, tokens);
    }
}

proof fn lemma_bill_of_a_message(
    message: MessageView,
    supports_vision: bool,
    reasoning: ReasoningPayload,
    tokens: spec_fn(Seq<char>) -> nat,
)
    ensures
        bill(message_charges(message, supports_vision, reasoning), tokens) == message_size(
            message,
            supports_vision,
            reasoning,
            tokens,
        ),
{
    let own = message_charges(message, supports_vision, reasoning);
    reveal_strlit("@@image:upload/");
    assert(occurrences(seq![], "@@image:upload/"@) == 0);
    let c1 = own.drop_first();
    let c2 = c1.drop_first();
    let c3 = c2.drop_first();
    let c4 = c3.drop_first();
    let c5 = c4.drop_first();
    let c6 = c5.drop_first();
    let c7 = c6.drop_first();
    assert(bill(c7, tokens) == 0);
    assert(bill(c6, tokens) == 0);
    let blocks = billed_blocks(message, reasoning);
    let thinking = billed_thinking(message, reasoning);
    assert(bill(c5, tokens) == tokens_of(tokens, Some(blocks)));
    assert(bill(c4, tokens) == tokens_of(tokens, Some(thinking)) + bill(c5, tokens));
    assert(bill(c4, tokens) == tokens_of(tokens, sent_mirror(message, reasoning)));
    assert(bill(c3, tokens) == tokens_of(tokens, plain_part(message.tool_results_json)) + bill(
        c4,
        tokens,
    ));
    assert(bill(c2, tokens) == tokens_of(tokens, message.tool_calls_json) + bill(c3, tokens));
    assert(bill(c1, tokens) == tokens_of(tokens, plain_part(Some(message.content))) + bill(
        c2,
        tokens,
    ));
    assert(disk_images(message) == images_in(Some(message.content)) + images_in(
        message.tool_results_json,
    ));
}

proof fn lemma_bill_is_the_size(
    messages: Seq<MessageView>,
    supports_vision: bool,
    reasoning: ReasoningPayload,
    tokens: spec_fn(Seq<char>) -> nat,
)
    ensures
        bill(charges(messages, supports_vision, reasoning), tokens) == request_size(
            messages,
            supports_vision,
            reasoning,
            tokens,
        ),
    decreases messages.len(),
{
    if messages.len() > 0 {
        let rest = messages.drop_first();
        lemma_bill_is_the_size(rest, supports_vision, reasoning, tokens);
        lemma_bill_of_a_message(messages[0], supports_vision, reasoning, tokens);
        lemma_bill_of_two(
            message_charges(messages[0], supports_vision, reasoning),
            charges(rest, supports_vision, reasoning),
            tokens,
        );
        law_sizes_add_up(seq![messages[0]], rest, supports_vision, reasoning, tokens);
        assert(seq![messages[0]] + rest =~= messages);
        assert(seq![messages[0]].drop_last() =~= seq![]);
        assert(request_size(seq![messages[0]].drop_last(), supports_vision, reasoning, tokens)
            == 0);
    }
}

/// The size of a request is the size of its parts together: no message is left out.
pub proof fn law_sizes_add_up(
    front: Seq<MessageView>,
    back: Seq<MessageView>,
    supports_vision: bool,
    reasoning: ReasoningPayload,
    tokens: spec_fn(Seq<char>) -> nat,
)
    ensures
        request_size(front + back, supports_vision, reasoning, tokens) == request_size(
            front,
            supports_vision,
            reasoning,
            tokens,
        ) + request_size(back, supports_vision, reasoning, tokens),
    decreases back.len(),
{
    if back.len() == 0 {
        assert(front + back =~= front);
    } else {
        assert((front + back).drop_last() =~= front + back.drop_last());
        assert((front + back).last() == back.last());
        law_sizes_add_up(front, back.drop_last(), supports_vision, reasoning, tokens);
    }
}

/// A request passes exactly when its size, summed over all its messages whatever their role, is
/// at most what the context window leaves after the reserve for the answer and the margin of a
/// twentieth of the window, or of 8,192 tokens if that is more. A profile without a window, or
/// whose window leaves nothing, lets every request pass.
pub proof fn law_requests_pass_by_their_size(
    answers: Answers,
    tokens: spec_fn(Seq<char>) -> nat,
    messages: Seq<MessageView>,
    max_context_tokens: Option<i32>,
    max_output_tokens: Option<i32>,
    auto_compress_threshold: Option<i32>,
    is_compaction: bool,
    supports_vision: bool,
    reasoning: ReasoningPayload,
    result: Result<(), RequestError>,
)
    requires
        counts_exactly(answers, tokens),
        guard_answers(
            messages,
            max_context_tokens,
            max_output_tokens,
            auto_compress_threshold,
            is_compaction,
            supports_vision,
            reasoning,
            answers,
            result,
        ),
    ensures
        result is Ok <==> (max_context_tokens matches Some(window) ==> {
            let left = window - reserved_tokens(max_output_tokens, is_compaction) - (if window
                / 20 > 8_192 {
                window / 20
            } else {
                8_192
            });
            window > 0 && left > 0 ==> request_size(messages, supports_vision, reasoning, tokens)
                <= left
        }),
{
    law_passes_exactly_within_budget(
        answers,
        tokens,
        messages,
        max_context_tokens,
        max_output_tokens,
        auto_compress_threshold,
        is_compaction,
        supports_vision,
        reasoning,
        result,
    );
    lemma_bill_is_the_size(messages, supports_vision, reasoning, tokens);
}

/// A message alone can exceed the budget, whatever its role: where a text of it that is sent has
/// more tokens than the window leaves, the request is refused.
pub proof fn law_oversized_messages_are_refused(
    answers: Answers,
    tokens: spec_fn(Seq<char>) -> nat,
    messages: Seq<MessageView>,
    window: i32,
    max_output_tokens: Option<i32>,
    auto_compress_threshold: Option<i32>,
    is_compaction: bool,
    supports_vision: bool,
    reasoning: ReasoningPayload,
    result: Result<(), RequestError>,
    i: int,
)
    requires
        counts_exactly(answers, tokens),
        guard_answers(
            messages,
            Some(window),
            max_output_tokens,
            auto_compress_threshold,
            is_compaction,
            supports_vision,
            reasoning,
            answers,
            result,
        ),
        0 <= i < messages.len(),
        ({
            let left = window - reserved_tokens(max_output_tokens, is_compaction) - (if window
                / 20 > 8_192 {
                window / 20
            } else {
                8_192
            });
            let message = messages[i];
            &&& left > 0
            &&& {
                ||| tokens_of(tokens, plain_part(Some(message.content))) > left
                ||| tokens_of(tokens, message.tool_calls_json) > left
                ||| tokens_of(tokens, plain_part(message.tool_results_json)) > left
                ||| tokens_of(tokens, sent_mirror(message, reasoning)) > left
            }
        }),
    ensures
        result is Err,
{
    law_requests_pass_by_their_size(
        answers,
        tokens,
        messages,
        Some(window),
        max_output_tokens,
        auto_compress_threshold,
        is_compaction,
        supports_vision,
        reasoning,
        result,
    );
    let front = messages.take(i + 1);
    let back = messages.skip(i + 1);
    assert(messages =~= front + back);
    law_sizes_add_up(front, back, supports_vision, reasoning, tokens);
    assert(front.last() == messages[i]);
}

/// A text without a reference to an image on disk is measured as it stands, and refers to no
/// image.
pub proof fn law_texts_without_references_are_measured_whole(text: Seq<char>)
    requires
        forall|at: int| !#[trigger] occurs_at(text, "@@image:upload/"@, at),
    ensures
        plain_part(Some(text)) == Some(text),
        images_in(Some(text)) == 0,
{
    reveal_strlit("@@image:upload/");
    reveal_strlit("@@");
    law_text_without_enclosed_words_stays(text, "@@image:upload/"@, "@@"@);
    law_patterns_are_counted_from_the_first(text, "@@image:upload/"@, text.len() as int);
}

/// A refusal names the window, the reserve and what they leave. Its advice is to start over for
/// a compaction; otherwise to lower the threshold of automatic compaction where that is more
/// than what is left, and else to compact.
pub proof fn law_refusals_name_the_limits(
    answers: Answers,
    messages: Seq<MessageView>,
    max_context_tokens: Option<i32>,
    max_output_tokens: Option<i32>,
    auto_compress_threshold: Option<i32>,
    is_compaction: bool,
    supports_vision: bool,
    reasoning: ReasoningPayload,
    error: RequestError,
)
    requires
        guard_answers(
            messages,
            max_context_tokens,
            max_output_tokens,
            auto_compress_threshold,
            is_compaction,
            supports_vision,
            reasoning,
            answers,
            Err(error),
        ),
    ensures
        max_context_tokens matches Some(window) && error matches RequestError::ContextWindow {
            budget,
            max_context,
            output_reserve,
            remedy,
            ..
        } && {
            &&& window > 0
            &&& max_context == window
            &&& output_reserve == reserved_tokens(max_output_tokens, is_compaction)
            &&& budget == window - output_reserve - (if window / 20 > 8_192 {
                window / 20
            } else {
                8_192
            })
            &&& budget > 0
            &&& is_compaction ==> remedy == Remedy::StartOver
            &&& !is_compaction && (auto_compress_threshold matches Some(threshold) && threshold
                > budget) ==> remedy == Remedy::LowerThreshold(auto_compress_threshold->0 as usize)
            &&& !is_compaction && !(auto_compress_threshold matches Some(threshold) && threshold
                > budget) ==> remedy == Remedy::Compact
        },
{
}

/// Whether a counter estimates exactly: the whole of a text that exceeds a limit is estimated at
/// its tokens.
pub open spec fn estimates_exactly(answers: Answers, tokens: spec_fn(Seq<char>) -> nat) -> bool {
    forall|text: Seq<char>, limit: usize, answer: TokenCount| #[trigger]
        answers(text, limit, answer) && answer.exceeded ==> answer.estimated_total == tokens(text)
}

/// The size that a refusal names is more than the budget and no more than the size of the
/// request, where the counter counts and estimates exactly and the size fits the machine.
pub proof fn law_refusals_name_a_size_over_the_budget(
    answers: Answers,
    tokens: spec_fn(Seq<char>) -> nat,
    messages: Seq<MessageView>,
    max_context_tokens: Option<i32>,
    max_output_tokens: Option<i32>,
    auto_compress_threshold: Option<i32>,
    is_compaction: bool,
    supports_vision: bool,
    reasoning: ReasoningPayload,
    error: RequestError,
)
    requires
        counts_exactly(answers, tokens),
        estimates_exactly(answers, tokens),
        request_size(messages, supports_vision, reasoning, tokens) <= usize::MAX,
        guard_answers(
            messages,
            max_context_tokens,
            max_output_tokens,
            auto_compress_threshold,
            is_compaction,
            supports_vision,
            reasoning,
            answers,
            Err(error),
        ),
    ensures
        error matches RequestError::ContextWindow { estimated, budget, .. } && budget < estimated
            <= request_size(messages, supports_vision, reasoning, tokens),
{
    let billed = charges(messages, supports_vision, reasoning);
    let budget = input_budget(max_context_tokens, max_output_tokens, is_compaction)->0;
    lemma_bill_is_the_size(messages, supports_vision, reasoning, tokens);
    assert forall|outcome: Option<int>| #[trigger]
        decides(answers, billed, budget, 0, outcome) && outcome is Some implies budget < outcome->0
        <= bill(billed, tokens) by {
        lemma_estimate_over_budget(answers, tokens, billed, budget, 0, outcome);
    }
}

proof fn lemma_estimate_over_budget(
    answers: Answers,
    tokens: spec_fn(Seq<char>) -> nat,
    charges: Seq<Charge>,
    budget: int,
    total: int,
    outcome: Option<int>,
)
    requires
        counts_exactly(answers, tokens),
        estimates_exactly(answers, tokens),
        0 <= budget < usize::MAX,
        0 <= total,
        total + bill(charges, tokens) <= usize::MAX,
        decides(answers, charges, budget, total, outcome),
        outcome is Some,
    ensures
        budget < outcome->0 <= total + bill(charges, tokens),
    decreases charges.len(),
{
    let rest = charges.drop_first();
    match charges[0] {
        Charge::Images(cost) => {
            lemma_estimate_over_budget(answers, tokens, rest, budget, total + cost, outcome);
        },
        Charge::Payload(payload) => {
            if payload.len() == 0 {
                lemma_estimate_over_budget(answers, tokens, rest, budget, total, outcome);
            } else {
                let limit = remaining(budget, total) as usize;
                let answer = choose|answer: TokenCount|
                    {
                        &&& #[trigger] answers(payload, limit, answer)
                        &&& if answer.exceeded {
                            outcome == Some(capped(total + answer.estimated_total))
                        } else {
                            decides(
                                answers,
                                rest,
                                budget,
                                capped(total + answer.counted),
                                outcome,
                            )
                        }
                    };
                if !answer.exceeded {
                    lemma_estimate_over_budget(
                        answers,
                        tokens,
                        rest,
                        budget,
                        total + tokens(payload),
                        outcome,
                    );
                }
            }
        },
        Charge::MessageEnd(cost) => {
            if !(cost > 0 && total > budget) {
                lemma_estimate_over_budget(answers, tokens, rest, budget, total, outcome);
            }
        },
    }
}

/// The guard goes by what its counter answers: a function that counts exactly makes a counter
/// that does.
pub proof fn law_answers_are_the_counters<F: Fn(&str, usize) -> TokenCount>(
    count_tokens: F,
    tokens: spec_fn(Seq<char>) -> nat,
)
    requires
        forall|text: &str, limit: usize, answer: TokenCount| #[trigger]
            count_tokens.ensures((text, limit), answer) ==> {
                &&& answer.exceeded == (tokens(text@) > limit)
                &&& !answer.exceeded ==> answer.counted == tokens(text@)
            },
    ensures
        counts_exactly(answers_of(count_tokens), tokens),
{
}

/// The limit that is sent for an answer is that of the profile; for a compaction it is that
/// limit where it is positive and at most 16,384, and otherwise 16,384.
pub proof fn law_limits_that_are_sent(max_tokens: Option<i32>)
    ensures
        effective_max_tokens(max_tokens, false) == max_tokens,
        effective_max_tokens(max_tokens, true) == Some(reserved_tokens(max_tokens, true) as i32),
        max_tokens matches Some(limit) && 0 < limit <= 16_384 ==> effective_max_tokens(
            max_tokens,
            true,
        ) == max_tokens,
        output_reserve(max_tokens, true) == reserved_tokens(max_tokens, true),
        output_reserve(max_tokens, false) == reserved_tokens(max_tokens, false),
{
}

/// A refusal is settled by the messages that exceed the budget: what stands behind them changes
/// nothing, with a counter that has one answer for each text and limit.
pub proof fn law_refusals_are_settled(
    answers: Answers,
    front: Seq<MessageView>,
    back: Seq<MessageView>,
    max_context_tokens: Option<i32>,
    max_output_tokens: Option<i32>,
    auto_compress_threshold: Option<i32>,
    is_compaction: bool,
    supports_vision: bool,
    reasoning: ReasoningPayload,
    error: RequestError,
    result: Result<(), RequestError>,
)
    requires
        answers_uniquely(answers),
        guard_answers(
            front,
            max_context_tokens,
            max_output_tokens,
            auto_compress_threshold,
            is_compaction,
            supports_vision,
            reasoning,
            answers,
            Err(error),
        ),
        guard_answers(
            front + back,
            max_context_tokens,
            max_output_tokens,
            auto_compress_threshold,
            is_compaction,
            supports_vision,
            reasoning,
            answers,
            result,
        ),
    ensures
        result == Err::<(), RequestError>(error),
{
    let billed = charges(front, supports_vision, reasoning);
    let more = charges(back, supports_vision, reasoning);
    let all = charges(front + back, supports_vision, reasoning);
    let budget = input_budget(max_context_tokens, max_output_tokens, is_compaction)->0;
    lemma_charges_of_two(front, back, supports_vision, reasoning);
    assert forall|one: Option<int>, other: Option<int>| #[trigger]
        decides(answers, billed, budget, 0, one) && #[trigger] decides(
        answers,
        all,
        budget,
        0,
        other,
    ) && one is Some implies one == other by {
        lemma_run_stays_ended(answers, billed, more, budget, 0, one);
        lemma_one_outcome(answers, all, budget, 0, one, other);
    }
}

proof fn lemma_charges_of_two(
    front: Seq<MessageView>,
    back: Seq<MessageView>,
    supports_vision: bool,
    reasoning: ReasoningPayload,
)
    ensures
        charges(front + back, supports_vision, reasoning) == charges(
            front,
            supports_vision,
            reasoning,
        ) + charges(back, supports_vision, reasoning),
    decreases front.len(),
{
    let second = charges(back, supports_vision, reasoning);
    if front.len() == 0 {
        assert(front + back =~= back);
        assert(charges(front, supports_vision, reasoning) + second =~= second);
    } else {
        assert((front + back).drop_first() =~= front.drop_first() + back);
        lemma_charges_of_two(front.drop_first(), back, supports_vision, reasoning);
        let own = message_charges(front[0], supports_vision, reasoning);
        let rest = charges(front.drop_first(), supports_vision, reasoning);
        assert(own + (rest + second) =~= own + rest + second);
    }
}

proof fn lemma_run_stays_ended(
    answers: Answers,
    charges: Seq<Charge>,
    more: Seq<Charge>,
    budget: int,
    total: int,
    outcome: Option<int>,
)
    requires
        decides(answers, charges, budget, total, outcome),
        outcome is Some,
    ensures
        decides(answers, charges + more, budget, total, outcome),
    decreases charges.len(),
{
    let rest = charges.drop_first();
    assert((charges + more).drop_first() =~= rest + more);
    match charges[0] {
        Charge::Images(cost) => {
            lemma_run_stays_ended(answers, rest, more, budget, capped(total + cost), outcome);
        },
        Charge::Payload(payload) => {
            if payload.len() == 0 {
                lemma_run_stays_ended(answers, rest, more, budget, total, outcome);
            } else {
                let limit = remaining(budget, total) as usize;
                let answer = choose|answer: TokenCount|
                    {
                        &&& #[trigger] answers(payload, limit, answer)
                        &&& if answer.exceeded {
                            outcome == Some(capped(total + answer.estimated_total))
                        } else {
                            decides(
                                answers,
                                rest,
                                budget,
                                capped(total + answer.counted),
                                outcome,
                            )
                        }
                    };
                assert(answers(payload, limit, answer));
                if !answer.exceeded {
                    lemma_run_stays_ended(
                        answers,
                        rest,
                        more,
                        budget,
                        capped(total + answer.counted),
                        outcome,
                    );
                }
            }
        },
        Charge::MessageEnd(cost) => {
            if !(cost > 0 && total > budget) {
                lemma_run_stays_ended(answers, rest, more, budget, total, outcome);
            }
        },
    }
}

/// A text that takes a request over its budget is named with its whole size: where messages
/// that fit are followed by one with a text and nothing else, a refusal names the size of them
/// all, with a counter that counts and estimates exactly.
pub proof fn law_refusals_name_the_whole_text(
    answers: Answers,
    tokens: spec_fn(Seq<char>) -> nat,
    front: Seq<MessageView>,
    role: Seq<char>,
    text: Seq<char>,
    max_context_tokens: Option<i32>,
    max_output_tokens: Option<i32>,
    auto_compress_threshold: Option<i32>,
    is_compaction: bool,
    supports_vision: bool,
    reasoning: ReasoningPayload,
    error: RequestError,
)
    requires
        counts_exactly(answers, tokens),
        estimates_exactly(answers, tokens),
        forall|at: int| !#[trigger] occurs_at(text, "@@image:upload/"@, at),
        request_size(front, supports_vision, reasoning, tokens) + tokens(text) <= usize::MAX,
        error matches RequestError::ContextWindow { budget, .. } ==> request_size(
            front,
            supports_vision,
            reasoning,
            tokens,
        ) <= budget,
        guard_answers(
            front.push(plain_message(role, text)),
            max_context_tokens,
            max_output_tokens,
            auto_compress_threshold,
            is_compaction,
            supports_vision,
            reasoning,
            answers,
            Err(error),
        ),
    ensures
        error matches RequestError::ContextWindow { estimated, .. } && estimated == request_size(
            front,
            supports_vision,
            reasoning,
            tokens,
        ) + tokens(text),
{
    let message = plain_message(role, text);
    let fits = charges(front, supports_vision, reasoning);
    let last = charges(seq![message], supports_vision, reasoning);
    let all = charges(front.push(message), supports_vision, reasoning);
    let budget = input_budget(max_context_tokens, max_output_tokens, is_compaction)->0;
    let own = message_charges(message, supports_vision, reasoning);
    assert(front.push(message) =~= front + seq![message]);
    lemma_charges_of_two(front, seq![message], supports_vision, reasoning);
    lemma_bill_is_the_size(front, supports_vision, reasoning, tokens);
    assert(last =~= own) by {
        assert(charges(seq![message].drop_first(), supports_vision, reasoning) =~= seq![]);
    }
    law_texts_without_references_are_measured_whole(text);
    lemma_bill_of_a_message(message, supports_vision, reasoning, tokens);
    reveal_strlit("@@image:upload/");
    assert(occurrences(seq![], "@@image:upload/"@) == 0);
    assert(message_size(message, supports_vision, reasoning, tokens) == tokens_of(
        tokens,
        Some(text),
    ));
    let total = bill(fits, tokens) as int;
    assert(own[0] == Charge::Images(0));
    assert forall|outcome: Option<int>| #[trigger]
        decides(answers, all, budget, 0, outcome) && outcome is Some implies outcome == Some(
        total + tokens(text),
    ) by {
        lemma_run_goes_on(answers, tokens, fits, own, budget, 0, outcome);
        let rest = own.drop_first();
        assert(rest[0] == Charge::Payload(text));
        assert(decides(answers, rest, budget, total, outcome));
        let behind = rest.drop_first();
        assert(bill(behind, tokens) == 0) by {
            assert(bill(own, tokens) == bill(rest, tokens));
        }
        if text.len() == 0 || tokens(text) <= budget - total {
            lemma_estimate_over_budget(answers, tokens, rest, budget, total, outcome);
        }
    }
}

/// Charges that fit are billed, and the run goes on behind them.
proof fn lemma_run_goes_on(
    answers: Answers,
    tokens: spec_fn(Seq<char>) -> nat,
    front: Seq<Charge>,
    back: Seq<Charge>,
    budget: int,
    total: int,
    outcome: Option<int>,
)
    requires
        counts_exactly(answers, tokens),
        0 <= total,
        total + bill(front, tokens) <= budget < usize::MAX,
        decides(answers, front + back, budget, total, outcome),
    ensures
        decides(answers, back, budget, total + bill(front, tokens), outcome),
    decreases front.len(),
{
    if front.len() == 0 {
        assert(front + back =~= back);
    } else {
        let rest = front.drop_first();
        assert((front + back).drop_first() =~= rest + back);
        match front[0] {
            Charge::Images(cost) => {
                lemma_run_goes_on(answers, tokens, rest, back, budget, total + cost, outcome);
            },
            Charge::Payload(payload) => {
                if payload.len() == 0 {
                    lemma_run_goes_on(answers, tokens, rest, back, budget, total, outcome);
                } else {
                    lemma_run_goes_on(
                        answers,
                        tokens,
                        rest,
                        back,
                        budget,
                        total + tokens(payload),
                        outcome,
                    );
                }
            },
            Charge::MessageEnd(_) => {
                lemma_run_goes_on(answers, tokens, rest, back, budget, total, outcome);
            },
        }
    }
}

} // verus!
