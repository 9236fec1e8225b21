//! The preparation of a request: normalization, the context guard and the output limit.
use bpe_openai::o200k_base;
use chat_context::guard::{
    enforce_context_token_budget, resolve_context_budget, resolve_effective_max_tokens,
    ContextBudget, ReasoningPayload, TokenCount, CONTEXT_COMPACTION_OUTPUT_RESERVE_TOKENS,
};
use chat_context::error::{Remedy, RequestError};
use chat_context::message::ChatContextMessage;
use chat_context::normalize::{has_json_entries, normalize_message, normalize_messages};

/// Counts `o200k_base` tokens up to a limit.
fn count_tokens_bounded(text: &str, limit: usize) -> TokenCount {
    let tokenizer = o200k_base();
    match tokenizer.count_till_limit(&tokenizer.normalize(text), limit) {
        Some(counted) => TokenCount { counted, exceeded: false, estimated_total: counted },
        None => TokenCount { counted: limit, exceeded: true, estimated_total: limit + 1 },
    }
}

fn message(
    role: &str,
    content: &str,
    tool_calls_json: Option<&str>,
    tool_results_json: Option<&str>,
) -> ChatContextMessage {
    ChatContextMessage {
        role: role.to_string(),
        content: content.to_string(),
        tool_calls_json: tool_calls_json.map(str::to_string),
        tool_results_json: tool_results_json.map(str::to_string),
        thinking: None,
        thinking_blocks_json: None,
    }
}

#[test]
fn normalize_messages_keeps_empty_structured_tool_messages() {
    let normalized = normalize_messages(&[
        message("assistant", "", Some(r#"[{"id":"call-1"}]"#), None),
        message("tool", "", None, Some(r#"[{"callId":"call-1"}]"#)),
    ]);

    assert_eq!(normalized.len(), 2);
    assert_eq!(normalized[0].role, "assistant");
    assert_eq!(normalized[1].role, "tool");
}

#[test]
fn normalize_messages_drops_empty_or_malformed_structured_messages() {
    let normalized = normalize_messages(&[
        message("assistant", "", Some("[]"), None),
        message("tool", "", None, Some("not-json")),
        message("user", "", None, None),
    ]);

    assert!(normalized.is_empty());
}

fn context_message(role: &str, content: &str) -> ChatContextMessage {
    ChatContextMessage {
        role: role.to_string(),
        content: content.to_string(),
        tool_calls_json: None,
        tool_results_json: None,
        thinking: None,
        thinking_blocks_json: None,
    }
}

#[test]
fn context_guard_passes_small_messages_within_budget() {
    let messages = vec![context_message("system", "short system prompt")];
    enforce_context_token_budget(
        &messages,
        Some(200_000),
        Some(8_192),
        None,
        false,
        true,
        ReasoningPayload::Text,
        count_tokens_bounded,
    )
    .expect("small request must pass");
}

#[test]
fn context_guard_skipped_without_max_context_tokens() {
    let huge = "x".repeat(4_000_000);
    let messages = vec![context_message("user", &huge)];
    enforce_context_token_budget(
        &messages,
        None,
        None,
        None,
        false,
        true,
        ReasoningPayload::Text,
        count_tokens_bounded,
    )
    .expect("guard must be disabled when maxContextTokens is unset");
}

#[test]
fn context_guard_skipped_on_contradictory_config() {
    let messages = vec![context_message("user", "hello")];
    enforce_context_token_budget(
        &messages,
        Some(1_000),
        Some(1_000),
        None,
        false,
        true,
        ReasoningPayload::Text,
        count_tokens_bounded,
    )
    .expect("contradictory config must not be shadowed by the guard");
}

#[test]
fn context_guard_rejects_oversized_content() {
    let huge = "上下文窗口超限测试载荷".repeat(60_000);
    let messages = vec![context_message("user", &huge)];
    let error = enforce_context_token_budget(
        &messages,
        Some(200_000),
        None,
        None,
        false,
        true,
        ReasoningPayload::Text,
        count_tokens_bounded,
    )
    .expect_err("oversized request must be rejected locally");
    assert!(error.reason().contains("Context window guard"));
    assert!(error.reason().contains("maxContextTokens 200000"));
}

#[test]
fn context_guard_bills_disk_image_tags_at_flat_estimate() {
    let tags = "@@image:upload/2026-09-14/hash.png@@".repeat(40);
    let messages = vec![ChatContextMessage {
        role: "tool".to_string(),
        content: String::new(),
        tool_calls_json: None,
        tool_results_json: Some(tags),
        thinking: None,
        thinking_blocks_json: None,
    }];
    enforce_context_token_budget(
        &messages,
        Some(200_000),
        None,
        None,
        false,
        true,
        ReasoningPayload::Text,
        count_tokens_bounded,
    )
    .expect("40 disk image refs must fit a 200k window");
}

#[test]
fn context_guard_still_rejects_when_image_refs_alone_exceed_budget() {
    let tags = "@@image:upload/2026-09-14/hash.png@@".repeat(400);
    let messages = vec![ChatContextMessage {
        role: "tool".to_string(),
        content: String::new(),
        tool_calls_json: None,
        tool_results_json: Some(tags),
        thinking: None,
        thinking_blocks_json: None,
    }];
    enforce_context_token_budget(
        &messages,
        Some(200_000),
        None,
        None,
        false,
        true,
        ReasoningPayload::Text,
        count_tokens_bounded,
    )
    .expect_err("400 image refs must exceed a 200k window");
}

#[test]
fn context_guard_compaction_error_suggests_new_conversation() {
    let huge = "上下文窗口超限测试载荷".repeat(60_000);
    let messages = vec![context_message("user", &huge)];
    let error = enforce_context_token_budget(
        &messages,
        Some(200_000),
        None,
        None,
        true,
        true,
        ReasoningPayload::Text,
        count_tokens_bounded,
    )
    .expect_err("oversized compaction request must be rejected");
    let message = error.reason();
    assert!(message.contains("too large even for compaction"));
    assert!(
        !message.contains("/compact),"),
        "must not suggest compacting while a compaction is already running"
    );
}

#[test]
fn context_guard_counts_tool_payloads_and_thinking() {
    let messages = vec![ChatContextMessage {
        role: "tool".to_string(),
        content: String::new(),
        tool_calls_json: None,
        tool_results_json: Some("tool result payload ".repeat(30_000)),
        thinking: Some("thinking payload ".repeat(30_000)),
        thinking_blocks_json: None,
    }];
    let error = enforce_context_token_budget(
        &messages,
        Some(150_000),
        None,
        None,
        false,
        true,
        ReasoningPayload::Text,
        count_tokens_bounded,
    )
    .expect_err("oversized tool payloads must be rejected");
    assert!(error.reason().contains("Context window guard"));
}

#[test]
fn context_guard_reports_threshold_conflict_instead_of_blaming_attachments() {
    let huge = "上下文窗口超限测试载荷".repeat(200_000);
    let messages = vec![context_message("user", &huge)];
    let error = enforce_context_token_budget(
        &messages,
        Some(1_000_000),
        Some(384_000),
        Some(800_000),
        false,
        true,
        ReasoningPayload::Text,
        count_tokens_bounded,
    )
    .expect_err("oversized request must be rejected");
    let message = error.reason();
    assert!(
        message.contains("Automatic compaction cannot help here"),
        "conflicting threshold must be reported as an auto-compaction conflict: {message}"
    );
    assert!(
        message.contains("566000"),
        "the guard hard line must be spelled out: {message}"
    );
    assert!(
        message.contains("800000"),
        "the offending threshold must be spelled out: {message}"
    );
    assert!(
        message.contains("/compact manually"),
        "manual compaction must be offered — it can still pass after the fix: {message}"
    );
    assert!(
        !message.contains("remove large attachments before"),
        "must not blame attachments when the profile itself is contradictory: {message}"
    );
}

#[test]
fn context_guard_keeps_generic_remedy_when_threshold_is_within_budget() {
    let huge = "上下文窗口超限测试载荷".repeat(200_000);
    let messages = vec![context_message("user", &huge)];
    let error = enforce_context_token_budget(
        &messages,
        Some(1_000_000),
        Some(384_000),
        Some(500_000),
        false,
        true,
        ReasoningPayload::Text,
        count_tokens_bounded,
    )
    .expect_err("oversized request must be rejected");
    let message = error.reason();
    assert!(
        !message.contains("configuration conflict"),
        "a healthy threshold must not be reported as a conflict: {message}"
    );
    assert!(
        message.contains("/compact"),
        "the generic remedy must survive: {message}"
    );
}

const DEADLOCK_MAX_CONTEXT: i32 = 100_000;
const DEADLOCK_MAX_OUTPUT: i32 = 80_000;

#[test]
fn compaction_succeeds_exactly_where_a_normal_request_is_rejected() {
    let payload = "word ".repeat(30_000);
    let messages = vec![context_message("user", &payload)];

    let normal = enforce_context_token_budget(
        &messages,
        Some(DEADLOCK_MAX_CONTEXT),
        Some(DEADLOCK_MAX_OUTPUT),
        None,
        false,
        true,
        ReasoningPayload::Text,
        count_tokens_bounded,
    );
    assert!(
        normal.is_err(),
        "a 30K-token request must be rejected against the 11,808-token normal budget"
    );

    enforce_context_token_budget(
        &messages,
        Some(DEADLOCK_MAX_CONTEXT),
        Some(DEADLOCK_MAX_OUTPUT),
        None,
        true,
        true,
        ReasoningPayload::Text,
        count_tokens_bounded,
    )
    .expect(
        "the SAME request must be allowed as a compaction — otherwise the deadlock is back",
    );
}

#[test]
fn compaction_budget_exceeds_the_normal_budget_for_the_same_profile() {
    let payload = "word ".repeat(1_500_000);
    let messages = vec![context_message("user", &payload)];

    let normal_msg = enforce_context_token_budget(
        &messages,
        Some(1_000_000),
        Some(384_000),
        None,
        false,
        true,
        ReasoningPayload::Text,
        count_tokens_bounded,
    )
    .expect_err("the oversized normal request must be rejected")
    .reason();
    assert!(
        normal_msg.contains("566000"),
        "normal requests reserve the full 384K output: {normal_msg}"
    );

    let compaction_msg = enforce_context_token_budget(
        &messages,
        Some(1_000_000),
        Some(384_000),
        None,
        true,
        true,
        ReasoningPayload::Text,
        count_tokens_bounded,
    )
    .expect_err("this payload exceeds even the compaction budget")
    .reason();
    assert!(
        compaction_msg.contains("933616"),
        "compaction must reserve only the summary budget, giving a 933,616-token input allowance: {compaction_msg}"
    );
    assert!(
        !compaction_msg.contains("566000"),
        "compaction must not share the normal request's output reserve: {compaction_msg}"
    );
}

#[test]
fn compaction_reserves_the_cap_even_when_max_tokens_is_unset() {
    let payload = "word ".repeat(20_000);
    let messages = vec![context_message("user", &payload)];

    let error = enforce_context_token_budget(
        &messages,
        Some(40_000),
        None,
        None,
        true,
        true,
        ReasoningPayload::Text,
        count_tokens_bounded,
    )
    .expect_err("20K tokens must exceed the 15,424-token compaction budget")
    .reason();
    assert!(
        error.contains("15424"),
        "an unset max_tokens must still reserve the 16,384 cap for compaction: {error}"
    );
    assert!(
        error.contains("output reserve 16384"),
        "the reserved cap must be reported as the output reserve: {error}"
    );
}

#[test]
fn compaction_max_tokens_is_capped_and_never_unbounded() {
    assert_eq!(
        resolve_effective_max_tokens(Some(384_000), true),
        Some(CONTEXT_COMPACTION_OUTPUT_RESERVE_TOKENS as i32),
        "a 384K output profile must be capped for compaction"
    );
    assert_eq!(
        resolve_effective_max_tokens(None, true),
        Some(CONTEXT_COMPACTION_OUTPUT_RESERVE_TOKENS as i32),
        "an unset max_tokens must still be bounded for compaction — the guard reserved it"
    );
    assert_eq!(
        resolve_effective_max_tokens(Some(4_096), true),
        Some(4_096),
        "a smaller configured budget must be preserved"
    );
}

#[test]
fn normal_requests_keep_their_full_output_budget() {
    assert_eq!(
        resolve_effective_max_tokens(Some(384_000), false),
        Some(384_000),
        "normal requests must keep the profile's output budget untouched"
    );
    assert_eq!(
        resolve_effective_max_tokens(None, false),
        None,
        "normal requests must not inject a max_tokens the profile left unset"
    );
}

#[test]
fn chat_payload_bills_one_reasoning_field_not_two() {
    let reasoning = "推理过程示例".repeat(20_000);
    let messages = vec![ChatContextMessage {
        role: "assistant".to_string(),
        content: "answer".to_string(),
        tool_calls_json: None,
        tool_results_json: None,
        thinking: Some(reasoning.clone()),
        thinking_blocks_json: Some(reasoning),
    }];

    let one_copy =
        count_tokens_bounded(&messages[0].thinking.clone().unwrap(), usize::MAX).counted;
    let budget = one_copy + 5_000;

    enforce_context_token_budget(
        &messages,
        Some((budget + 50_000 + 8_192) as i32),
        None,
        None,
        false,
        false,
        ReasoningPayload::Text,
        count_tokens_bounded,
    )
    .expect(
        "chat must bill reasoning once; billing both mirrors would double-count and reject this",
    );
}

#[test]
fn blocks_payload_still_falls_back_to_text_when_blocks_absent() {
    let reasoning = "退回文本镜像的推理".repeat(200_000);
    let messages = vec![ChatContextMessage {
        role: "assistant".to_string(),
        content: "answer".to_string(),
        tool_calls_json: None,
        tool_results_json: None,
        thinking: Some(reasoning),
        thinking_blocks_json: None,
    }];

    let error = enforce_context_token_budget(
        &messages,
        Some(200_000),
        None,
        None,
        false,
        false,
        ReasoningPayload::Blocks,
        count_tokens_bounded,
    )
    .expect_err("the fallback text must still be counted and trip this small budget");
    assert!(error.reason().contains("Context window guard"));
}

#[test]
fn reasoning_payload_maps_request_methods() {
    assert_eq!(
        ReasoningPayload::for_request_method("chat"),
        ReasoningPayload::Text
    );
    for method in ["anthropic", "responses", "gemini", "interactions"] {
        assert_eq!(
            ReasoningPayload::for_request_method(method),
            ReasoningPayload::Blocks,
            "{method} ships thinking_blocks_json, not the plain mirror"
        );
    }
}

/// One token for each character.
fn count_characters(text: &str, limit: usize) -> TokenCount {
    let counted = text.chars().count();
    TokenCount { counted, exceeded: counted > limit, estimated_total: counted }
}

#[test]
fn guard_decides_at_the_exact_budget() {
    let guard = |length: usize, window: i32| {
        enforce_context_token_budget(
            &[context_message("user", &"x".repeat(length))],
            Some(window),
            Some(100),
            None,
            false,
            true,
            ReasoningPayload::Text,
            count_characters,
        )
    };
    assert_eq!(guard(50, 8_192 + 100 + 50), Ok(()));
    assert_eq!(
        guard(51, 8_192 + 100 + 50),
        Err(RequestError::ContextWindow {
            estimated: 51,
            budget: 50,
            max_context: 8_342,
            output_reserve: 100,
            remedy: Remedy::Compact,
        })
    );
    assert_eq!(guard(51, 8_192 + 100), Ok(()));
}

#[test]
fn guard_adds_up_images_and_payloads() {
    let mut first = context_message("user", "@@image:upload/a@@");
    first.tool_results_json = Some("@@image:upload/b@@@@image:upload/c@@".to_string());
    let guard = |message: &ChatContextMessage, window: i32, supports_vision: bool| {
        enforce_context_token_budget(
            &[message.clone()],
            Some(window),
            None,
            None,
            false,
            supports_vision,
            ReasoningPayload::Blocks,
            count_characters,
        )
    };
    let size = 3 * 800;
    assert_eq!(guard(&first, 8_192 + size, false), Ok(()));
    assert!(guard(&first, 8_192 + size - 1, false).is_err());
    assert!(guard(&first, 8_192 + size, true).is_err());
    assert_eq!(guard(&first, 8_192 + size + 3 * 800, true), Ok(()));
    first.content = "look: @@image:upload/a@@ and".to_string();
    first.thinking = Some("hm".to_string());
    assert_eq!(guard(&first, 8_192 + size + 12, false), Ok(()));
    assert!(guard(&first, 8_192 + size + 11, false).is_err());
}

#[test]
fn guard_bills_a_reference_at_its_estimate_alone() {
    let guard = |content: &str, window: i32, supports_vision: bool| {
        enforce_context_token_budget(
            &[context_message("user", content)],
            Some(window),
            None,
            None,
            false,
            supports_vision,
            ReasoningPayload::Text,
            count_characters,
        )
    };
    let reference = "@@image:upload/a.png@@";
    assert_eq!(guard(reference, 9_792, true), Ok(()));
    assert_eq!(
        guard(reference, 9_791, true),
        Err(RequestError::ContextWindow {
            estimated: 1_600,
            budget: 1_599,
            max_context: 9_791,
            output_reserve: 0,
            remedy: Remedy::Compact,
        })
    );
    assert_eq!(guard(reference, 8_992, false), Ok(()));
    assert!(guard(reference, 8_991, false).is_err());
}

#[test]
fn guard_bills_plain_text_behind_the_start_of_a_reference() {
    let guard = |content: &str, size: i32| {
        enforce_context_token_budget(
            &[context_message("user", content)],
            Some(8_192 + size),
            None,
            None,
            false,
            false,
            ReasoningPayload::Text,
            count_characters,
        )
    };
    let words = "word ".repeat(20);
    let content = format!("@@image:upload/{words}@@image:upload/a.png@@");
    assert_eq!(guard(&content, 2 * 800 + 115), Ok(()));
    assert!(guard(&content, 2 * 800 + 114).is_err());
    let content = format!("@@image:upload/{words}@@");
    assert_eq!(guard(&content, 800 + 117), Ok(()));
    assert!(guard(&content, 800 + 116).is_err());
    let content = "@@image:upload/x@@image:upload/a.png@@";
    assert_eq!(guard(content, 2 * 800 + 16), Ok(()));
    assert!(guard(content, 2 * 800 + 15).is_err());
}

#[test]
fn refusals_for_images_estimate_the_text_beside_them() {
    let estimate = |messages: &[ChatContextMessage], size: i32| {
        match enforce_context_token_budget(
            messages,
            Some(8_192 + size),
            None,
            None,
            false,
            true,
            ReasoningPayload::Text,
            count_characters,
        ) {
            Err(RequestError::ContextWindow { estimated, .. }) => Some(estimated),
            _ => None,
        }
    };
    let beside = context_message("user", "@@image:upload/a.png@@hi");
    assert_eq!(estimate(&[beside.clone()], 1_599), Some(1_602));
    assert_eq!(estimate(&[beside.clone()], 1_602), None);
    let alone = context_message("user", "@@image:upload/a.png@@");
    assert_eq!(estimate(&[alone.clone(), beside], 1_599), Some(1_600));
    let mut results = alone;
    results.thinking = Some("hmm".to_string());
    assert_eq!(estimate(&[results], 1_599), Some(1_603));
}

#[test]
fn the_unsent_mirror_changes_nothing() {
    let mut sent = context_message("assistant", "abc");
    sent.thinking = Some("t".repeat(20));
    sent.thinking_blocks_json = Some("b".repeat(40));
    let guard = |message: &ChatContextMessage, reasoning: ReasoningPayload| {
        enforce_context_token_budget(
            &[message.clone()],
            Some(8_192 + 20),
            None,
            None,
            false,
            true,
            reasoning,
            count_characters,
        )
    };
    let mut other_blocks = sent.clone();
    other_blocks.thinking_blocks_json = None;
    assert!(guard(&sent, ReasoningPayload::Text).is_err());
    assert_eq!(
        guard(&sent, ReasoningPayload::Text),
        guard(&other_blocks, ReasoningPayload::Text)
    );
    let mut other_thinking = sent.clone();
    other_thinking.thinking = Some("t".repeat(9_000));
    assert!(guard(&sent, ReasoningPayload::Blocks).is_err());
    assert_eq!(
        guard(&sent, ReasoningPayload::Blocks),
        guard(&other_thinking, ReasoningPayload::Blocks)
    );
}

#[test]
fn guard_bills_one_mirror_of_the_reasoning() {
    let mut turn = context_message("assistant", "abc");
    turn.tool_calls_json = Some("12345".to_string());
    turn.thinking = Some("t".repeat(20));
    turn.thinking_blocks_json = Some("b".repeat(40));
    let fits = |turn: &ChatContextMessage, reasoning: ReasoningPayload, size: i32| {
        enforce_context_token_budget(
            &[turn.clone()],
            Some(8_192 + size),
            None,
            None,
            false,
            true,
            reasoning,
            count_characters,
        )
        .is_ok()
    };
    assert!(fits(&turn, ReasoningPayload::Text, 28));
    assert!(!fits(&turn, ReasoningPayload::Text, 27));
    assert!(fits(&turn, ReasoningPayload::Blocks, 48));
    assert!(!fits(&turn, ReasoningPayload::Blocks, 47));
    turn.thinking_blocks_json = Some(String::new());
    assert!(fits(&turn, ReasoningPayload::Blocks, 28));
    assert!(!fits(&turn, ReasoningPayload::Blocks, 27));
}

#[test]
fn context_budget_takes_off_reserve_and_margin() {
    assert_eq!(
        resolve_context_budget(Some(1_000_000), Some(384_000), false),
        Some(ContextBudget { max_context: 1_000_000, output_reserve: 384_000, budget: 566_000 })
    );
    assert_eq!(
        resolve_context_budget(Some(1_000_000), Some(384_000), true),
        Some(ContextBudget { max_context: 1_000_000, output_reserve: 16_384, budget: 933_616 })
    );
    assert_eq!(
        resolve_context_budget(Some(10_000), Some(-1), false),
        Some(ContextBudget { max_context: 10_000, output_reserve: 0, budget: 1_808 })
    );
    assert_eq!(resolve_context_budget(Some(8_192), None, false), None);
    assert_eq!(resolve_context_budget(Some(0), None, false), None);
    assert_eq!(resolve_context_budget(Some(-7), None, false), None);
    assert_eq!(resolve_context_budget(None, None, true), None);
}

#[test]
fn compaction_limit_of_a_profile_that_is_not_positive() {
    assert_eq!(resolve_effective_max_tokens(Some(0), true), Some(16_384));
    assert_eq!(resolve_effective_max_tokens(Some(-1), true), Some(16_384));
    assert_eq!(resolve_effective_max_tokens(Some(16_384), true), Some(16_384));
    assert_eq!(resolve_effective_max_tokens(Some(-1), false), Some(-1));
}

#[test]
fn remedies_in_words() {
    let error = RequestError::ContextWindow {
        estimated: 120,
        budget: 50,
        max_context: 8_342,
        output_reserve: 100,
        remedy: Remedy::Compact,
    };
    assert_eq!(
        error.reason(),
        "Context window guard: the prepared request is about 120 tokens, exceeding the \
         available 50-token context budget (maxContextTokens 8342 minus output reserve 100 and \
         safety margin). Compact the conversation (/compact), start a new conversation, or \
         remove large attachments before retrying."
    );
    assert_eq!(
        Remedy::LowerThreshold(70).advice_text(50),
        "Automatic compaction cannot help here: its threshold (70 tokens) is above this guard's \
         hard line (50 tokens), so it never fires before the request is rejected. Run /compact \
         manually (compaction reserves only a summary-sized output budget, so it can still \
         pass), then lower the auto-compaction threshold below 50 tokens — or reduce max tokens \
         / raise the max context window in that API profile — so it can also fire on its own. \
         Removing attachments will not resolve the conflict."
    );
    assert_eq!(
        Remedy::StartOver.advice_text(50),
        "The context is too large even for compaction. Start a new conversation, or remove large \
         attachments from recent messages before retrying."
    );
}

#[test]
fn remedy_depends_on_threshold_and_compaction() {
    let remedy = |threshold: Option<i32>, is_compaction: bool| {
        let result = enforce_context_token_budget(
            &[context_message("user", &"x".repeat(100))],
            Some(8_192 + 16_384 + 50),
            Some(16_384),
            threshold,
            is_compaction,
            true,
            ReasoningPayload::Text,
            count_characters,
        );
        match result {
            Err(RequestError::ContextWindow { remedy, .. }) => remedy,
            _ => panic!("the request must be refused"),
        }
    };
    assert_eq!(remedy(None, false), Remedy::Compact);
    assert_eq!(remedy(Some(-1), false), Remedy::Compact);
    assert_eq!(remedy(Some(50), false), Remedy::Compact);
    assert_eq!(remedy(Some(51), false), Remedy::LowerThreshold(51));
    assert_eq!(remedy(Some(51), true), Remedy::StartOver);
}

#[test]
fn request_method_is_trimmed() {
    assert_eq!(ReasoningPayload::for_request_method(" chat\n"), ReasoningPayload::Text);
    assert_eq!(ReasoningPayload::for_request_method("Chat"), ReasoningPayload::Blocks);
}

#[test]
fn json_entries() {
    assert!(has_json_entries(" [null] "));
    assert!(!has_json_entries("[]"));
    assert!(!has_json_entries("{\"a\":1}"));
    assert!(!has_json_entries("\"[1]\""));
    assert!(!has_json_entries("[1"));
}

#[test]
fn normalization_trims_and_is_stable() {
    let mut turn = message(" assistant ", "  ", Some("[1]"), Some("kept"));
    turn.thinking = Some(" kept ".to_string());
    let messages = vec![message("\tuser", " hi\u{3000}", None, None), turn];
    let once = normalize_messages(&messages);
    assert_eq!(once.len(), 2);
    assert_eq!((once[0].role.as_str(), once[0].content.as_str()), ("user", "hi"));
    assert_eq!((once[1].role.as_str(), once[1].content.as_str()), ("assistant", ""));
    assert_eq!(once[1].thinking.as_deref(), Some(" kept "));
    assert_eq!(once[1].tool_results_json.as_deref(), Some("kept"));
    let twice = normalize_messages(&once);
    assert_eq!(format!("{once:?}"), format!("{twice:?}"));
    assert!(normalize_messages(&[message("user", "", Some("[1]"), Some("[1]"))]).is_empty());
}

#[test]
fn blank_message_is_kept_for_its_tool_data() {
    let blank = message("tool", " ", None, None);
    assert!(normalize_message(&blank, false).is_none());
    assert_eq!(normalize_message(&blank, true).unwrap().content, "");
}
