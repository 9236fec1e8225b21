//! The preparation of a request: which messages it sends and with which prompts.
use vstd::prelude::*;
use vstd::slice::slice_subrange;

use crate::error::RequestError;
use crate::guard::{
    answers_of, counts_exactly, enforce_context_token_budget, guard_answers,
    law_requests_pass_by_their_size, request_size, reserved_tokens, Answers, ReasoningPayload,
    TokenCount,
};
use crate::images::{inline_texts, persist_images_in_history, rewritten};
use crate::message::{
    is_system_prompt, message_views, plain_message, ChatContextMessage, MessageView,
};
use crate::normalize::{normalize_messages, normalized};
use crate::payload::payload_max_tokens;
use crate::sub_agents::{compose_sub_agent_system_prompts, sub_agent_prompts};
use crate::system_prompt::{system_prompt_with_sections, with_sections};
use crate::text::{optional_text, texts, trimmed, white_space};

verus! {

/// The instruction for the summary of a conversation that works in a Git worktree.
pub const WORKTREE_HANDOFF_PROMPT: &'static str = "Create a durable context handoff for the next assistant. You are in WorkTree Mode and the context window was exceeded. Preserve the original request branch, the confirmed repository status, the selected development branch or worktree, completed file changes, pending changes, build status, commit status, and the exact next Git-safe steps. Output ONLY the handoff document in Markdown. Do not call tools, address the user, or declare the work complete.";

/// The instruction for the summary of a conversation that works towards a goal.
pub const GOAL_HANDOFF_PROMPT: &'static str = "Create a durable context handoff for the next assistant. You are in Goal Mode and the context window was exceeded, so this handoff MUST preserve the goal so work continues seamlessly.\n\nOutput ONLY the handoff document in Markdown. It MUST include ALL of the following sections:\n\n## Original Goal\nReproduce the user's original goal verbatim. This is the single most important piece of information — do not paraphrase or abbreviate it.\n\n## Success Criteria\nList every success criterion that defines goal completion. Mark each as [MET], [UNMET], or [UNCERTAIN] with brief evidence.\n\n## Completed Work\nBullet list of changes made so far, with exact file paths and function/symbol names.\n\n## Current State\nWhat the codebase looks like right now after your changes. What builds, what does not, what tests pass or fail.\n\n## Pending Tasks\nWhat remains to be done to achieve the goal, ordered by priority.\n\n## Key Decisions & Constraints\nArchitecture choices, constraints discovered, non-regression boundaries that must be respected.\n\n## Token Budget Status\nHow much of the token budget has been consumed (estimate), and how much remains.\n\n## Next Steps\nThe concrete next 1-3 actions the next assistant should take to continue toward the goal.\n\nRules:\n- Do NOT call tools.\n- Do NOT address the user conversationally.\n- Do NOT declare the goal complete — only the next assistant can do that after verifying.\n- Be concise but never omit information required to continue the work correctly.";

/// The instruction for the summary of any other conversation.
pub const HANDOFF_PROMPT: &'static str = "Create a durable context handoff for the next assistant. Output only the handoff document in Markdown. Preserve concrete objectives, user requirements, decisions, architecture constraints, relevant files and symbols, completed changes, current state, pending tasks, exact commands or errors, edge cases, and the next recommended steps. Be concise but do not omit information required to continue the work correctly. Do not call tools and do not address the user conversationally.";

/// What a caller asks of a request, and the limits of its API profile.
#[derive(Debug)]
pub struct ContextRequest {
    /// The request continues after a compaction.
    pub resume_after_compaction: bool,
    /// The request compacts the conversation.
    pub context_compaction: bool,
    /// The request is sent without history and system prompt.
    pub skip_context: bool,
    pub worktree_mode: bool,
    pub workflow_mode: bool,
    pub plan_mode: bool,
    pub goal_mode: bool,
    /// The request is a sub-agent's.
    pub is_sub_agent: bool,
    pub sub_agent_system_prompt: Option<String>,
    pub max_context_tokens: Option<i32>,
    pub max_output_tokens: Option<i32>,
    pub auto_compress_threshold: Option<i32>,
    pub supports_vision: bool,
    pub request_method: String,
}

/// A request that is ready to be turned into a provider's payload.
#[derive(Debug)]
pub struct PreparedConversationRequest {
    pub conversation_id: String,
    /// All messages to send.
    pub messages: Vec<ChatContextMessage>,
    /// The messages among them that are new.
    pub current_messages: Vec<ChatContextMessage>,
    /// The system prompts that the user has configured, or all prompts of a sub-agent.
    pub user_system_prompts: Vec<String>,
}

/// What a [`PreparedConversationRequest`] holds.
pub struct PreparedView {
    pub conversation_id: Seq<char>,
    pub messages: Seq<MessageView>,
    pub current_messages: Seq<MessageView>,
    pub user_system_prompts: Seq<Seq<char>>,
}

impl View for PreparedConversationRequest {
    type V = PreparedView;

    open spec fn view(&self) -> PreparedView {
        PreparedView {
            conversation_id: self.conversation_id@,
            messages: message_views(self.messages@),
            current_messages: message_views(self.current_messages@),
            user_system_prompts: texts(self.user_system_prompts@),
        }
    }
}

/// The instruction for the summary that a compaction asks for.
pub open spec fn handoff_prompt(worktree_mode: bool, goal_mode: bool) -> Seq<char> {
    if worktree_mode {
        WORKTREE_HANDOFF_PROMPT@
    } else if goal_mode {
        GOAL_HANDOFF_PROMPT@
    } else {
        HANDOFF_PROMPT@
    }
}

/// The new messages of a request.
///
/// After a compaction the first message stands for the summary, which the history holds
/// already, so it is left out. A compaction sends its instruction alone.
pub open spec fn current_messages(
    request: ContextRequest,
    messages: Seq<MessageView>,
) -> Seq<MessageView> {
    if request.resume_after_compaction {
        if messages.len() == 0 {
            seq![]
        } else {
            normalized(messages.drop_first())
        }
    } else if request.context_compaction {
        seq![plain_message("user"@, handoff_prompt(request.worktree_mode, request.goal_mode))]
    } else {
        normalized(messages)
    }
}

/// The new messages of a request.
pub fn select_current_messages(
    request: &ContextRequest,
    messages: &[ChatContextMessage],
) -> (r: Vec<ChatContextMessage>)
    ensures
        message_views(r@) == current_messages(*request, message_views(messages@)),
{
    if request.resume_after_compaction {
        if messages.len() == 0 {
            return Vec::new();
        }
        let protected = slice_subrange(messages, 1, messages.len());
        assert(message_views(protected@) =~= message_views(messages@).drop_first());
        normalize_messages(protected)
    } else if request.context_compaction {
        let prompt = if request.worktree_mode {
            WORKTREE_HANDOFF_PROMPT
        } else if request.goal_mode {
            GOAL_HANDOFF_PROMPT
        } else {
            HANDOFF_PROMPT
        };
        let mut current: Vec<ChatContextMessage> = Vec::new();
        current.push(ChatContextMessage::plain("user", prompt.to_owned()));
        assert(message_views(current@) =~= seq![plain_message("user"@, prompt@)]);
        current
    } else {
        normalize_messages(messages)
    }
}

/// Whether `result` is an answer of the guard to the messages of a request.
pub open spec fn request_guard_answers(
    request: ContextRequest,
    messages: Seq<MessageView>,
    answers: Answers,
    result: Result<(), RequestError>,
) -> bool {
    guard_answers(
        messages,
        request.max_context_tokens,
        request.max_output_tokens,
        request.auto_compress_threshold,
        request.context_compaction,
        request.supports_vision,
        if trimmed(request.request_method@) == "chat"@ {
            ReasoningPayload::Text
        } else {
            ReasoningPayload::Blocks
        },
        answers,
        result,
    )
}

/// How a request goes on once the images of its new messages are on disk.
#[derive(Debug)]
pub enum RequestPath {
    /// The new messages are sent alone.
    Lightweight(Vec<ChatContextMessage>),
    /// The new messages are joined to the history of their conversation.
    Conversation(Vec<ChatContextMessage>),
}

impl RequestPath {
    /// The new messages of the request.
    pub open spec fn messages(self) -> Seq<MessageView> {
        match self {
            RequestPath::Lightweight(messages) => message_views(messages@),
            RequestPath::Conversation(messages) => message_views(messages@),
        }
    }
}

/// Takes in the new messages of a request, with the texts that `stored` holds in place of those
/// with inline images.
///
/// A request without new messages is refused, unless it continues after a compaction. A request
/// that is sent without history is measured here.
pub fn admit_request<F: Fn(&str, usize) -> TokenCount>(
    request: &ContextRequest,
    current: Vec<ChatContextMessage>,
    stored: &Vec<String>,
    count_tokens: F,
) -> (r: Result<RequestPath, RequestError>)
    requires
        stored@.len() == inline_texts(message_views(current@)).len(),
        forall|text: &str, limit: usize| count_tokens.requires((text, limit)),
    ensures
        ({
            let messages = rewritten(message_views(current@), texts(stored@));
            if messages.len() == 0 && !request.resume_after_compaction {
                r == Err::<RequestPath, RequestError>(RequestError::ContentRequired)
            } else if request.skip_context {
                &&& request_guard_answers(
                    *request,
                    messages,
                    answers_of(count_tokens),
                    match r {
                        Ok(_) => Ok(()),
                        Err(error) => Err(error),
                    },
                )
                &&& r matches Ok(path) ==> path is Lightweight && path.messages() == messages
            } else {
                r matches Ok(path) && path is Conversation && path.messages() == messages
            }
        }),
{
    let messages = persist_images_in_history(current, stored);
    assert(message_views(messages@).len() == messages@.len());
    if messages.len() == 0 && !request.resume_after_compaction {
        return Err(RequestError::ContentRequired);
    }
    if !request.skip_context {
        return Ok(RequestPath::Conversation(messages));
    }
    match enforce_context_token_budget(
        messages.as_slice(),
        request.max_context_tokens,
        request.max_output_tokens,
        request.auto_compress_threshold,
        request.context_compaction,
        request.supports_vision,
        ReasoningPayload::for_request_method(request.request_method.as_str()),
        count_tokens,
    ) {
        Ok(()) => Ok(RequestPath::Lightweight(messages)),
        Err(error) => Err(error),
    }
}

fn copy_messages(messages: &Vec<ChatContextMessage>) -> (r: Vec<ChatContextMessage>)
    ensures
        message_views(r@) == message_views(messages@),
{
    let mut copies: Vec<ChatContextMessage> = Vec::new();
    let mut i: usize = 0;
    while i < messages.len()
        invariant
            i <= messages@.len(),
            message_views(copies@) == message_views(messages@).take(i as int),
        decreases messages@.len() - i,
    {
        let ghost before = copies@;
        copies.push(messages[i].clone());
        proof {
            assert(message_views(copies@) =~= message_views(before).push(messages@[i as int]@));
            assert(message_views(copies@) =~= message_views(messages@).take(i + 1));
        }
        i += 1;
    }
    assert(message_views(messages@).take(messages@.len() as int) =~= message_views(messages@));
    copies
}

/// A request that is sent without history and system prompt: its new messages alone, outside
/// every conversation.
pub fn lightweight_request(current: Vec<ChatContextMessage>) -> (r: PreparedConversationRequest)
    ensures
        r@ == (PreparedView {
            conversation_id: seq![],
            messages: message_views(current@),
            current_messages: message_views(current@),
            user_system_prompts: seq![],
        }),
{
    let messages = copy_messages(&current);
    let user_system_prompts: Vec<String> = Vec::new();
    assert(texts(user_system_prompts@) =~= seq![]);
    PreparedConversationRequest {
        conversation_id: String::new(),
        messages,
        current_messages: current,
        user_system_prompts,
    }
}

/// The system prompts that a request hands to its provider: those of the user, or for a
/// sub-agent the list composed of the built-in prompt, those of the user and its own.
pub open spec fn system_prompts(
    request: ContextRequest,
    system_prompt: Seq<char>,
    user_system_prompts: Seq<Seq<char>>,
) -> Seq<Seq<char>> {
    if request.is_sub_agent {
        sub_agent_prompts(
            system_prompt,
            user_system_prompts,
            optional_text(request.sub_agent_system_prompt),
        )
    } else {
        user_system_prompts
    }
}

/// The system prompts that a request hands to its provider.
pub fn select_system_prompts(
    request: &ContextRequest,
    system_prompt: &str,
    user_system_prompts: Vec<String>,
) -> (r: Vec<String>)
    ensures
        texts(r@) == system_prompts(*request, system_prompt@, texts(user_system_prompts@)),
{
    if request.is_sub_agent {
        let own = match &request.sub_agent_system_prompt {
            Some(prompt) => Some(prompt.as_str()),
            None => None,
        };
        compose_sub_agent_system_prompts(system_prompt, user_system_prompts.as_slice(), own)
    } else {
        user_system_prompts
    }
}

/// Whether one of the messages is a system prompt.
pub open spec fn has_system_message(messages: Seq<MessageView>) -> bool {
    exists|i: int| 0 <= i < messages.len() && is_system_prompt(#[trigger] messages[i])
}

/// All messages of a request: the system prompt where the history has none, the history, and
/// the new messages. A sub-agent's request gets no system message.
pub open spec fn conversation(
    history: Seq<MessageView>,
    system_prompt: Seq<char>,
    current: Seq<MessageView>,
    is_sub_agent: bool,
) -> Seq<MessageView> {
    if is_sub_agent || has_system_message(history) {
        history + current
    } else {
        seq![plain_message("system"@, system_prompt)] + history + current
    }
}

fn holds_system_message(messages: &Vec<ChatContextMessage>) -> (r: bool)
    ensures
        r == has_system_message(message_views(messages@)),
{
    let mut i: usize = 0;
    while i < messages.len()
        invariant
            i <= messages@.len(),
            forall|k: int|
                0 <= k < i ==> !is_system_prompt(#[trigger] message_views(messages@)[k]),
        decreases messages@.len() - i,
    {
        if messages[i].is_system_prompt() {
            assert(is_system_prompt(message_views(messages@)[i as int]));
            return true;
        }
        i += 1;
    }
    false
}

/// All messages of a request: the system prompt where the history has none, the history, and
/// the new messages.
pub fn conversation_messages(
    history: Vec<ChatContextMessage>,
    system_prompt: String,
    current: &Vec<ChatContextMessage>,
    is_sub_agent: bool,
) -> (r: Vec<ChatContextMessage>)
    ensures
        message_views(r@) == conversation(
            message_views(history@),
            system_prompt@,
            message_views(current@),
            is_sub_agent,
        ),
{
    let mut messages = history;
    let ghost before = message_views(history@);
    if !is_sub_agent && !holds_system_message(&messages) {
        messages.insert(0, ChatContextMessage::plain("system", system_prompt));
        assert(message_views(messages@) =~= seq![plain_message("system"@, system_prompt@)]
            + before);
    }
    let ghost middle = message_views(messages@);
    let mut added = copy_messages(current);
    let ghost new = message_views(added@);
    messages.append(&mut added);
    assert(message_views(messages@) =~= middle + new);
    messages
}

/// What is gathered for a conversation before its request is joined together.
#[derive(Debug)]
pub struct ConversationSources {
    pub history: Vec<ChatContextMessage>,
    /// The texts of the history that held inline images, with the images on disk.
    pub stored: Vec<String>,
    /// The built-in system prompt.
    pub system_prompt: String,
    /// The section on language servers.
    pub language_servers: String,
    /// The section on image generation.
    pub image_generation: String,
    /// The section on the memory of the project.
    pub memory: String,
    /// The system prompts that the user has configured.
    pub user_system_prompts: Vec<String>,
}

/// A conversation whose messages and prompts are joined together.
#[derive(Debug)]
pub struct JoinedConversation {
    pub messages: Vec<ChatContextMessage>,
    pub user_system_prompts: Vec<String>,
}

/// The whole system prompt of a conversation.
pub open spec fn full_system_prompt(sources: ConversationSources, is_sub_agent: bool) -> Seq<char> {
    with_sections(
        sources.system_prompt@,
        sources.language_servers@,
        sources.image_generation@,
        sources.memory@,
        is_sub_agent,
    )
}

/// Joins the history, the system prompts and the new messages of a request together.
pub fn join_conversation(
    request: &ContextRequest,
    sources: ConversationSources,
    current: &Vec<ChatContextMessage>,
) -> (r: JoinedConversation)
    requires
        sources.stored@.len() == inline_texts(message_views(sources.history@)).len(),
    ensures
        message_views(r.messages@) == conversation(
            rewritten(message_views(sources.history@), texts(sources.stored@)),
            full_system_prompt(sources, request.is_sub_agent),
            message_views(current@),
            request.is_sub_agent,
        ),
        texts(r.user_system_prompts@) == system_prompts(
            *request,
            full_system_prompt(sources, request.is_sub_agent),
            texts(sources.user_system_prompts@),
        ),
{
    let history = persist_images_in_history(sources.history, &sources.stored);
    let system_prompt = system_prompt_with_sections(
        sources.system_prompt,
        sources.language_servers.as_str(),
        sources.image_generation.as_str(),
        sources.memory.as_str(),
        request.is_sub_agent,
    );
    let user_system_prompts = select_system_prompts(
        request,
        system_prompt.as_str(),
        sources.user_system_prompts,
    );
    let messages = conversation_messages(history, system_prompt, current, request.is_sub_agent);
    JoinedConversation { messages, user_system_prompts }
}

/// Measures the messages of a request against the budget of its profile and hands it out where
/// it fits.
pub fn finish_request<F: Fn(&str, usize) -> TokenCount>(
    request: &ContextRequest,
    conversation_id: String,
    messages: Vec<ChatContextMessage>,
    current: Vec<ChatContextMessage>,
    user_system_prompts: Vec<String>,
    count_tokens: F,
) -> (r: Result<PreparedConversationRequest, RequestError>)
    requires
        forall|text: &str, limit: usize| count_tokens.requires((text, limit)),
    ensures
        request_guard_answers(
            *request,
            message_views(messages@),
            answers_of(count_tokens),
            match r {
                Ok(_) => Ok(()),
                Err(error) => Err(error),
            },
        ),
        r matches Ok(prepared) ==> prepared@ == (PreparedView {
            conversation_id: conversation_id@,
            messages: message_views(messages@),
            current_messages: message_views(current@),
            user_system_prompts: texts(user_system_prompts@),
        }),
{
    match enforce_context_token_budget(
        messages.as_slice(),
        request.max_context_tokens,
        request.max_output_tokens,
        request.auto_compress_threshold,
        request.context_compaction,
        request.supports_vision,
        ReasoningPayload::for_request_method(request.request_method.as_str()),
        count_tokens,
    ) {
        Ok(()) => Ok(
            PreparedConversationRequest {
                conversation_id,
                messages,
                current_messages: current,
                user_system_prompts,
            },
        ),
        Err(error) => Err(error),
    }
}

/// A request that is refused for its size had the limit reserved for its answer that its payload
/// would have sent, and nothing where its payload would have sent none.
pub proof fn law_reserve_is_the_limit_sent(
    request: ContextRequest,
    messages: Seq<MessageView>,
    answers: Answers,
    error: RequestError,
)
    requires
        request_guard_answers(request, messages, answers, Err(error)),
    ensures
        error matches RequestError::ContextWindow { output_reserve, .. } && output_reserve
            == (match payload_max_tokens(request.max_output_tokens, request.context_compaction) {
            Some(value) => value as int,
            None => 0,
        }),
{
}

/// A request that is not a sub-agent's always carries a system message, and a system prompt is
/// only added in front of a history that has none.
pub proof fn law_main_conversation_has_system_message(
    history: Seq<MessageView>,
    system_prompt: Seq<char>,
    current: Seq<MessageView>,
)
    ensures
        has_system_message(conversation(history, system_prompt, current, false)),
        has_system_message(history) ==> conversation(history, system_prompt, current, false)
            == history + current,
{
    if has_system_message(history) {
        let i = choose|i: int| 0 <= i < history.len() && is_system_prompt(#[trigger] history[i]);
        assert((history + current)[i] == history[i]);
    } else {
        let all = conversation(history, system_prompt, current, false);
        reveal_strlit("system");
        assert(trimmed("system"@) == "system"@) by {
            assert(!white_space("system"@.first()));
            assert(!white_space("system"@.last()));
        }
        assert(is_system_prompt(all[0]));
    }
}

/// The history followed by the new messages closes what is sent, whole and in order. In front of
/// it stands at most one more message, the system prompt: in a request that is not a
/// sub-agent's and whose history has no system prompt.
pub proof fn law_history_and_new_messages_are_sent(
    history: Seq<MessageView>,
    system_prompt: Seq<char>,
    current: Seq<MessageView>,
    is_sub_agent: bool,
)
    ensures
        ({
            let sent = conversation(history, system_prompt, current, is_sub_agent);
            let count = history.len() + current.len();
            let prompted = exists|i: int|
                0 <= i < history.len() && (trimmed((#[trigger] history[i]).role) == "system"@
                    || trimmed(history[i].role) == "developer"@);
            &&& sent.len() == if is_sub_agent || prompted { count } else { count + 1 }
            &&& sent.skip(sent.len() - count) == history + current
            &&& sent.len() > count ==> {
                &&& sent[0].role == "system"@
                &&& sent[0].content == system_prompt
                &&& sent[0].tool_calls_json is None
                &&& sent[0].tool_results_json is None
                &&& sent[0].thinking is None
                &&& sent[0].thinking_blocks_json is None
            }
        }),
{
    let sent = conversation(history, system_prompt, current, is_sub_agent);
    let count = history.len() + current.len();
    let prompted = exists|i: int|
        0 <= i < history.len() && (trimmed((#[trigger] history[i]).role) == "system"@ || trimmed(
            history[i].role,
        ) == "developer"@);
    assert(prompted == has_system_message(history)) by {
        if has_system_message(history) {
            let i = choose|i: int|
                0 <= i < history.len() && is_system_prompt(#[trigger] history[i]);
            assert(trimmed(history[i].role) == "system"@ || trimmed(history[i].role)
                == "developer"@);
        }
        if prompted {
            let i = choose|i: int|
                0 <= i < history.len() && (trimmed((#[trigger] history[i]).role) == "system"@
                    || trimmed(history[i].role) == "developer"@);
            assert(is_system_prompt(history[i]));
        }
    }
    assert(sent.skip(sent.len() - count) =~= history + current);
}

/// A request that continues after a compaction sends what it brings along behind its first
/// message, whatever that is, as any other request would; and any other request sends what it
/// brings along, normalized.
pub proof fn law_resumed_requests_leave_out_the_first(
    resumed: ContextRequest,
    other: ContextRequest,
    first: MessageView,
    messages: Seq<MessageView>,
)
    requires
        resumed.resume_after_compaction,
        !other.resume_after_compaction,
        !other.context_compaction,
    ensures
        current_messages(resumed, seq![first] + messages) == current_messages(other, messages),
        current_messages(other, messages) == normalized(messages),
        current_messages(resumed, seq![]) == Seq::<MessageView>::empty(),
{
    assert((seq![first] + messages).drop_first() =~= messages);
}

/// A compaction sends one message, whatever the request brings along: the user's instruction
/// for the summary, that of the worktree mode before that of the goal mode.
pub proof fn law_compactions_send_their_instruction(
    request: ContextRequest,
    messages: Seq<MessageView>,
)
    requires
        request.context_compaction,
        !request.resume_after_compaction,
    ensures
        ({
            let sent = current_messages(request, messages);
            &&& sent.len() == 1
            &&& sent[0].role == "user"@
            &&& request.worktree_mode ==> sent[0].content == WORKTREE_HANDOFF_PROMPT@
            &&& !request.worktree_mode && request.goal_mode ==> sent[0].content
                == GOAL_HANDOFF_PROMPT@
            &&& !request.worktree_mode && !request.goal_mode ==> sent[0].content
                == HANDOFF_PROMPT@
            &&& sent[0].tool_calls_json is None
            &&& sent[0].tool_results_json is None
            &&& sent[0].thinking is None
            &&& sent[0].thinking_blocks_json is None
        }),
{
}

/// A sub-agent's request hands on the prompts that are composed of all that it is given; any
/// other request hands on the user's prompts as they are.
pub proof fn law_prompts_that_are_handed_on(
    request: ContextRequest,
    system_prompt: Seq<char>,
    user_system_prompts: Seq<Seq<char>>,
)
    ensures
        !request.is_sub_agent ==> system_prompts(request, system_prompt, user_system_prompts)
            == user_system_prompts,
        request.is_sub_agent ==> system_prompts(request, system_prompt, user_system_prompts)
            == sub_agent_prompts(
            system_prompt,
            user_system_prompts,
            match request.sub_agent_system_prompt {
                Some(own) => Some(own@),
                None => None,
            },
        ),
{
}

/// The system prompt of a conversation is made of all its sources.
pub proof fn law_system_prompt_is_made_of_its_sources(
    sources: ConversationSources,
    is_sub_agent: bool,
)
    ensures
        full_system_prompt(sources, is_sub_agent) == with_sections(
            sources.system_prompt@,
            sources.language_servers@,
            sources.image_generation@,
            sources.memory@,
            is_sub_agent,
        ),
{
}

/// A request passes exactly when what it sends has no more tokens than its profile leaves, as
/// the guard measures it with the limits of that profile; a profile without a context window,
/// or whose window leaves nothing, lets every request pass.
pub proof fn law_requests_pass_within_their_profile(
    request: ContextRequest,
    messages: Seq<MessageView>,
    answers: Answers,
    tokens: spec_fn(Seq<char>) -> nat,
    result: Result<(), RequestError>,
)
    requires
        request_guard_answers(request, messages, answers, result),
        counts_exactly(answers, tokens),
    ensures
        result is Ok <==> {
            let reasoning = if trimmed(request.request_method@) == "chat"@ {
                ReasoningPayload::Text
            } else {
                ReasoningPayload::Blocks
            };
            request.max_context_tokens matches Some(window) ==> {
                let left = window - reserved_tokens(
                    request.max_output_tokens,
                    request.context_compaction,
                ) - (if window / 20 > 8_192 {
                    window / 20
                } else {
                    8_192
                });
                window > 0 && left > 0 ==> request_size(
                    messages,
                    request.supports_vision,
                    reasoning,
                    tokens,
                ) <= left
            }
        },
{
    law_requests_pass_by_their_size(
        answers,
        tokens,
        messages,
        request.max_context_tokens,
        request.max_output_tokens,
        request.auto_compress_threshold,
        request.context_compaction,
        request.supports_vision,
        if trimmed(request.request_method@) == "chat"@ {
            ReasoningPayload::Text
        } else {
            ReasoningPayload::Blocks
        },
        result,
    );
}

/// What a prepared request holds is each of its fields.
pub proof fn law_prepared_requests_hold_their_fields(prepared: PreparedConversationRequest)
    ensures
        prepared@.conversation_id == prepared.conversation_id@,
        prepared@.messages == message_views(prepared.messages@),
        prepared@.current_messages == message_views(prepared.current_messages@),
        prepared@.user_system_prompts == texts(prepared.user_system_prompts@),
{
}

/// The new messages of a request are those of its path.
pub proof fn law_paths_hold_their_messages(messages: Vec<ChatContextMessage>)
    ensures
        RequestPath::Lightweight(messages).messages() == message_views(messages@),
        RequestPath::Conversation(messages).messages() == message_views(messages@),
{
}

} // verus!
