//! The choice and the assembly of the built-in system prompt.
use vstd::prelude::*;
use vstd::string::*;

use crate::json::{
    law_field_is_the_first_with_its_key, parse_json, parsed_json, Json, JsonView,
};
use crate::text::{optional_text, trim, trimmed};

verus! {

/// The token budget of a goal in a conversation that does not set one.
pub const DEFAULT_GOAL_TOKEN_BUDGET: i64 = 2_000_000;

/// Which built-in system prompt a conversation gets.
#[derive(Clone, Copy, PartialEq, Eq, Debug, Structural)]
pub enum PromptMode {
    Worktree,
    Workflow,
    Plan,
    Goal,
    Standard,
}

/// The built-in system prompt for the modes that are switched on; the first one counts.
pub fn select_prompt_mode(
    worktree_mode: bool,
    workflow_mode: bool,
    plan_mode: bool,
    goal_mode: bool,
) -> (r: PromptMode)
    ensures
        worktree_mode ==> r == PromptMode::Worktree,
        !worktree_mode && workflow_mode ==> r == PromptMode::Workflow,
        !worktree_mode && !workflow_mode && plan_mode ==> r == PromptMode::Plan,
        !worktree_mode && !workflow_mode && !plan_mode && goal_mode ==> r == PromptMode::Goal,
        !worktree_mode && !workflow_mode && !plan_mode && !goal_mode ==> r == PromptMode::Standard,
{
    if worktree_mode {
        PromptMode::Worktree
    } else if workflow_mode {
        PromptMode::Workflow
    } else if plan_mode {
        PromptMode::Plan
    } else if goal_mode {
        PromptMode::Goal
    } else {
        PromptMode::Standard
    }
}

/// The token budget of a goal: the one that the conversation sets, or the default.
///
/// A conversation without an identifier sets none.
pub fn goal_token_budget(conversation_id: &str, conversation_budget: Option<i64>) -> (r: i64)
    ensures
        r == (match conversation_budget {
            Some(budget) if conversation_id@.len() > 0 => budget,
            _ => DEFAULT_GOAL_TOKEN_BUDGET,
        }),
{
    if conversation_id.is_empty() {
        return DEFAULT_GOAL_TOKEN_BUDGET;
    }
    match conversation_budget {
        Some(budget) => budget,
        None => DEFAULT_GOAL_TOKEN_BUDGET,
    }
}

/// The directory whose language servers a system prompt lists; `None` for a blank one.
pub fn language_server_root(working_directory: &str) -> (r: Option<&str>)
    ensures
        r is Some == (trimmed(working_directory@).len() > 0),
        r is Some ==> r->0@ == working_directory@,
{
    if trim(working_directory).is_empty() {
        None
    } else {
        Some(working_directory)
    }
}

/// A prompt followed by a section, with a blank line between; an empty section adds nothing.
pub open spec fn with_section(prompt: Seq<char>, section: Seq<char>) -> Seq<char> {
    if section.len() == 0 {
        prompt
    } else {
        prompt + "\n\n"@ + section
    }
}

/// A prompt followed by the sections on language servers, image generation and project memory;
/// a sub-agent gets no memory section.
pub open spec fn with_sections(
    prompt: Seq<char>,
    language_servers: Seq<char>,
    image_generation: Seq<char>,
    memory: Seq<char>,
    is_sub_agent: bool,
) -> Seq<char> {
    let informed = with_section(with_section(prompt, language_servers), image_generation);
    if is_sub_agent {
        informed
    } else {
        with_section(informed, memory)
    }
}

fn append_section(prompt: &mut String, section: &str)
    ensures
        final(prompt)@ == with_section(old(prompt)@, section@),
{
    if !section.is_empty() {
        prompt.append("\n\n");
        prompt.append(section);
    }
}

/// The built-in system prompt followed by its sections: language servers, image generation and
/// project memory.
///
/// A sub-agent gets no memory section.
pub fn system_prompt_with_sections(
    prompt: String,
    language_servers: &str,
    image_generation: &str,
    memory: &str,
    is_sub_agent: bool,
) -> (r: String)
    ensures
        r@ == with_sections(
            prompt@,
            language_servers@,
            image_generation@,
            memory@,
            is_sub_agent,
        ),
{
    let mut result = prompt;
    append_section(&mut result, language_servers);
    append_section(&mut result, image_generation);
    if !is_sub_agent {
        append_section(&mut result, memory);
    }
    result
}

/// The shell path that terminal settings name; `None` where they name none or a blank one.
pub open spec fn shell_path_setting(settings: JsonView) -> Option<Seq<char>> {
    match settings.field("shellPath"@) {
        Some(JsonView::Text(path)) if trimmed(path).len() > 0 => Some(path),
        _ => None,
    }
}

/// The shell path that terminal settings name; `None` where they name none or a blank one.
pub fn shell_path_from_settings(settings: &Json) -> (r: Option<String>)
    ensures
        optional_text(r) == shell_path_setting(settings@),
{
    let path = match settings.field("shellPath") {
        Some(value) => match value.as_text() {
            Some(path) => path,
            None => return None,
        },
        None => return None,
    };
    if trim(path).is_empty() {
        return None;
    }
    Some(path.to_owned())
}

/// The shell path in the text of the terminal settings; `None` where the text is no JSON
/// document, or one that names no shell.
pub fn configured_shell_path(settings: &str) -> (r: Option<String>)
    ensures
        optional_text(r) == (match parsed_json(settings@) {
            Some(document) => shell_path_setting(document),
            None => None,
        }),
{
    match parse_json(settings) {
        Some(document) => shell_path_from_settings(&document),
        None => None,
    }
}

/// A system prompt starts with the built-in prompt and goes on with the sections that are not
/// empty, in order, each behind a blank line. A sub-agent's leaves out the memory.
pub proof fn law_sections_follow_the_prompt(
    prompt: Seq<char>,
    language_servers: Seq<char>,
    image_generation: Seq<char>,
    memory: Seq<char>,
    is_sub_agent: bool,
)
    ensures
        ({
            let whole = with_sections(
                prompt,
                language_servers,
                image_generation,
                memory,
                is_sub_agent,
            );
            let gap = |section: Seq<char>| if section.len() > 0 { 2 + section.len() } else { 0 };
            let first = prompt.len() as int;
            let second = first + gap(language_servers);
            let third = second + gap(image_generation);
            let end = third + if is_sub_agent { 0 } else { gap(memory) as int };
            &&& whole.len() == end
            &&& whole.subrange(0, first) == prompt
            &&& language_servers.len() > 0 ==> whole.subrange(first, second) == "\n\n"@
                + language_servers
            &&& image_generation.len() > 0 ==> whole.subrange(second, third) == "\n\n"@
                + image_generation
            &&& memory.len() > 0 && !is_sub_agent ==> whole.subrange(third, end) == "\n\n"@
                + memory
        }),
{
    reveal_strlit("\n\n");
    let whole = with_sections(prompt, language_servers, image_generation, memory, is_sub_agent);
    let gap = |section: Seq<char>| if section.len() > 0 { 2 + section.len() } else { 0 };
    let first = prompt.len() as int;
    let second = first + gap(language_servers);
    let third = second + gap(image_generation);
    let end = third + if is_sub_agent { 0 } else { gap(memory) as int };
    assert(whole.len() == end);
    assert(whole.subrange(0, first) =~= prompt);
    if language_servers.len() > 0 {
        assert(whole.subrange(first, second) =~= "\n\n"@ + language_servers);
    }
    if image_generation.len() > 0 {
        assert(whole.subrange(second, third) =~= "\n\n"@ + image_generation);
    }
    if memory.len() > 0 && !is_sub_agent {
        assert(whole.subrange(third, end) =~= "\n\n"@ + memory);
    }
}

/// A shell path is configured exactly when the settings are an object whose first `shellPath`
/// is a text that is not blank, and it is that text as it stands.
pub proof fn law_shell_path_is_the_text_configured(
    fields: Seq<(Seq<char>, JsonView)>,
    i: int,
    path: Seq<char>,
)
    requires
        0 <= i < fields.len(),
        fields[i].0 == "shellPath"@,
        forall|j: int| 0 <= j < i ==> (#[trigger] fields[j]).0 != "shellPath"@,
    ensures
        shell_path_setting(JsonView::Object(fields)) == Some(path) <==> fields[i].1
            == JsonView::Text(path) && trimmed(path).len() > 0,
{
    law_field_is_the_first_with_its_key(JsonView::Object(fields), "shellPath"@);
}

} // verus!
