//! Prompts, images, the phases of a request, and the text and JSON primitives.
use chat_context::context::{
    admit_request, conversation_messages, finish_request, join_conversation, lightweight_request,
    select_current_messages, select_system_prompts, ContextRequest, ConversationSources,
    RequestPath, GOAL_HANDOFF_PROMPT, HANDOFF_PROMPT, WORKTREE_HANDOFF_PROMPT,
};
use chat_context::error::{Remedy, RequestError};
use chat_context::guard::TokenCount;
use chat_context::images::{inline_image_texts, persist_images_in_history};
use chat_context::json::{parse_json, Json};
use chat_context::message::ChatContextMessage;
use chat_context::sub_agents::{
    build_sub_agents_section, compose_sub_agent_system_prompts, sub_agent_comms_prompt_section,
    SubAgentConfigRecord,
};
use chat_context::system_prompt::{
    configured_shell_path, goal_token_budget, language_server_root, select_prompt_mode,
    shell_path_from_settings, system_prompt_with_sections, PromptMode,
};
use chat_context::text::{
    contains_text, count_occurrences, decimal_text, is_white_space, join_texts, remove_enclosed,
    trim,
};

fn message(role: &str, content: &str) -> ChatContextMessage {
    ChatContextMessage::plain(role, content.to_string())
}

fn request() -> ContextRequest {
    ContextRequest {
        resume_after_compaction: false,
        context_compaction: false,
        skip_context: false,
        worktree_mode: false,
        workflow_mode: false,
        plan_mode: false,
        goal_mode: false,
        is_sub_agent: false,
        sub_agent_system_prompt: None,
        max_context_tokens: None,
        max_output_tokens: None,
        auto_compress_threshold: None,
        supports_vision: false,
        request_method: "chat".to_string(),
    }
}

fn count_characters(text: &str, limit: usize) -> TokenCount {
    let counted = text.chars().count();
    TokenCount { counted, exceeded: counted > limit, estimated_total: counted }
}

fn contents(messages: &[ChatContextMessage]) -> Vec<&str> {
    messages.iter().map(|message| message.content.as_str()).collect()
}

#[test]
fn white_space_agrees_with_char() {
    for code in 0..=0x10ffff_u32 {
        if let Some(c) = char::from_u32(code) {
            assert_eq!(is_white_space(c), c.is_whitespace(), "{code:x}");
        }
    }
}

#[test]
fn trim_agrees_with_str() {
    for text in ["", " ", "a", " a", "a ", "\u{a0} a b\n\u{2003}", "\u{200b}x\u{200b}", "é\u{85}"] {
        assert_eq!(trim(text), text.trim());
    }
}

#[test]
fn occurrences_agree_with_str() {
    for text in ["", "aa", "aaa", "aaaa", "abab", "xaax", "aaé"] {
        assert_eq!(count_occurrences(text, "aa"), text.matches("aa").count());
        assert_eq!(contains_text(text, "aa"), text.contains("aa"));
    }
}

#[test]
fn decimals_agree_with_display() {
    for value in [0, 7, 10, 99, 100, 1_000_001, usize::MAX] {
        assert_eq!(decimal_text(value), value.to_string());
    }
}

#[test]
fn joining_puts_separators_between() {
    let parts = |list: &[&str]| list.iter().map(|part| part.to_string()).collect::<Vec<_>>();
    assert_eq!(join_texts(&parts(&[]), ", "), "");
    assert_eq!(join_texts(&parts(&["a"]), ", "), "a");
    assert_eq!(join_texts(&parts(&["a", "", "c"]), ", "), "a, , c");
}

fn render(json: &Json) -> String {
    match json {
        Json::Null => "null".to_string(),
        Json::Bool(flag) => flag.to_string(),
        Json::Number(text) => text.clone(),
        Json::Text(text) => format!("'{text}'"),
        Json::Array(items) => {
            format!("[{}]", items.iter().map(render).collect::<Vec<_>>().join(","))
        }
        Json::Object(fields) => format!(
            "{{{}}}",
            fields
                .iter()
                .map(|(key, item)| format!("{key}:{}", render(item)))
                .collect::<Vec<_>>()
                .join(",")
        ),
    }
}

#[test]
fn json_documents_are_read_as_they_stand() {
    let document = parse_json(r#" {"a":[null,true,-1,18446744073709551615,1.5,"x\n"],"b":{}} "#);
    let document = document.unwrap();
    let rendered = "{a:[null,true,-1,18446744073709551615,1.5,'x\n'],b:{}}";
    assert_eq!(render(&document), rendered);
    assert_eq!(render(&document.clone()), rendered);
    assert!(document.field("a").unwrap().has_entries());
    assert!(document.field("c").is_none());
    assert!(document.field("b").unwrap().as_text().is_none());
    assert!(parse_json("{").is_none());
    assert!(parse_json("").is_none());
    assert_eq!(render(&parse_json(r#"{"k":1,"k":2}"#).unwrap()), "{k:2}");
}

#[test]
fn enclosed_texts_are_removed() {
    assert_eq!(remove_enclosed("é<<a>>ü<<>><<b<<c>>d>>", "<<", ">>"), "éü<<bd>>");
    assert_eq!(remove_enclosed("<<a b>><<c>>", "<<", ">>"), "<<a b>>");
    assert_eq!(remove_enclosed("a<b>>c", "<<", ">>"), "a<b>>c");
    assert_eq!(remove_enclosed("a<<b>", "<<", ">>"), "a<<b>");
    assert_eq!(remove_enclosed("", "<<", ">>"), "");
}

#[test]
fn new_messages_of_a_request() {
    let messages = vec![message("user", " summary "), message("user", " "), message("user", "task")];
    let mut asked = request();
    assert_eq!(contents(&select_current_messages(&asked, &messages)), vec!["summary", "task"]);
    asked.context_compaction = true;
    let compaction = select_current_messages(&asked, &messages);
    assert_eq!(contents(&compaction), vec![HANDOFF_PROMPT]);
    assert_eq!(compaction[0].role, "user");
    asked.goal_mode = true;
    assert_eq!(contents(&select_current_messages(&asked, &[])), vec![GOAL_HANDOFF_PROMPT]);
    asked.worktree_mode = true;
    assert_eq!(contents(&select_current_messages(&asked, &[])), vec![WORKTREE_HANDOFF_PROMPT]);
    asked.resume_after_compaction = true;
    assert_eq!(contents(&select_current_messages(&asked, &messages)), vec!["task"]);
    assert!(select_current_messages(&asked, &[]).is_empty());
    let blank_first = vec![message("user", " "), message("user", " task ")];
    assert_eq!(contents(&select_current_messages(&asked, &blank_first)), vec!["task"]);
}

#[test]
fn a_request_needs_new_messages() {
    let mut asked = request();
    let take_in = |asked: &ContextRequest, messages: Vec<ChatContextMessage>| {
        admit_request(asked, messages, &Vec::new(), count_characters)
    };
    match take_in(&asked, Vec::new()) {
        Err(error) => assert_eq!(error, RequestError::ContentRequired),
        Ok(_) => panic!("a request without messages must be refused"),
    }
    match take_in(&asked, vec![message("user", "hi")]) {
        Ok(RequestPath::Conversation(messages)) => assert_eq!(contents(&messages), vec!["hi"]),
        _ => panic!("the request must join its conversation"),
    }
    asked.resume_after_compaction = true;
    match take_in(&asked, Vec::new()) {
        Ok(RequestPath::Conversation(messages)) => assert!(messages.is_empty()),
        _ => panic!("a resumed request may have no messages"),
    }
}

#[test]
fn lightweight_requests_stand_alone() {
    let mut asked = request();
    asked.skip_context = true;
    asked.max_context_tokens = Some(8_192 + 20_000 + 10);
    asked.max_output_tokens = Some(20_000);
    let take_in = |asked: &ContextRequest, content: &str, stored: Vec<String>| {
        admit_request(asked, vec![message("user", content)], &stored, count_characters)
    };
    match take_in(&asked, "12345678901", Vec::new()) {
        Err(RequestError::ContextWindow { estimated, budget, .. }) => {
            assert_eq!((estimated, budget), (11, 10));
        }
        _ => panic!("the request must be refused"),
    }
    match take_in(&asked, "long @@image:data:text@@", vec!["short".to_string()]) {
        Ok(RequestPath::Lightweight(messages)) => {
            assert_eq!(contents(&messages), vec!["short"]);
            let prepared = lightweight_request(messages);
            assert_eq!(prepared.conversation_id, "");
            assert_eq!(contents(&prepared.messages), vec!["short"]);
            assert_eq!(contents(&prepared.current_messages), vec!["short"]);
            assert!(prepared.user_system_prompts.is_empty());
        }
        _ => panic!("the request must be sent alone"),
    }
    asked.context_compaction = true;
    assert!(take_in(&asked, &"x".repeat(3_626), Vec::new()).is_ok());
    match take_in(&asked, &"x".repeat(3_627), Vec::new()) {
        Err(RequestError::ContextWindow { budget, output_reserve, remedy, .. }) => {
            assert_eq!((budget, output_reserve), (3_626, 16_384));
            assert_eq!(remedy, Remedy::StartOver);
        }
        _ => panic!("the compaction must be refused"),
    }
}

#[test]
fn conversations_are_joined() {
    let join = |is_sub_agent: bool| {
        let mut asked = request();
        asked.is_sub_agent = is_sub_agent;
        let sources = ConversationSources {
            history: vec![message("user", "old @@image:data:1@@")],
            stored: vec!["old @@image:upload/1@@".to_string()],
            system_prompt: "prompt".to_string(),
            language_servers: String::new(),
            image_generation: "images".to_string(),
            memory: "memory".to_string(),
            user_system_prompts: vec!["mine".to_string()],
        };
        join_conversation(&asked, sources, &vec![message("user", "new")])
    };
    let main = join(false);
    assert_eq!(
        contents(&main.messages),
        vec!["prompt\n\nimages\n\nmemory", "old @@image:upload/1@@", "new"]
    );
    assert_eq!(main.user_system_prompts, vec!["mine".to_string()]);
    let sub_agent = join(true);
    assert_eq!(contents(&sub_agent.messages), vec!["old @@image:upload/1@@", "new"]);
    assert_eq!(
        sub_agent.user_system_prompts,
        vec![
            "prompt\n\nimages".to_string(),
            "mine".to_string(),
            sub_agent_comms_prompt_section(),
        ]
    );
}

#[test]
fn conversations_get_one_system_message() {
    let current = vec![message("user", "new")];
    let all = conversation_messages(
        vec![message("user", "old")],
        "prompt".to_string(),
        &current,
        false,
    );
    assert_eq!(contents(&all), vec!["prompt", "old", "new"]);
    assert_eq!(all[0].role, "system");
    let all = conversation_messages(
        vec![message(" developer ", "old")],
        "prompt".to_string(),
        &current,
        false,
    );
    assert_eq!(contents(&all), vec!["old", "new"]);
    let all = conversation_messages(Vec::new(), "prompt".to_string(), &current, true);
    assert_eq!(contents(&all), vec!["new"]);
}

#[test]
fn finished_requests_are_measured() {
    let finish = |is_compaction: bool| {
        let mut asked = request();
        asked.context_compaction = is_compaction;
        asked.max_context_tokens = Some(8_192 + 20_000 + 10);
        asked.max_output_tokens = Some(20_000);
        finish_request(
            &asked,
            "id".to_string(),
            vec![message("user", "old"), message("user", "123456789")],
            vec![message("user", "123456789")],
            vec!["prompt".to_string()],
            count_characters,
        )
    };
    match finish(false) {
        Err(RequestError::ContextWindow { estimated, budget, .. }) => {
            assert_eq!((estimated, budget), (12, 10));
        }
        _ => panic!("the request must be refused"),
    }
    let prepared = finish(true).ok().unwrap();
    assert_eq!(prepared.conversation_id, "id");
    assert_eq!(contents(&prepared.messages), vec!["old", "123456789"]);
    assert_eq!(contents(&prepared.current_messages), vec!["123456789"]);
    assert_eq!(prepared.user_system_prompts, vec!["prompt".to_string()]);
}

#[test]
fn system_prompts_of_a_request() {
    let mut asked = request();
    let mine = || vec!["mine".to_string(), " mine ".to_string()];
    assert_eq!(select_system_prompts(&asked, "builtin", mine()), mine());
    asked.is_sub_agent = true;
    asked.sub_agent_system_prompt = Some(" own ".to_string());
    assert_eq!(
        select_system_prompts(&asked, "builtin", mine()),
        vec![
            "builtin".to_string(),
            "mine".to_string(),
            "own".to_string(),
            sub_agent_comms_prompt_section(),
        ]
    );
}

#[test]
fn sub_agent_prompts_are_distinct() {
    let section = sub_agent_comms_prompt_section();
    assert!(section.starts_with("## Teammate Communication\n\nYou automatically carry two"));
    assert!(section.ends_with("Prefer concise, essential information over full context dumps."));
    let prompts = compose_sub_agent_system_prompts(
        " a ",
        &["".to_string(), "b".to_string(), "a".to_string()],
        Some("\tb\n"),
    );
    assert_eq!(prompts, vec!["a".to_string(), "b".to_string(), section.clone()]);
    assert_eq!(compose_sub_agent_system_prompts("", &[], None), vec![section.clone()]);
    assert_eq!(
        compose_sub_agent_system_prompts("a", &[section.clone()], Some("c")),
        vec!["a".to_string(), "c".to_string(), section]
    );
}

fn agent(agent_id: &str, description: &str, project_id: &str, builtin: bool) -> SubAgentConfigRecord {
    SubAgentConfigRecord {
        agent_id: agent_id.to_string(),
        name: format!(" Name {agent_id}"),
        description: description.to_string(),
        project_id: project_id.to_string(),
        builtin,
    }
}

#[test]
fn sub_agents_of_the_project_come_first() {
    let agents = [
        agent("general", " does all ", "", true),
        agent("review", "global", "", false),
        agent("review", " ", "p1", false),
        agent("other", "", "p2", false),
        agent("plain", "", "", false),
    ];
    assert_eq!(
        build_sub_agents_section(&agents, Some(" p1 ")),
        "- `review` — Name review (project)\n\
         - `general` — Name general: does all (built-in)\n\
         - `plain` — Name plain (global)"
    );
    assert_eq!(
        build_sub_agents_section(&agents, None),
        "- `general` — Name general: does all (built-in)\n\
         - `review` — Name review: global (global)\n\
         - `plain` — Name plain (global)"
    );
    assert_eq!(build_sub_agents_section(&[], Some("p1")), "");
}

#[test]
fn inline_images_are_replaced_in_order() {
    let mut both = message("tool", "x @@image:data:1@@");
    both.tool_results_json = Some("@@image:data:2@@".to_string());
    let mut results = message("tool", "@@image:upload/kept@@");
    results.tool_results_json = Some("y @@image:data:3@@".to_string());
    let messages = vec![both, message("user", "plain"), results];
    let found = inline_image_texts(&messages);
    assert_eq!(found, vec!["x @@image:data:1@@", "@@image:data:2@@", "y @@image:data:3@@"]);
    let stored: Vec<String> = (0..found.len()).map(|i| format!("stored {i}")).collect();
    let rewritten = persist_images_in_history(messages, &stored);
    assert_eq!(contents(&rewritten), vec!["stored 0", "plain", "@@image:upload/kept@@"]);
    assert_eq!(rewritten[0].tool_results_json.as_deref(), Some("stored 1"));
    assert_eq!(rewritten[1].tool_results_json, None);
    assert_eq!(rewritten[2].tool_results_json.as_deref(), Some("stored 2"));
    let unchanged = persist_images_in_history(vec![message("user", "plain")], &Vec::new());
    assert_eq!(contents(&unchanged), vec!["plain"]);
}

#[test]
fn prompt_modes_in_order() {
    assert_eq!(select_prompt_mode(true, true, true, true), PromptMode::Worktree);
    assert_eq!(select_prompt_mode(false, true, true, true), PromptMode::Workflow);
    assert_eq!(select_prompt_mode(false, false, true, true), PromptMode::Plan);
    assert_eq!(select_prompt_mode(false, false, false, true), PromptMode::Goal);
    assert_eq!(select_prompt_mode(false, false, false, false), PromptMode::Standard);
}

#[test]
fn goal_budgets() {
    assert_eq!(goal_token_budget("id", Some(5)), 5);
    assert_eq!(goal_token_budget("id", None), 2_000_000);
    assert_eq!(goal_token_budget("", Some(5)), 2_000_000);
}

#[test]
fn sections_follow_the_prompt() {
    let prompt = |is_sub_agent| {
        system_prompt_with_sections("p".to_string(), "lsp", "", "memory", is_sub_agent)
    };
    assert_eq!(prompt(false), "p\n\nlsp\n\nmemory");
    assert_eq!(prompt(true), "p\n\nlsp");
    assert_eq!(
        system_prompt_with_sections("p".to_string(), "", "images", "", false),
        "p\n\nimages"
    );
    assert_eq!(language_server_root(" /work "), Some(" /work "));
    assert_eq!(language_server_root(" \n"), None);
}

#[test]
fn shell_paths_from_settings() {
    assert_eq!(
        configured_shell_path(r#"{"shellPath":" /bin/zsh","x":1}"#),
        Some(" /bin/zsh".to_string())
    );
    assert_eq!(configured_shell_path(r#"{"shellPath":"  "}"#), None);
    assert_eq!(configured_shell_path(r#"{"shellPath":7}"#), None);
    assert_eq!(configured_shell_path("{}"), None);
    assert_eq!(configured_shell_path("[\"shellPath\"]"), None);
    assert_eq!(configured_shell_path("zsh"), None);
    let settings =
        Json::Object(vec![("shellPath".to_string(), Json::Text("cmd.exe".to_string()))]);
    assert_eq!(shell_path_from_settings(&settings), Some("cmd.exe".to_string()));
}
