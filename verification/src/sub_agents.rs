//! The prompts of sub-agents and the list of sub-agents for the system prompt.
use vstd::prelude::*;
use vstd::string::*;

use crate::text::{
    join_texts, joined, lemma_trimmed_idempotent, lemma_trimmed_not_blank, same_text, texts, trim,
    trimmed,
};

verus! {

/// The heading of what every sub-agent is told about its teammates.
pub const SUB_AGENT_COMMS_HEADING: &'static str = "## Teammate Communication";

/// What every sub-agent is told about the tools for talking to its teammates.
pub const SUB_AGENT_COMMS_RULES: &'static str = r#"

You automatically carry two teammate communication tools scoped to the CURRENT conversation session:
- `sub-agents-listTeammates`: query the sub-agents currently running in the same session. Returns the `conversationId`, `agentId` and `agentName` of each online teammate (you are excluded).
- `sub-agents-sendMessage`: send a message to a teammate that is still running. The message is delivered as a Pending message and the target receives it automatically at the end of its current round; the queued text is prefixed with your identity (name + conversationId) so the recipient always knows where it came from.

Rules:
- Session isolation: only sub-agents spawned by the SAME parent conversation are visible or reachable. Teammates from other conversations are never exposed, and cross-session sends are rejected — do not try to guess other conversations' ids.
- Only send to teammates that are still running: `sub-agents-listTeammates` returns only running teammates, and sending to a finished teammate fails with an error.
- Use these tools to coordinate with parallel teammates (share partial findings, request input, or hand off follow-up work) when the task benefits from collaboration. Prefer concise, essential information over full context dumps."#;

/// The prompt section on teammates: its heading and its rules.
pub open spec fn comms_section() -> Seq<char> {
    SUB_AGENT_COMMS_HEADING@ + SUB_AGENT_COMMS_RULES@
}

/// The prompt section on teammates.
pub fn sub_agent_comms_prompt_section() -> (r: String)
    ensures
        r@ == comms_section(),
{
    let mut section = SUB_AGENT_COMMS_HEADING.to_owned();
    section.append(SUB_AGENT_COMMS_RULES);
    section
}

/// The prompts that can go into a sub-agent's prompt list before the section on teammates, in
/// order.
pub open spec fn prompt_candidates(
    builtin: Seq<char>,
    api_prompts: Seq<Seq<char>>,
    sub_agent_prompt: Option<Seq<char>>,
) -> Seq<Seq<char>> {
    let own = match sub_agent_prompt {
        Some(prompt) => seq![prompt],
        None => seq![],
    };
    seq![builtin] + api_prompts + own
}

/// The candidates that are not blank, trimmed, each at its first occurrence.
pub open spec fn distinct_prompts(candidates: Seq<Seq<char>>) -> Seq<Seq<char>>
    decreases candidates.len(),
{
    if candidates.len() == 0 {
        seq![]
    } else {
        let earlier = distinct_prompts(candidates.drop_last());
        let prompt = trimmed(candidates.last());
        if prompt.len() == 0 || earlier.contains(prompt) {
            earlier
        } else {
            earlier.push(prompt)
        }
    }
}

/// The prompts other than `excluded`, in order.
pub open spec fn prompts_except(prompts: Seq<Seq<char>>, excluded: Seq<char>) -> Seq<Seq<char>> {
    prompts.filter(|prompt: Seq<char>| prompt != excluded)
}

/// The system prompts of a sub-agent: the distinct candidates, and at the end the section on
/// teammates, wherever the candidates hold it.
pub open spec fn sub_agent_prompts(
    builtin: Seq<char>,
    api_prompts: Seq<Seq<char>>,
    sub_agent_prompt: Option<Seq<char>>,
) -> Seq<Seq<char>> {
    let section = trimmed(comms_section());
    prompts_except(
        distinct_prompts(prompt_candidates(builtin, api_prompts, sub_agent_prompt)),
        section,
    ).push(section)
}

/// Whether one of the `prompts` is `prompt`.
fn holds_text(prompts: &Vec<String>, prompt: &str) -> (r: bool)
    ensures
        r == texts(prompts@).contains(prompt@),
{
    let mut i: usize = 0;
    while i < prompts.len()
        invariant
            i <= prompts@.len(),
            forall|k: int| 0 <= k < i ==> texts(prompts@)[k] != prompt@,
        decreases prompts@.len() - i,
    {
        if same_text(prompts[i].as_str(), prompt) {
            assert(texts(prompts@)[i as int] == prompt@);
            return true;
        }
        i += 1;
    }
    false
}

/// Adds a prompt to the list, unless it is blank or in it already.
fn add_prompt(prompts: &mut Vec<String>, candidate: &str, Ghost(earlier): Ghost<Seq<Seq<char>>>)
    requires
        texts(old(prompts)@) == distinct_prompts(earlier),
    ensures
        texts(final(prompts)@) == distinct_prompts(earlier.push(candidate@)),
{
    let prompt = trim(candidate);
    assert(earlier.push(candidate@).drop_last() =~= earlier);
    if prompt.is_empty() || holds_text(prompts, prompt) {
        return;
    }
    let ghost before = texts(prompts@);
    prompts.push(prompt.to_owned());
    assert(texts(prompts@) =~= before.push(prompt@));
}

/// The prompts other than `excluded`, in order.
fn without_prompt(prompts: &Vec<String>, excluded: &str) -> (r: Vec<String>)
    ensures
        texts(r@) == prompts_except(texts(prompts@), excluded@),
{
    let ghost all = texts(prompts@);
    let mut kept: Vec<String> = Vec::new();
    let mut i: usize = 0;
    reveal(Seq::filter);
    assert(texts(kept@) =~= prompts_except(all.take(0), excluded@));
    while i < prompts.len()
        invariant
            i <= prompts@.len(),
            all == texts(prompts@),
            texts(kept@) == prompts_except(all.take(i as int), excluded@),
        decreases prompts@.len() - i,
    {
        proof {
            reveal(Seq::filter);
            assert(all.take(i + 1).drop_last() =~= all.take(i as int));
        }
        if !same_text(prompts[i].as_str(), excluded) {
            let ghost before = texts(kept@);
            kept.push(prompts[i].clone());
            assert(texts(kept@) =~= before.push(all[i as int]));
        }
        i += 1;
    }
    assert(all.take(all.len() as int) =~= all);
    kept
}

/// The ordered list of system prompts for a sub-agent: the built-in prompt, the prompts of the
/// API profile, its own prompt, and always at the end the section on teammates.
///
/// Prompts are trimmed; blank ones and repetitions are left out.
pub fn compose_sub_agent_system_prompts(
    builtin: &str,
    api_prompts: &[String],
    sub_agent_prompt: Option<&str>,
) -> (r: Vec<String>)
    ensures
        texts(r@) == sub_agent_prompts(
            builtin@,
            texts(api_prompts@),
            match sub_agent_prompt {
                Some(prompt) => Some(prompt@),
                None => None,
            },
        ),
{
    let mut prompts: Vec<String> = Vec::new();
    let ghost mut seen: Seq<Seq<char>> = seq![];
    assert(texts(prompts@) =~= seq![]);
    add_prompt(&mut prompts, builtin, Ghost(seen));
    proof {
        seen = seen.push(builtin@);
    }
    let mut i: usize = 0;
    while i < api_prompts.len()
        invariant
            i <= api_prompts@.len(),
            seen =~= seq![builtin@] + texts(api_prompts@).take(i as int),
            texts(prompts@) == distinct_prompts(seen),
        decreases api_prompts@.len() - i,
    {
        add_prompt(&mut prompts, api_prompts[i].as_str(), Ghost(seen));
        proof {
            seen = seen.push(api_prompts@[i as int]@);
        }
        i += 1;
    }
    if let Some(prompt) = sub_agent_prompt {
        add_prompt(&mut prompts, prompt, Ghost(seen));
        proof {
            seen = seen.push(prompt@);
        }
    }
    assert(seen =~= prompt_candidates(
        builtin@,
        texts(api_prompts@),
        match sub_agent_prompt {
            Some(prompt) => Some(prompt@),
            None => None,
        },
    ));
    let text = sub_agent_comms_prompt_section();
    let section = trim(text.as_str());
    let mut composed = without_prompt(&prompts, section);
    let ghost before = texts(composed@);
    composed.push(section.to_owned());
    assert(texts(composed@) =~= before.push(section@));
    composed
}

proof fn lemma_distinct_prompts(candidates: Seq<Seq<char>>)
    ensures
        distinct_prompts(candidates).no_duplicates(),
        forall|i: int|
            0 <= i < distinct_prompts(candidates).len() ==> {
                &&& (#[trigger] distinct_prompts(candidates)[i]).len() > 0
                &&& trimmed(distinct_prompts(candidates)[i]) == distinct_prompts(candidates)[i]
            },
    decreases candidates.len(),
{
    if candidates.len() > 0 {
        lemma_distinct_prompts(candidates.drop_last());
        lemma_trimmed_idempotent(candidates.last());
    }
}

proof fn lemma_distinct_prompts_cover(candidates: Seq<Seq<char>>, i: int)
    requires
        0 <= i < candidates.len(),
        trimmed(candidates[i]).len() > 0,
    ensures
        distinct_prompts(candidates).contains(trimmed(candidates[i])),
    decreases candidates.len(),
{
    let earlier = distinct_prompts(candidates.drop_last());
    let prompt = trimmed(candidates.last());
    if i == candidates.len() - 1 {
        if !earlier.contains(prompt) {
            assert(earlier.push(prompt).last() == prompt);
        }
    } else {
        assert(candidates.drop_last()[i] == candidates[i]);
        lemma_distinct_prompts_cover(candidates.drop_last(), i);
        let k = earlier.index_of(trimmed(candidates[i]));
        if distinct_prompts(candidates) != earlier {
            assert(earlier.push(prompt)[k] == trimmed(candidates[i]));
        }
    }
}

/// What is kept of distinct prompts is distinct, and nothing but what is to be kept is.
proof fn lemma_kept_prompts(prompts: Seq<Seq<char>>, excluded: Seq<char>)
    requires
        prompts.no_duplicates(),
    ensures
        ({
            let kept = prompts_except(prompts, excluded);
            &&& kept.no_duplicates()
            &&& forall|prompt: Seq<char>| #[trigger]
                kept.contains(prompt) <==> prompts.contains(prompt) && prompt != excluded
        }),
    decreases prompts.len(),
{
    reveal(Seq::filter);
    let kept = prompts_except(prompts, excluded);
    if prompts.len() > 0 {
        let earlier = prompts.drop_last();
        let last = prompts.last();
        lemma_kept_prompts(earlier, excluded);
        let kept_earlier = prompts_except(earlier, excluded);
        assert(prompts =~= earlier.push(last));
        assert(!earlier.contains(last));
        assert forall|prompt: Seq<char>| #[trigger] kept.contains(prompt) <==> prompts.contains(
            prompt,
        ) && prompt != excluded by {
            assert(prompts.contains(prompt) <==> earlier.contains(prompt) || prompt == last) by {
                lemma_pushed(earlier, last, prompt);
            }
            lemma_pushed(kept_earlier, last, prompt);
            assert(kept_earlier.contains(prompt) <==> earlier.contains(prompt) && prompt
                != excluded);
        }
        assert(!kept_earlier.contains(last));
    }
}

proof fn lemma_pushed(prompts: Seq<Seq<char>>, added: Seq<char>, prompt: Seq<char>)
    ensures
        prompts.push(added).contains(prompt) <==> prompts.contains(prompt) || prompt == added,
{
    if prompts.contains(prompt) {
        let k = prompts.index_of(prompt);
        assert(prompts.push(added)[k] == prompt);
    }
    assert(prompts.push(added)[prompts.len() as int] == added);
}

/// The prompts of a sub-agent are distinct, not blank and trimmed.
pub proof fn law_prompts_are_distinct(
    builtin: Seq<char>,
    api_prompts: Seq<Seq<char>>,
    sub_agent_prompt: Option<Seq<char>>,
)
    ensures
        ({
            let prompts = sub_agent_prompts(builtin, api_prompts, sub_agent_prompt);
            &&& prompts.no_duplicates()
            &&& forall|i: int| #![trigger prompts[i]]
                0 <= i < prompts.len() ==> prompts[i].len() > 0 && trimmed(prompts[i])
                    == prompts[i]
        }),
{
    let distinct = distinct_prompts(prompt_candidates(builtin, api_prompts, sub_agent_prompt));
    let section = trimmed(comms_section());
    let kept = prompts_except(distinct, section);
    let prompts = sub_agent_prompts(builtin, api_prompts, sub_agent_prompt);
    lemma_distinct_prompts(prompt_candidates(builtin, api_prompts, sub_agent_prompt));
    lemma_kept_prompts(distinct, section);
    lemma_section_not_blank();
    lemma_trimmed_idempotent(comms_section());
    assert(!kept.contains(section));
    assert forall|i: int| #![trigger prompts[i]] 0 <= i < prompts.len() implies prompts[i].len()
        > 0 && trimmed(prompts[i]) == prompts[i] by {
        if i < kept.len() {
            assert(kept.contains(kept[i]));
            let k = distinct.index_of(kept[i]);
            assert(distinct[k] == prompts[i]);
        }
    }
}

/// Every candidate that is not blank is among the prompts of a sub-agent.
pub proof fn law_no_prompt_is_lost(
    builtin: Seq<char>,
    api_prompts: Seq<Seq<char>>,
    sub_agent_prompt: Option<Seq<char>>,
    i: int,
)
    requires
        0 <= i < prompt_candidates(builtin, api_prompts, sub_agent_prompt).len(),
        trimmed(prompt_candidates(builtin, api_prompts, sub_agent_prompt)[i]).len() > 0,
    ensures
        sub_agent_prompts(builtin, api_prompts, sub_agent_prompt).contains(
            trimmed(prompt_candidates(builtin, api_prompts, sub_agent_prompt)[i]),
        ),
{
    let candidates = prompt_candidates(builtin, api_prompts, sub_agent_prompt);
    let section = trimmed(comms_section());
    let kept = prompts_except(distinct_prompts(candidates), section);
    lemma_distinct_prompts(candidates);
    lemma_distinct_prompts_cover(candidates, i);
    lemma_kept_prompts(distinct_prompts(candidates), section);
    assert(kept.contains(trimmed(candidates[i])) || trimmed(candidates[i]) == section);
    lemma_pushed(kept, section, trimmed(candidates[i]));
}

/// The section on teammates closes the prompts of a sub-agent, whatever else is configured.
pub proof fn law_teammates_section_closes_the_list(
    builtin: Seq<char>,
    api_prompts: Seq<Seq<char>>,
    sub_agent_prompt: Option<Seq<char>>,
)
    ensures
        sub_agent_prompts(builtin, api_prompts, sub_agent_prompt).len() > 0,
        sub_agent_prompts(builtin, api_prompts, sub_agent_prompt).last() == trimmed(
            comms_section(),
        ),
        trimmed(comms_section()).len() > 0,
{
    lemma_section_not_blank();
}

proof fn lemma_section_not_blank()
    ensures
        trimmed(comms_section()).len() > 0,
{
    reveal_strlit("## Teammate Communication");
    assert(comms_section().first() == '#');
    lemma_trimmed_not_blank(comms_section());
}

/// The configuration of a sub-agent.
#[derive(Debug)]
pub struct SubAgentConfigRecord {
    pub agent_id: String,
    pub name: String,
    pub description: String,
    /// The project that the sub-agent belongs to; empty for one that every project can use.
    pub project_id: String,
    /// Whether the sub-agent comes with the application.
    pub builtin: bool,
}

/// What a [`SubAgentConfigRecord`] holds.
pub struct AgentView {
    pub agent_id: Seq<char>,
    pub name: Seq<char>,
    pub description: Seq<char>,
    pub project_id: Seq<char>,
    pub builtin: bool,
}

impl View for SubAgentConfigRecord {
    type V = AgentView;

    open spec fn view(&self) -> AgentView {
        AgentView {
            agent_id: self.agent_id@,
            name: self.name@,
            description: self.description@,
            project_id: self.project_id@,
            builtin: self.builtin,
        }
    }
}

/// What a sequence of configurations holds.
pub open spec fn agent_views(configs: Seq<SubAgentConfigRecord>) -> Seq<AgentView> {
    configs.map_values(|config: SubAgentConfigRecord| config@)
}

spec fn agent_ref_views(configs: Seq<&SubAgentConfigRecord>) -> Seq<AgentView> {
    configs.map_values(|config: &SubAgentConfigRecord| config@)
}

/// The project of a conversation; empty for a conversation outside every project.
pub open spec fn current_project(directory_id: Option<Seq<char>>) -> Seq<char> {
    match directory_id {
        Some(directory) => trimmed(directory),
        None => seq![],
    }
}

/// The agents that belong to `project`, in order.
pub open spec fn project_agents(agents: Seq<AgentView>, project: Seq<char>) -> Seq<AgentView>
    decreases agents.len(),
{
    if agents.len() == 0 {
        seq![]
    } else {
        let earlier = project_agents(agents.drop_last(), project);
        let agent = agents.last();
        if agent.project_id.len() > 0 && agent.project_id == project {
            earlier.push(agent)
        } else {
            earlier
        }
    }
}

/// The agents that every project can use, in order.
pub open spec fn global_agents(agents: Seq<AgentView>) -> Seq<AgentView>
    decreases agents.len(),
{
    if agents.len() == 0 {
        seq![]
    } else {
        let earlier = global_agents(agents.drop_last());
        let agent = agents.last();
        if agent.project_id.len() == 0 {
            earlier.push(agent)
        } else {
            earlier
        }
    }
}

/// The agents that `project` can use: its own before the global ones.
pub open spec fn usable_agents(agents: Seq<AgentView>, project: Seq<char>) -> Seq<AgentView> {
    project_agents(agents, project) + global_agents(agents)
}

/// Whether one of the `agents` has the identifier `agent_id`.
pub open spec fn names_agent(agents: Seq<AgentView>, agent_id: Seq<char>) -> bool {
    exists|i: int| 0 <= i < agents.len() && (#[trigger] agents[i]).agent_id == agent_id
}

/// The first agent with each identifier, in order.
pub open spec fn distinct_agents(agents: Seq<AgentView>) -> Seq<AgentView>
    decreases agents.len(),
{
    if agents.len() == 0 {
        seq![]
    } else {
        let earlier = distinct_agents(agents.drop_last());
        if names_agent(earlier, agents.last().agent_id) {
            earlier
        } else {
            earlier.push(agents.last())
        }
    }
}

/// Where an agent comes from, as a suffix.
pub open spec fn scope_tag(agent: AgentView) -> Seq<char> {
    if agent.builtin {
        " (built-in)"@
    } else if agent.project_id.len() == 0 {
        " (global)"@
    } else {
        " (project)"@
    }
}

/// The line for an agent.
pub open spec fn agent_line(agent: AgentView) -> Seq<char> {
    "- `"@ + trimmed(agent.agent_id) + "` — "@ + trimmed(agent.name) + (if trimmed(
        agent.description,
    ).len() > 0 {
        ": "@ + trimmed(agent.description)
    } else {
        seq![]
    }) + scope_tag(agent)
}

/// The lines for agents.
pub open spec fn agent_lines(agents: Seq<AgentView>) -> Seq<Seq<char>> {
    agents.map_values(|agent: AgentView| agent_line(agent))
}

/// The list of the agents that a conversation can use.
pub open spec fn sub_agents_section(agents: Seq<AgentView>, project: Seq<char>) -> Seq<char> {
    joined(agent_lines(distinct_agents(usable_agents(agents, project))), "\n"@)
}

fn render_agent(agent: &SubAgentConfigRecord) -> (r: String)
    ensures
        r@ == agent_line(agent@),
{
    let mut line = "- `".to_owned();
    line.append(trim(agent.agent_id.as_str()));
    line.append("` — ");
    line.append(trim(agent.name.as_str()));
    let description = trim(agent.description.as_str());
    if !description.is_empty() {
        line.append(": ");
        line.append(description);
    }
    let tag = if agent.builtin {
        " (built-in)"
    } else if agent.project_id.as_str().is_empty() {
        " (global)"
    } else {
        " (project)"
    };
    line.append(tag);
    assert(line@ =~= agent_line(agent@));
    line
}

/// The agents that `project` can use: its own before the global ones.
fn collect_usable_agents<'a>(configs: &'a [SubAgentConfigRecord], project: &str) -> (r: Vec<
    &'a SubAgentConfigRecord,
>)
    ensures
        agent_ref_views(r@) == usable_agents(agent_views(configs@), project@),
{
    let ghost views = agent_views(configs@);
    let mut own: Vec<&'a SubAgentConfigRecord> = Vec::new();
    let mut global: Vec<&'a SubAgentConfigRecord> = Vec::new();
    let mut i: usize = 0;
    while i < configs.len()
        invariant
            i <= configs@.len(),
            views == agent_views(configs@),
            agent_ref_views(own@) == project_agents(views.take(i as int), project@),
            agent_ref_views(global@) == global_agents(views.take(i as int)),
        decreases configs@.len() - i,
    {
        let config = &configs[i];
        let ghost own_before = own@;
        let ghost global_before = global@;
        proof {
            assert(views.take(i + 1).drop_last() =~= views.take(i as int));
            assert(views.take(i + 1).last() == config@);
        }
        if config.project_id.as_str().is_empty() {
            global.push(config);
            assert(agent_ref_views(global@) =~= agent_ref_views(global_before).push(config@));
        } else if same_text(config.project_id.as_str(), project) {
            own.push(config);
            assert(agent_ref_views(own@) =~= agent_ref_views(own_before).push(config@));
        }
        i += 1;
    }
    assert(views.take(views.len() as int) =~= views);
    let ghost own_views = agent_ref_views(own@);
    let ghost global_views = agent_ref_views(global@);
    own.append(&mut global);
    assert(agent_ref_views(own@) =~= own_views + global_views);
    own
}

/// Renders the list of the sub-agents that a conversation can use, for the system prompt.
///
/// The agents of the conversation's project come first and override global ones with the same
/// identifier; agents of other projects are left out.
pub fn build_sub_agents_section(
    configs: &[SubAgentConfigRecord],
    directory_id: Option<&str>,
) -> (r: String)
    ensures
        r@ == sub_agents_section(
            agent_views(configs@),
            current_project(
                match directory_id {
                    Some(directory) => Some(directory@),
                    None => None,
                },
            ),
        ),
{
    proof {
        reveal_strlit("");
    }
    let project = match directory_id {
        Some(directory) => trim(directory),
        None => "",
    };
    assert(""@ =~= seq![]);
    let usable = collect_usable_agents(configs, project);
    let ghost views = agent_ref_views(usable@);
    let mut listed: Vec<&SubAgentConfigRecord> = Vec::new();
    let mut lines: Vec<String> = Vec::new();
    let mut i: usize = 0;
    while i < usable.len()
        invariant
            i <= usable@.len(),
            views == agent_ref_views(usable@),
            agent_ref_views(listed@) == distinct_agents(views.take(i as int)),
            texts(lines@) == agent_lines(agent_ref_views(listed@)),
        decreases usable@.len() - i,
    {
        let config = usable[i];
        proof {
            assert(views.take(i + 1).drop_last() =~= views.take(i as int));
            assert(views.take(i + 1).last() == config@);
        }
        if !is_listed(&listed, config.agent_id.as_str()) {
            let ghost listed_before = agent_ref_views(listed@);
            let ghost lines_before = texts(lines@);
            listed.push(config);
            lines.push(render_agent(config));
            proof {
                assert(agent_ref_views(listed@) =~= listed_before.push(config@));
                assert(texts(lines@) =~= lines_before.push(agent_line(config@)));
                assert(agent_lines(agent_ref_views(listed@)) =~= agent_lines(listed_before).push(
                    agent_line(config@),
                ));
            }
        }
        i += 1;
    }
    assert(views.take(views.len() as int) =~= views);
    join_texts(&lines, "\n")
}

fn is_listed(listed: &Vec<&SubAgentConfigRecord>, agent_id: &str) -> (r: bool)
    ensures
        r == names_agent(agent_ref_views(listed@), agent_id@),
{
    let mut i: usize = 0;
    while i < listed.len()
        invariant
            i <= listed@.len(),
            forall|k: int|
                0 <= k < i ==> (#[trigger] agent_ref_views(listed@)[k]).agent_id != agent_id@,
        decreases listed@.len() - i,
    {
        if same_text(listed[i].agent_id.as_str(), agent_id) {
            assert(agent_ref_views(listed@)[i as int].agent_id == agent_id@);
            return true;
        }
        i += 1;
    }
    false
}

/// No identifier is listed twice, and what is listed comes from the agents.
pub proof fn law_agents_are_listed_once(agents: Seq<AgentView>)
    ensures
        forall|i: int, j: int|
            0 <= i < j < distinct_agents(agents).len() ==> (#[trigger] distinct_agents(
                agents,
            )[i]).agent_id != (#[trigger] distinct_agents(agents)[j]).agent_id,
        forall|i: int|
            0 <= i < distinct_agents(agents).len() ==> agents.contains(
                #[trigger] distinct_agents(agents)[i],
            ),
    decreases agents.len(),
{
    if agents.len() > 0 {
        let earlier = agents.drop_last();
        law_agents_are_listed_once(earlier);
        assert forall|i: int| 0 <= i < distinct_agents(agents).len() implies agents.contains(
            #[trigger] distinct_agents(agents)[i],
        ) by {
            if i < distinct_agents(earlier).len() {
                let agent = distinct_agents(earlier)[i];
                assert(earlier.contains(agent));
                let k = choose|k: int| 0 <= k < earlier.len() && earlier[k] == agent;
                assert(agents[k] == agent);
            } else {
                assert(agents[agents.len() - 1] == distinct_agents(agents)[i]);
            }
        }
    }
}

/// The first agent with an identifier is the one listed.
pub proof fn law_first_agent_is_listed(agents: Seq<AgentView>, i: int)
    requires
        0 <= i < agents.len(),
        forall|k: int| 0 <= k < i ==> (#[trigger] agents[k]).agent_id != agents[i].agent_id,
    ensures
        distinct_agents(agents).contains(agents[i]),
    decreases agents.len(),
{
    let earlier = agents.drop_last();
    if i == agents.len() - 1 {
        law_agents_are_listed_once(earlier);
        if names_agent(distinct_agents(earlier), agents[i].agent_id) {
            let k = choose|k: int|
                0 <= k < distinct_agents(earlier).len() && (#[trigger] distinct_agents(
                    earlier,
                )[k]).agent_id == agents[i].agent_id;
            let agent = distinct_agents(earlier)[k];
            assert(earlier.contains(agent));
            let m = choose|m: int| 0 <= m < earlier.len() && earlier[m] == agent;
            assert(agents[m].agent_id != agents[i].agent_id);
        }
        assert(distinct_agents(agents).last() == agents[i]);
    } else {
        assert forall|k: int| 0 <= k < i implies (#[trigger] earlier[k]).agent_id
            != earlier[i].agent_id by {
            assert(agents[k].agent_id != agents[i].agent_id);
        }
        law_first_agent_is_listed(earlier, i);
        let k = choose|k: int|
            0 <= k < distinct_agents(earlier).len() && distinct_agents(earlier)[k] == agents[i];
        assert(distinct_agents(agents)[k] == agents[i]);
    }
}

/// An agent of the conversation's project overrides the global one with its identifier, and no
/// agent of another project is listed.
pub proof fn law_project_overrides_global(agents: Seq<AgentView>, project: Seq<char>)
    ensures
        ({
            let listed = distinct_agents(usable_agents(agents, project));
            forall|i: int| #![trigger listed[i]]
                0 <= i < listed.len() ==> {
                    &&& listed[i].project_id.len() == 0 || listed[i].project_id == project
                    &&& names_agent(project_agents(agents, project), listed[i].agent_id)
                        ==> listed[i].project_id == project && project.len() > 0
                }
        }),
{
    let own = project_agents(agents, project);
    let usable = usable_agents(agents, project);
    let listed = distinct_agents(usable);
    lemma_agent_scopes(agents, project);
    law_agents_are_listed_once(usable);
    assert forall|i: int| #![trigger listed[i]] 0 <= i < listed.len() implies {
        &&& listed[i].project_id.len() == 0 || listed[i].project_id == project
        &&& names_agent(own, listed[i].agent_id) ==> listed[i].project_id == project
            && project.len() > 0
    } by {
        assert(usable.contains(listed[i]));
        let k = choose|k: int| 0 <= k < usable.len() && usable[k] == listed[i];
        if k < own.len() {
            assert(usable[k] == own[k]);
        } else {
            assert(usable[k] == global_agents(agents)[k - own.len()]);
        }
        if names_agent(own, listed[i].agent_id) {
            let m = lemma_first_with_id(own, listed[i].agent_id);
            assert(usable[m] == own[m]);
            assert forall|j: int| 0 <= j < m implies (#[trigger] usable[j]).agent_id
                != usable[m].agent_id by {
                assert(usable[j] == own[j]);
            }
            law_first_agent_is_listed(usable, m);
            let n = choose|n: int| 0 <= n < listed.len() && listed[n] == usable[m];
            if n != i {
                if n < i {
                    assert(listed[n].agent_id != listed[i].agent_id);
                } else {
                    assert(listed[i].agent_id != listed[n].agent_id);
                }
            }
        }
    }
}

proof fn lemma_first_with_id(agents: Seq<AgentView>, agent_id: Seq<char>) -> (first: int)
    requires
        names_agent(agents, agent_id),
    ensures
        0 <= first < agents.len(),
        agents[first].agent_id == agent_id,
        forall|k: int| 0 <= k < first ==> (#[trigger] agents[k]).agent_id != agent_id,
    decreases agents.len(),
{
    let earlier = agents.drop_last();
    if names_agent(earlier, agent_id) {
        let first = lemma_first_with_id(earlier, agent_id);
        assert forall|k: int| 0 <= k < first implies (#[trigger] agents[k]).agent_id
            != agent_id by {
            assert(earlier[k] == agents[k]);
        }
        first
    } else {
        assert forall|k: int| 0 <= k < agents.len() - 1 implies (#[trigger] agents[k]).agent_id
            != agent_id by {
            assert(earlier[k] == agents[k]);
        }
        agents.len() - 1
    }
}

proof fn lemma_agent_scopes(agents: Seq<AgentView>, project: Seq<char>)
    ensures
        forall|i: int|
            0 <= i < project_agents(agents, project).len() ==> (#[trigger] project_agents(
                agents,
                project,
            )[i]).project_id == project && project.len() > 0,
        forall|i: int|
            0 <= i < global_agents(agents).len() ==> (#[trigger] global_agents(
                agents,
            )[i]).project_id.len() == 0,
    decreases agents.len(),
{
    if agents.len() > 0 {
        let earlier = agents.drop_last();
        lemma_agent_scopes(earlier, project);
        assert forall|i: int| 0 <= i < project_agents(agents, project).len() implies (
        #[trigger] project_agents(agents, project)[i]).project_id == project && project.len()
            > 0 by {
            if i < project_agents(earlier, project).len() {
                assert(project_agents(agents, project)[i] == project_agents(earlier, project)[i]);
            }
        }
        assert forall|i: int| 0 <= i < global_agents(agents).len() implies (
        #[trigger] global_agents(agents)[i]).project_id.len() == 0 by {
            if i < global_agents(earlier).len() {
                assert(global_agents(agents)[i] == global_agents(earlier)[i]);
            }
        }
    }
}

/// How many prompts are given for a sub-agent before the section on teammates.
pub open spec fn given_count(api_prompts: Seq<Seq<char>>, sub_agent_prompt: Option<Seq<char>>) -> int {
    1 + api_prompts.len() + if sub_agent_prompt is Some {
        1int
    } else {
        0
    }
}

/// The prompts that are given for a sub-agent, by their place: the built-in prompt, those of the
/// API profile in order, and its own.
pub open spec fn given_prompt(
    builtin: Seq<char>,
    api_prompts: Seq<Seq<char>>,
    sub_agent_prompt: Option<Seq<char>>,
    place: int,
) -> Seq<char> {
    if place == 0 {
        builtin
    } else if place <= api_prompts.len() {
        api_prompts[place - 1]
    } else {
        sub_agent_prompt->0
    }
}

/// A sub-agent gets the built-in prompt, every prompt of its API profile and its own prompt,
/// each trimmed and where it is not blank, and the section on teammates; and it gets no other.
pub proof fn law_every_given_prompt_is_composed(
    builtin: Seq<char>,
    api_prompts: Seq<Seq<char>>,
    sub_agent_prompt: Option<Seq<char>>,
)
    ensures
        ({
            let prompts = sub_agent_prompts(builtin, api_prompts, sub_agent_prompt);
            &&& trimmed(builtin).len() > 0 ==> prompts.contains(trimmed(builtin))
            &&& forall|i: int|
                0 <= i < api_prompts.len() && trimmed(#[trigger] api_prompts[i]).len() > 0
                    ==> prompts.contains(trimmed(api_prompts[i]))
            &&& sub_agent_prompt matches Some(own) ==> trimmed(own).len() > 0
                ==> prompts.contains(trimmed(own))
            &&& forall|k: int|
                0 <= k < prompts.len() ==> {
                    ||| (#[trigger] prompts[k]) == trimmed(comms_section())
                    ||| prompts[k] == trimmed(builtin)
                    ||| exists|i: int|
                        0 <= i < api_prompts.len() && prompts[k] == trimmed(#[trigger] api_prompts[i])
                    ||| sub_agent_prompt matches Some(own) && prompts[k] == trimmed(own)
                }
        }),
{
    let candidates = prompt_candidates(builtin, api_prompts, sub_agent_prompt);
    let prompts = sub_agent_prompts(builtin, api_prompts, sub_agent_prompt);
    let section = trimmed(comms_section());
    let distinct = distinct_prompts(candidates);
    let kept = prompts_except(distinct, section);
    assert(candidates[0] == builtin);
    if trimmed(builtin).len() > 0 {
        law_no_prompt_is_lost(builtin, api_prompts, sub_agent_prompt, 0);
    }
    assert forall|i: int|
        0 <= i < api_prompts.len() && trimmed(#[trigger] api_prompts[i]).len()
            > 0 implies prompts.contains(trimmed(api_prompts[i])) by {
        assert(candidates[i + 1] == api_prompts[i]);
        law_no_prompt_is_lost(builtin, api_prompts, sub_agent_prompt, i + 1);
    }
    if let Some(own) = sub_agent_prompt {
        let place = api_prompts.len() as int + 1;
        assert(candidates[place] == own);
        if trimmed(own).len() > 0 {
            law_no_prompt_is_lost(builtin, api_prompts, sub_agent_prompt, place);
        }
    }
    lemma_distinct_prompts(candidates);
    lemma_kept_prompts(distinct, section);
    assert forall|k: int| 0 <= k < prompts.len() implies {
        ||| (#[trigger] prompts[k]) == section
        ||| prompts[k] == trimmed(builtin)
        ||| exists|i: int|
            0 <= i < api_prompts.len() && prompts[k] == trimmed(#[trigger] api_prompts[i])
        ||| sub_agent_prompt matches Some(own) && prompts[k] == trimmed(own)
    } by {
        if k < kept.len() {
            assert(kept.contains(kept[k]));
            let c = lemma_distinct_prompt_source(candidates, kept[k]);
            if 0 < c <= api_prompts.len() {
                assert(api_prompts[c - 1] == candidates[c]);
            }
        }
    }
}

/// The prompts of a sub-agent keep the order in which they are given: of two prompts other than
/// the section on teammates, the one that is given first is composed first.
pub proof fn law_composed_prompts_keep_their_order(
    builtin: Seq<char>,
    api_prompts: Seq<Seq<char>>,
    sub_agent_prompt: Option<Seq<char>>,
    i: int,
    j: int,
)
    requires
        0 <= i < j < given_count(api_prompts, sub_agent_prompt),
        forall|k: int|
            0 <= k < i ==> trimmed(
                #[trigger] given_prompt(builtin, api_prompts, sub_agent_prompt, k),
            ) != trimmed(given_prompt(builtin, api_prompts, sub_agent_prompt, i)),
        forall|k: int|
            0 <= k < j ==> trimmed(
                #[trigger] given_prompt(builtin, api_prompts, sub_agent_prompt, k),
            ) != trimmed(given_prompt(builtin, api_prompts, sub_agent_prompt, j)),
        trimmed(given_prompt(builtin, api_prompts, sub_agent_prompt, i)).len() > 0,
        trimmed(given_prompt(builtin, api_prompts, sub_agent_prompt, j)).len() > 0,
        trimmed(given_prompt(builtin, api_prompts, sub_agent_prompt, i)) != trimmed(
            comms_section(),
        ),
        trimmed(given_prompt(builtin, api_prompts, sub_agent_prompt, j)) != trimmed(
            comms_section(),
        ),
    ensures
        comes_before(
            sub_agent_prompts(builtin, api_prompts, sub_agent_prompt),
            trimmed(given_prompt(builtin, api_prompts, sub_agent_prompt, i)),
            trimmed(given_prompt(builtin, api_prompts, sub_agent_prompt, j)),
        ),
{
    let candidates = prompt_candidates(builtin, api_prompts, sub_agent_prompt);
    assert(candidates.len() == given_count(api_prompts, sub_agent_prompt));
    assert forall|k: int| 0 <= k < candidates.len() implies #[trigger] candidates[k]
        == given_prompt(builtin, api_prompts, sub_agent_prompt, k) by {}
    let section = trimmed(comms_section());
    let p = trimmed(candidates[i]);
    let q = trimmed(candidates[j]);
    lemma_distinct_prompts_in_order(candidates, i, j);
    lemma_distinct_prompts(candidates);
    lemma_kept_in_order(distinct_prompts(candidates), section, p, q);
    let kept = prompts_except(distinct_prompts(candidates), section);
    lemma_before_stays(kept, section, p, q);
}

/// Whether `first` comes before `second` in `prompts`.
pub open spec fn comes_before(prompts: Seq<Seq<char>>, first: Seq<char>, second: Seq<char>) -> bool {
    exists|a: int, b: int|
        0 <= a < b < prompts.len() && #[trigger] prompts[a] == first && #[trigger] prompts[b]
            == second
}

proof fn lemma_before_stays(
    prompts: Seq<Seq<char>>,
    added: Seq<char>,
    first: Seq<char>,
    second: Seq<char>,
)
    requires
        comes_before(prompts, first, second),
    ensures
        comes_before(prompts.push(added), first, second),
{
    let (a, b) = choose|a: int, b: int|
        0 <= a < b < prompts.len() && #[trigger] prompts[a] == first && #[trigger] prompts[b]
            == second;
    let more = prompts.push(added);
    assert(more[a] == first && more[b] == second);
}

proof fn lemma_before_last(prompts: Seq<Seq<char>>, first: Seq<char>, second: Seq<char>)
    requires
        prompts.contains(first),
    ensures
        comes_before(prompts.push(second), first, second),
{
    let a = prompts.index_of(first);
    let more = prompts.push(second);
    assert(more[a] == first && more[prompts.len() as int] == second);
}

proof fn lemma_distinct_prompt_source(candidates: Seq<Seq<char>>, prompt: Seq<char>) -> (place: int)
    requires
        distinct_prompts(candidates).contains(prompt),
    ensures
        0 <= place < candidates.len(),
        trimmed(candidates[place]) == prompt,
    decreases candidates.len(),
{
    let earlier = distinct_prompts(candidates.drop_last());
    if earlier.contains(prompt) {
        let place = lemma_distinct_prompt_source(candidates.drop_last(), prompt);
        assert(candidates.drop_last()[place] == candidates[place]);
        place
    } else {
        lemma_pushed(earlier, trimmed(candidates.last()), prompt);
        candidates.len() - 1
    }
}

proof fn lemma_distinct_prompts_in_order(candidates: Seq<Seq<char>>, i: int, j: int)
    requires
        0 <= i < j < candidates.len(),
        trimmed(candidates[i]).len() > 0,
        trimmed(candidates[j]).len() > 0,
        forall|k: int| 0 <= k < j ==> trimmed(#[trigger] candidates[k]) != trimmed(candidates[j]),
    ensures
        comes_before(
            distinct_prompts(candidates),
            trimmed(candidates[i]),
            trimmed(candidates[j]),
        ),
    decreases candidates.len(),
{
    let front = candidates.drop_last();
    let earlier = distinct_prompts(front);
    let prompt = trimmed(candidates.last());
    if j == candidates.len() - 1 {
        assert(front[i] == candidates[i]);
        lemma_distinct_prompts_cover(front, i);
        if earlier.contains(prompt) {
            let place = lemma_distinct_prompt_source(front, prompt);
            assert(front[place] == candidates[place]);
        }
        lemma_before_last(earlier, trimmed(candidates[i]), prompt);
    } else {
        assert(front[i] == candidates[i] && front[j] == candidates[j]);
        assert forall|k: int| 0 <= k < j implies trimmed(#[trigger] front[k]) != trimmed(
            front[j],
        ) by {
            assert(front[k] == candidates[k]);
        }
        lemma_distinct_prompts_in_order(front, i, j);
        lemma_before_stays(earlier, prompt, trimmed(candidates[i]), trimmed(candidates[j]));
    }
}

proof fn lemma_kept_in_order(
    prompts: Seq<Seq<char>>,
    excluded: Seq<char>,
    first: Seq<char>,
    second: Seq<char>,
)
    requires
        prompts.no_duplicates(),
        comes_before(prompts, first, second),
        first != excluded,
        second != excluded,
    ensures
        comes_before(prompts_except(prompts, excluded), first, second),
    decreases prompts.len(),
{
    reveal(Seq::filter);
    let (a, b) = choose|a: int, b: int|
        0 <= a < b < prompts.len() && #[trigger] prompts[a] == first && #[trigger] prompts[b]
            == second;
    let front = prompts.drop_last();
    let kept = prompts_except(front, excluded);
    assert(front[a] == first);
    if b == prompts.len() - 1 {
        lemma_kept_prompts(front, excluded);
        assert(front.contains(first));
        assert(kept.contains(first));
        lemma_before_last(kept, first, second);
    } else {
        assert(front[b] == second);
        lemma_kept_in_order(front, excluded, first, second);
        lemma_before_stays(kept, prompts.last(), first, second);
    }
}

/// Whether an agent can be used in a project: it belongs to the project or to none.
pub open spec fn can_be_used(agent: AgentView, project: Seq<char>) -> bool {
    agent.project_id.len() == 0 || agent.project_id == project
}

/// Whether the agent at `i` takes precedence over the one at `j`: an agent of a project over one
/// of none, and of two alike the one that is configured first.
pub open spec fn takes_precedence(agents: Seq<AgentView>, i: int, j: int) -> bool {
    ||| agents[i].project_id.len() > 0 && agents[j].project_id.len() == 0
    ||| (agents[i].project_id.len() > 0 <==> agents[j].project_id.len() > 0) && i < j
}

/// Whether one of the `picked` agents has the identifier of the agent at `i`, and is that agent
/// or takes precedence over it.
pub open spec fn is_represented(agents: Seq<AgentView>, picked: Seq<int>, i: int) -> bool {
    exists|k: int|
        {
            &&& 0 <= k < picked.len()
            &&& agents[#[trigger] picked[k]].agent_id == agents[i].agent_id
            &&& picked[k] == i || takes_precedence(agents, picked[k], i)
        }
}

/// Whether `picked` are the positions of the agents to list: agents that can be used, in order
/// of precedence, no identifier twice, and for every agent that can be used one that has its
/// identifier and is the agent itself or takes precedence over it.
pub open spec fn picks_agents(
    agents: Seq<AgentView>,
    project: Seq<char>,
    picked: Seq<int>,
) -> bool {
    &&& forall|k: int|
        0 <= k < picked.len() ==> 0 <= #[trigger] picked[k] < agents.len() && can_be_used(
            agents[picked[k]],
            project,
        )
    &&& forall|j: int, k: int|
        0 <= j < k < picked.len() ==> {
            &&& takes_precedence(agents, #[trigger] picked[j], #[trigger] picked[k])
            &&& agents[picked[j]].agent_id != agents[picked[k]].agent_id
        }
    &&& forall|i: int|
        0 <= i < agents.len() && can_be_used(agents[i], project) ==> #[trigger] is_represented(
            agents,
            picked,
            i,
        )
}

/// The section on sub-agents has one line for each identifier that a project can use, in order
/// of precedence: the project's own agents before those of no project, and each in the order in
/// which they are configured. The line is that of the agent that takes precedence.
pub proof fn law_section_lists_agents_by_precedence(agents: Seq<AgentView>, project: Seq<char>)
    ensures
        exists|picked: Seq<int>|
            {
                &&& #[trigger] picks_agents(agents, project, picked)
                &&& sub_agents_section(agents, project) == joined(
                    Seq::new(picked.len(), |k: int| agent_line(agents[picked[k]])),
                    "\n"@,
                )
            },
{
    let own = lemma_project_origin(agents, project);
    let global = lemma_global_origin(agents);
    let usable = usable_agents(agents, project);
    let origin = own + global;
    let first = lemma_distinct_agents_origin(usable);
    let listed = distinct_agents(usable);
    let picked = Seq::new(first.len(), |k: int| origin[first[k]]);
    law_agents_are_listed_once(usable);
    lemma_agent_scopes(agents, project);
    assert forall|u: int| 0 <= u < usable.len() implies {
        &&& 0 <= #[trigger] origin[u] < agents.len()
        &&& agents[origin[u]] == usable[u]
    } by {
        if u < own.len() {
            assert(origin[u] == own[u]);
            assert(usable[u] == project_agents(agents, project)[u]);
        } else {
            assert(origin[u] == global[u - own.len()]);
            assert(usable[u] == global_agents(agents)[u - own.len()]);
        }
    }
    assert forall|u: int, v: int| 0 <= u < v < usable.len() implies takes_precedence(
        agents,
        #[trigger] origin[u],
        #[trigger] origin[v],
    ) by {
        if u < own.len() {
            assert(origin[u] == own[u]);
            assert(usable[u] == project_agents(agents, project)[u]);
        } else {
            assert(origin[u] == global[u - own.len()]);
            assert(usable[u] == global_agents(agents)[u - own.len()]);
        }
        if v < own.len() {
            assert(origin[v] == own[v]);
            assert(usable[v] == project_agents(agents, project)[v]);
        } else {
            assert(origin[v] == global[v - own.len()]);
            assert(usable[v] == global_agents(agents)[v - own.len()]);
        }
    }
    assert(picks_agents(agents, project, picked)) by {
        assert forall|k: int| 0 <= k < picked.len() implies 0 <= #[trigger] picked[k]
            < agents.len() && can_be_used(agents[picked[k]], project) by {
            let u = first[k];
            assert(picked[k] == origin[u]);
            if u < own.len() {
                assert(usable[u] == project_agents(agents, project)[u]);
            } else {
                assert(usable[u] == global_agents(agents)[u - own.len()]);
            }
        }
        assert forall|j: int, k: int| 0 <= j < k < picked.len() implies {
            &&& takes_precedence(agents, #[trigger] picked[j], #[trigger] picked[k])
            &&& agents[picked[j]].agent_id != agents[picked[k]].agent_id
        } by {
            assert(first[j] < first[k]);
            assert(picked[j] == origin[first[j]] && picked[k] == origin[first[k]]);
            assert(agents[picked[j]] == listed[j]);
            assert(agents[picked[k]] == listed[k]);
        }
        assert forall|i: int|
            0 <= i < agents.len() && can_be_used(agents[i], project) implies #[trigger] is_represented(
            agents,
            picked,
            i,
        ) by {
            let u = if agents[i].project_id.len() > 0 {
                own.index_of(i)
            } else {
                own.len() + global.index_of(i)
            };
            assert(origin[u] == i) by {
                if agents[i].project_id.len() > 0 {
                    assert(own.contains(i));
                } else {
                    assert(global.contains(i));
                }
            }
            assert(0 <= u < usable.len());
            assert(has_earlier_namesake(usable, first, u));
            let k = choose|k: int|
                {
                    &&& 0 <= k < first.len()
                    &&& usable[#[trigger] first[k]].agent_id == usable[u].agent_id
                    &&& first[k] <= u
                };
            assert(picked[k] == origin[first[k]]);
            if first[k] < u {
                assert(takes_precedence(agents, origin[first[k]], origin[u]));
            }
        }
    }
    let lines = Seq::new(picked.len(), |k: int| agent_line(agents[picked[k]]));
    assert(agent_lines(listed) =~= lines) by {
        assert forall|k: int| 0 <= k < lines.len() implies #[trigger] agent_lines(listed)[k]
            == lines[k] by {
            assert(picked[k] == origin[first[k]]);
            assert(agents[picked[k]] == listed[k]);
        }
    }
}

proof fn lemma_project_origin(agents: Seq<AgentView>, project: Seq<char>) -> (origin: Seq<int>)
    ensures
        origin.len() == project_agents(agents, project).len(),
        forall|k: int|
            0 <= k < origin.len() ==> 0 <= #[trigger] origin[k] < agents.len()
                && agents[origin[k]] == project_agents(agents, project)[k],
        forall|j: int, k: int|
            0 <= j < k < origin.len() ==> #[trigger] origin[j] < #[trigger] origin[k],
        forall|i: int|
            0 <= i < agents.len() && (#[trigger] agents[i]).project_id.len() > 0
                && agents[i].project_id == project ==> origin.contains(i),
    decreases agents.len(),
{
    if agents.len() == 0 {
        seq![]
    } else {
        let front = agents.drop_last();
        let n = agents.len() - 1;
        let earlier = lemma_project_origin(front, project);
        let belongs = agents.last().project_id.len() > 0 && agents.last().project_id == project;
        let origin = if belongs {
            earlier.push(n)
        } else {
            earlier
        };
        assert forall|k: int| 0 <= k < origin.len() implies 0 <= #[trigger] origin[k]
            < agents.len() && agents[origin[k]] == project_agents(agents, project)[k] by {
            if k < earlier.len() {
                assert(origin[k] == earlier[k]);
                assert(front[earlier[k]] == agents[earlier[k]]);
            }
        }
        assert forall|j: int, k: int| 0 <= j < k < origin.len() implies #[trigger] origin[j]
            < #[trigger] origin[k] by {
            assert(origin[j] == earlier[j]);
            if k < earlier.len() {
                assert(origin[k] == earlier[k]);
            }
        }
        assert forall|i: int|
            0 <= i < agents.len() && (#[trigger] agents[i]).project_id.len() > 0
                && agents[i].project_id == project implies origin.contains(i) by {
            if i < n {
                assert(front[i] == agents[i]);
                assert(earlier.contains(i));
                assert(origin[earlier.index_of(i)] == i);
            } else {
                assert(origin[earlier.len() as int] == i);
            }
        }
        origin
    }
}

proof fn lemma_global_origin(agents: Seq<AgentView>) -> (origin: Seq<int>)
    ensures
        origin.len() == global_agents(agents).len(),
        forall|k: int|
            0 <= k < origin.len() ==> 0 <= #[trigger] origin[k] < agents.len()
                && agents[origin[k]] == global_agents(agents)[k],
        forall|j: int, k: int|
            0 <= j < k < origin.len() ==> #[trigger] origin[j] < #[trigger] origin[k],
        forall|i: int|
            0 <= i < agents.len() && (#[trigger] agents[i]).project_id.len() == 0
                ==> origin.contains(i),
    decreases agents.len(),
{
    if agents.len() == 0 {
        seq![]
    } else {
        let front = agents.drop_last();
        let n = agents.len() - 1;
        let earlier = lemma_global_origin(front);
        let origin = if agents.last().project_id.len() == 0 {
            earlier.push(n)
        } else {
            earlier
        };
        assert forall|k: int| 0 <= k < origin.len() implies 0 <= #[trigger] origin[k]
            < agents.len() && agents[origin[k]] == global_agents(agents)[k] by {
            if k < earlier.len() {
                assert(origin[k] == earlier[k]);
                assert(front[earlier[k]] == agents[earlier[k]]);
            }
        }
        assert forall|j: int, k: int| 0 <= j < k < origin.len() implies #[trigger] origin[j]
            < #[trigger] origin[k] by {
            assert(origin[j] == earlier[j]);
            if k < earlier.len() {
                assert(origin[k] == earlier[k]);
            }
        }
        assert forall|i: int|
            0 <= i < agents.len() && (#[trigger] agents[i]).project_id.len()
                == 0 implies origin.contains(i) by {
            if i < n {
                assert(front[i] == agents[i]);
                assert(earlier.contains(i));
                assert(origin[earlier.index_of(i)] == i);
            } else {
                assert(origin[earlier.len() as int] == i);
            }
        }
        origin
    }
}

/// Whether the agent at one of the positions in `first` has the identifier of the agent at `i`,
/// and stands there or before.
spec fn has_earlier_namesake(agents: Seq<AgentView>, first: Seq<int>, i: int) -> bool {
    exists|k: int|
        {
            &&& 0 <= k < first.len()
            &&& agents[#[trigger] first[k]].agent_id == agents[i].agent_id
            &&& first[k] <= i
        }
}

proof fn lemma_distinct_agents_origin(agents: Seq<AgentView>) -> (first: Seq<int>)
    ensures
        first.len() == distinct_agents(agents).len(),
        forall|k: int|
            0 <= k < first.len() ==> 0 <= #[trigger] first[k] < agents.len() && agents[first[k]]
                == distinct_agents(agents)[k],
        forall|j: int, k: int|
            0 <= j < k < first.len() ==> #[trigger] first[j] < #[trigger] first[k],
        forall|i: int| 0 <= i < agents.len() ==> #[trigger] has_earlier_namesake(agents, first, i),
    decreases agents.len(),
{
    if agents.len() == 0 {
        seq![]
    } else {
        let front = agents.drop_last();
        let n = agents.len() - 1;
        let earlier = lemma_distinct_agents_origin(front);
        let listed = distinct_agents(front);
        let known = names_agent(listed, agents.last().agent_id);
        let first = if known {
            earlier
        } else {
            earlier.push(n)
        };
        assert forall|k: int| 0 <= k < first.len() implies 0 <= #[trigger] first[k]
            < agents.len() && agents[first[k]] == distinct_agents(agents)[k] by {
            if k < earlier.len() {
                assert(first[k] == earlier[k]);
                assert(front[earlier[k]] == agents[earlier[k]]);
            }
        }
        assert forall|j: int, k: int| 0 <= j < k < first.len() implies #[trigger] first[j]
            < #[trigger] first[k] by {
            assert(first[j] == earlier[j]);
            if k < earlier.len() {
                assert(first[k] == earlier[k]);
            }
        }
        assert forall|i: int| 0 <= i < agents.len() implies #[trigger] has_earlier_namesake(
            agents,
            first,
            i,
        ) by {
            if i < n {
                assert(front[i] == agents[i]);
                assert(has_earlier_namesake(front, earlier, i));
                let k = choose|k: int|
                    {
                        &&& 0 <= k < earlier.len()
                        &&& front[#[trigger] earlier[k]].agent_id == front[i].agent_id
                        &&& earlier[k] <= i
                    };
                assert(first[k] == earlier[k]);
                assert(agents[first[k]] == front[earlier[k]]);
            } else if known {
                let k = choose|k: int|
                    0 <= k < listed.len() && (#[trigger] listed[k]).agent_id
                        == agents.last().agent_id;
                assert(first[k] == earlier[k]);
                assert(agents[first[k]] == front[earlier[k]]);
            } else {
                assert(first[earlier.len() as int] == n);
            }
        }
        first
    }
}

/// The line of an agent names its identifier and its name, its description where that is not
/// blank, all trimmed, and where the agent comes from.
pub proof fn law_agent_lines_name_the_agent(agent: AgentView)
    ensures
        ({
            let line = agent_line(agent);
            let head = "- `"@ + trimmed(agent.agent_id) + "` — "@ + trimmed(agent.name);
            let described = trimmed(agent.description).len() > 0;
            let middle = if described { 2 + trimmed(agent.description).len() } else { 0 };
            let body = head.len() + middle;
            &&& line.take(head.len() as int) == head
            &&& described ==> line.subrange(head.len() as int, body as int) == ": "@ + trimmed(
                agent.description,
            )
            &&& agent.builtin ==> line.skip(body as int) == " (built-in)"@
            &&& !agent.builtin && agent.project_id.len() == 0 ==> line.skip(body as int)
                == " (global)"@
            &&& !agent.builtin && agent.project_id.len() > 0 ==> line.skip(body as int)
                == " (project)"@
        }),
{
    reveal_strlit(": ");
    let line = agent_line(agent);
    let head = "- `"@ + trimmed(agent.agent_id) + "` — "@ + trimmed(agent.name);
    let described = trimmed(agent.description).len() > 0;
    let middle = if described { 2 + trimmed(agent.description).len() } else { 0 };
    let body = head.len() + middle;
    assert(line.take(head.len() as int) =~= head);
    if described {
        assert(line.subrange(head.len() as int, body as int) =~= ": "@ + trimmed(
            agent.description,
        ));
    }
    assert(line.skip(body as int) =~= scope_tag(agent));
}

/// The project of a conversation is its directory, trimmed; without a directory it has none.
pub proof fn law_projects_are_directories(directory: Seq<char>)
    ensures
        current_project(Some(directory)) == trimmed(directory),
        current_project(None) == Seq::<char>::empty(),
{
}

/// What is held of an agent is each field of its configuration, one agent for one configuration.
pub proof fn law_agents_hold_their_fields(configs: Seq<SubAgentConfigRecord>, i: int)
    requires
        0 <= i < configs.len(),
    ensures
        agent_views(configs).len() == configs.len(),
        ({
            let held = agent_views(configs)[i];
            &&& held == configs[i]@
            &&& held.agent_id == configs[i].agent_id@
            &&& held.name == configs[i].name@
            &&& held.description == configs[i].description@
            &&& held.project_id == configs[i].project_id@
            &&& held.builtin == configs[i].builtin
        }),
{
}

} // verus!
