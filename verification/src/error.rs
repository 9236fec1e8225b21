//! The reasons for which a request is refused before it is sent.
use vstd::prelude::*;
use vstd::string::*;

use crate::text::{decimal, decimal_text, occurs_at};

verus! {

/// The advice for a compaction that exceeds its budget.
pub const START_OVER_ADVICE: &'static str = "The context is too large even for compaction. Start a new conversation, or remove large attachments from recent messages before retrying.";

/// The advice for a request that a compaction can rescue.
pub const COMPACT_ADVICE: &'static str = "Compact the conversation (/compact), start a new conversation, or remove large attachments before retrying.";

/// The advice for a profile that compacts too late, between the budget and its repetition.
pub const THRESHOLD_ADVICE: &'static str = " tokens), so it never fires before the request is rejected. Run /compact manually (compaction reserves only a summary-sized output budget, so it can still pass), then lower the auto-compaction threshold below ";

/// The end of the advice for a profile that compacts too late.
pub const PROFILE_ADVICE: &'static str = " tokens — or reduce max tokens / raise the max context window in that API profile — so it can also fire on its own. Removing attachments will not resolve the conflict.";

/// What a user can do about a request that exceeds its context budget.
#[derive(Clone, Copy, PartialEq, Eq, Debug, Structural)]
pub enum Remedy {
    /// The request is a compaction already: only a smaller context helps.
    StartOver,
    /// Automatic compaction starts above the budget, at this threshold: the profile has to
    /// change.
    LowerThreshold(usize),
    /// Compacting the conversation helps.
    Compact,
}

/// Why a request is refused before it is sent.
#[derive(Clone, Copy, PartialEq, Eq, Debug, Structural)]
pub enum RequestError {
    /// Nothing is left to send.
    ContentRequired,
    /// The request exceeds the context budget of its profile.
    ContextWindow {
        /// The estimated size of the request in tokens.
        estimated: usize,
        /// The tokens that the request may take.
        budget: usize,
        /// The context window of the profile.
        max_context: usize,
        /// The tokens reserved for the answer.
        output_reserve: usize,
        remedy: Remedy,
    },
}

impl Remedy {
    /// The advice in words, given the context budget.
    pub open spec fn advice(self, budget: usize) -> Seq<char> {
        match self {
            Remedy::StartOver => START_OVER_ADVICE@,
            Remedy::LowerThreshold(threshold) => {
                "Automatic compaction cannot help here: its threshold ("@ + decimal(
                    threshold as nat,
                ) + " tokens) is above this guard's hard line ("@ + decimal(budget as nat)
                    + THRESHOLD_ADVICE@
                    + decimal(budget as nat)
                    + PROFILE_ADVICE@
            },
            Remedy::Compact => COMPACT_ADVICE@,
        }
    }

    /// The advice in words, given the context budget.
    pub fn advice_text(&self, budget: usize) -> (r: String)
        ensures
            r@ == self.advice(budget),
    {
        match self {
            Remedy::StartOver => START_OVER_ADVICE.to_owned(),
            Remedy::LowerThreshold(threshold) => {
                let hard_line = decimal_text(budget);
                let mut text = "Automatic compaction cannot help here: its threshold (".to_owned();
                text.append(decimal_text(*threshold).as_str());
                text.append(" tokens) is above this guard's hard line (");
                text.append(hard_line.as_str());
                text.append(THRESHOLD_ADVICE);
                text.append(hard_line.as_str());
                text.append(PROFILE_ADVICE);
                text
            },
            Remedy::Compact => COMPACT_ADVICE.to_owned(),
        }
    }
}

impl RequestError {
    /// The message for the user.
    pub open spec fn message(self) -> Seq<char> {
        match self {
            RequestError::ContentRequired => "Chat message content is required"@,
            RequestError::ContextWindow {
                estimated,
                budget,
                max_context,
                output_reserve,
                remedy,
            } => {
                "Context window guard: the prepared request is about "@ + decimal(
                    estimated as nat,
                ) + " tokens, exceeding the available "@ + decimal(budget as nat)
                    + "-token context budget (maxContextTokens "@ + decimal(max_context as nat)
                    + " minus output reserve "@ + decimal(output_reserve as nat)
                    + " and safety margin). "@ + remedy.advice(budget)
            },
        }
    }

    /// The message for the user.
    pub fn reason(&self) -> (r: String)
        ensures
            r@ == self.message(),
    {
        match self {
            RequestError::ContentRequired => "Chat message content is required".to_owned(),
            RequestError::ContextWindow {
                estimated,
                budget,
                max_context,
                output_reserve,
                remedy,
            } => {
                let mut text = "Context window guard: the prepared request is about ".to_owned();
                text.append(decimal_text(*estimated).as_str());
                text.append(" tokens, exceeding the available ");
                text.append(decimal_text(*budget).as_str());
                text.append("-token context budget (maxContextTokens ");
                text.append(decimal_text(*max_context).as_str());
                text.append(" minus output reserve ");
                text.append(decimal_text(*output_reserve).as_str());
                text.append(" and safety margin). ");
                text.append(remedy.advice_text(*budget).as_str());
                text
            },
        }
    }
}

/// A refusal for the context window names the size of the request, the budget, the window and
/// the reserve, in this order, and closes with the advice.
pub proof fn law_refusals_name_their_numbers(
    estimated: usize,
    budget: usize,
    max_context: usize,
    output_reserve: usize,
    remedy: Remedy,
)
    ensures
        ({
            let message = (RequestError::ContextWindow {
                estimated,
                budget,
                max_context,
                output_reserve,
                remedy,
            }).message();
            let advice = remedy.advice(budget);
            &&& exists|a: int, b: int, c: int, d: int|
                {
                    &&& #[trigger] occurs_at(message, decimal(estimated as nat), a)
                    &&& #[trigger] occurs_at(message, decimal(budget as nat), b)
                    &&& #[trigger] occurs_at(message, decimal(max_context as nat), c)
                    &&& #[trigger] occurs_at(message, decimal(output_reserve as nat), d)
                    &&& a + decimal(estimated as nat).len() <= b
                    &&& b + decimal(budget as nat).len() <= c
                    &&& c + decimal(max_context as nat).len() <= d
                    &&& d + decimal(output_reserve as nat).len() <= message.len() - advice.len()
                }
            &&& occurs_at(message, advice, message.len() - advice.len())
        }),
{
    let message = (RequestError::ContextWindow {
        estimated,
        budget,
        max_context,
        output_reserve,
        remedy,
    }).message();
    let advice = remedy.advice(budget);
    let size = decimal(estimated as nat);
    let limit = decimal(budget as nat);
    let window = decimal(max_context as nat);
    let reserve = decimal(output_reserve as nat);
    let a = "Context window guard: the prepared request is about "@.len() as int;
    let b = a + size.len() + " tokens, exceeding the available "@.len();
    let c = b + limit.len() + "-token context budget (maxContextTokens "@.len();
    let d = c + window.len() + " minus output reserve "@.len();
    assert(message.subrange(a, a + size.len()) =~= size);
    assert(message.subrange(b, b + limit.len()) =~= limit);
    assert(message.subrange(c, c + window.len()) =~= window);
    assert(message.subrange(d, d + reserve.len()) =~= reserve);
    assert(occurs_at(message, size, a));
    assert(occurs_at(message, limit, b));
    assert(occurs_at(message, window, c));
    assert(occurs_at(message, reserve, d));
    assert(message.subrange(message.len() - advice.len(), message.len() as int) =~= advice);
}

/// The advice to lower a threshold names the threshold, and the budget behind it, twice.
pub proof fn law_threshold_advice_names_its_numbers(threshold: usize, budget: usize)
    ensures
        ({
            let advice = Remedy::LowerThreshold(threshold).advice(budget);
            exists|a: int, b: int, c: int|
                {
                    &&& #[trigger] occurs_at(advice, decimal(threshold as nat), a)
                    &&& #[trigger] occurs_at(advice, decimal(budget as nat), b)
                    &&& #[trigger] occurs_at(advice, decimal(budget as nat), c)
                    &&& a + decimal(threshold as nat).len() <= b
                    &&& b + decimal(budget as nat).len() <= c
                }
        }),
{
    let advice = Remedy::LowerThreshold(threshold).advice(budget);
    let late = decimal(threshold as nat);
    let limit = decimal(budget as nat);
    let a = "Automatic compaction cannot help here: its threshold ("@.len() as int;
    let b = a + late.len() + " tokens) is above this guard's hard line ("@.len();
    let c = b + limit.len() + THRESHOLD_ADVICE@.len();
    assert(advice.subrange(a, a + late.len()) =~= late);
    assert(advice.subrange(b, b + limit.len()) =~= limit);
    assert(advice.subrange(c, c + limit.len()) =~= limit);
    assert(occurs_at(advice, late, a));
    assert(occurs_at(advice, limit, b));
    assert(occurs_at(advice, limit, c));
}

} // verus!
