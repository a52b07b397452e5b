//! The decisions of the adaptive pipeline between its tiers. The program
//! performs each step (reading input, running a tier, calling the model)
//! and asks these functions what comes next.
use vstd::prelude::*;

use crate::config::ThresholdsConfig;
use crate::text::{ascii_lower, chars_of, is_blank, lower_ascii, same_chars, trim};

verus! {

/// What to do once tier 1 has run.
#[derive(Debug, PartialEq, Eq, Structural)]
pub enum FastRoute {
    /// Print the statistics and events as JSON.
    Json,
    /// Print the tier-1 report.
    PrintFast,
    /// Ask the model for a summary; print the tier-1 report if that fails.
    ForcedAi,
    /// Automatic escalation: try token pruning first when `try_lingua`, then
    /// the model summary when `try_ai`, and print the tier-1 report when
    /// neither gave a result.
    Auto { try_lingua: bool, try_ai: bool },
}

/// Where tier 1 leads, given the lowercased mode.
pub open spec fn fast_route(
    mode: Seq<char>,
    json_output: bool,
    summary_only: bool,
    looks_like_code: bool,
    total_lines: nat,
    errors_and_warns: nat,
    thresholds: ThresholdsConfig,
    lingua_enabled: bool,
    litellm_enabled: bool,
) -> FastRoute {
    if json_output {
        FastRoute::Json
    } else if mode == "fast"@ || summary_only {
        FastRoute::PrintFast
    } else if mode == "ai"@ {
        FastRoute::ForcedAi
    } else {
        FastRoute::Auto {
            try_lingua: looks_like_code && total_lines >= thresholds.min_lines_for_lingua
                && lingua_enabled,
            try_ai: litellm_enabled && total_lines >= thresholds.min_lines_for_ai
                && errors_and_warns > 0,
        }
    }
}

fn mode_is(mode: &[char], name: &str) -> (b: bool)
    ensures
        b == (mode@ == name@),
{
    let n = chars_of(name);
    same_chars(mode, n.as_slice())
}

/// Decides where tier 1 leads. The mode is compared case-insensitively
/// (ASCII).
pub fn route_after_fast(
    mode: &str,
    json_output: bool,
    summary_only: bool,
    looks_like_code: bool,
    total_lines: usize,
    errors_and_warns: usize,
    thresholds: &ThresholdsConfig,
    lingua_enabled: bool,
    litellm_enabled: bool,
) -> (r: FastRoute)
    ensures
        r == fast_route(
            ascii_lower(mode@),
            json_output,
            summary_only,
            looks_like_code,
            total_lines as nat,
            errors_and_warns as nat,
            *thresholds,
            lingua_enabled,
            litellm_enabled,
        ),
{
    let mv = chars_of(mode);
    let m = lower_ascii(mv.as_slice());
    if json_output {
        FastRoute::Json
    } else if mode_is(m.as_slice(), "fast") || summary_only {
        FastRoute::PrintFast
    } else if mode_is(m.as_slice(), "ai") {
        FastRoute::ForcedAi
    } else {
        FastRoute::Auto {
            try_lingua: looks_like_code && total_lines >= thresholds.min_lines_for_lingua
                && lingua_enabled,
            try_ai: litellm_enabled && total_lines >= thresholds.min_lines_for_ai
                && errors_and_warns > 0,
        }
    }
}

/// In mode `lingua` token pruning runs before tier 1 (mode compared
/// case-insensitively, ASCII).
pub fn runs_lingua_first(mode: &str) -> (b: bool)
    ensures
        b == (ascii_lower(mode@) == "lingua"@),
{
    let mv = chars_of(mode);
    let m = lower_ascii(mv.as_slice());
    mode_is(m.as_slice(), "lingua")
}

/// Input that is nothing but whitespace produces no output at all.
pub fn is_blank_input(input: &str) -> (b: bool)
    ensures
        b == (trim(input@).len() == 0),
{
    let v = chars_of(input);
    is_blank(v.as_slice())
}

} // verus!
