//! Configuration values that the pipeline reads: the operating mode, the
//! line budget, the escalation thresholds, the built-in defaults, and which
//! API key counts.
use vstd::prelude::*;

use crate::text::{chars_of, is_blank, push_str, string_of, trim};

verus! {

/// General operating mode and line budget limits.
/// Controls whether auto-tiering, fast regex clustering, token pruning, or AI summary runs,
/// as well as the maximum output line count for compressed logs.
#[derive(Debug, Clone)]
pub struct GeneralConfig {
    pub mode: String,
    pub max_lines: usize,
}

/// Threshold limits determining when log-squeeze escalates from Tier 1 to Tier 2 (Lingua)
/// or Tier 3 (AI semantic summary) in automatic mode based on line counts and error density.
#[derive(Debug, Clone, Copy)]
pub struct ThresholdsConfig {
    pub min_lines_for_ai: usize,
    pub min_lines_for_lingua: usize,
}

/// The default pipeline mode.
pub fn default_mode() -> (s: String)
    ensures
        s@ == "auto"@,
{
    String::from_str("auto")
}

/// The default output line budget.
pub fn default_max_lines() -> (n: usize)
    ensures
        n == 200,
{
    200
}

/// The default number of lines from which the AI summary is considered.
pub fn default_min_lines_ai() -> (n: usize)
    ensures
        n == 100,
{
    100
}

/// The default number of lines from which token pruning is considered.
pub fn default_min_lines_lingua() -> (n: usize)
    ensures
        n == 30,
{
    30
}

/// The default of the `enabled` switches.
pub fn default_true() -> (b: bool)
    ensures
        b,
{
    true
}

/// The default OpenAI-compatible endpoint (a local Ollama / LiteLLM).
pub fn default_litellm_endpoint() -> (s: String)
    ensures
        s@ == "http://localhost:11434/v1"@,
{
    String::from_str("http://localhost:11434/v1")
}

/// The default environment variable that holds the API key.
pub fn default_litellm_key_env() -> (s: String)
    ensures
        s@ == "OPENAI_API_KEY"@,
{
    String::from_str("OPENAI_API_KEY")
}

/// The default model name.
pub fn default_litellm_model() -> (s: String)
    ensures
        s@ == "llama3.2"@,
{
    String::from_str("llama3.2")
}

/// The default request timeout in seconds.
pub fn default_timeout() -> (n: u64)
    ensures
        n == 15,
{
    15
}

/// The default completion token limit.
pub fn default_max_tokens() -> (n: u32)
    ensures
        n == 500,
{
    500
}

/// The default compression method.
pub fn default_lingua_method() -> (s: String)
    ensures
        s@ == "auto"@,
{
    String::from_str("auto")
}

impl Default for GeneralConfig {
    fn default() -> (c: Self)
        ensures
            c.mode@ == "auto"@,
            c.max_lines == 200,
    {
        GeneralConfig { mode: default_mode(), max_lines: default_max_lines() }
    }
}

impl Default for ThresholdsConfig {
    fn default() -> (c: Self)
        ensures
            c.min_lines_for_ai == 100,
            c.min_lines_for_lingua == 30,
    {
        ThresholdsConfig {
            min_lines_for_ai: default_min_lines_ai(),
            min_lines_for_lingua: default_min_lines_lingua(),
        }
    }
}

/// A key counts when it is present and not blank.
pub open spec fn usable_key(k: Option<String>) -> bool {
    k matches Some(s) && trim(s@).len() > 0
}

/// The API key for semantic AI requests: the key written in the
/// configuration when it is not blank, else the value of the key's
/// environment variable when that is not blank, else none.
pub fn select_api_key(configured: Option<String>, from_env: Option<String>) -> (k: Option<String>)
    ensures
        usable_key(configured) ==> k == configured,
        !usable_key(configured) && usable_key(from_env) ==> k == from_env,
        !usable_key(configured) && !usable_key(from_env) ==> k is None,
{
    if let Some(c) = configured {
        let cv = chars_of(c.as_str());
        if !is_blank(cv.as_slice()) {
            return Some(c);
        }
    }
    if let Some(e) = from_env {
        let ev = chars_of(e.as_str());
        if !is_blank(ev.as_slice()) {
            return Some(e);
        }
    }
    None
}

/// `base` joined with the relative path `rel` as `PathBuf::join` does on
/// Unix: a `/` goes between them unless `base` is empty or already ends
/// with one.
pub open spec fn join_path(base: Seq<char>, rel: Seq<char>) -> Seq<char> {
    if base.len() == 0 || base.last() == '/' {
        base + rel
    } else {
        base + "/"@ + rel
    }
}

/// Where the configuration file is looked for when no path is given:
/// `.config/log-squeeze/config.toml` under the home directory, or
/// `config.toml` in the working directory when the home is unknown.
pub fn default_config_path(home: Option<String>) -> (p: String)
    ensures
        p@ == match home {
            Some(h) => join_path(h@, ".config/log-squeeze/config.toml"@),
            None => "config.toml"@,
        },
{
    match home {
        Some(h) => {
            let hv = chars_of(h.as_str());
            let mut out: Vec<char> = Vec::new();
            push_str(&mut out, h.as_str());
            if hv.len() > 0 && hv[hv.len() - 1] != '/' {
                push_str(&mut out, "/");
            }
            push_str(&mut out, ".config/log-squeeze/config.toml");
            proof {
                assert(out@ =~= join_path(h@, ".config/log-squeeze/config.toml"@));
            }
            string_of(out.as_slice())
        },
        None => String::from_str("config.toml"),
    }
}

} // verus!
