//! Tier 1 masking: dynamic entities of a log line (timestamps, addresses,
//! identifiers, measurements, numbers) are replaced by fixed tokens so that
//! lines that differ only in them share one template.
//!
//! The matching itself is done by the `regex` crate.
use vstd::prelude::*;

pub use crate::level::{detect_level, is_stack_trace_line, LogLevel};
pub use crate::squeeze::{run_fast_squeeze, EventCluster, FastSqueezeResult, SqueezeStats};

verus! {

#[verifier::external_type_specification]
#[verifier::external_body]
pub struct ExRegex(regex::Regex);

/// Whether `regex::Regex::new` accepts `pattern`: the pattern parses and the
/// compiled program stays within the crate's default size limit.
pub uninterp spec fn regex_compiles(pattern: Seq<char>) -> bool;

/// What `regex::Regex::replace_all` returns for a regex compiled from
/// `pattern`, searching `haystack` and replacing every non-overlapping
/// match by `replacement` (with `$name` group expansion).
pub uninterp spec fn regex_replace_all(
    pattern: Seq<char>,
    haystack: Seq<char>,
    replacement: Seq<char>,
) -> Seq<char>;

/// A regular expression together with the text it was compiled from.
/// Values are only made by `compile_pattern`, so `regex` is always the
/// compilation of `source`.
pub struct CompiledPattern {
    source: String,
    regex: regex::Regex,
}

/// Calls `regex::Regex::new(source)`. Trusted: the result is `Some` exactly
/// when the crate accepts the pattern (named `regex_compiles`), and a
/// `Some` keeps the source text next to the compiled regex.
#[verifier::external_body]
fn compile_pattern(source: &str) -> (res: Option<CompiledPattern>)
    ensures
        res is Some <==> regex_compiles(source@),
        res matches Some(p) ==> p.source@ == source@,
{
    match regex::Regex::new(source) {
        Ok(regex) => Some(CompiledPattern { source: source.to_string(), regex }),
        Err(_) => None,
    }
}

/// Calls `regex::Regex::replace_all(haystack, replacement)` on the compiled
/// pattern. Trusted: the result is the value named `regex_replace_all` for
/// the pattern's source, the haystack and the replacement; nothing more is
/// claimed of it.
#[verifier::external_body]
fn replace_all_matches(p: &CompiledPattern, haystack: &str, replacement: &str) -> (res: String)
    ensures
        res@ == regex_replace_all(p.source@, haystack@, replacement@),
{
    p.regex.replace_all(haystack, replacement).into_owned()
}

// Full date and time: ISO 8601 `2026-08-24T13:25:53`, European `24.08.2026 13:25:53`.
pub const PATTERN_FULL_DATE_TIME: &'static str = r"\b(?:\d{4}[-/.]\d{2}[-/.]\d{2}|\d{2}[-/.]\d{2}[-/.]\d{4})[T ]\d{2}:\d{2}:\d{2}(?:[.,]\d+)?(?:Z|[+-]\d{2}:?\d{2})?\b";

// Syslog timestamp with English and Russian month abbreviations.
pub const PATTERN_SYSLOG_TIME: &'static str = r"(?i)\b(?:Jan|Feb|Mar|Apr|May|Jun|Jul|Aug|Sep|Oct|Nov|Dec|Янв|Фев|Мар|Апр|Май|Июн|Июл|Авг|Сен|Окт|Ноя|Дек)[a-яa-z.]*\s+\d{1,2}\s+\d{2}:\d{2}:\d{2}(?:[.,]\d+)?\b";

// Time of day, optionally with fractional seconds.
pub const PATTERN_TIME_ONLY: &'static str = r"\b\d{2}:\d{2}:\d{2}(?:[.,]\d+)?\b";

// Date alone: `2026-08-24` or `24.08.2026`.
pub const PATTERN_DATE_ONLY: &'static str = r"\b(?:\d{4}-\d{2}-\d{2}|\d{2}\.\d{2}\.\d{4})\b";

// UUID (8-4-4-4-12 hex digits).
pub const PATTERN_UUID: &'static str = r"\b[0-9a-fA-F]{8}-[0-9a-fA-F]{4}-[0-9a-fA-F]{4}-[0-9a-fA-F]{4}-[0-9a-fA-F]{12}\b";

// IPv4 address with an optional port.
pub const PATTERN_IPV4: &'static str = r"\b(?:(?:25[0-5]|2[0-4][0-9]|[01]?[0-9][0-9]?)\.){3}(?:25[0-5]|2[0-4][0-9]|[01]?[0-9][0-9]?)(?::\d{1,5})?\b";

// IPv6 address.
pub const PATTERN_IPV6: &'static str = r"\b[0-9a-fA-F]{1,4}(?::[0-9a-fA-F]{1,4}){4,7}\b";

// Hexadecimal memory address.
pub const PATTERN_HEX: &'static str = r"\b0x[0-9a-fA-F]+\b";

// SHA / MD5 style hashes of 32 to 64 hex digits.
pub const PATTERN_HASH: &'static str = r"\b[0-9a-fA-F]{32,64}\b";

// Durations, latencies and sizes with Latin or Cyrillic units.
pub const PATTERN_DURATION_BYTES: &'static str = r"(?i)\b\d+(?:[.,]\d+)?\s*(?:ms|µs|ns|s|sec|m|min|h|MB|GB|KB|TB|B|MiB|GiB|KiB|мс|мкс|нс|сек|с|мин|ч|МБ|ГБ|КБ|ТБ|Б|байт)\b";

// Any other number.
pub const PATTERN_NUM: &'static str = r"\b\d+\b";

/// Number of masking rules.
pub const MASK_RULE_COUNT: usize = 11;

/// The patterns of the masking rules, in the order they are applied.
pub open spec fn mask_pattern(i: int) -> Seq<char> {
    if i == 0 { PATTERN_FULL_DATE_TIME@ }
    else if i == 1 { PATTERN_SYSLOG_TIME@ }
    else if i == 2 { PATTERN_TIME_ONLY@ }
    else if i == 3 { PATTERN_DATE_ONLY@ }
    else if i == 4 { PATTERN_UUID@ }
    else if i == 5 { PATTERN_IPV4@ }
    else if i == 6 { PATTERN_IPV6@ }
    else if i == 7 { PATTERN_HEX@ }
    else if i == 8 { PATTERN_HASH@ }
    else if i == 9 { PATTERN_DURATION_BYTES@ }
    else { PATTERN_NUM@ }
}

/// The token that replaces the matches of rule `i`.
pub open spec fn mask_token(i: int) -> Seq<char> {
    if i <= 2 { "<TIME>"@ }
    else if i == 3 { "<DATE>"@ }
    else if i == 4 { "<UUID>"@ }
    else if i == 5 { "<IP>"@ }
    else if i == 6 { "<IPV6>"@ }
    else if i == 7 { "<HEX>"@ }
    else if i == 8 { "<HASH>"@ }
    else if i == 9 { "<VAL>"@ }
    else { "<N>"@ }
}

fn pattern_text(i: usize) -> (s: &'static str)
    requires
        i < MASK_RULE_COUNT,
    ensures
        s@ == mask_pattern(i as int),
{
    if i == 0 { PATTERN_FULL_DATE_TIME }
    else if i == 1 { PATTERN_SYSLOG_TIME }
    else if i == 2 { PATTERN_TIME_ONLY }
    else if i == 3 { PATTERN_DATE_ONLY }
    else if i == 4 { PATTERN_UUID }
    else if i == 5 { PATTERN_IPV4 }
    else if i == 6 { PATTERN_IPV6 }
    else if i == 7 { PATTERN_HEX }
    else if i == 8 { PATTERN_HASH }
    else if i == 9 { PATTERN_DURATION_BYTES }
    else { PATTERN_NUM }
}

fn token_text(i: usize) -> (s: &'static str)
    requires
        i < MASK_RULE_COUNT,
    ensures
        s@ == mask_token(i as int),
{
    if i <= 2 { "<TIME>" }
    else if i == 3 { "<DATE>" }
    else if i == 4 { "<UUID>" }
    else if i == 5 { "<IP>" }
    else if i == 6 { "<IPV6>" }
    else if i == 7 { "<HEX>" }
    else if i == 8 { "<HASH>" }
    else if i == 9 { "<VAL>" }
    else { "<N>" }
}

/// A rule as the contracts see it: the pattern it applies (`None` when the
/// pattern did not compile, so the rule does nothing) and its token.
pub type RuleModel = (Option<Seq<char>>, Seq<char>);

/// The rules that `Masker::new` sets up.
pub open spec fn default_rules() -> Seq<RuleModel> {
    Seq::new(
        MASK_RULE_COUNT as nat,
        |i: int|
            (
                if regex_compiles(mask_pattern(i)) {
                    Some(mask_pattern(i))
                } else {
                    None
                },
                mask_token(i),
            ),
    )
}

/// One rule applied to `s`: every match of its pattern becomes its token.
pub open spec fn apply_rule(rule: RuleModel, s: Seq<char>) -> Seq<char> {
    match rule.0 {
        Some(p) => regex_replace_all(p, s, rule.1),
        None => s,
    }
}

/// The rules applied one after another, first to last.
pub open spec fn apply_rules(rules: Seq<RuleModel>, s: Seq<char>) -> Seq<char>
    decreases rules.len(),
{
    if rules.len() == 0 {
        s
    } else {
        apply_rule(rules.last(), apply_rules(rules.drop_last(), s))
    }
}

/// The template of a line: the default rules applied to it.
pub open spec fn mask_line(line: Seq<char>) -> Seq<char> {
    apply_rules(default_rules(), line)
}

struct MaskRule {
    pattern: Option<CompiledPattern>,
    token: String,
}

spec fn rule_model(r: MaskRule) -> RuleModel {
    (
        match r.pattern {
            Some(p) => Some(p.source@),
            None => None,
        },
        r.token@,
    )
}

/// Masker of dynamic log entities.
pub struct Masker {
    rules: Vec<MaskRule>,
}

impl View for Masker {
    type V = Seq<RuleModel>;

    closed spec fn view(&self) -> Seq<RuleModel> {
        self.rules@.map_values(|r: MaskRule| rule_model(r))
    }
}

impl Masker {
    /// Compiles all regular expression patterns used for masking dynamic log entities.
    /// Supports internationalized date/time formats (ISO 8601, European DD.MM.YYYY, Russian months in syslog),
    /// decimal commas in floating-point numbers, and localized unit measurements (ms, sec, мс, МБ).
    /// A pattern that the regex crate refuses gives a rule that changes nothing.
    pub fn new() -> (m: Self)
        ensures
            m@ == default_rules(),
    {
        let mut rules: Vec<MaskRule> = Vec::new();
        let mut i: usize = 0;
        while i < MASK_RULE_COUNT
            invariant
                i <= MASK_RULE_COUNT,
                rules@.len() == i,
                forall|k: int| 0 <= k < i ==> rule_model(#[trigger] rules@[k]) == default_rules()[k],
            decreases MASK_RULE_COUNT - i,
        {
            let pattern = compile_pattern(pattern_text(i));
            let token = String::from_str(token_text(i));
            rules.push(MaskRule { pattern, token });
            i = i + 1;
        }
        let m = Masker { rules };
        proof {
            assert(m@ =~= default_rules());
        }
        m
    }

    /// Replaces high-cardinality dynamic entities in a raw log line with standardized tokens.
    /// Transforms dynamic timestamps, network addresses, identifiers, and measurements into
    /// uniform cluster templates (e.g. `<TIME>`, `<IP>`, `<UUID>`, `<VAL>`, `<N>`).
    pub fn mask(&self, line: &str) -> (res: String)
        ensures
            res@ == apply_rules(self@, line@),
    {
        let mut s = String::from_str(line);
        let mut i: usize = 0;
        while i < self.rules.len()
            invariant
                i <= self.rules@.len(),
                s@ == apply_rules(self@.take(i as int), line@),
            decreases self.rules.len() - i,
        {
            let rule = &self.rules[i];
            proof {
                assert(self@.take(i + 1).drop_last() =~= self@.take(i as int));
                assert(self@[i as int] == rule_model(self.rules@[i as int]));
            }
            match &rule.pattern {
                Some(p) => {
                    s = replace_all_matches(p, s.as_str(), rule.token.as_str());
                },
                None => {},
            }
            i = i + 1;
        }
        proof {
            assert(self@.take(self@.len() as int) =~= self@);
        }
        s
    }
}

impl Default for Masker {
    fn default() -> (m: Self)
        ensures
            m@ == default_rules(),
    {
        Self::new()
    }
}

} // verus!
