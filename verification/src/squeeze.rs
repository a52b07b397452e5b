//! Tier 1 stream compression: lines are masked into templates, consecutive
//! occurrences of a template are folded into one event with an occurrence
//! count, stack-trace lines are attached to the error or warning event they
//! follow, and the events are rendered within a line budget.
use vstd::prelude::*;

use crate::level::{
    detect_level_chars, is_error_or_warn_level, is_stack_trace, is_stack_trace_chars, level_name,
    level_of, LogLevel,
};
use crate::masker::{mask_line, Masker};
use vstd::hash_map::StringHashMap;
use crate::text::{
    chars_of, decimal, lines_of, pad_left, push_decimal, push_padded, push_str, split_lines,
    string_of, trim, trim_chars,
};

verus! {

/// Most stack-trace lines that one event keeps.
pub const MAX_STACK_TRACE_LINES: usize = 30;

/// Fewest non-error events that budget sampling leaves room for.
pub const MIN_SAMPLE_BUDGET: usize = 20;

/// Number of templates that the summary lists.
pub const SUMMARY_TOP: usize = 25;

// ---------------------------------------------------------------------------
// Data
// ---------------------------------------------------------------------------

/// A run of consecutive lines that share one template.
#[derive(Debug, Clone)]
pub struct EventCluster {
    pub template: String,
    pub level: LogLevel,
    pub count: usize,
    pub first_example: String,
    pub last_example: String,
    pub stack_trace: Vec<String>,
}

/// Per-level line counts of one run.
#[derive(Debug, Clone)]
pub struct SqueezeStats {
    pub total_lines: usize,
    pub output_lines: usize,
    pub panics: usize,
    pub fatals: usize,
    pub errors: usize,
    pub warnings: usize,
    pub infos: usize,
    pub debugs: usize,
    pub traces: usize,
    pub unknowns: usize,
}

/// What tier 1 produces.
pub struct FastSqueezeResult {
    pub stats: SqueezeStats,
    pub clusters: Vec<EventCluster>,
    /// The rendered report, from the line after the header on
    /// (see `FastSqueezeResult::render_report`).
    pub rendered_output: String,
    pub is_structured_code_heuristic: bool,
}

/// An event as the contracts see it.
pub struct ClusterModel {
    pub template: Seq<char>,
    pub level: LogLevel,
    pub count: nat,
    pub first_example: Seq<char>,
    pub last_example: Seq<char>,
    pub stack_trace: Seq<Seq<char>>,
}

/// The line counts as the contracts see them.
pub struct StatsModel {
    pub total_lines: nat,
    pub panics: nat,
    pub fatals: nat,
    pub errors: nat,
    pub warnings: nat,
    pub infos: nat,
    pub debugs: nat,
    pub traces: nat,
    pub unknowns: nat,
}

pub open spec fn strings_model(v: Seq<String>) -> Seq<Seq<char>> {
    v.map_values(|s: String| s@)
}

pub open spec fn cluster_model(c: EventCluster) -> ClusterModel {
    ClusterModel {
        template: c.template@,
        level: c.level,
        count: c.count as nat,
        first_example: c.first_example@,
        last_example: c.last_example@,
        stack_trace: strings_model(c.stack_trace@),
    }
}

pub open spec fn clusters_model(v: Seq<EventCluster>) -> Seq<ClusterModel> {
    v.map_values(|c: EventCluster| cluster_model(c))
}

pub open spec fn stats_model(s: SqueezeStats) -> StatsModel {
    StatsModel {
        total_lines: s.total_lines as nat,
        panics: s.panics as nat,
        fatals: s.fatals as nat,
        errors: s.errors as nat,
        warnings: s.warnings as nat,
        infos: s.infos as nat,
        debugs: s.debugs as nat,
        traces: s.traces as nat,
        unknowns: s.unknowns as nat,
    }
}

pub open spec fn empty_stats() -> StatsModel {
    StatsModel {
        total_lines: 0,
        panics: 0,
        fatals: 0,
        errors: 0,
        warnings: 0,
        infos: 0,
        debugs: 0,
        traces: 0,
        unknowns: 0,
    }
}

/// The counts with one more line of level `l`.
pub open spec fn record(s: StatsModel, l: LogLevel) -> StatsModel {
    match l {
        LogLevel::Panic => StatsModel { panics: s.panics + 1, ..s },
        LogLevel::Fatal => StatsModel { fatals: s.fatals + 1, ..s },
        LogLevel::Error => StatsModel { errors: s.errors + 1, ..s },
        LogLevel::Warn => StatsModel { warnings: s.warnings + 1, ..s },
        LogLevel::Info => StatsModel { infos: s.infos + 1, ..s },
        LogLevel::Debug => StatsModel { debugs: s.debugs + 1, ..s },
        LogLevel::Trace => StatsModel { traces: s.traces + 1, ..s },
        LogLevel::Unknown => StatsModel { unknowns: s.unknowns + 1, ..s },
    }
}

/// The count that a line of level `l` increments.
pub open spec fn level_count(s: StatsModel, l: LogLevel) -> nat {
    match l {
        LogLevel::Panic => s.panics,
        LogLevel::Fatal => s.fatals,
        LogLevel::Error => s.errors,
        LogLevel::Warn => s.warnings,
        LogLevel::Info => s.infos,
        LogLevel::Debug => s.debugs,
        LogLevel::Trace => s.traces,
        LogLevel::Unknown => s.unknowns,
    }
}

/// Lines of any level that were counted.
pub open spec fn leveled_lines(s: StatsModel) -> nat {
    s.panics + s.fatals + s.errors + s.warnings + s.infos + s.debugs + s.traces + s.unknowns
}

impl SqueezeStats {
    /// A run with nothing counted yet.
    pub fn new() -> (s: Self)
        ensures
            stats_model(s) == empty_stats(),
            s.output_lines == 0,
    {
        SqueezeStats {
            total_lines: 0,
            output_lines: 0,
            panics: 0,
            fatals: 0,
            errors: 0,
            warnings: 0,
            infos: 0,
            debugs: 0,
            traces: 0,
            unknowns: 0,
        }
    }

    /// Counts one more line of level `level`.
    pub fn record_level(&mut self, level: LogLevel)
        requires
            level_count(stats_model(*old(self)), level) < usize::MAX,
        ensures
            stats_model(*final(self)) == record(stats_model(*old(self)), level),
            final(self).output_lines == old(self).output_lines,
    {
        match level {
            LogLevel::Panic => self.panics = self.panics + 1,
            LogLevel::Fatal => self.fatals = self.fatals + 1,
            LogLevel::Error => self.errors = self.errors + 1,
            LogLevel::Warn => self.warnings = self.warnings + 1,
            LogLevel::Info => self.infos = self.infos + 1,
            LogLevel::Debug => self.debugs = self.debugs + 1,
            LogLevel::Trace => self.traces = self.traces + 1,
            LogLevel::Unknown => self.unknowns = self.unknowns + 1,
        }
    }

    /// Lines that were panics, fatals, errors or warnings.
    pub fn total_errors_and_warns(&self) -> (n: usize)
        requires
            self.panics + self.fatals + self.errors + self.warnings <= usize::MAX,
        ensures
            n == self.panics + self.fatals + self.errors + self.warnings,
    {
        self.panics + self.fatals + self.errors + self.warnings
    }
}

impl Default for SqueezeStats {
    fn default() -> (s: Self)
        ensures
            stats_model(s) == empty_stats(),
            s.output_lines == 0,
    {
        SqueezeStats::new()
    }
}

// ---------------------------------------------------------------------------
// The scan: one line at a time
// ---------------------------------------------------------------------------

/// The state of the scan after some lines.
pub struct ScanModel {
    /// Events that are complete.
    pub clusters: Seq<ClusterModel>,
    /// The event that the next line may still extend.
    pub current: Option<ClusterModel>,
    pub stats: StatsModel,
    /// Every template seen, in order of first appearance.
    pub order: Seq<Seq<char>>,
    /// How many lines had each template.
    pub tally: Map<Seq<char>, nat>,
}

pub open spec fn initial_scan() -> ScanModel {
    ScanModel {
        clusters: Seq::empty(),
        current: None,
        stats: empty_stats(),
        order: Seq::empty(),
        tally: Map::empty(),
    }
}

/// The new event that a line of template `t` and level `l` opens.
pub open spec fn new_cluster(t: Seq<char>, l: LogLevel, raw: Seq<char>) -> ClusterModel {
    ClusterModel {
        template: t,
        level: l,
        count: 1,
        first_example: raw,
        last_example: raw,
        stack_trace: Seq::empty(),
    }
}

/// A stack-trace line joins the current event when that event is an error or
/// warning whose trace still has room.
pub open spec fn attaches(cur: Option<ClusterModel>, trimmed: Seq<char>) -> bool {
    &&& is_stack_trace(trimmed)
    &&& cur is Some
    &&& is_error_or_warn_level(cur->0.level)
    &&& cur->0.stack_trace.len() < MAX_STACK_TRACE_LINES
}

/// A line of template `t` extends the current event when the templates agree
/// and the event is not an error or warning that already has a stack trace.
pub open spec fn extends(cur: ClusterModel, t: Seq<char>) -> bool {
    cur.template == t && (!is_error_or_warn_level(cur.level) || cur.stack_trace.len() == 0)
}

/// One more line in the tally of templates.
pub open spec fn tally_add(order: Seq<Seq<char>>, tally: Map<Seq<char>, nat>, t: Seq<char>) -> (
    Seq<Seq<char>>,
    Map<Seq<char>, nat>,
) {
    if tally.contains_key(t) {
        (order, tally.insert(t, tally[t] + 1))
    } else {
        (order.push(t), tally.insert(t, 1))
    }
}

/// The scan state after one more raw line.
pub open spec fn scan_step(st: ScanModel, raw: Seq<char>) -> ScanModel {
    let stats = StatsModel { total_lines: st.stats.total_lines + 1, ..st.stats };
    let t = trim(raw);
    if t.len() == 0 {
        ScanModel { stats, ..st }
    } else if attaches(st.current, t) {
        let cur = st.current->0;
        ScanModel {
            stats,
            current: Some(ClusterModel { stack_trace: cur.stack_trace.push(raw), ..cur }),
            ..st
        }
    } else {
        let level = level_of(t);
        let template = mask_line(t);
        let stats = record(stats, level);
        let (order, tally) = tally_add(st.order, st.tally, template);
        match st.current {
            Some(cur) => if extends(cur, template) {
                ScanModel {
                    clusters: st.clusters,
                    current: Some(ClusterModel { count: cur.count + 1, last_example: raw, ..cur }),
                    stats,
                    order,
                    tally,
                }
            } else {
                ScanModel {
                    clusters: st.clusters.push(cur),
                    current: Some(new_cluster(template, level, raw)),
                    stats,
                    order,
                    tally,
                }
            },
            None => ScanModel {
                clusters: st.clusters,
                current: Some(new_cluster(template, level, raw)),
                stats,
                order,
                tally,
            },
        }
    }
}

/// The scan state after all of `lines`.
pub open spec fn scan(lines: Seq<Seq<char>>) -> ScanModel
    decreases lines.len(),
{
    if lines.len() == 0 {
        initial_scan()
    } else {
        scan_step(scan(lines.drop_last()), lines.last())
    }
}

/// All events of a scan, the open one last.
pub open spec fn all_clusters(st: ScanModel) -> Seq<ClusterModel> {
    match st.current {
        Some(c) => st.clusters.push(c),
        None => st.clusters,
    }
}

/// The events that are errors or warnings, in order.
pub open spec fn error_events(s: Seq<ClusterModel>) -> Seq<ClusterModel>
    decreases s.len(),
{
    if s.len() == 0 {
        s
    } else if is_error_or_warn_level(s.last().level) {
        error_events(s.drop_last()).push(s.last())
    } else {
        error_events(s.drop_last())
    }
}

/// Number of events that are not errors or warnings.
pub open spec fn count_others(s: Seq<ClusterModel>) -> nat
    decreases s.len(),
{
    if s.len() == 0 {
        0
    } else if is_error_or_warn_level(s.last().level) {
        count_others(s.drop_last())
    } else {
        count_others(s.drop_last()) + 1
    }
}

/// Every `step`-th event that is not an error or warning, starting with the
/// first one.
pub open spec fn sampled_others(s: Seq<ClusterModel>, step: nat) -> Seq<ClusterModel>
    decreases s.len(),
{
    if s.len() == 0 {
        s
    } else if !is_error_or_warn_level(s.last().level) && count_others(s.drop_last()) % step
        == 0 {
        sampled_others(s.drop_last(), step).push(s.last())
    } else {
        sampled_others(s.drop_last(), step)
    }
}

/// The events that tier 1 reports for `lines`.
pub open spec fn squeezed_events(lines: Seq<Seq<char>>, errors_only: bool) -> Seq<ClusterModel> {
    let all = all_clusters(scan(lines));
    if errors_only {
        error_events(all)
    } else {
        all
    }
}

// ---------------------------------------------------------------------------
// The scan, executed
// ---------------------------------------------------------------------------

pub open spec fn lines_model(v: Seq<Vec<char>>) -> Seq<Seq<char>> {
    v.map_values(|l: Vec<char>| l@)
}

pub open spec fn opt_cluster_model(o: Option<EventCluster>) -> Option<ClusterModel> {
    match o {
        Some(c) => Some(cluster_model(c)),
        None => None,
    }
}

/// The executable tally agrees with the model's.
pub open spec fn tally_agrees(t: Map<Seq<char>, usize>, m: Map<Seq<char>, nat>) -> bool {
    &&& forall|k: Seq<char>| t.contains_key(k) <==> m.contains_key(k)
    &&& forall|k: Seq<char>| #[trigger] t.contains_key(k) ==> t[k] as nat == m[k]
}

/// Every count of the scan state is at most `n`.
pub open spec fn scan_bounded(st: ScanModel, n: nat) -> bool {
    &&& st.stats.total_lines <= n
    &&& leveled_lines(st.stats) <= n
    &&& st.clusters.len() <= n
    &&& (forall|k: Seq<char>| #[trigger] st.tally.contains_key(k) ==> st.tally[k] <= n)
    &&& (st.current matches Some(c) ==> c.count <= n && c.stack_trace.len()
        <= MAX_STACK_TRACE_LINES)
}

proof fn lemma_scan_step_bounded(st: ScanModel, raw: Seq<char>, n: nat)
    requires
        scan_bounded(st, n),
        st.stats.total_lines == n,
    ensures
        scan_bounded(scan_step(st, raw), n + 1),
        scan_step(st, raw).stats.total_lines == n + 1,
{
    let t = trim(raw);
    if t.len() != 0 && !attaches(st.current, t) {
        let level = level_of(t);
        let template = mask_line(t);
        let (order, tally) = tally_add(st.order, st.tally, template);
        assert forall|k: Seq<char>| #[trigger] tally.contains_key(k) implies tally[k] <= n + 1 by {
            if k != template {
                assert(st.tally.contains_key(k));
            }
        }
    }
}

/// Runs the scan over `lines` with `masker`.
fn scan_lines(masker: &Masker, lines: &Vec<Vec<char>>) -> (res: (
    Vec<EventCluster>,
    SqueezeStats,
    Vec<String>,
    StringHashMap<usize>,
))
    requires
        masker@ == crate::masker::default_rules(),
    ensures
        clusters_model(res.0@) == all_clusters(scan(lines_model(lines@))),
        stats_model(res.1) == scan(lines_model(lines@)).stats,
        res.1.output_lines == 0,
        strings_model(res.2@) == scan(lines_model(lines@)).order,
        tally_agrees(res.3@, scan(lines_model(lines@)).tally),
        scan_bounded(scan(lines_model(lines@)), lines@.len() as nat),
{
    let ghost lm = lines_model(lines@);
    let mut clusters: Vec<EventCluster> = Vec::new();
    let mut current: Option<EventCluster> = None;
    let mut stats = SqueezeStats::new();
    let mut order: Vec<String> = Vec::new();
    let mut tally: StringHashMap<usize> = StringHashMap::new();
    let mut i: usize = 0;
    proof {
        assert(lm.take(0) =~= Seq::<Seq<char>>::empty());
        assert(strings_model(order@) =~= Seq::<Seq<char>>::empty());
        assert(clusters_model(clusters@) =~= Seq::<ClusterModel>::empty());
    }
    while i < lines.len()
        invariant
            i <= lines@.len(),
            lm == lines_model(lines@),
            masker@ == crate::masker::default_rules(),
            clusters_model(clusters@) == scan(lm.take(i as int)).clusters,
            opt_cluster_model(current) == scan(lm.take(i as int)).current,
            stats_model(stats) == scan(lm.take(i as int)).stats,
            stats.output_lines == 0,
            strings_model(order@) == scan(lm.take(i as int)).order,
            tally_agrees(tally@, scan(lm.take(i as int)).tally),
            scan_bounded(scan(lm.take(i as int)), i as nat),
            scan(lm.take(i as int)).stats.total_lines == i,
        decreases lines.len() - i,
    {
        let ghost st = scan(lm.take(i as int));
        let raw = &lines[i];
        proof {
            assert(lm.take(i + 1).drop_last() =~= lm.take(i as int));
            assert(lm.take(i + 1).last() == raw@);
            lemma_scan_step_bounded(st, raw@, i as nat);
        }
        let ghost next = scan_step(st, raw@);
        assert(scan(lm.take(i + 1)) == next);
        stats.total_lines = stats.total_lines + 1;
        let trimmed = trim_chars(raw.as_slice());
        if trimmed.len() != 0 {
            let is_st = is_stack_trace_chars(trimmed.as_slice());
            let attach = is_st && match &current {
                Some(cur) => cur.level.is_error_or_warn() && cur.stack_trace.len()
                    < MAX_STACK_TRACE_LINES,
                None => false,
            };
            assert(attach == attaches(st.current, trimmed@));
            if attach {
                current =
                match current {
                    Some(mut cur) => {
                        let line = string_of(raw.as_slice());
                        let ghost before = cur.stack_trace@;
                        cur.stack_trace.push(line);
                        proof {
                            assert(strings_model(cur.stack_trace@) =~= strings_model(before).push(
                                raw@,
                            ));
                        }
                        Some(cur)
                    },
                    None => None,
                };
                proof {
                    assert(opt_cluster_model(current) == next.current);
                }
            } else {
                let level = detect_level_chars(trimmed.as_slice());
                stats.record_level(level);
                let ts = string_of(trimmed.as_slice());
                let template = masker.mask(ts.as_str());
                assert(template@ == mask_line(trimmed@));
                let seen: Option<usize> = match tally.get(template.as_str()) {
                    Some(n) => Some(*n),
                    None => None,
                };
                match seen {
                    Some(n) => {
                        assert(st.tally.contains_key(template@));
                        tally.insert(template.clone(), n + 1);
                    },
                    None => {
                        let ghost before = order@;
                        order.push(template.clone());
                        proof {
                            assert(strings_model(order@) =~= strings_model(before).push(
                                template@,
                            ));
                        }
                        tally.insert(template.clone(), 1);
                    },
                }
                proof {
                    let (o2, t2) = tally_add(st.order, st.tally, template@);
                    assert(strings_model(order@) == o2);
                    assert forall|k: Seq<char>| #[trigger]
                        tally@.contains_key(k) implies tally@[k] as nat == t2[k] by {
                        if k != template@ {
                            assert(st.tally.contains_key(k));
                        }
                    }
                    assert(tally_agrees(tally@, t2));
                }
                current =
                match current {
                    Some(mut cur) => {
                        if cur.template == template && (!cur.level.is_error_or_warn()
                            || cur.stack_trace.len() == 0) {
                            cur.count = cur.count + 1;
                            cur.last_example = string_of(raw.as_slice());
                            Some(cur)
                        } else {
                            let ghost before = clusters@;
                            clusters.push(cur);
                            proof {
                                assert(clusters_model(clusters@) =~= clusters_model(before).push(
                                    cluster_model(clusters@.last()),
                                ));
                            }
                            let first = string_of(raw.as_slice());
                            let last = string_of(raw.as_slice());
                            let fresh = EventCluster {
                                template,
                                level,
                                count: 1,
                                first_example: first,
                                last_example: last,
                                stack_trace: Vec::new(),
                            };
                            proof {
                                assert(strings_model(fresh.stack_trace@) =~= Seq::<
                                    Seq<char>,
                                >::empty());
                            }
                            Some(fresh)
                        }
                    },
                    None => {
                        let first = string_of(raw.as_slice());
                        let last = string_of(raw.as_slice());
                        let fresh = EventCluster {
                            template,
                            level,
                            count: 1,
                            first_example: first,
                            last_example: last,
                            stack_trace: Vec::new(),
                        };
                        proof {
                            assert(strings_model(fresh.stack_trace@) =~= Seq::<
                                Seq<char>,
                            >::empty());
                        }
                        Some(fresh)
                    },
                };
                proof {
                    assert(opt_cluster_model(current) == next.current);
                    assert(clusters_model(clusters@) == next.clusters);
                }
            }
        }
        i = i + 1;
    }
    proof {
        assert(lm.take(lines@.len() as int) =~= lm);
    }
    match current {
        Some(cur) => {
            let ghost before = clusters@;
            clusters.push(cur);
            proof {
                assert(clusters_model(clusters@) =~= clusters_model(before).push(
                    cluster_model(clusters@.last()),
                ));
            }
        },
        None => {},
    }
    (clusters, stats, order, tally)
}

// ---------------------------------------------------------------------------
// Rendering
// ---------------------------------------------------------------------------

/// The stack-trace lines of an event, each behind `"  | "`.
pub open spec fn stack_text(s: Seq<Seq<char>>) -> Seq<char>
    decreases s.len(),
{
    if s.len() == 0 {
        Seq::empty()
    } else {
        stack_text(s.drop_last()) + "  | "@ + s.last() + "\n"@
    }
}

/// How an event is rendered: a single occurrence as the raw line itself,
/// repeated occurrences with their count, level, first and last line; then
/// the stack trace, if any, in a frame.
pub open spec fn event_text(c: ClusterModel) -> Seq<char> {
    let head = if c.count == 1 {
        c.first_example + "\n"@
    } else {
        "[x"@ + decimal(c.count) + "] ["@ + level_name(c.level) + "] "@ + c.first_example
            + " ... [last: "@ + c.last_example + "]\n"@
    };
    let trace = if c.stack_trace.len() == 0 {
        Seq::empty()
    } else {
        "  +--- Stack Trace ("@ + decimal(c.stack_trace.len()) + " lines):\n"@ + stack_text(
            c.stack_trace,
        ) + "  +---\n"@
    };
    head + trace
}

/// The events rendered one after another.
pub open spec fn events_text(s: Seq<ClusterModel>) -> Seq<char>
    decreases s.len(),
{
    if s.len() == 0 {
        Seq::empty()
    } else {
        events_text(s.drop_last()) + event_text(s.last())
    }
}

/// Room left for non-error events: what the budget leaves after the errors
/// and warnings, but never under `MIN_SAMPLE_BUDGET`.
pub open spec fn sample_budget(max_lines: nat, errors: nat) -> nat {
    let rest: nat = if max_lines > errors { (max_lines - errors) as nat } else { 0 };
    if rest < MIN_SAMPLE_BUDGET {
        MIN_SAMPLE_BUDGET as nat
    } else {
        rest
    }
}

/// Tier 1 samples when there are more events than the budget allows and not
/// only errors were asked for.
pub open spec fn over_budget(events: Seq<ClusterModel>, max_lines: nat, errors_only: bool) -> bool {
    events.len() > max_lines && !errors_only
}

/// Every how-many-th non-error event is shown when sampling: the number of
/// non-error events divided by the budget, rounded up, so that the sample
/// fits the budget.
pub open spec fn sample_step(events: Seq<ClusterModel>, max_lines: nat) -> nat {
    let others = count_others(events);
    let budget = sample_budget(max_lines, error_events(events).len());
    if others > budget {
        ((others + budget - 1) as nat) / budget
    } else {
        1
    }
}

/// The events that are rendered: all of them within the budget; otherwise
/// every error and warning, then a regular sample of the rest.
pub open spec fn displayed_events(events: Seq<ClusterModel>, max_lines: nat, errors_only: bool) -> Seq<
    ClusterModel,
> {
    if over_budget(events, max_lines, errors_only) {
        error_events(events) + sampled_others(events, sample_step(events, max_lines))
    } else {
        events
    }
}

/// The notice that tells the reader that non-error events were sampled.
pub open spec fn notice_text(events: Seq<ClusterModel>, max_lines: nat, errors_only: bool) -> Seq<
    char,
> {
    if over_budget(events, max_lines, errors_only) && sample_step(events, max_lines) > 1 {
        "[log-squeeze notice: sampled non-error events 1-in-"@ + decimal(
            sample_step(events, max_lines),
        ) + " to fit "@ + decimal(max_lines) + " line budget]\n"@
    } else {
        Seq::empty()
    }
}

/// `order[i]` has the highest count, and every earlier template a lower one.
pub open spec fn is_first_max(order: Seq<Seq<char>>, tally: Map<Seq<char>, nat>, i: int) -> bool {
    &&& 0 <= i < order.len()
    &&& forall|j: int| 0 <= j < order.len() ==> tally[#[trigger] order[j]] <= tally[order[i]]
    &&& forall|j: int| 0 <= j < i ==> tally[#[trigger] order[j]] < tally[order[i]]
}

/// The `k` most frequent templates, most frequent first; among equally
/// frequent templates the one that appeared first comes first.
pub open spec fn top_templates(order: Seq<Seq<char>>, tally: Map<Seq<char>, nat>, k: nat) -> Seq<
    Seq<char>,
>
    decreases k,
{
    if k == 0 || order.len() == 0 {
        Seq::empty()
    } else {
        let i = choose|i: int| is_first_max(order, tally, i);
        seq![order[i]] + top_templates(order.remove(i), tally, (k - 1) as nat)
    }
}

/// One summary line per template: its count right-aligned in five columns.
pub open spec fn summary_lines(ts: Seq<Seq<char>>, tally: Map<Seq<char>, nat>) -> Seq<char>
    decreases ts.len(),
{
    if ts.len() == 0 {
        Seq::empty()
    } else {
        summary_lines(ts.drop_last(), tally) + "[x"@ + pad_left(decimal(tally[ts.last()]), 5)
            + "] "@ + ts.last() + "\n"@
    }
}

/// The summary of the most frequent templates.
pub open spec fn summary_text(st: ScanModel) -> Seq<char> {
    "\n--- Top Repeating Templates ---\n"@ + summary_lines(
        top_templates(st.order, st.tally, SUMMARY_TOP as nat),
        st.tally,
    )
}

/// The report of tier 1 below its header line.
pub open spec fn report_body(
    lines: Seq<Seq<char>>,
    max_lines: nat,
    errors_only: bool,
    summary_only: bool,
) -> Seq<char> {
    if summary_only {
        summary_text(scan(lines))
    } else {
        let ev = squeezed_events(lines, errors_only);
        notice_text(ev, max_lines, errors_only) + events_text(
            displayed_events(ev, max_lines, errors_only),
        )
    }
}

/// More than twenty lines, and more than 85% of them without a level: the
/// input looks like code or structured text rather than a log.
pub open spec fn looks_like_code(stats: StatsModel, summary_only: bool) -> bool {
    !summary_only && stats.total_lines > 20 && 20 * stats.unknowns > 17 * stats.total_lines
}

/// The header line of the report; `reduction` is the reduction percentage
/// already formatted with one decimal.
pub open spec fn header_text(
    total: nat,
    events: nat,
    reduction: Seq<char>,
    errors: nat,
    warnings: nat,
) -> Seq<char> {
    "=== [log-squeeze] Total: "@ + decimal(total) + " lines | Compressed to: "@ + decimal(events)
        + " events ("@ + reduction + "% reduction) | Errors: "@ + decimal(errors)
        + " | Warnings: "@ + decimal(warnings) + " ===\n"@
}

pub proof fn lemma_events_text_append(a: Seq<ClusterModel>, b: Seq<ClusterModel>)
    ensures
        events_text(a + b) == events_text(a) + events_text(b),
    decreases b.len(),
{
    if b.len() == 0 {
        assert(a + b =~= a);
        assert(events_text(b) =~= Seq::<char>::empty());
        assert(events_text(a) + events_text(b) =~= events_text(a));
    } else {
        assert((a + b).drop_last() =~= a + b.drop_last());
        lemma_events_text_append(a, b.drop_last());
        assert(events_text(a) + events_text(b.drop_last()) + event_text(b.last()) =~= events_text(
            a,
        ) + (events_text(b.drop_last()) + event_text(b.last())));
    }
}

pub proof fn lemma_partition_len(s: Seq<ClusterModel>)
    ensures
        error_events(s).len() + count_others(s) == s.len(),
    decreases s.len(),
{
    if s.len() > 0 {
        lemma_partition_len(s.drop_last());
    }
}

fn push_stack(out: &mut Vec<char>, lines: &Vec<String>)
    ensures
        final(out)@ == old(out)@ + stack_text(strings_model(lines@)),
{
    let ghost start = out@;
    let ghost m = strings_model(lines@);
    let mut i: usize = 0;
    proof {
        assert(m.take(0) =~= Seq::<Seq<char>>::empty());
        assert(start + stack_text(m.take(0)) =~= start);
    }
    while i < lines.len()
        invariant
            i <= lines@.len(),
            m == strings_model(lines@),
            out@ == start + stack_text(m.take(i as int)),
        decreases lines.len() - i,
    {
        push_str(out, "  | ");
        push_str(out, lines[i].as_str());
        push_str(out, "\n");
        proof {
            assert(m.take(i + 1).drop_last() =~= m.take(i as int));
            assert(m.take(i + 1).last() == lines@[i as int]@);
            assert(out@ =~= start + stack_text(m.take(i + 1)));
        }
        i = i + 1;
    }
    proof {
        assert(m.take(lines@.len() as int) =~= m);
    }
}

fn push_event(out: &mut Vec<char>, c: &EventCluster)
    ensures
        final(out)@ == old(out)@ + event_text(cluster_model(*c)),
{
    let ghost start = out@;
    if c.count == 1 {
        push_str(out, c.first_example.as_str());
        push_str(out, "\n");
    } else {
        push_str(out, "[x");
        push_decimal(out, c.count);
        push_str(out, "] [");
        push_str(out, c.level.as_str());
        push_str(out, "] ");
        push_str(out, c.first_example.as_str());
        push_str(out, " ... [last: ");
        push_str(out, c.last_example.as_str());
        push_str(out, "]\n");
    }
    let ghost mid = out@;
    if c.stack_trace.len() > 0 {
        push_str(out, "  +--- Stack Trace (");
        push_decimal(out, c.stack_trace.len());
        push_str(out, " lines):\n");
        push_stack(out, &c.stack_trace);
        push_str(out, "  +---\n");
    }
    proof {
        let m = cluster_model(*c);
        assert(m.stack_trace.len() == c.stack_trace@.len());
        if c.count == 1 {
            assert(mid =~= start + (m.first_example + "\n"@));
        } else {
            assert(mid =~= start + ("[x"@ + decimal(m.count) + "] ["@ + level_name(m.level)
                + "] "@ + m.first_example + " ... [last: "@ + m.last_example + "]\n"@));
        }
        if c.stack_trace.len() > 0 {
            assert(out@ =~= mid + ("  +--- Stack Trace ("@ + decimal(m.stack_trace.len())
                + " lines):\n"@ + stack_text(m.stack_trace) + "  +---\n"@));
        } else {
            assert(out@ =~= mid + Seq::<char>::empty());
        }
        assert(out@ =~= start + event_text(m));
    }
}

fn push_all_events(out: &mut Vec<char>, events: &Vec<EventCluster>)
    ensures
        final(out)@ == old(out)@ + events_text(clusters_model(events@)),
{
    let ghost start = out@;
    let ghost m = clusters_model(events@);
    let mut i: usize = 0;
    proof {
        assert(m.take(0) =~= Seq::<ClusterModel>::empty());
        assert(start + events_text(m.take(0)) =~= start);
    }
    while i < events.len()
        invariant
            i <= events@.len(),
            m == clusters_model(events@),
            out@ == start + events_text(m.take(i as int)),
        decreases events.len() - i,
    {
        push_event(out, &events[i]);
        proof {
            assert(m.take(i + 1).drop_last() =~= m.take(i as int));
            assert(m.take(i + 1).last() == cluster_model(events@[i as int]));
            assert(out@ =~= start + events_text(m.take(i + 1)));
        }
        i = i + 1;
    }
    proof {
        assert(m.take(events@.len() as int) =~= m);
    }
}

fn push_error_events(out: &mut Vec<char>, events: &Vec<EventCluster>) -> (n: usize)
    ensures
        final(out)@ == old(out)@ + events_text(error_events(clusters_model(events@))),
        n == error_events(clusters_model(events@)).len(),
{
    let ghost start = out@;
    let ghost m = clusters_model(events@);
    let mut i: usize = 0;
    let mut n: usize = 0;
    proof {
        assert(m.take(0) =~= Seq::<ClusterModel>::empty());
        assert(start + events_text(error_events(m.take(0))) =~= start);
    }
    while i < events.len()
        invariant
            i <= events@.len(),
            m == clusters_model(events@),
            out@ == start + events_text(error_events(m.take(i as int))),
            n == error_events(m.take(i as int)).len(),
            n <= i,
        decreases events.len() - i,
    {
        proof {
            assert(m.take(i + 1).drop_last() =~= m.take(i as int));
            assert(m.take(i + 1).last() == cluster_model(events@[i as int]));
        }
        if events[i].level.is_error_or_warn() {
            push_event(out, &events[i]);
            n = n + 1;
            proof {
                let prev = error_events(m.take(i as int));
                let cur = error_events(m.take(i + 1));
                assert(cur == prev.push(m[i as int]));
                assert(cur.drop_last() =~= prev);
                assert(events_text(cur) == events_text(prev) + event_text(m[i as int]));
                assert(out@ =~= start + events_text(error_events(m.take(i + 1))));
            }
        }
        i = i + 1;
    }
    proof {
        assert(m.take(events@.len() as int) =~= m);
    }
    n
}

fn push_sampled_others(out: &mut Vec<char>, events: &Vec<EventCluster>, step: usize) -> (n: usize)
    requires
        step > 0,
    ensures
        final(out)@ == old(out)@ + events_text(sampled_others(clusters_model(events@), step as nat)),
        n == count_others(clusters_model(events@)),
{
    let ghost start = out@;
    let ghost m = clusters_model(events@);
    let mut i: usize = 0;
    let mut seen: usize = 0;
    proof {
        assert(m.take(0) =~= Seq::<ClusterModel>::empty());
        assert(start + events_text(sampled_others(m.take(0), step as nat)) =~= start);
    }
    while i < events.len()
        invariant
            step > 0,
            i <= events@.len(),
            m == clusters_model(events@),
            out@ == start + events_text(sampled_others(m.take(i as int), step as nat)),
            seen == count_others(m.take(i as int)),
            seen <= i,
        decreases events.len() - i,
    {
        proof {
            assert(m.take(i + 1).drop_last() =~= m.take(i as int));
            assert(m.take(i + 1).last() == cluster_model(events@[i as int]));
        }
        if !events[i].level.is_error_or_warn() {
            if seen % step == 0 {
                push_event(out, &events[i]);
                proof {
                    let prev = sampled_others(m.take(i as int), step as nat);
                    let cur = sampled_others(m.take(i + 1), step as nat);
                    assert(cur == prev.push(m[i as int]));
                    assert(cur.drop_last() =~= prev);
                    assert(events_text(cur) == events_text(prev) + event_text(m[i as int]));
                    assert(out@ =~= start + events_text(
                        sampled_others(m.take(i + 1), step as nat),
                    ));
                }
            }
            seen = seen + 1;
        }
        i = i + 1;
    }
    proof {
        assert(m.take(events@.len() as int) =~= m);
    }
    seen
}

fn count_error_events(events: &Vec<EventCluster>) -> (n: usize)
    ensures
        n == error_events(clusters_model(events@)).len(),
{
    let ghost m = clusters_model(events@);
    let mut i: usize = 0;
    let mut n: usize = 0;
    while i < events.len()
        invariant
            i <= events@.len(),
            m == clusters_model(events@),
            n == error_events(m.take(i as int)).len(),
            n <= i,
        decreases events.len() - i,
    {
        proof {
            assert(m.take(i + 1).drop_last() =~= m.take(i as int));
            assert(m.take(i + 1).last() == cluster_model(events@[i as int]));
        }
        if events[i].level.is_error_or_warn() {
            n = n + 1;
        }
        i = i + 1;
    }
    proof {
        assert(m.take(events@.len() as int) =~= m);
    }
    n
}

/// Renders the displayed events, with the sampling notice when there is one.
fn render_events(events: &Vec<EventCluster>, max_lines: usize, errors_only: bool) -> (out: Vec<
    char,
>)
    ensures
        out@ == notice_text(clusters_model(events@), max_lines as nat, errors_only) + events_text(
            displayed_events(clusters_model(events@), max_lines as nat, errors_only),
        ),
{
    let ghost m = clusters_model(events@);
    let mut out: Vec<char> = Vec::new();
    if events.len() > max_lines && !errors_only {
        let n_err = count_error_events(events);
        proof {
            lemma_partition_len(m);
        }
        let n_others = events.len() - n_err;
        let rest = if max_lines > n_err {
            max_lines - n_err
        } else {
            0
        };
        let budget = if rest < MIN_SAMPLE_BUDGET {
            MIN_SAMPLE_BUDGET
        } else {
            rest
        };
        let step = if n_others > budget {
            // `(n_others + budget - 1) / budget`, without the overflow.
            assert((((n_others - 1) as nat) / (budget as nat) + 1) == ((n_others + budget
                - 1) as nat) / (budget as nat)) by (nonlinear_arith)
                requires
                    n_others > budget,
                    budget > 0,
            ;
            (n_others - 1) / budget + 1
        } else {
            1
        };
        assert(step == sample_step(m, max_lines as nat));
        if step > 1 {
            push_str(&mut out, "[log-squeeze notice: sampled non-error events 1-in-");
            push_decimal(&mut out, step);
            push_str(&mut out, " to fit ");
            push_decimal(&mut out, max_lines);
            push_str(&mut out, " line budget]\n");
        }
        let ghost after_notice = out@;
        assert(after_notice =~= notice_text(m, max_lines as nat, errors_only));
        push_error_events(&mut out, events);
        push_sampled_others(&mut out, events, step);
        proof {
            lemma_events_text_append(error_events(m), sampled_others(m, step as nat));
            assert(out@ =~= after_notice + events_text(
                displayed_events(m, max_lines as nat, errors_only),
            ));
        }
    } else {
        push_all_events(&mut out, events);
        proof {
            assert(out@ =~= notice_text(m, max_lines as nat, errors_only) + events_text(
                displayed_events(m, max_lines as nat, errors_only),
            ));
        }
    }
    out
}

// ---------------------------------------------------------------------------
// Summary of the most frequent templates
// ---------------------------------------------------------------------------

/// Every template in the order of first appearance has a count.
pub open spec fn order_in_tally(st: ScanModel) -> bool {
    forall|i: int| 0 <= i < st.order.len() ==> st.tally.contains_key(#[trigger] st.order[i])
}

proof fn lemma_scan_order_in_tally(lines: Seq<Seq<char>>)
    ensures
        order_in_tally(scan(lines)),
    decreases lines.len(),
{
    if lines.len() > 0 {
        lemma_scan_order_in_tally(lines.drop_last());
        let st = scan(lines.drop_last());
        let raw = lines.last();
        let t = trim(raw);
        if t.len() != 0 && !attaches(st.current, t) {
            let template = mask_line(t);
            let (order, tally) = tally_add(st.order, st.tally, template);
            assert forall|i: int| 0 <= i < order.len() implies tally.contains_key(
                #[trigger] order[i],
            ) by {
                if i < st.order.len() {
                    assert(st.tally.contains_key(st.order[i]));
                }
            }
        }
    }
}

/// There is at most one first maximum.
proof fn lemma_first_max_unique(order: Seq<Seq<char>>, tally: Map<Seq<char>, nat>, i: int, j: int)
    requires
        is_first_max(order, tally, i),
        is_first_max(order, tally, j),
    ensures
        i == j,
{
    if i < j {
        assert(tally[order[i]] < tally[order[j]]);
        assert(tally[order[j]] <= tally[order[i]]);
    } else if j < i {
        assert(tally[order[j]] < tally[order[i]]);
        assert(tally[order[i]] <= tally[order[j]]);
    }
}

fn count_of(tally: &StringHashMap<usize>, t: &String) -> (n: usize)
    requires
        tally@.contains_key(t@),
    ensures
        n == tally@[t@],
{
    match tally.get(t.as_str()) {
        Some(n) => *n,
        None => 0,
    }
}

/// The index of the first template with the highest count.
fn first_max(v: &Vec<String>, tally: &StringHashMap<usize>, Ghost(tm): Ghost<Map<Seq<char>, nat>>) -> (best: usize)
    requires
        v@.len() > 0,
        tally_agrees(tally@, tm),
        forall|i: int| 0 <= i < v@.len() ==> tm.contains_key(#[trigger] v@[i]@),
    ensures
        is_first_max(strings_model(v@), tm, best as int),
{
    let ghost m = strings_model(v@);
    let mut best: usize = 0;
    let mut best_n = count_of(tally, &v[0]);
    let mut j: usize = 1;
    while j < v.len()
        invariant
            1 <= j <= v@.len(),
            best < j,
            m == strings_model(v@),
            tally_agrees(tally@, tm),
            forall|i: int| 0 <= i < v@.len() ==> tm.contains_key(#[trigger] v@[i]@),
            best_n == tm[m[best as int]],
            forall|l: int| 0 <= l < j ==> tm[#[trigger] m[l]] <= best_n,
            forall|l: int| 0 <= l < best ==> tm[#[trigger] m[l]] < best_n,
        decreases v.len() - j,
    {
        proof {
            assert(tm.contains_key(v@[j as int]@));
            assert(tally@.contains_key(v@[j as int]@));
        }
        let n = count_of(tally, &v[j]);
        if n > best_n {
            best = j;
            best_n = n;
        }
        j = j + 1;
    }
    best
}

/// The `k` most frequent templates (see `top_templates`).
fn top_templates_of(
    order: &Vec<String>,
    tally: &StringHashMap<usize>,
    k: usize,
    Ghost(tm): Ghost<Map<Seq<char>, nat>>,
) -> (res: Vec<String>)
    requires
        tally_agrees(tally@, tm),
        forall|i: int| 0 <= i < order@.len() ==> tm.contains_key(#[trigger] order@[i]@),
    ensures
        strings_model(res@) == top_templates(strings_model(order@), tm, k as nat),
{
    let mut remaining: Vec<String> = Vec::new();
    let mut i: usize = 0;
    while i < order.len()
        invariant
            i <= order@.len(),
            strings_model(remaining@) == strings_model(order@).take(i as int),
        decreases order.len() - i,
    {
        let ghost before = remaining@;
        let c = order[i].clone();
        remaining.push(c);
        proof {
            assert(remaining@ == before.push(c));
            assert(strings_model(remaining@) =~= strings_model(before).push(c@));
            assert(strings_model(order@).take(i + 1) =~= strings_model(order@).take(
                i as int,
            ).push(order@[i as int]@));
            assert(strings_model(remaining@) =~= strings_model(order@).take(i + 1));
        }
        i = i + 1;
    }
    proof {
        assert(strings_model(order@).take(order@.len() as int) =~= strings_model(order@));
        assert forall|i: int| 0 <= i < remaining@.len() implies tm.contains_key(
            #[trigger] remaining@[i]@,
        ) by {
            assert(strings_model(remaining@)[i] == strings_model(order@)[i]);
        }
    }
    let ghost goal = top_templates(strings_model(order@), tm, k as nat);
    let mut picked: Vec<String> = Vec::new();
    let mut r: usize = 0;
    proof {
        assert(strings_model(picked@) + goal =~= goal);
    }
    while r < k && remaining.len() > 0
        invariant
            r <= k,
            tally_agrees(tally@, tm),
            forall|i: int|
                0 <= i < remaining@.len() ==> tm.contains_key(#[trigger] remaining@[i]@),
            strings_model(picked@) + top_templates(
                strings_model(remaining@),
                tm,
                (k - r) as nat,
            ) == goal,
        decreases k - r,
    {
        let best = first_max(&remaining, tally, Ghost(tm));
        let ghost rm = strings_model(remaining@);
        let ghost pm = strings_model(picked@);
        proof {
            let c = choose|i: int| is_first_max(rm, tm, i);
            lemma_first_max_unique(rm, tm, c, best as int);
            assert(top_templates(rm, tm, (k - r) as nat) == seq![rm[best as int]] + top_templates(
                rm.remove(best as int),
                tm,
                (k - r - 1) as nat,
            ));
        }
        let ghost old_rem = remaining@;
        picked.push(remaining[best].clone());
        remaining.remove(best);
        r = r + 1;
        proof {
            assert(strings_model(remaining@) =~= rm.remove(best as int));
            assert(strings_model(picked@) =~= pm.push(rm[best as int]));
            assert(strings_model(picked@) + top_templates(
                strings_model(remaining@),
                tm,
                (k - r) as nat,
            ) =~= pm + (seq![rm[best as int]] + top_templates(
                rm.remove(best as int),
                tm,
                (k - r) as nat,
            )));
            assert forall|i: int|
                0 <= i < remaining@.len() implies tm.contains_key(#[trigger] remaining@[i]@) by {
                if i < best {
                    assert(remaining@[i] == old_rem[i]);
                } else {
                    assert(remaining@[i] == old_rem[i + 1]);
                }
            }
        }
    }
    proof {
        assert(top_templates(strings_model(remaining@), tm, (k - r) as nat) =~= Seq::<
            Seq<char>,
        >::empty());
        assert(strings_model(picked@) =~= goal);
    }
    picked
}

fn push_summary(
    out: &mut Vec<char>,
    ts: &Vec<String>,
    tally: &StringHashMap<usize>,
    Ghost(tm): Ghost<Map<Seq<char>, nat>>,
)
    requires
        tally_agrees(tally@, tm),
        forall|i: int| 0 <= i < ts@.len() ==> tm.contains_key(#[trigger] ts@[i]@),
    ensures
        final(out)@ == old(out)@ + summary_lines(strings_model(ts@), tm),
{
    let ghost start = out@;
    let ghost m = strings_model(ts@);
    let mut i: usize = 0;
    proof {
        assert(m.take(0) =~= Seq::<Seq<char>>::empty());
        assert(start + summary_lines(m.take(0), tm) =~= start);
    }
    while i < ts.len()
        invariant
            i <= ts@.len(),
            m == strings_model(ts@),
            tally_agrees(tally@, tm),
            forall|i: int| 0 <= i < ts@.len() ==> tm.contains_key(#[trigger] ts@[i]@),
            out@ == start + summary_lines(m.take(i as int), tm),
        decreases ts.len() - i,
    {
        proof {
            assert(tm.contains_key(ts@[i as int]@));
        }
        let n = count_of(tally, &ts[i]);
        let mut digits: Vec<char> = Vec::new();
        push_decimal(&mut digits, n);
        push_str(out, "[x");
        push_padded(out, digits.as_slice(), 5);
        push_str(out, "] ");
        push_str(out, ts[i].as_str());
        push_str(out, "\n");
        proof {
            assert(m.take(i + 1).drop_last() =~= m.take(i as int));
            assert(m.take(i + 1).last() == ts@[i as int]@);
            assert(out@ =~= start + summary_lines(m.take(i + 1), tm));
        }
        i = i + 1;
    }
    proof {
        assert(m.take(ts@.len() as int) =~= m);
    }
}

// ---------------------------------------------------------------------------
// Tier 1 entry point
// ---------------------------------------------------------------------------

/// The errors and warnings of `events`, in order.
fn keep_error_events(events: Vec<EventCluster>) -> (kept: Vec<EventCluster>)
    ensures
        clusters_model(kept@) == error_events(clusters_model(events@)),
{
    let ghost m = clusters_model(events@);
    let mut kept: Vec<EventCluster> = Vec::new();
    let mut rest = events;
    let ghost all = rest@;
    let mut i: usize = 0;
    let n = rest.len();
    // `rest` is consumed from the back, so the kept events come out reversed
    // and are put back in order afterwards.
    let mut reversed: Vec<EventCluster> = Vec::new();
    while i < n
        invariant
            i <= n,
            n == all.len(),
            rest@ == all.take(n - i),
            m == clusters_model(all),
            clusters_model(reversed@) == error_events(m.skip(n - i)).reverse(),
        decreases n - i,
    {
        let ghost before = reversed@;
        let c = rest.pop().unwrap();
        proof {
            assert(c == all[n - i - 1]);
            assert(rest@ =~= all.take(n - i - 1));
        }
        let ghost cm = cluster_model(c);
        if c.level.is_error_or_warn() {
            reversed.push(c);
        }
        proof {
            lemma_error_events_prepend(cm, m.skip(n - i));
            assert(m.skip(n - i - 1) =~= seq![cm] + m.skip(n - i));
            if is_error_or_warn_level(cm.level) {
                assert(clusters_model(reversed@) =~= clusters_model(before).push(cm));
                assert((seq![cm] + error_events(m.skip(n - i))).reverse() =~= error_events(
                    m.skip(n - i),
                ).reverse().push(cm));
            } else {
                assert(clusters_model(reversed@) =~= clusters_model(before));
            }
        }
        i = i + 1;
    }
    proof {
        assert(m.skip(0) =~= m);
    }
    let ghost rev = reversed@;
    let mut j: usize = 0;
    let r = reversed.len();
    while j < r
        invariant
            j <= r,
            r == rev.len(),
            reversed@ == rev.take(r - j),
            clusters_model(kept@) == clusters_model(rev.skip(r - j)).reverse(),
        decreases r - j,
    {
        let ghost before = kept@;
        let c = reversed.pop().unwrap();
        proof {
            assert(c == rev[r - j - 1]);
            assert(reversed@ =~= rev.take(r - j - 1));
        }
        kept.push(c);
        proof {
            assert(clusters_model(rev.skip(r - j - 1)) =~= seq![cluster_model(c)] + clusters_model(
                rev.skip(r - j),
            ));
            assert(clusters_model(kept@) =~= clusters_model(before).push(cluster_model(c)));
            assert(clusters_model(kept@) =~= clusters_model(rev.skip(r - j - 1)).reverse());
        }
        j = j + 1;
    }
    proof {
        assert(rev.skip(0) =~= rev);
        assert(clusters_model(rev).reverse().reverse() =~= clusters_model(rev));
    }
    kept
}

proof fn lemma_error_events_prepend(c: ClusterModel, s: Seq<ClusterModel>)
    ensures
        error_events(seq![c] + s) == if is_error_or_warn_level(c.level) {
            seq![c] + error_events(s)
        } else {
            error_events(s)
        },
    decreases s.len(),
{
    if s.len() == 0 {
        assert((seq![c] + s).drop_last() =~= Seq::<ClusterModel>::empty());
        assert(seq![c] + s =~= seq![c]);
        if is_error_or_warn_level(c.level) {
            assert(seq![c] + error_events(s) =~= seq![c]);
            assert(error_events(seq![c]) =~= error_events(Seq::<ClusterModel>::empty()).push(c));
        } else {
            assert(error_events(seq![c]) == error_events(seq![c].drop_last()));
            assert(seq![c].drop_last() =~= Seq::<ClusterModel>::empty());
        }
    } else {
        lemma_error_events_prepend(c, s.drop_last());
        assert((seq![c] + s).drop_last() =~= seq![c] + s.drop_last());
        assert((seq![c] + s).last() == s.last());
        if is_error_or_warn_level(c.level) {
            assert(seq![c] + error_events(s.drop_last()).push(s.last()) =~= (seq![c]
                + error_events(s.drop_last())).push(s.last()));
        }
    }
}

/// Executes tier 1 on `input`: masks dynamic tokens, folds consecutive
/// occurrences of a template into one event with its count, attaches stack
/// traces to the error or warning they follow, and renders the events within
/// `max_lines` (sampling non-error events when there are too many), or, with
/// `summary_only`, the most frequent templates.
pub fn run_fast_squeeze(input: &str, max_lines: usize, errors_only: bool, summary_only: bool) -> (res:
    FastSqueezeResult)
    ensures
        stats_model(res.stats) == scan(split_lines(input@)).stats,
        res.stats.output_lines == 0,
        clusters_model(res.clusters@) == squeezed_events(split_lines(input@), errors_only),
        res.rendered_output@ == report_body(
            split_lines(input@),
            max_lines as nat,
            errors_only,
            summary_only,
        ),
        res.is_structured_code_heuristic == looks_like_code(
            scan(split_lines(input@)).stats,
            summary_only,
        ),
{
    let chars = chars_of(input);
    let lines = lines_of(chars.as_slice());
    let ghost lm = split_lines(input@);
    proof {
        assert(lines_model(lines@) =~= lm);
    }
    let masker = Masker::new();
    let (clusters, stats, order, tally) = scan_lines(&masker, &lines);
    let ghost st = scan(lm);
    let filtered = if errors_only {
        keep_error_events(clusters)
    } else {
        clusters
    };
    let body = if summary_only {
        proof {
            lemma_scan_order_in_tally(lm);
        }
        let mut out: Vec<char> = Vec::new();
        push_str(&mut out, "\n--- Top Repeating Templates ---\n");
        proof {
            assert forall|i: int| 0 <= i < order@.len() implies st.tally.contains_key(
                #[trigger] order@[i]@,
            ) by {
                assert(strings_model(order@)[i] == st.order[i]);
            }
        }
        let top = top_templates_of(&order, &tally, SUMMARY_TOP, Ghost(st.tally));
        proof {
            assert forall|i: int| 0 <= i < top@.len() implies st.tally.contains_key(
                #[trigger] top@[i]@,
            ) by {
                lemma_top_templates_in(st.order, st.tally, SUMMARY_TOP as nat, i);
                assert(strings_model(top@)[i] == top@[i]@);
            }
        }
        push_summary(&mut out, &top, &tally, Ghost(st.tally));
        out
    } else {
        render_events(&filtered, max_lines, errors_only)
    };
    let is_code = !summary_only && stats.total_lines > 20 && (stats.unknowns as u128) * 20 > (
    stats.total_lines as u128) * 17;
    FastSqueezeResult {
        stats,
        clusters: filtered,
        rendered_output: string_of(body.as_slice()),
        is_structured_code_heuristic: is_code,
    }
}

/// Every template that the summary lists is one of the tallied templates.
proof fn lemma_top_templates_in(order: Seq<Seq<char>>, tally: Map<Seq<char>, nat>, k: nat, i: int)
    requires
        forall|j: int| 0 <= j < order.len() ==> tally.contains_key(#[trigger] order[j]),
        0 <= i < top_templates(order, tally, k).len(),
    ensures
        tally.contains_key(top_templates(order, tally, k)[i]),
        order.contains(top_templates(order, tally, k)[i]),
    decreases k,
{
    if k > 0 && order.len() > 0 {
        let c = choose|c: int| is_first_max(order, tally, c);
        lemma_first_max_exists(order, tally);
        let rest = order.remove(c);
        if i > 0 {
            assert forall|j: int| 0 <= j < rest.len() implies tally.contains_key(#[trigger] rest[j]) by {
                if j < c {
                    assert(rest[j] == order[j]);
                } else {
                    assert(rest[j] == order[j + 1]);
                }
            }
            lemma_top_templates_in(rest, tally, (k - 1) as nat, i - 1);
            let x = top_templates(rest, tally, (k - 1) as nat)[i - 1];
            let jj = choose|jj: int| 0 <= jj < rest.len() && rest[jj] == x;
            if jj < c {
                assert(order[jj] == x);
            } else {
                assert(order[jj + 1] == x);
            }
        } else {
            assert(order[c] == top_templates(order, tally, k)[0]);
        }
    }
}

/// A nonempty order has a first maximum.
pub proof fn lemma_first_max_exists(order: Seq<Seq<char>>, tally: Map<Seq<char>, nat>)
    requires
        order.len() > 0,
    ensures
        exists|i: int| is_first_max(order, tally, i),
    decreases order.len(),
{
    if order.len() == 1 {
        assert(is_first_max(order, tally, 0));
    } else {
        let init = order.drop_last();
        lemma_first_max_exists(init, tally);
        let b = choose|i: int| is_first_max(init, tally, i);
        if tally[order.last()] > tally[order[b]] {
            assert forall|j: int| 0 <= j < order.len() implies tally[#[trigger] order[j]]
                <= tally[order[order.len() - 1]] by {
                if j < init.len() {
                    assert(order[j] == init[j]);
                }
            }
            assert forall|j: int| 0 <= j < order.len() - 1 implies tally[#[trigger] order[j]]
                < tally[order[order.len() - 1]] by {
                assert(order[j] == init[j]);
            }
            assert(is_first_max(order, tally, order.len() - 1));
        } else {
            assert forall|j: int| 0 <= j < order.len() implies tally[#[trigger] order[j]]
                <= tally[order[b]] by {
                if j < init.len() {
                    assert(order[j] == init[j]);
                }
            }
            assert forall|j: int| 0 <= j < b implies tally[#[trigger] order[j]] < tally[order[b]] by {
                assert(order[j] == init[j]);
            }
            assert(is_first_max(order, tally, b));
        }
    }
}

impl FastSqueezeResult {
    /// The complete report: the header line, whose reduction percentage is
    /// given already formatted, then `rendered_output`.
    pub fn render_report(&self, reduction: &str) -> (s: String)
        requires
            self.stats.panics + self.stats.fatals + self.stats.errors <= usize::MAX,
        ensures
            s@ == header_text(
                self.stats.total_lines as nat,
                self.clusters@.len(),
                reduction@,
                (self.stats.panics + self.stats.fatals + self.stats.errors) as nat,
                self.stats.warnings as nat,
            ) + self.rendered_output@,
    {
        let mut out: Vec<char> = Vec::new();
        push_str(&mut out, "=== [log-squeeze] Total: ");
        push_decimal(&mut out, self.stats.total_lines);
        push_str(&mut out, " lines | Compressed to: ");
        push_decimal(&mut out, self.clusters.len());
        push_str(&mut out, " events (");
        push_str(&mut out, reduction);
        push_str(&mut out, "% reduction) | Errors: ");
        push_decimal(&mut out, self.stats.panics + self.stats.fatals + self.stats.errors);
        push_str(&mut out, " | Warnings: ");
        push_decimal(&mut out, self.stats.warnings);
        push_str(&mut out, " ===\n");
        push_str(&mut out, self.rendered_output.as_str());
        proof {
            assert(out@ =~= header_text(
                self.stats.total_lines as nat,
                self.clusters@.len(),
                reduction@,
                (self.stats.panics + self.stats.fatals + self.stats.errors) as nat,
                self.stats.warnings as nat,
            ) + self.rendered_output@);
        }
        string_of(out.as_slice())
    }
}

} // verus!
