//! Properties of the library that span its functions: what tier 1 keeps of
//! every input line, how one more line changes the events, how events relate
//! to their lines and neighbours and how they are rendered, what sampling
//! never drops and how much room it uses, how the summary is ordered, which
//! masking rules apply, what the pruner keeps, and how the command line is
//! read.
use vstd::prelude::*;

use crate::level::{is_error_or_warn_level, is_stack_trace, level_name, level_of};
use crate::masker::{
    default_rules, mask_line, mask_pattern, mask_token, MASK_RULE_COUNT, PATTERN_DATE_ONLY,
    PATTERN_DURATION_BYTES, PATTERN_FULL_DATE_TIME, PATTERN_HASH, PATTERN_HEX, PATTERN_IPV4,
    PATTERN_IPV6, PATTERN_NUM, PATTERN_SYSLOG_TIME, PATTERN_TIME_ONLY, PATTERN_UUID,
};
use crate::squeeze::{
    all_clusters, attaches, count_others, displayed_events, error_events, extends, is_first_max,
    lemma_first_max_exists, lemma_partition_len, leveled_lines, new_cluster, over_budget, record,
    report_body,
    sample_budget, sample_step, sampled_others, scan, scan_step, squeezed_events, top_templates,
    ClusterModel, ScanModel, StatsModel, MAX_STACK_TRACE_LINES, MIN_SAMPLE_BUDGET,
};
use crate::cli::{
    all_digits, digit_value, digits_value, is_ascii_digit, parse_from, parsed_usize,
    CommandModel, OptionsModel,
};
use crate::lingua::{drops_word, kept_words};
use crate::text::{decimal, digit, trim};

verus! {

// ---------------------------------------------------------------------------
// Tier 1: events and lines
// ---------------------------------------------------------------------------

/// Lines folded into the events as occurrences.
pub open spec fn occurrences(s: Seq<ClusterModel>) -> nat
    decreases s.len(),
{
    if s.len() == 0 {
        0
    } else {
        occurrences(s.drop_last()) + s.last().count
    }
}

/// Lines kept in the events' stack traces.
pub open spec fn trace_lines(s: Seq<ClusterModel>) -> nat
    decreases s.len(),
{
    if s.len() == 0 {
        0
    } else {
        trace_lines(s.drop_last()) + s.last().stack_trace.len()
    }
}

/// Input lines that are not blank.
pub open spec fn nonblank_lines(lines: Seq<Seq<char>>) -> nat
    decreases lines.len(),
{
    if lines.len() == 0 {
        0
    } else if trim(lines.last()).len() == 0 {
        nonblank_lines(lines.drop_last())
    } else {
        nonblank_lines(lines.drop_last()) + 1
    }
}

/// What holds of every event: it has at least one occurrence; its template
/// and level are those of its first line, and its last line has the same
/// template; its stack trace holds at most `MAX_STACK_TRACE_LINES` lines,
/// all of them stack-trace lines, and only errors and warnings have one.
pub open spec fn event_ok(c: ClusterModel) -> bool {
    &&& c.count >= 1
    &&& c.template == mask_line(trim(c.first_example))
    &&& c.template == mask_line(trim(c.last_example))
    &&& c.level == level_of(trim(c.first_example))
    &&& c.stack_trace.len() <= MAX_STACK_TRACE_LINES
    &&& c.stack_trace.len() > 0 ==> is_error_or_warn_level(c.level)
    &&& forall|j: int|
        0 <= j < c.stack_trace.len() ==> is_stack_trace(trim(#[trigger] c.stack_trace[j]))
}

/// Two neighbouring events share a template only when the first is an error
/// or warning that already carries a stack trace: everything else was
/// folded into one event.
pub open spec fn folded(s: Seq<ClusterModel>) -> bool {
    forall|i: int|
        0 <= i < s.len() - 1 && #[trigger] s[i].template == s[i + 1].template ==> (
        is_error_or_warn_level(s[i].level) && s[i].stack_trace.len() > 0)
}

pub open spec fn scan_ok(st: ScanModel, lines: Seq<Seq<char>>) -> bool {
    let all = all_clusters(st);
    &&& st.stats.total_lines == lines.len()
    &&& occurrences(all) + trace_lines(all) == nonblank_lines(lines)
    &&& leveled_lines(st.stats) == occurrences(all)
    &&& forall|i: int| 0 <= i < all.len() ==> event_ok(#[trigger] all[i])
    &&& folded(all)
    &&& st.current is None ==> st.clusters.len() == 0
}

proof fn lemma_record_counts(s: StatsModel, l: crate::level::LogLevel)
    ensures
        leveled_lines(record(s, l)) == leveled_lines(s) + 1,
        record(s, l).total_lines == s.total_lines,
{
}

proof fn lemma_scan_step_ok(st: ScanModel, lines: Seq<Seq<char>>, raw: Seq<char>)
    requires
        scan_ok(st, lines),
    ensures
        scan_ok(scan_step(st, raw), lines.push(raw)),
{
    let lines2 = lines.push(raw);
    assert(lines2.drop_last() =~= lines);
    assert(lines2.last() == raw);
    let t = trim(raw);
    let all = all_clusters(st);
    let next = scan_step(st, raw);
    let all2 = all_clusters(next);
    if t.len() == 0 {
        assert(all2 == all);
    } else if attaches(st.current, t) {
        let cur = st.current->0;
        let cur2 = ClusterModel { stack_trace: cur.stack_trace.push(raw), ..cur };
        assert(all == st.clusters.push(cur));
        assert(all2 == st.clusters.push(cur2));
        assert(all2.drop_last() =~= all.drop_last());
        assert(event_ok(all[all.len() - 1]));
        assert forall|i: int| 0 <= i < all2.len() implies event_ok(#[trigger] all2[i]) by {
            if i < all2.len() - 1 {
                assert(all2[i] == all[i]);
            } else {
                assert forall|j: int| 0 <= j < cur2.stack_trace.len() implies is_stack_trace(
                    trim(#[trigger] cur2.stack_trace[j]),
                ) by {
                    if j < cur.stack_trace.len() {
                        assert(cur2.stack_trace[j] == cur.stack_trace[j]);
                    }
                }
            }
        }
        assert forall|i: int|
            0 <= i < all2.len() - 1 && #[trigger] all2[i].template == all2[i + 1].template implies (
            is_error_or_warn_level(all2[i].level) && all2[i].stack_trace.len() > 0) by {
            assert(all2[i] == all[i]);
            assert(all2[i + 1].template == all[i + 1].template);
        }
    } else {
        let level = level_of(t);
        let template = mask_line(t);
        lemma_record_counts(StatsModel { total_lines: st.stats.total_lines + 1, ..st.stats }, level);
        let fresh = new_cluster(template, level, raw);
        match st.current {
            Some(cur) => {
                assert(all == st.clusters.push(cur));
                assert(event_ok(all[all.len() - 1]));
                if extends(cur, template) {
                    let cur2 = ClusterModel { count: cur.count + 1, last_example: raw, ..cur };
                    assert(all2 == st.clusters.push(cur2));
                    assert(all2.drop_last() =~= all.drop_last());
                    assert forall|i: int| 0 <= i < all2.len() implies event_ok(#[trigger] all2[i]) by {
                        if i < all2.len() - 1 {
                            assert(all2[i] == all[i]);
                        } else {
                            assert forall|j: int| 0 <= j < cur2.stack_trace.len() implies is_stack_trace(
                                trim(#[trigger] cur2.stack_trace[j]),
                            ) by {
                                assert(cur2.stack_trace[j] == cur.stack_trace[j]);
                            }
                        }
                    }
                    assert forall|i: int|
                        0 <= i < all2.len() - 1 && #[trigger] all2[i].template == all2[i
                            + 1].template implies (is_error_or_warn_level(all2[i].level)
                        && all2[i].stack_trace.len() > 0) by {
                        assert(all2[i] == all[i]);
                        assert(all2[i + 1].template == all[i + 1].template);
                    }
                } else {
                    assert(all2 == all.push(fresh));
                    assert(all2.drop_last() =~= all);
                    assert forall|i: int| 0 <= i < all2.len() implies event_ok(#[trigger] all2[i]) by {
                        if i < all2.len() - 1 {
                            assert(all2[i] == all[i]);
                        } else {
                            assert(all2[i] == fresh);
                        }
                    }
                    assert forall|i: int|
                        0 <= i < all2.len() - 1 && #[trigger] all2[i].template == all2[i
                            + 1].template implies (is_error_or_warn_level(all2[i].level)
                        && all2[i].stack_trace.len() > 0) by {
                        assert(all2[i] == all[i]);
                        if i < all.len() - 1 {
                            assert(all2[i + 1] == all[i + 1]);
                        } else {
                            assert(all2[i + 1] == fresh);
                            assert(all[i] == cur);
                        }
                    }
                }
            },
            None => {
                assert(all == st.clusters);
                assert(all2 == all.push(fresh));
                assert(all2.drop_last() =~= all);
                assert forall|i: int| 0 <= i < all2.len() implies event_ok(#[trigger] all2[i]) by {
                    if i < all2.len() - 1 {
                        assert(all2[i] == all[i]);
                    } else {
                        assert(all2[i] == fresh);
                    }
                }
                assert forall|i: int|
                    0 <= i < all2.len() - 1 && #[trigger] all2[i].template == all2[i + 1].template implies (
                    is_error_or_warn_level(all2[i].level) && all2[i].stack_trace.len() > 0) by {
                    assert(all.len() == 0);
                }
            },
        }
    }
}

proof fn lemma_scan_ok(lines: Seq<Seq<char>>)
    ensures
        scan_ok(scan(lines), lines),
    decreases lines.len(),
{
    if lines.len() == 0 {
        assert(all_clusters(scan(lines)) =~= Seq::<ClusterModel>::empty());
    } else {
        lemma_scan_ok(lines.drop_last());
        lemma_scan_step_ok(scan(lines.drop_last()), lines.drop_last(), lines.last());
        assert(lines.drop_last().push(lines.last()) =~= lines);
    }
}

/// Every input line is accounted for: tier 1 counts all lines, and every
/// non-blank line ends up in exactly one event, either as one of its
/// occurrences or as a line of its stack trace; the per-level counts add up
/// to the occurrences.
pub proof fn law_every_line_accounted_for(lines: Seq<Seq<char>>)
    ensures
        scan(lines).stats.total_lines == lines.len(),
        occurrences(all_clusters(scan(lines))) + trace_lines(all_clusters(scan(lines)))
            == nonblank_lines(lines),
        leveled_lines(scan(lines).stats) == occurrences(all_clusters(scan(lines))),
{
    lemma_scan_ok(lines);
}

/// Every event is an instance of its template: its first and last lines mask
/// to it, its level is that of its first line, and it has at least one
/// occurrence. Stack traces hold only stack-trace lines, at most
/// `MAX_STACK_TRACE_LINES` of them, and only errors and warnings carry one.
pub proof fn law_events_match_their_lines(lines: Seq<Seq<char>>, errors_only: bool, i: int)
    requires
        0 <= i < squeezed_events(lines, errors_only).len(),
    ensures
        event_ok(squeezed_events(lines, errors_only)[i]),
{
    lemma_scan_ok(lines);
    let all = all_clusters(scan(lines));
    if errors_only {
        lemma_error_events_from(all, i);
    }
}

/// An event that `error_events` keeps is one of the events.
proof fn lemma_error_events_from(s: Seq<ClusterModel>, i: int)
    requires
        0 <= i < error_events(s).len(),
    ensures
        exists|j: int| 0 <= j < s.len() && s[j] == error_events(s)[i],
        is_error_or_warn_level(error_events(s)[i].level),
    decreases s.len(),
{
    if s.len() > 0 {
        let prev = error_events(s.drop_last());
        if is_error_or_warn_level(s.last().level) && i == prev.len() {
            assert(s[s.len() - 1] == error_events(s)[i]);
        } else {
            lemma_error_events_from(s.drop_last(), i);
            let j = choose|j: int| 0 <= j < s.drop_last().len() && s.drop_last()[j] == prev[i];
            assert(s[j] == s.drop_last()[j]);
        }
    }
}

/// Consecutive lines fold into one event: two neighbouring events of a scan
/// share a template only when the first is an error or warning that already
/// has a stack trace.
pub proof fn law_consecutive_duplicates_fold(lines: Seq<Seq<char>>)
    ensures
        folded(all_clusters(scan(lines))),
{
    lemma_scan_ok(lines);
}

/// With `errors_only`, every reported event is a panic, fatal, error or
/// warning.
pub proof fn law_errors_only_keeps_errors(lines: Seq<Seq<char>>, i: int)
    requires
        0 <= i < squeezed_events(lines, true).len(),
    ensures
        is_error_or_warn_level(squeezed_events(lines, true)[i].level),
{
    lemma_error_events_from(all_clusters(scan(lines)), i);
}

// ---------------------------------------------------------------------------
// Tier 1: global template counts
// ---------------------------------------------------------------------------

/// Occurrences, over all events, of lines with template `t`.
pub open spec fn template_occurrences(s: Seq<ClusterModel>, t: Seq<char>) -> nat
    decreases s.len(),
{
    if s.len() == 0 {
        0
    } else {
        template_occurrences(s.drop_last(), t) + if s.last().template == t {
            s.last().count
        } else {
            0
        }
    }
}

/// The tally counts every occurrence of every template, and the order of
/// first appearance lists each counted template exactly once.
pub open spec fn tally_ok(st: ScanModel) -> bool {
    &&& forall|t: Seq<char>|
        #[trigger] st.tally.contains_key(t) ==> st.tally[t] == template_occurrences(
            all_clusters(st),
            t,
        )
    &&& forall|t: Seq<char>|
        !st.tally.contains_key(t) ==> #[trigger] template_occurrences(all_clusters(st), t) == 0
    &&& forall|t: Seq<char>| st.tally.contains_key(t) <==> #[trigger] st.order.contains(t)
    &&& st.order.no_duplicates()
}

proof fn lemma_occ_push(s: Seq<ClusterModel>, c: ClusterModel, t: Seq<char>)
    ensures
        template_occurrences(s.push(c), t) == template_occurrences(s, t) + if c.template == t {
            c.count
        } else {
            0
        },
{
    assert(s.push(c).drop_last() =~= s);
}

proof fn lemma_tally_step(st: ScanModel, lines: Seq<Seq<char>>, raw: Seq<char>)
    requires
        scan_ok(st, lines),
        tally_ok(st),
    ensures
        tally_ok(scan_step(st, raw)),
{
    let t = trim(raw);
    let all = all_clusters(st);
    let next = scan_step(st, raw);
    let all2 = all_clusters(next);
    if t.len() == 0 {
    } else if attaches(st.current, t) {
        let cur = st.current->0;
        let cur2 = ClusterModel { stack_trace: cur.stack_trace.push(raw), ..cur };
        assert forall|x: Seq<char>| template_occurrences(all2, x) == template_occurrences(all, x) by {
            lemma_occ_push(st.clusters, cur, x);
            lemma_occ_push(st.clusters, cur2, x);
        }
    } else {
        let level = level_of(t);
        let template = mask_line(t);
        let fresh = new_cluster(template, level, raw);
        let (order, tally) = (next.order, next.tally);
        // Occurrences grow by one, for the new line's template only.
        assert forall|x: Seq<char>| template_occurrences(all2, x) == template_occurrences(all, x)
            + if x == template {
            1nat
        } else {
            0nat
        } by {
            match st.current {
                Some(cur) => {
                    lemma_occ_push(st.clusters, cur, x);
                    if extends(cur, template) {
                        let cur2 = ClusterModel { count: cur.count + 1, last_example: raw, ..cur };
                        lemma_occ_push(st.clusters, cur2, x);
                    } else {
                        lemma_occ_push(all, fresh, x);
                    }
                },
                None => {
                    lemma_occ_push(all, fresh, x);
                },
            }
        }
        if !st.tally.contains_key(template) {
            assert(!st.order.contains(template));
            assert forall|x: Seq<char>| tally.contains_key(x) <==> #[trigger] order.contains(x) by {
                assert(order == st.order.push(template));
                if order.contains(x) && x != template {
                    let k = choose|k: int| 0 <= k < order.len() && order[k] == x;
                    assert(k < st.order.len());
                    assert(st.order[k] == x);
                }
                if st.order.contains(x) {
                    let k = choose|k: int| 0 <= k < st.order.len() && st.order[k] == x;
                    assert(order[k] == x);
                }
                if x == template {
                    assert(order[order.len() - 1] == template);
                }
            }
            assert(order.no_duplicates()) by {
                assert forall|i: int, j: int|
                    0 <= i < order.len() && 0 <= j < order.len() && i != j implies order[i]
                    != order[j] by {
                    if i == order.len() - 1 {
                        assert(st.order[j] == order[j]);
                        assert(st.order.contains(st.order[j]));
                    } else if j == order.len() - 1 {
                        assert(st.order[i] == order[i]);
                        assert(st.order.contains(st.order[i]));
                    } else {
                        assert(st.order[i] == order[i]);
                        assert(st.order[j] == order[j]);
                    }
                }
            }
        }
    }
}

proof fn lemma_tally_ok(lines: Seq<Seq<char>>)
    ensures
        tally_ok(scan(lines)),
        scan_ok(scan(lines), lines),
    decreases lines.len(),
{
    if lines.len() == 0 {
        assert(all_clusters(scan(lines)) =~= Seq::<ClusterModel>::empty());
        assert(scan(lines).order =~= Seq::<Seq<char>>::empty());
    } else {
        lemma_tally_ok(lines.drop_last());
        lemma_scan_step_ok(scan(lines.drop_last()), lines.drop_last(), lines.last());
        lemma_tally_step(scan(lines.drop_last()), lines.drop_last(), lines.last());
        assert(lines.drop_last().push(lines.last()) =~= lines);
    }
}

/// Global deduplication: the count that the summary gives a template is the
/// number of lines with that template over the whole input, whether or not
/// they were neighbours; templates that never occurred have no count, and
/// the order of first appearance names every counted template exactly once.
pub proof fn law_summary_counts_every_occurrence(lines: Seq<Seq<char>>, t: Seq<char>)
    ensures
        scan(lines).tally.contains_key(t) ==> scan(lines).tally[t] == template_occurrences(
            all_clusters(scan(lines)),
            t,
        ),
        !scan(lines).tally.contains_key(t) ==> template_occurrences(all_clusters(scan(lines)), t)
            == 0,
        scan(lines).tally.contains_key(t) <==> scan(lines).order.contains(t),
        scan(lines).order.no_duplicates(),
{
    lemma_tally_ok(lines);
}

// ---------------------------------------------------------------------------
// Tier 1: budget sampling
// ---------------------------------------------------------------------------

proof fn lemma_error_events_append(a: Seq<ClusterModel>, b: Seq<ClusterModel>)
    ensures
        error_events(a + b) == error_events(a) + error_events(b),
    decreases b.len(),
{
    if b.len() == 0 {
        assert(a + b =~= a);
        assert(error_events(a) + error_events(b) =~= error_events(a));
    } else {
        assert((a + b).drop_last() =~= a + b.drop_last());
        lemma_error_events_append(a, b.drop_last());
        if is_error_or_warn_level(b.last().level) {
            assert(error_events(a) + error_events(b.drop_last()).push(b.last()) =~= (error_events(
                a,
            ) + error_events(b.drop_last())).push(b.last()));
        }
    }
}

proof fn lemma_error_events_idempotent(s: Seq<ClusterModel>)
    ensures
        error_events(error_events(s)) == error_events(s),
    decreases s.len(),
{
    if s.len() > 0 {
        lemma_error_events_idempotent(s.drop_last());
        if is_error_or_warn_level(s.last().level) {
            let e = error_events(s.drop_last()).push(s.last());
            assert(e.drop_last() =~= error_events(s.drop_last()));
        }
    }
}

proof fn lemma_sampled_others_no_errors(s: Seq<ClusterModel>, step: nat)
    ensures
        error_events(sampled_others(s, step)) =~= Seq::<ClusterModel>::empty(),
    decreases s.len(),
{
    if s.len() > 0 {
        lemma_sampled_others_no_errors(s.drop_last(), step);
        if !is_error_or_warn_level(s.last().level) && count_others(s.drop_last()) % step == 0 {
            let p = sampled_others(s.drop_last(), step).push(s.last());
            assert(p.drop_last() =~= sampled_others(s.drop_last(), step));
        }
    }
}

/// Budget sampling never drops an error or warning: the errors and warnings
/// among the rendered events are exactly those among all events, in order.
pub proof fn law_sampling_keeps_every_error(events: Seq<ClusterModel>, max_lines: nat, errors_only: bool)
    ensures
        error_events(displayed_events(events, max_lines, errors_only)) == error_events(events),
{
    if over_budget(events, max_lines, errors_only) {
        let step = sample_step(events, max_lines);
        lemma_error_events_append(error_events(events), sampled_others(events, step));
        lemma_error_events_idempotent(events);
        lemma_sampled_others_no_errors(events, step);
        assert(error_events(events) + Seq::<ClusterModel>::empty() =~= error_events(events));
    }
}

/// How many of `0..n` are multiples of `step`.
pub open spec fn multiples_below(n: nat, step: nat) -> nat
    decreases n,
{
    if n == 0 {
        0
    } else {
        multiples_below((n - 1) as nat, step) + if (n - 1) as nat % step == 0 {
            1nat
        } else {
            0nat
        }
    }
}

proof fn lemma_sampled_len(s: Seq<ClusterModel>, step: nat)
    ensures
        sampled_others(s, step).len() == multiples_below(count_others(s), step),
    decreases s.len(),
{
    if s.len() > 0 {
        lemma_sampled_len(s.drop_last(), step);
    }
}

/// `multiples_below(n, step)` is the least number of steps that reach `n`.
proof fn lemma_multiples_ceiling(n: nat, step: nat)
    requires
        step > 0,
    ensures
        multiples_below(n, step) * step >= n,
        multiples_below(n, step) == 0 || (multiples_below(n, step) - 1) * step < n,
    decreases n,
{
    if n > 0 {
        lemma_multiples_ceiling((n - 1) as nat, step);
        let m = multiples_below((n - 1) as nat, step);
        let p = (n - 1) as nat;
        if p % step == 0 {
            let q = p / step;
            assert(p == q * step) by (nonlinear_arith)
                requires
                    p % step == 0,
                    q == p / step,
                    step > 0,
            ;
            assert(m == q) by (nonlinear_arith)
                requires
                    m * step >= p,
                    m == 0 || (m - 1) * step < p,
                    p == q * step,
                    step > 0,
            ;
            assert((m + 1) * step >= n && m * step < n) by (nonlinear_arith)
                requires
                    m == q,
                    p == q * step,
                    n == p + 1,
                    step > 0,
            ;
        } else {
            assert(m * step != p) by (nonlinear_arith)
                requires
                    p % step != 0,
                    step > 0,
            ;
        }
    }
}

/// Sampling fits the budget: the non-error events that are shown when there
/// are too many number at most the budget that the errors and warnings
/// leave (never less than `MIN_SAMPLE_BUDGET`).
pub proof fn law_sampling_fits_budget(events: Seq<ClusterModel>, max_lines: nat, errors_only: bool)
    requires
        over_budget(events, max_lines, errors_only),
    ensures
        sampled_others(events, sample_step(events, max_lines)).len() <= sample_budget(
            max_lines,
            error_events(events).len(),
        ),
{
    let o = count_others(events);
    let b = sample_budget(max_lines, error_events(events).len());
    let step = sample_step(events, max_lines);
    lemma_sampled_len(events, step);
    if o > b {
        assert(step == ((o + b - 1) as nat) / b);
        assert(step >= 1 && step * b >= o) by (nonlinear_arith)
            requires
                step == ((o + b - 1) as nat) / b,
                o > b,
                b > 0,
        ;
        lemma_multiples_ceiling(o, step);
        let m = multiples_below(o, step);
        assert(m <= b) by (nonlinear_arith)
            requires
                m == 0 || (m - 1) * step < o,
                step >= 1,
                step * b >= o,
                b > 0,
        ;
    } else {
        assert(step == 1);
        lemma_multiples_ceiling(o, 1);
        let m = multiples_below(o, 1);
        assert(m <= o) by (nonlinear_arith)
            requires
                m == 0 || (m - 1) * 1 < o,
        ;
    }
}

// ---------------------------------------------------------------------------
// Tier 1: summary
// ---------------------------------------------------------------------------

/// The summary lists `k` templates, or all of them when there are fewer, and
/// no template is listed after one with a lower count.
pub proof fn law_summary_most_frequent_first(order: Seq<Seq<char>>, tally: Map<Seq<char>, nat>, k: nat)
    ensures
        top_templates(order, tally, k).len() == if k < order.len() {
            k
        } else {
            order.len()
        },
        forall|i: int, j: int|
            0 <= i < j < top_templates(order, tally, k).len() ==> tally[top_templates(
                order,
                tally,
                k,
            )[j]] <= tally[top_templates(order, tally, k)[i]],
        forall|i: int|
            0 <= i < top_templates(order, tally, k).len() ==> order.contains(
                #[trigger] top_templates(order, tally, k)[i],
            ),
    decreases k,
{
    if k > 0 && order.len() > 0 {
        lemma_first_max_exists(order, tally);
        let c = choose|c: int| is_first_max(order, tally, c);
        let rest = order.remove(c);
        law_summary_most_frequent_first(rest, tally, (k - 1) as nat);
        let t = top_templates(order, tally, k);
        let r = top_templates(rest, tally, (k - 1) as nat);
        assert(t == seq![order[c]] + r);
        assert forall|i: int| 0 <= i < r.len() implies order.contains(#[trigger] r[i]) by {
            assert(rest.contains(r[i]));
            let jj = choose|jj: int| 0 <= jj < rest.len() && rest[jj] == r[i];
            if jj < c {
                assert(order[jj] == r[i]);
            } else {
                assert(order[jj + 1] == r[i]);
            }
        }
        assert forall|i: int| 0 <= i < t.len() implies order.contains(#[trigger] t[i]) by {
            if i == 0 {
                assert(t[0] == order[c]);
            } else {
                assert(t[i] == r[i - 1]);
            }
        }
        assert forall|i: int, j: int| 0 <= i < j < t.len() implies tally[t[j]] <= tally[t[i]] by {
            assert(t[j] == r[j - 1]);
            if i == 0 {
                assert(t[0] == order[c]);
                assert(order.contains(r[j - 1]));
                let jj = choose|jj: int| 0 <= jj < order.len() && order[jj] == r[j - 1];
                assert(tally[order[jj]] <= tally[order[c]]);
            } else {
                assert(t[i] == r[i - 1]);
            }
        }
    }
}

// ---------------------------------------------------------------------------
// Token pruner
// ---------------------------------------------------------------------------

/// With pruning off (a retention rate of 0.8 or more) no word is dropped.
pub proof fn law_pruner_off_keeps_every_word(ws: Seq<Seq<char>>)
    ensures
        kept_words(ws, false) == ws,
    decreases ws.len(),
{
    if ws.len() > 0 {
        law_pruner_off_keeps_every_word(ws.drop_last());
        assert(ws.drop_last().push(ws.last()) =~= ws);
    }
}

/// Pruning removes at most every other word: the words at odd positions
/// always stay, so at least half of the words survive.
pub proof fn law_pruner_keeps_half_the_words(ws: Seq<Seq<char>>, prune: bool)
    ensures
        kept_words(ws, prune).len() >= ws.len() / 2,
        kept_words(ws, prune).len() <= ws.len(),
    decreases ws.len(),
{
    if ws.len() > 0 {
        law_pruner_keeps_half_the_words(ws.drop_last(), prune);
        let i = ws.len() - 1;
        if drops_word(ws.last(), i, prune) {
            assert(i % 2 == 0);
            assert(ws.len() / 2 == (ws.len() - 1) / 2) by (nonlinear_arith)
                requires
                    (ws.len() - 1) % 2 == 0,
                    ws.len() >= 1,
            ;
        } else {
            assert(ws.len() / 2 <= (ws.len() - 1) / 2 + 1) by (nonlinear_arith)
                requires
                    ws.len() >= 1,
            ;
        }
    }
}

// ---------------------------------------------------------------------------
// Numbers and command line
// ---------------------------------------------------------------------------

proof fn lemma_digit_value(k: nat)
    requires
        k < 10,
    ensures
        digit_value(digit(k)) == k,
        is_ascii_digit(digit(k)),
        digit(k) != '+',
{
}

proof fn lemma_decimal_digits(n: nat)
    ensures
        decimal(n).len() > 0,
        all_digits(decimal(n)),
        digits_value(decimal(n)) == n,
        decimal(n)[0] != '+',
    decreases n,
{
    if n < 10 {
        assert(decimal(n) == seq![digit(n)]);
        assert(decimal(n).drop_last() =~= Seq::<char>::empty());
        lemma_digit_value(n);
        assert(digits_value(decimal(n)) == digits_value(decimal(n).drop_last()) * 10
            + digit_value(decimal(n).last()));
    } else {
        lemma_decimal_digits(n / 10);
        let d = decimal(n);
        assert(d.drop_last() =~= decimal(n / 10));
        lemma_digit_value(n % 10);
        assert(d.last() == digit(n % 10));
        assert(digits_value(d) == digits_value(d.drop_last()) * 10 + digit_value(d.last()));
        assert(d[0] == decimal(n / 10)[0]);
        assert forall|i: int| 0 <= i < d.len() implies is_ascii_digit(#[trigger] d[i]) by {
            if i < d.len() - 1 {
                assert(d[i] == decimal(n / 10)[i]);
            }
        }
    }
}

/// Parsing what `{}` prints gives the number back: the `--max-lines` parser
/// reads every decimal rendering of a `usize`.
pub proof fn law_parse_reads_printed_numbers(n: usize)
    ensures
        parsed_usize(decimal(n as nat)) == Some(n),
{
    lemma_decimal_digits(n as nat);
}

/// The input file that the command line names never looks like an option:
/// an argument that starts with `-` and is not an option is an error.
pub proof fn law_input_file_is_never_an_option(
    args: Seq<Seq<char>>,
    rate_ok: Seq<bool>,
    i: int,
    o: OptionsModel,
)
    requires
        o.input_file matches Some(f) ==> !(f.len() > 0 && f[0] == '-'),
    ensures
        parse_from(args, rate_ok, i, o) matches Ok(CommandModel::Run(p)) ==> (
        p.input_file matches Some(f) ==> !(f.len() > 0 && f[0] == '-')),
    decreases args.len() - i,
{
    if 0 <= i < args.len() {
        let a = args[i];
        let v = args[i + 1];
        law_input_file_is_never_an_option(args, rate_ok, i + 1, OptionsModel { mode_override: Some("fast"@), ..o });
        law_input_file_is_never_an_option(args, rate_ok, i + 1, OptionsModel { mode_override: Some("lingua"@), ..o });
        law_input_file_is_never_an_option(args, rate_ok, i + 1, OptionsModel { mode_override: Some("ai"@), ..o });
        law_input_file_is_never_an_option(args, rate_ok, i + 1, OptionsModel { mode_override: Some("auto"@), ..o });
        law_input_file_is_never_an_option(args, rate_ok, i + 1, OptionsModel { errors_only: true, ..o });
        law_input_file_is_never_an_option(args, rate_ok, i + 1, OptionsModel { summary_only: true, ..o });
        law_input_file_is_never_an_option(args, rate_ok, i + 1, OptionsModel { json_output: true, ..o });
        if i + 1 < args.len() {
            match parsed_usize(v) {
                Some(n) => law_input_file_is_never_an_option(args, rate_ok, i + 2, OptionsModel { max_lines: Some(n), ..o }),
                None => {},
            }
            law_input_file_is_never_an_option(args, rate_ok, i + 2, OptionsModel { lingua_rate: Some(v), ..o });
            law_input_file_is_never_an_option(args, rate_ok, i + 2, OptionsModel { model_override: Some(v), ..o });
            law_input_file_is_never_an_option(args, rate_ok, i + 2, OptionsModel { endpoint_override: Some(v), ..o });
            law_input_file_is_never_an_option(args, rate_ok, i + 2, OptionsModel { api_key_override: Some(v), ..o });
            law_input_file_is_never_an_option(args, rate_ok, i + 2, OptionsModel { config_file: Some(v), ..o });
        }
        if !(a.len() > 0 && a[0] == '-') {
            law_input_file_is_never_an_option(args, rate_ok, i + 1, OptionsModel { input_file: Some(a), ..o });
        }
    }
}

// ---------------------------------------------------------------------------
// Tier 1: stack traces, folding and rendering, stated on the results
// ---------------------------------------------------------------------------

/// A stack-trace line that follows an error or warning whose trace still has
/// room joins that event's trace, however many occurrences the event already
/// folded: the event keeps its template, level, count and examples, gains the
/// raw line at the end of its trace, and no event is closed.
pub proof fn law_stack_trace_joins_preceding_error(lines: Seq<Seq<char>>, st: Seq<char>)
    requires
        is_stack_trace(trim(st)),
        scan(lines).current is Some,
        is_error_or_warn_level(scan(lines).current->0.level),
        scan(lines).current->0.stack_trace.len() < MAX_STACK_TRACE_LINES,
    ensures
        scan(lines.push(st)).clusters == scan(lines).clusters,
        scan(lines.push(st)).current == Some(
            (ClusterModel {
                stack_trace: scan(lines).current->0.stack_trace.push(st),
                ..scan(lines).current->0
            }),
        ),
{
    assert(lines.push(st).drop_last() =~= lines);
    assert(lines.push(st).last() == st);
    lemma_stack_trace_not_blank(trim(st));
}

/// A stack-trace line is never blank.
proof fn lemma_stack_trace_not_blank(t: Seq<char>)
    requires
        is_stack_trace(t),
    ensures
        t.len() > 0,
{
    if t.len() == 0 {
        reveal_strlit("at ");
        reveal_strlit("Caused by:");
        reveal_strlit("File ");
        reveal_strlit("Traceback (most recent call last):");
        reveal_strlit("goroutine ");
        reveal_strlit("... ");
        reveal_strlit(".rs:");
        reveal_strlit(":");
        reveal_strlit(".go:");
        reveal_strlit(".py\", line ");
        reveal_strlit(".java:");
        assert(crate::text::trim_start(t) =~= t);
    }
}

/// One event rendered alone is that event's own text.
proof fn lemma_events_text_single(c: ClusterModel)
    ensures
        crate::squeeze::events_text(seq![c]) == crate::squeeze::event_text(c),
{
    let s = seq![c];
    assert(s.drop_last() =~= Seq::<ClusterModel>::empty());
    assert(crate::squeeze::events_text(Seq::<ClusterModel>::empty()) =~= Seq::<char>::empty());
    assert(crate::squeeze::events_text(s) =~= crate::squeeze::event_text(c));
}

/// A line that repeats the template of the open event, when that event has no
/// stack trace yet, folds into it: the count grows by one and the raw line
/// becomes the event's last example, while its first example stays.
pub proof fn law_repeat_updates_last_example(lines: Seq<Seq<char>>, raw: Seq<char>)
    requires
        trim(raw).len() > 0,
        !is_stack_trace(trim(raw)),
        scan(lines).current is Some,
        scan(lines).current->0.stack_trace.len() == 0,
        mask_line(trim(raw)) == scan(lines).current->0.template,
    ensures
        scan(lines.push(raw)).clusters == scan(lines).clusters,
        scan(lines.push(raw)).current == Some(
            (ClusterModel {
                count: scan(lines).current->0.count + 1,
                last_example: raw,
                ..scan(lines).current->0
            }),
        ),
{
    assert(lines.push(raw).drop_last() =~= lines);
    assert(lines.push(raw).last() == raw);
}

/// A line whose template differs from the open event's, and that does not
/// join that event's stack trace, closes the open event and opens a new one
/// that has occurred once, with the line's template and level and the raw
/// line as its first and last example.
pub proof fn law_new_template_opens_an_event(lines: Seq<Seq<char>>, raw: Seq<char>)
    requires
        trim(raw).len() > 0,
        scan(lines).current is Some,
        mask_line(trim(raw)) != scan(lines).current->0.template,
        !(is_stack_trace(trim(raw)) && is_error_or_warn_level(scan(lines).current->0.level)
            && scan(lines).current->0.stack_trace.len() < MAX_STACK_TRACE_LINES),
    ensures
        scan(lines.push(raw)).clusters == scan(lines).clusters.push(scan(lines).current->0),
        scan(lines.push(raw)).current == Some(
            (ClusterModel {
                template: mask_line(trim(raw)),
                level: level_of(trim(raw)),
                count: 1,
                first_example: raw,
                last_example: raw,
                stack_trace: Seq::empty(),
            }),
        ),
{
    assert(lines.push(raw).drop_last() =~= lines);
    assert(lines.push(raw).last() == raw);
}

/// A blank line is counted among the lines and changes nothing else.
pub proof fn law_blank_line_is_only_counted(lines: Seq<Seq<char>>, raw: Seq<char>)
    requires
        trim(raw).len() == 0,
    ensures
        scan(lines.push(raw)).clusters == scan(lines).clusters,
        scan(lines.push(raw)).current == scan(lines).current,
        scan(lines.push(raw)).stats == (StatsModel {
            total_lines: scan(lines).stats.total_lines + 1,
            ..scan(lines).stats
        }),
        scan(lines.push(raw)).order == scan(lines).order,
        scan(lines.push(raw)).tally == scan(lines).tally,
{
    assert(lines.push(raw).drop_last() =~= lines);
    assert(lines.push(raw).last() == raw);
}

/// A line that occurs once is rendered as the raw line itself.
pub proof fn law_single_line_renders_as_itself(a: Seq<char>, max_lines: nat)
    requires
        trim(a).len() > 0,
    ensures
        report_body(seq![a], max_lines, false, false) == a + "\n"@,
{
    let lines = seq![a];
    assert(lines.drop_last() =~= Seq::<Seq<char>>::empty());
    assert(scan(Seq::<Seq<char>>::empty()) == crate::squeeze::initial_scan());
    let c = new_cluster(mask_line(trim(a)), level_of(trim(a)), a);
    assert(scan(lines) == scan_step(crate::squeeze::initial_scan(), a));
    assert(all_clusters(scan(lines)) =~= seq![c]);
    lemma_single_event_displayed(c, max_lines);
    lemma_events_text_single(c);
    assert(crate::squeeze::event_text(c) =~= a + "\n"@);
    assert(report_body(lines, max_lines, false, false) =~= a + "\n"@);
}

/// Two lines of one template render as one event: its count, its level, the
/// first raw line, and in the `[last: ..]` slot the second raw line.
pub proof fn law_two_lines_render_first_and_last(a: Seq<char>, b: Seq<char>, max_lines: nat)
    requires
        trim(a).len() > 0,
        trim(b).len() > 0,
        !is_stack_trace(trim(b)),
        mask_line(trim(a)) == mask_line(trim(b)),
    ensures
        report_body(seq![a, b], max_lines, false, false) == "[x2] ["@ + level_name(
            level_of(trim(a)),
        ) + "] "@ + a + " ... [last: "@ + b + "]\n"@,
{
    let lines = seq![a, b];
    assert(lines.drop_last() =~= seq![a]);
    assert(seq![a].drop_last() =~= Seq::<Seq<char>>::empty());
    assert(scan(Seq::<Seq<char>>::empty()) == crate::squeeze::initial_scan());
    let s1 = scan(seq![a]);
    assert(s1 == scan_step(crate::squeeze::initial_scan(), a));
    assert(s1.current == Some(new_cluster(mask_line(trim(a)), level_of(trim(a)), a)));
    assert(s1.clusters =~= Seq::<ClusterModel>::empty());
    let s2 = scan(lines);
    assert(s2 == scan_step(s1, b));
    assert(!attaches(s1.current, trim(b)));
    assert(extends(s1.current->0, mask_line(trim(b))));
    let c = ClusterModel {
        template: mask_line(trim(a)),
        level: level_of(trim(a)),
        count: 2,
        first_example: a,
        last_example: b,
        stack_trace: Seq::empty(),
    };
    assert(all_clusters(scan(lines)) =~= seq![c]);
    lemma_single_event_displayed(c, max_lines);
    assert(decimal(2) =~= seq!['2']);
    reveal_strlit("2");
    lemma_events_text_single(c);
    reveal_strlit("[x");
    reveal_strlit("] [");
    reveal_strlit("[x2] [");
    assert(crate::squeeze::event_text(c) =~= "[x"@ + decimal(2) + "] ["@ + level_name(c.level)
        + "] "@ + a + " ... [last: "@ + b + "]\n"@);
    assert("[x"@ + decimal(2) + "] ["@ =~= "[x2] ["@);
    assert(report_body(lines, max_lines, false, false) =~= "[x2] ["@ + level_name(
        level_of(trim(a)),
    ) + "] "@ + a + " ... [last: "@ + b + "]\n"@);
}

/// A single event is shown as it is, with no sampling notice, whatever the
/// budget.
proof fn lemma_single_event_displayed(c: ClusterModel, max_lines: nat)
    ensures
        displayed_events(seq![c], max_lines, false) == seq![c],
        crate::squeeze::notice_text(seq![c], max_lines, false) == Seq::<char>::empty(),
{
    let s = seq![c];
    let e = Seq::<ClusterModel>::empty();
    assert(s.drop_last() =~= e);
    assert(s.last() == c);
    assert(count_others(e) == 0);
    assert(error_events(e) =~= e);
    assert(sampled_others(e, 1) =~= e);
    if over_budget(s, max_lines, false) {
        assert(count_others(s) <= 1);
        assert(sample_budget(max_lines, error_events(s).len()) >= MIN_SAMPLE_BUDGET);
        assert(sample_step(s, max_lines) == 1);
        if is_error_or_warn_level(c.level) {
            assert(error_events(s) =~= e.push(c));
            assert(sampled_others(s, 1) =~= e);
        } else {
            assert(error_events(s) =~= e);
            assert(sampled_others(s, 1) =~= e.push(c));
        }
        assert(displayed_events(s, max_lines, false) =~= s);
    }
}

/// An error line seen twice and then a stack-trace line give one event that
/// occurred twice and carries the trace line; rendered, it names its count,
/// level, first and last line, then the trace in its frame.
pub proof fn law_repeated_error_keeps_its_stack_trace(e: Seq<char>, st: Seq<char>, max_lines: nat)
    requires
        trim(e).len() > 0,
        !is_stack_trace(trim(e)),
        is_error_or_warn_level(level_of(trim(e))),
        is_stack_trace(trim(st)),
    ensures
        squeezed_events(seq![e, e, st], false) == seq![
            ClusterModel {
                template: mask_line(trim(e)),
                level: level_of(trim(e)),
                count: 2,
                first_example: e,
                last_example: e,
                stack_trace: seq![st],
            },
        ],
        report_body(seq![e, e, st], max_lines, false, false) == "[x2] ["@ + level_name(
            level_of(trim(e)),
        ) + "] "@ + e + " ... [last: "@ + e + "]\n"@ + "  +--- Stack Trace (1 lines):\n"@
            + "  | "@ + st + "\n"@ + "  +---\n"@,
{
    let lines = seq![e, e, st];
    assert(lines.drop_last() =~= seq![e, e]);
    assert(seq![e, e].drop_last() =~= seq![e]);
    assert(seq![e].drop_last() =~= Seq::<Seq<char>>::empty());
    lemma_stack_trace_not_blank(trim(st));
    assert(scan(Seq::<Seq<char>>::empty()) == crate::squeeze::initial_scan());
    let s1 = scan(seq![e]);
    assert(s1 == scan_step(crate::squeeze::initial_scan(), e));
    assert(s1.current == Some(new_cluster(mask_line(trim(e)), level_of(trim(e)), e)));
    assert(s1.clusters =~= Seq::<ClusterModel>::empty());
    let s2 = scan(seq![e, e]);
    assert(s2 == scan_step(s1, e));
    assert(!attaches(s1.current, trim(e)));
    assert(extends(s1.current->0, mask_line(trim(e))));
    let s3 = scan(lines);
    assert(s3 == scan_step(s2, st));
    assert(attaches(s2.current, trim(st)));
    let c = ClusterModel {
        template: mask_line(trim(e)),
        level: level_of(trim(e)),
        count: 2,
        first_example: e,
        last_example: e,
        stack_trace: seq![st],
    };
    assert(all_clusters(scan(lines)) =~= seq![c]);
    lemma_single_event_displayed(c, max_lines);
    assert(decimal(2) =~= seq!['2']);
    assert(decimal(1) =~= seq!['1']);
    reveal_strlit("2");
    reveal_strlit("1");
    lemma_events_text_single(c);
    assert(crate::squeeze::stack_text(seq![st]) =~= "  | "@ + st + "\n"@) by {
        assert(seq![st].drop_last() =~= Seq::<Seq<char>>::empty());
        assert(crate::squeeze::stack_text(Seq::<Seq<char>>::empty()) =~= Seq::<char>::empty());
    }
    reveal_strlit("[x");
    reveal_strlit("] [");
    reveal_strlit("[x2] [");
    reveal_strlit("  +--- Stack Trace (");
    reveal_strlit(" lines):\n");
    reveal_strlit("  +--- Stack Trace (1 lines):\n");
    assert("[x"@ + decimal(2) + "] ["@ =~= "[x2] ["@);
    assert("  +--- Stack Trace ("@ + decimal(1) + " lines):\n"@ =~= "  +--- Stack Trace (1 lines):\n"@);
    assert(crate::squeeze::event_text(c) =~= "[x"@ + decimal(2) + "] ["@ + level_name(c.level)
        + "] "@ + e + " ... [last: "@ + e + "]\n"@ + ("  +--- Stack Trace ("@ + decimal(1)
        + " lines):\n"@ + crate::squeeze::stack_text(c.stack_trace) + "  +---\n"@));
    assert(report_body(lines, max_lines, false, false) =~= "[x2] ["@ + level_name(
        level_of(trim(e)),
    ) + "] "@ + e + " ... [last: "@ + e + "]\n"@ + "  +--- Stack Trace (1 lines):\n"@ + "  | "@
        + st + "\n"@ + "  +---\n"@);
}

/// The line budget holds: the events shown number at most `max_lines`, or,
/// when the errors and warnings alone leave fewer than `MIN_SAMPLE_BUDGET`
/// lines for the rest, the errors and warnings plus `MIN_SAMPLE_BUDGET`.
pub proof fn law_shown_events_fit_line_budget(events: Seq<ClusterModel>, max_lines: nat)
    ensures
        displayed_events(events, max_lines, false).len() <= if max_lines >= error_events(
            events,
        ).len() + MIN_SAMPLE_BUDGET {
            max_lines as int
        } else {
            error_events(events).len() + MIN_SAMPLE_BUDGET
        },
{
    if over_budget(events, max_lines, false) {
        law_sampling_fits_budget(events, max_lines, false);
    }
}

/// Sampling uses the room it has: the room for non-error events is
/// `max_lines` minus the errors and warnings, but at least
/// `MIN_SAMPLE_BUDGET`; when the other events fit in it none is dropped, and
/// when they do not, more than half of the room is filled.
pub proof fn law_sampling_uses_the_room(events: Seq<ClusterModel>, max_lines: nat)
    requires
        events.len() > max_lines,
    ensures
        ({
            let errs = error_events(events).len();
            let others = count_others(events);
            let room: int = if max_lines >= errs + MIN_SAMPLE_BUDGET {
                max_lines - errs
            } else {
                MIN_SAMPLE_BUDGET as int
            };
            let shown = displayed_events(events, max_lines, false).len();
            &&& others <= room ==> shown == events.len()
            &&& others > room ==> 2 * (shown - errs) > room
        }),
{
    let errs = error_events(events).len();
    let o = count_others(events);
    let b = sample_budget(max_lines, errs);
    let step = sample_step(events, max_lines);
    lemma_partition_len(events);
    lemma_sampled_len(events, step);
    let m = multiples_below(o, step);
    assert(displayed_events(events, max_lines, false).len() == errs + m);
    if o <= b {
        assert(step == 1);
        lemma_multiples_ceiling(o, 1);
        assert(m == o) by (nonlinear_arith)
            requires
                m * 1 >= o,
                m == 0 || (m - 1) * 1 < o,
        ;
    } else {
        assert(step == ((o + b - 1) as nat) / b);
        assert(step >= 1 && step * b < o + b) by (nonlinear_arith)
            requires
                step == ((o + b - 1) as nat) / b,
                o > b,
                b > 0,
        ;
        lemma_multiples_ceiling(o, step);
        assert(2 * m > b) by (nonlinear_arith)
            requires
                m * step >= o,
                step * b < o + b,
                o > b,
                step >= 1,
        ;
    }
}

// ---------------------------------------------------------------------------
// Masking rules
// ---------------------------------------------------------------------------

/// The masking rules are the documented (pattern, token) pairs, applied in
/// this order: full date and time,
/// syslog time and time of day become `<TIME>`, a date `<DATE>`, a UUID
/// `<UUID>`, an IPv4 address `<IP>`, an IPv6 address `<IPV6>`, a hex address
/// `<HEX>`, a hash `<HASH>`, a duration or size `<VAL>`, any other number
/// `<N>`.
pub proof fn law_masking_rules_are_the_documented_pairs()
    ensures
        default_rules().len() == MASK_RULE_COUNT,
        forall|i: int|
            0 <= i < MASK_RULE_COUNT ==> (#[trigger] default_rules()[i]).1 == mask_token(i) && (
            default_rules()[i].0 is Some ==> default_rules()[i].0->0 == mask_pattern(i)),
        mask_pattern(0) == PATTERN_FULL_DATE_TIME@ && mask_token(0) == "<TIME>"@,
        mask_pattern(1) == PATTERN_SYSLOG_TIME@ && mask_token(1) == "<TIME>"@,
        mask_pattern(2) == PATTERN_TIME_ONLY@ && mask_token(2) == "<TIME>"@,
        mask_pattern(3) == PATTERN_DATE_ONLY@ && mask_token(3) == "<DATE>"@,
        mask_pattern(4) == PATTERN_UUID@ && mask_token(4) == "<UUID>"@,
        mask_pattern(5) == PATTERN_IPV4@ && mask_token(5) == "<IP>"@,
        mask_pattern(6) == PATTERN_IPV6@ && mask_token(6) == "<IPV6>"@,
        mask_pattern(7) == PATTERN_HEX@ && mask_token(7) == "<HEX>"@,
        mask_pattern(8) == PATTERN_HASH@ && mask_token(8) == "<HASH>"@,
        mask_pattern(9) == PATTERN_DURATION_BYTES@ && mask_token(9) == "<VAL>"@,
        mask_pattern(10) == PATTERN_NUM@ && mask_token(10) == "<N>"@,
{
}

// ---------------------------------------------------------------------------
// Command line: long and short options
// ---------------------------------------------------------------------------

/// The options' spellings differ in length or in the character after the
/// dashes.
proof fn lemma_option_spellings()
    ensures
        "-1"@.len() == 2 && "-1"@[1] == '1',
        "--fast"@.len() == 6 && "--fast"@[2] == 'f',
        "-2"@.len() == 2 && "-2"@[1] == '2',
        "--lingua"@.len() == 8 && "--lingua"@[2] == 'l',
        "-3"@.len() == 2 && "-3"@[1] == '3',
        "--ai"@.len() == 4 && "--ai"@[2] == 'a',
        "--semantic"@.len() == 10 && "--semantic"@[2] == 's',
        "-a"@.len() == 2 && "-a"@[1] == 'a',
        "--auto"@.len() == 6 && "--auto"@[2] == 'a',
        "-e"@.len() == 2 && "-e"@[1] == 'e',
        "--errors-only"@.len() == 13 && "--errors-only"@[2] == 'e',
        "-s"@.len() == 2 && "-s"@[1] == 's',
        "--summary"@.len() == 9 && "--summary"@[2] == 's',
        "-j"@.len() == 2 && "-j"@[1] == 'j',
        "--json"@.len() == 6 && "--json"@[2] == 'j',
        "-m"@.len() == 2 && "-m"@[1] == 'm',
        "--max-lines"@.len() == 11 && "--max-lines"@[2] == 'm',
        "-r"@.len() == 2 && "-r"@[1] == 'r',
        "--rate"@.len() == 6 && "--rate"@[2] == 'r',
        "--model"@.len() == 7 && "--model"@[2] == 'm',
        "--endpoint"@.len() == 10 && "--endpoint"@[2] == 'e',
        "--key"@.len() == 5 && "--key"@[2] == 'k',
        "--config"@.len() == 8 && "--config"@[2] == 'c',
        "-h"@.len() == 2 && "-h"@[1] == 'h',
        "--help"@.len() == 6 && "--help"@[2] == 'h',
{
    reveal_strlit("-1");
    reveal_strlit("--fast");
    reveal_strlit("-2");
    reveal_strlit("--lingua");
    reveal_strlit("-3");
    reveal_strlit("--ai");
    reveal_strlit("--semantic");
    reveal_strlit("-a");
    reveal_strlit("--auto");
    reveal_strlit("-e");
    reveal_strlit("--errors-only");
    reveal_strlit("-s");
    reveal_strlit("--summary");
    reveal_strlit("-j");
    reveal_strlit("--json");
    reveal_strlit("-m");
    reveal_strlit("--max-lines");
    reveal_strlit("-r");
    reveal_strlit("--rate");
    reveal_strlit("--model");
    reveal_strlit("--endpoint");
    reveal_strlit("--key");
    reveal_strlit("--config");
    reveal_strlit("-h");
    reveal_strlit("--help");
    assert("-1"@[1] == '1');
    assert("--fast"@[2] == 'f');
    assert("-2"@[1] == '2');
    assert("--lingua"@[2] == 'l');
    assert("-3"@[1] == '3');
    assert("--ai"@[2] == 'a');
    assert("--semantic"@[2] == 's');
    assert("-a"@[1] == 'a');
    assert("--auto"@[2] == 'a');
    assert("-e"@[1] == 'e');
    assert("--errors-only"@[2] == 'e');
    assert("-s"@[1] == 's');
    assert("--summary"@[2] == 's');
    assert("-j"@[1] == 'j');
    assert("--json"@[2] == 'j');
    assert("-m"@[1] == 'm');
    assert("--max-lines"@[2] == 'm');
    assert("-r"@[1] == 'r');
    assert("--rate"@[2] == 'r');
    assert("--model"@[2] == 'm');
    assert("--endpoint"@[2] == 'e');
    assert("--key"@[2] == 'k');
    assert("--config"@[2] == 'c');
    assert("-h"@[1] == 'h');
    assert("--help"@[2] == 'h');
}

/// Reading from position `j` on looks only at the arguments from `j` on.
proof fn lemma_parse_reads_only_the_rest(
    a1: Seq<Seq<char>>,
    a2: Seq<Seq<char>>,
    rate_ok: Seq<bool>,
    j: int,
    o: OptionsModel,
)
    requires
        a1.len() == a2.len(),
        forall|k: int| 0 <= j <= k < a1.len() ==> a1[k] == a2[k],
    ensures
        parse_from(a1, rate_ok, j, o) == parse_from(a2, rate_ok, j, o),
    decreases a1.len() - j,
{
    if 0 <= j < a1.len() {
        let a = a1[j];
        assert(a2[j] == a);
        lemma_parse_reads_only_the_rest(a1, a2, rate_ok, j + 1, OptionsModel { mode_override: Some("fast"@), ..o });
        lemma_parse_reads_only_the_rest(a1, a2, rate_ok, j + 1, OptionsModel { mode_override: Some("lingua"@), ..o });
        lemma_parse_reads_only_the_rest(a1, a2, rate_ok, j + 1, OptionsModel { mode_override: Some("ai"@), ..o });
        lemma_parse_reads_only_the_rest(a1, a2, rate_ok, j + 1, OptionsModel { mode_override: Some("auto"@), ..o });
        lemma_parse_reads_only_the_rest(a1, a2, rate_ok, j + 1, OptionsModel { errors_only: true, ..o });
        lemma_parse_reads_only_the_rest(a1, a2, rate_ok, j + 1, OptionsModel { summary_only: true, ..o });
        lemma_parse_reads_only_the_rest(a1, a2, rate_ok, j + 1, OptionsModel { json_output: true, ..o });
        lemma_parse_reads_only_the_rest(a1, a2, rate_ok, j + 1, OptionsModel { input_file: Some(a), ..o });
        if j + 1 < a1.len() {
            let v = a1[j + 1];
            assert(a2[j + 1] == v);
            match parsed_usize(v) {
                Some(n) => lemma_parse_reads_only_the_rest(a1, a2, rate_ok, j + 2, OptionsModel { max_lines: Some(n), ..o }),
                None => {},
            }
            lemma_parse_reads_only_the_rest(a1, a2, rate_ok, j + 2, OptionsModel { lingua_rate: Some(v), ..o });
            lemma_parse_reads_only_the_rest(a1, a2, rate_ok, j + 2, OptionsModel { model_override: Some(v), ..o });
            lemma_parse_reads_only_the_rest(a1, a2, rate_ok, j + 2, OptionsModel { endpoint_override: Some(v), ..o });
            lemma_parse_reads_only_the_rest(a1, a2, rate_ok, j + 2, OptionsModel { api_key_override: Some(v), ..o });
            lemma_parse_reads_only_the_rest(a1, a2, rate_ok, j + 2, OptionsModel { config_file: Some(v), ..o });
        }
    }
}

/// `--fast` and `-1` read at position `i` both set their option and go on
/// with the next argument.
proof fn lemma_flag_fast(args: Seq<Seq<char>>, rate_ok: Seq<bool>, i: int, o: OptionsModel)
    requires
        0 <= i < args.len(),
    ensures
        parse_from(args.update(i, "--fast"@), rate_ok, i, o) == parse_from(args, rate_ok, i + 1, (OptionsModel { mode_override: Some("fast"@), ..o })),
        parse_from(args.update(i, "-1"@), rate_ok, i, o) == parse_from(args, rate_ok, i + 1, (OptionsModel { mode_override: Some("fast"@), ..o })),
{
    lemma_option_spellings();
    assert(args.update(i, "--fast"@)[i] == "--fast"@);
    assert(args.update(i, "-1"@)[i] == "-1"@);
    lemma_parse_reads_only_the_rest(args.update(i, "--fast"@), args, rate_ok, i + 1, OptionsModel { mode_override: Some("fast"@), ..o });
    lemma_parse_reads_only_the_rest(args.update(i, "-1"@), args, rate_ok, i + 1, OptionsModel { mode_override: Some("fast"@), ..o });
}

/// `--lingua` and `-2` read at position `i` both set their option and go on
/// with the next argument.
proof fn lemma_flag_lingua(args: Seq<Seq<char>>, rate_ok: Seq<bool>, i: int, o: OptionsModel)
    requires
        0 <= i < args.len(),
    ensures
        parse_from(args.update(i, "--lingua"@), rate_ok, i, o) == parse_from(args, rate_ok, i + 1, (OptionsModel { mode_override: Some("lingua"@), ..o })),
        parse_from(args.update(i, "-2"@), rate_ok, i, o) == parse_from(args, rate_ok, i + 1, (OptionsModel { mode_override: Some("lingua"@), ..o })),
{
    lemma_option_spellings();
    assert(args.update(i, "--lingua"@)[i] == "--lingua"@);
    assert(args.update(i, "-2"@)[i] == "-2"@);
    lemma_parse_reads_only_the_rest(args.update(i, "--lingua"@), args, rate_ok, i + 1, OptionsModel { mode_override: Some("lingua"@), ..o });
    lemma_parse_reads_only_the_rest(args.update(i, "-2"@), args, rate_ok, i + 1, OptionsModel { mode_override: Some("lingua"@), ..o });
}

/// `--ai` and `-3` read at position `i` both set their option and go on
/// with the next argument.
proof fn lemma_flag_ai(args: Seq<Seq<char>>, rate_ok: Seq<bool>, i: int, o: OptionsModel)
    requires
        0 <= i < args.len(),
    ensures
        parse_from(args.update(i, "--ai"@), rate_ok, i, o) == parse_from(args, rate_ok, i + 1, (OptionsModel { mode_override: Some("ai"@), ..o })),
        parse_from(args.update(i, "-3"@), rate_ok, i, o) == parse_from(args, rate_ok, i + 1, (OptionsModel { mode_override: Some("ai"@), ..o })),
{
    lemma_option_spellings();
    assert(args.update(i, "--ai"@)[i] == "--ai"@);
    assert(args.update(i, "-3"@)[i] == "-3"@);
    lemma_parse_reads_only_the_rest(args.update(i, "--ai"@), args, rate_ok, i + 1, OptionsModel { mode_override: Some("ai"@), ..o });
    lemma_parse_reads_only_the_rest(args.update(i, "-3"@), args, rate_ok, i + 1, OptionsModel { mode_override: Some("ai"@), ..o });
}

/// `--semantic` and `-3` read at position `i` both set their option and go on
/// with the next argument.
proof fn lemma_flag_semantic(args: Seq<Seq<char>>, rate_ok: Seq<bool>, i: int, o: OptionsModel)
    requires
        0 <= i < args.len(),
    ensures
        parse_from(args.update(i, "--semantic"@), rate_ok, i, o) == parse_from(args, rate_ok, i + 1, (OptionsModel { mode_override: Some("ai"@), ..o })),
        parse_from(args.update(i, "-3"@), rate_ok, i, o) == parse_from(args, rate_ok, i + 1, (OptionsModel { mode_override: Some("ai"@), ..o })),
{
    lemma_option_spellings();
    assert(args.update(i, "--semantic"@)[i] == "--semantic"@);
    assert(args.update(i, "-3"@)[i] == "-3"@);
    lemma_parse_reads_only_the_rest(args.update(i, "--semantic"@), args, rate_ok, i + 1, OptionsModel { mode_override: Some("ai"@), ..o });
    lemma_parse_reads_only_the_rest(args.update(i, "-3"@), args, rate_ok, i + 1, OptionsModel { mode_override: Some("ai"@), ..o });
}

/// `--auto` and `-a` read at position `i` both set their option and go on
/// with the next argument.
proof fn lemma_flag_auto(args: Seq<Seq<char>>, rate_ok: Seq<bool>, i: int, o: OptionsModel)
    requires
        0 <= i < args.len(),
    ensures
        parse_from(args.update(i, "--auto"@), rate_ok, i, o) == parse_from(args, rate_ok, i + 1, (OptionsModel { mode_override: Some("auto"@), ..o })),
        parse_from(args.update(i, "-a"@), rate_ok, i, o) == parse_from(args, rate_ok, i + 1, (OptionsModel { mode_override: Some("auto"@), ..o })),
{
    lemma_option_spellings();
    assert(args.update(i, "--auto"@)[i] == "--auto"@);
    assert(args.update(i, "-a"@)[i] == "-a"@);
    lemma_parse_reads_only_the_rest(args.update(i, "--auto"@), args, rate_ok, i + 1, OptionsModel { mode_override: Some("auto"@), ..o });
    lemma_parse_reads_only_the_rest(args.update(i, "-a"@), args, rate_ok, i + 1, OptionsModel { mode_override: Some("auto"@), ..o });
}

/// `--errors-only` and `-e` read at position `i` both set their option and go on
/// with the next argument.
proof fn lemma_flag_errors_only(args: Seq<Seq<char>>, rate_ok: Seq<bool>, i: int, o: OptionsModel)
    requires
        0 <= i < args.len(),
    ensures
        parse_from(args.update(i, "--errors-only"@), rate_ok, i, o) == parse_from(args, rate_ok, i + 1, (OptionsModel { errors_only: true, ..o })),
        parse_from(args.update(i, "-e"@), rate_ok, i, o) == parse_from(args, rate_ok, i + 1, (OptionsModel { errors_only: true, ..o })),
{
    lemma_option_spellings();
    assert(args.update(i, "--errors-only"@)[i] == "--errors-only"@);
    assert(args.update(i, "-e"@)[i] == "-e"@);
    lemma_parse_reads_only_the_rest(args.update(i, "--errors-only"@), args, rate_ok, i + 1, OptionsModel { errors_only: true, ..o });
    lemma_parse_reads_only_the_rest(args.update(i, "-e"@), args, rate_ok, i + 1, OptionsModel { errors_only: true, ..o });
}

/// `--summary` and `-s` read at position `i` both set their option and go on
/// with the next argument.
proof fn lemma_flag_summary(args: Seq<Seq<char>>, rate_ok: Seq<bool>, i: int, o: OptionsModel)
    requires
        0 <= i < args.len(),
    ensures
        parse_from(args.update(i, "--summary"@), rate_ok, i, o) == parse_from(args, rate_ok, i + 1, (OptionsModel { summary_only: true, ..o })),
        parse_from(args.update(i, "-s"@), rate_ok, i, o) == parse_from(args, rate_ok, i + 1, (OptionsModel { summary_only: true, ..o })),
{
    lemma_option_spellings();
    assert(args.update(i, "--summary"@)[i] == "--summary"@);
    assert(args.update(i, "-s"@)[i] == "-s"@);
    lemma_parse_reads_only_the_rest(args.update(i, "--summary"@), args, rate_ok, i + 1, OptionsModel { summary_only: true, ..o });
    lemma_parse_reads_only_the_rest(args.update(i, "-s"@), args, rate_ok, i + 1, OptionsModel { summary_only: true, ..o });
}

/// `--json` and `-j` read at position `i` both set their option and go on
/// with the next argument.
proof fn lemma_flag_json(args: Seq<Seq<char>>, rate_ok: Seq<bool>, i: int, o: OptionsModel)
    requires
        0 <= i < args.len(),
    ensures
        parse_from(args.update(i, "--json"@), rate_ok, i, o) == parse_from(args, rate_ok, i + 1, (OptionsModel { json_output: true, ..o })),
        parse_from(args.update(i, "-j"@), rate_ok, i, o) == parse_from(args, rate_ok, i + 1, (OptionsModel { json_output: true, ..o })),
{
    lemma_option_spellings();
    assert(args.update(i, "--json"@)[i] == "--json"@);
    assert(args.update(i, "-j"@)[i] == "-j"@);
    lemma_parse_reads_only_the_rest(args.update(i, "--json"@), args, rate_ok, i + 1, OptionsModel { json_output: true, ..o });
    lemma_parse_reads_only_the_rest(args.update(i, "-j"@), args, rate_ok, i + 1, OptionsModel { json_output: true, ..o });
}

/// `--max-lines` and `-m` read at position `i` take the same value and give the
/// same result.
proof fn lemma_valued_max_lines(args: Seq<Seq<char>>, rate_ok: Seq<bool>, i: int, o: OptionsModel)
    requires
        0 <= i < args.len(),
    ensures
        parse_from(args.update(i, "--max-lines"@), rate_ok, i, o) == parse_from(args.update(i, "-m"@), rate_ok, i, o),
{
    lemma_option_spellings();
    let a1 = args.update(i, "--max-lines"@);
    let a2 = args.update(i, "-m"@);
    assert(a1[i] == "--max-lines"@);
    assert(a2[i] == "-m"@);
    if i + 1 < args.len() {
        assert(a1[i + 1] == args[i + 1]);
        assert(a2[i + 1] == args[i + 1]);
        match parsed_usize(args[i + 1]) {
            Some(n) => lemma_parse_reads_only_the_rest(a1, a2, rate_ok, i + 2, OptionsModel { max_lines: Some(n), ..o }),
            None => {},
        }
    }
}

/// `--rate` and `-r` read at position `i` take the same value and give the
/// same result.
proof fn lemma_valued_rate(args: Seq<Seq<char>>, rate_ok: Seq<bool>, i: int, o: OptionsModel)
    requires
        0 <= i < args.len(),
    ensures
        parse_from(args.update(i, "--rate"@), rate_ok, i, o) == parse_from(args.update(i, "-r"@), rate_ok, i, o),
{
    lemma_option_spellings();
    let a1 = args.update(i, "--rate"@);
    let a2 = args.update(i, "-r"@);
    assert(a1[i] == "--rate"@);
    assert(a2[i] == "-r"@);
    if i + 1 < args.len() {
        assert(a1[i + 1] == args[i + 1]);
        assert(a2[i + 1] == args[i + 1]);
        lemma_parse_reads_only_the_rest(a1, a2, rate_ok, i + 2, OptionsModel { lingua_rate: Some(args[i + 1]), ..o });
    }
}

/// `-m N` (or `--max-lines N`) with `N` printed in decimal sets the line
/// budget to `N` and reading goes on after the number; given last, with no
/// value after it, it is an error.
pub proof fn law_max_lines_reads_its_number(
    args: Seq<Seq<char>>,
    rate_ok: Seq<bool>,
    i: int,
    o: OptionsModel,
    n: usize,
)
    requires
        0 <= i,
        i + 1 < args.len(),
    ensures
        parse_from(args.update(i, "-m"@).update(i + 1, decimal(n as nat)), rate_ok, i, o)
            == parse_from(args, rate_ok, i + 2, (OptionsModel { max_lines: Some(n), ..o })),
        parse_from(args.update(args.len() - 1, "-m"@), rate_ok, args.len() - 1, o) == Err::<
            CommandModel,
            Seq<char>,
        >("Missing value for --max-lines"@),
{
    lemma_option_spellings();
    law_parse_reads_printed_numbers(n);
    let a1 = args.update(i, "-m"@).update(i + 1, decimal(n as nat));
    assert(a1[i] == "-m"@);
    assert(a1[i + 1] == decimal(n as nat));
    lemma_parse_reads_only_the_rest(a1, args, rate_ok, i + 2, OptionsModel { max_lines: Some(n), ..o });
    let a2 = args.update(args.len() - 1, "-m"@);
    assert(a2[args.len() - 1] == "-m"@);
}

/// Every documented long option means the same as its short form: read at
/// the same position of the same arguments, `--fast` and `-1`, `--lingua` and
/// `-2`, `--ai` or `--semantic` and `-3`, `--auto` and `-a`, `--errors-only`
/// and `-e`, `--summary` and `-s`, `--json` and `-j`, `--max-lines` and `-m`,
/// `--rate` and `-r`, `--help` and `-h` give the same result. A flag sets its
/// option and reading goes on with the next argument; `-h` asks for the usage
/// text.
pub proof fn law_long_options_mean_their_short_forms(
    args: Seq<Seq<char>>,
    rate_ok: Seq<bool>,
    i: int,
    o: OptionsModel,
)
    requires
        0 <= i < args.len(),
    ensures
        parse_from(args.update(i, "--fast"@), rate_ok, i, o) == parse_from(args.update(i, "-1"@), rate_ok, i, o),
        parse_from(args.update(i, "--lingua"@), rate_ok, i, o) == parse_from(args.update(i, "-2"@), rate_ok, i, o),
        parse_from(args.update(i, "--ai"@), rate_ok, i, o) == parse_from(args.update(i, "-3"@), rate_ok, i, o),
        parse_from(args.update(i, "--semantic"@), rate_ok, i, o) == parse_from(args.update(i, "-3"@), rate_ok, i, o),
        parse_from(args.update(i, "--auto"@), rate_ok, i, o) == parse_from(args.update(i, "-a"@), rate_ok, i, o),
        parse_from(args.update(i, "--errors-only"@), rate_ok, i, o) == parse_from(args.update(i, "-e"@), rate_ok, i, o),
        parse_from(args.update(i, "--summary"@), rate_ok, i, o) == parse_from(args.update(i, "-s"@), rate_ok, i, o),
        parse_from(args.update(i, "--json"@), rate_ok, i, o) == parse_from(args.update(i, "-j"@), rate_ok, i, o),
        parse_from(args.update(i, "--max-lines"@), rate_ok, i, o) == parse_from(args.update(i, "-m"@), rate_ok, i, o),
        parse_from(args.update(i, "--rate"@), rate_ok, i, o) == parse_from(args.update(i, "-r"@), rate_ok, i, o),
        parse_from(args.update(i, "--help"@), rate_ok, i, o) == parse_from(args.update(i, "-h"@), rate_ok, i, o),
        parse_from(args.update(i, "-1"@), rate_ok, i, o) == parse_from(args, rate_ok, i + 1, (OptionsModel { mode_override: Some("fast"@), ..o })),
        parse_from(args.update(i, "-2"@), rate_ok, i, o) == parse_from(args, rate_ok, i + 1, (OptionsModel { mode_override: Some("lingua"@), ..o })),
        parse_from(args.update(i, "-3"@), rate_ok, i, o) == parse_from(args, rate_ok, i + 1, (OptionsModel { mode_override: Some("ai"@), ..o })),
        parse_from(args.update(i, "-a"@), rate_ok, i, o) == parse_from(args, rate_ok, i + 1, (OptionsModel { mode_override: Some("auto"@), ..o })),
        parse_from(args.update(i, "-e"@), rate_ok, i, o) == parse_from(args, rate_ok, i + 1, (OptionsModel { errors_only: true, ..o })),
        parse_from(args.update(i, "-s"@), rate_ok, i, o) == parse_from(args, rate_ok, i + 1, (OptionsModel { summary_only: true, ..o })),
        parse_from(args.update(i, "-j"@), rate_ok, i, o) == parse_from(args, rate_ok, i + 1, (OptionsModel { json_output: true, ..o })),
        parse_from(args.update(i, "-h"@), rate_ok, i, o) == Ok::<CommandModel, Seq<char>>(CommandModel::Help),
{
    lemma_flag_fast(args, rate_ok, i, o);
    lemma_flag_lingua(args, rate_ok, i, o);
    lemma_flag_ai(args, rate_ok, i, o);
    lemma_flag_semantic(args, rate_ok, i, o);
    lemma_flag_auto(args, rate_ok, i, o);
    lemma_flag_errors_only(args, rate_ok, i, o);
    lemma_flag_summary(args, rate_ok, i, o);
    lemma_flag_json(args, rate_ok, i, o);
    lemma_valued_max_lines(args, rate_ok, i, o);
    lemma_valued_rate(args, rate_ok, i, o);
    lemma_option_spellings();
    assert(args.update(i, "--help"@)[i] == "--help"@);
    assert(args.update(i, "-h"@)[i] == "-h"@);
}

} // verus!
