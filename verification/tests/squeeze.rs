use log_squeeze::level::LogLevel;
use log_squeeze::squeeze::{run_fast_squeeze, SqueezeStats};

#[test]
fn test_fast_squeeze_deduplication() {
    let input = "\
2026-08-24T12:00:01Z [INFO] GET /api/v1/health 200 2.5ms
2026-08-24T12:00:02Z [INFO] GET /api/v1/health 200 3.1ms
2026-08-24T12:00:03Z [INFO] GET /api/v1/health 200 1.9ms
2026-08-24T12:00:04Z [ERROR] Failed to connect to database
  at org.postgresql.Driver.connect(Driver.java:260)
";
    let res = run_fast_squeeze(input, 200, false, false);

    assert_eq!(res.stats.total_lines, 5);
    assert_eq!(res.stats.infos, 3);
    assert_eq!(res.stats.errors, 1);
    assert!(res.rendered_output.contains("[x3] [INFO]"));
    assert!(res.rendered_output.contains("Stack Trace (1 lines)"));
}

#[test]
fn renders_events_and_header_exactly() {
    let input = "INFO alpha\nINFO alpha\n\nERROR boom\n  at Foo.bar(Foo.java:1)\nINFO beta\n";
    let res = run_fast_squeeze(input, 200, false, false);
    assert_eq!(res.stats.total_lines, 6);
    assert_eq!(res.clusters.len(), 3);
    assert_eq!(res.clusters[0].count, 2);
    assert_eq!(res.clusters[0].template, "INFO alpha");
    assert_eq!(res.clusters[0].first_example, "INFO alpha");
    assert_eq!(res.clusters[1].level, LogLevel::Error);
    assert_eq!(res.clusters[1].stack_trace, vec!["  at Foo.bar(Foo.java:1)".to_string()]);
    assert_eq!(
        res.rendered_output,
        "[x2] [INFO] INFO alpha ... [last: INFO alpha]\n\
ERROR boom\n  +--- Stack Trace (1 lines):\n  |   at Foo.bar(Foo.java:1)\n  +---\n\
INFO beta\n"
    );
    assert!(!res.is_structured_code_heuristic);
    let report = res.render_report("50.0");
    assert!(report.starts_with(
        "=== [log-squeeze] Total: 6 lines | Compressed to: 3 events (50.0% reduction) | Errors: 1 | Warnings: 0 ===\n[x2]"
    ));
}

#[test]
fn errors_only_keeps_errors_and_warnings() {
    let input = "INFO a\nWARN b\nINFO c\nPANIC d\n";
    let res = run_fast_squeeze(input, 200, true, false);
    assert_eq!(res.clusters.len(), 2);
    assert_eq!(res.clusters[0].level, LogLevel::Warn);
    assert_eq!(res.clusters[1].level, LogLevel::Panic);
    assert_eq!(res.rendered_output, "WARN b\nPANIC d\n");
    assert_eq!(res.stats.infos, 2);
    assert_eq!(res.stats.total_errors_and_warns(), 2);
}

#[test]
fn errors_with_stack_trace_are_not_merged() {
    let input = "ERROR x\n  at A.b(A.java:1)\nERROR x\nERROR x\n";
    let res = run_fast_squeeze(input, 200, false, false);
    assert_eq!(res.clusters.len(), 2);
    assert_eq!(res.clusters[0].count, 1);
    assert_eq!(res.clusters[0].stack_trace.len(), 1);
    assert_eq!(res.clusters[1].count, 2);
}

#[test]
fn stack_trace_keeps_at_most_thirty_lines() {
    let mut input = String::from("ERROR crash\n");
    for _ in 0..35 {
        input.push_str("  at Foo.bar(Foo.java:1)\n");
    }
    let res = run_fast_squeeze(&input, 200, false, false);
    assert_eq!(res.clusters[0].stack_trace.len(), 30);
    // The five extra lines are events of their own: one event of five.
    assert_eq!(res.clusters.len(), 2);
    assert_eq!(res.clusters[1].count, 5);
    assert_eq!(res.stats.total_lines, 36);
}

fn letter_name(i: usize) -> String {
    let a = (b'a' + (i / 26) as u8) as char;
    let b = (b'a' + (i % 26) as u8) as char;
    format!("{}{}", a, b)
}

#[test]
fn sampling_keeps_errors_and_announces_itself() {
    let mut input = String::from("ERROR first failure\n");
    for i in 0..50 {
        input.push_str(&format!("INFO event {}\n", letter_name(i)));
    }
    let res = run_fast_squeeze(&input, 5, false, false);
    assert_eq!(res.clusters.len(), 51);
    assert!(res.rendered_output.starts_with(
        "[log-squeeze notice: sampled non-error events 1-in-3 to fit 5 line budget]\nERROR first failure\nINFO event aa\nINFO event ad\n"
    ));
    assert_eq!(res.rendered_output.lines().count(), 1 + 1 + 17);
    assert!(!res.rendered_output.contains("INFO event ab"));
}

#[test]
fn summary_lists_most_frequent_templates() {
    let input = "INFO b 1\nINFO a\nINFO b 2\nINFO a\nINFO b 3\nINFO c\n";
    let res = run_fast_squeeze(input, 200, false, true);
    assert_eq!(
        res.rendered_output,
        "\n--- Top Repeating Templates ---\n[x    3] INFO b <N>\n[x    2] INFO a\n[x    1] INFO c\n"
    );
    assert!(!res.is_structured_code_heuristic);
}

#[test]
fn code_like_input_is_flagged() {
    let mut input = String::new();
    for i in 0..30 {
        input.push_str(&format!("let v{} = compute();\n", letter_name(i)));
    }
    let res = run_fast_squeeze(&input, 200, false, false);
    assert!(res.is_structured_code_heuristic);
    assert_eq!(res.stats.unknowns, 30);
    let short = run_fast_squeeze("let a = 1;\n", 200, false, false);
    assert!(!short.is_structured_code_heuristic);
}

#[test]
fn empty_and_blank_input() {
    let res = run_fast_squeeze("", 200, false, false);
    assert_eq!(res.stats.total_lines, 0);
    assert!(res.clusters.is_empty());
    assert_eq!(res.rendered_output, "");
    let blank = run_fast_squeeze("  \n\t\n", 200, false, false);
    assert_eq!(blank.stats.total_lines, 2);
    assert!(blank.clusters.is_empty());
}

#[test]
fn crlf_and_missing_final_newline() {
    let res = run_fast_squeeze("INFO a\r\nINFO b", 200, false, false);
    assert_eq!(res.stats.total_lines, 2);
    assert_eq!(res.clusters[0].first_example, "INFO a");
    assert_eq!(res.clusters[1].first_example, "INFO b");
}

#[test]
fn record_level_counts_each_level() {
    let mut s = SqueezeStats::default();
    s.record_level(LogLevel::Panic);
    s.record_level(LogLevel::Fatal);
    s.record_level(LogLevel::Error);
    s.record_level(LogLevel::Warn);
    s.record_level(LogLevel::Warn);
    s.record_level(LogLevel::Info);
    s.record_level(LogLevel::Debug);
    s.record_level(LogLevel::Trace);
    s.record_level(LogLevel::Unknown);
    assert_eq!((s.panics, s.fatals, s.errors, s.warnings), (1, 1, 1, 2));
    assert_eq!((s.infos, s.debugs, s.traces, s.unknowns), (1, 1, 1, 1));
    assert_eq!(s.total_errors_and_warns(), 5);
    assert_eq!(s.total_lines, 0);
    assert_eq!(s.output_lines, 0);
}
