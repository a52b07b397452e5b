use log_squeeze::level::{detect_level, is_stack_trace_line};
use log_squeeze::masker::Masker;
use log_squeeze::cli::parse_usize;
use log_squeeze::lingua::run_builtin_token_pruner;
use log_squeeze::squeeze::run_fast_squeeze;

#[test]
fn every_nonblank_line_lands_in_one_event() {
    let input = "INFO a\nINFO a\n\nERROR b\n  at X.y(X.java:1)\n  at X.z(X.java:2)\nWARN c\n\n";
    let res = run_fast_squeeze(input, 200, false, false);
    let occurrences: usize = res.clusters.iter().map(|c| c.count).sum();
    let traces: usize = res.clusters.iter().map(|c| c.stack_trace.len()).sum();
    assert_eq!(res.stats.total_lines, 8);
    assert_eq!(occurrences + traces, 6);
    let s = &res.stats;
    assert_eq!(s.panics + s.fatals + s.errors + s.warnings + s.infos + s.debugs + s.traces + s.unknowns, occurrences);
}

#[test]
fn neighbouring_events_have_different_templates() {
    let input = "INFO a 1\nINFO a 2\nWARN b\nWARN b\nINFO a 3\n";
    let res = run_fast_squeeze(input, 200, false, false);
    assert_eq!(res.clusters.len(), 3);
    for w in res.clusters.windows(2) {
        assert_ne!(w[0].template, w[1].template);
    }
}

#[test]
fn sampling_never_drops_errors() {
    let mut input = String::new();
    for i in 0..60 {
        if i % 10 == 0 {
            input.push_str(&format!("ERROR e{}\n", (b'a' + i as u8 / 10) as char));
        } else {
            input.push_str(&format!("INFO i{}{}\n", (b'a' + i as u8 / 10) as char, (b'a' + i as u8 % 10) as char));
        }
    }
    let res = run_fast_squeeze(&input, 10, false, false);
    for c in &res.clusters {
        if c.level.is_error_or_warn() {
            assert!(res.rendered_output.contains(&c.first_example));
        }
    }
}

#[test]
fn pruner_keeps_at_least_half_the_words() {
    let out = run_builtin_token_pruner("the a an is are was were to", true);
    assert_eq!(out, "a is was to\n");
}

#[test]
fn printed_numbers_parse_back() {
    for n in [0usize, 9, 10, 200, 4096, usize::MAX] {
        let s: Vec<char> = n.to_string().chars().collect();
        assert_eq!(parse_usize(&s), Some(n));
    }
}

#[test]
fn events_are_instances_of_their_templates() {
    let input = "12:00:01 ERROR conn 7 lost\n  at A.b(A.java:3)\n  Caused by: io\n12:00:02 INFO ok 8\n12:00:03 INFO ok 9\n";
    let res = run_fast_squeeze(input, 200, false, false);
    let masker = Masker::new();
    for c in &res.clusters {
        assert!(c.count >= 1);
        assert_eq!(masker.mask(c.first_example.trim()), c.template);
        assert_eq!(masker.mask(c.last_example.trim()), c.template);
        assert_eq!(detect_level(c.first_example.trim()), c.level);
        assert!(c.stack_trace.len() <= 30);
        for l in &c.stack_trace {
            assert!(is_stack_trace_line(l.trim()));
        }
        if !c.stack_trace.is_empty() {
            assert!(c.level.is_error_or_warn());
        }
    }
    assert_eq!(res.clusters.len(), 2);
    assert_eq!(res.clusters[0].stack_trace.len(), 2);
    assert_eq!(res.clusters[1].count, 2);
}

#[test]
fn summary_lists_at_most_twenty_five_templates() {
    let mut input = String::new();
    for i in 0..40u8 {
        let name = format!("{}{}", (b'a' + i / 26) as char, (b'a' + i % 26) as char);
        for _ in 0..(1 + (i as usize % 3)) {
            input.push_str(&format!("INFO job {}\n", name));
            input.push_str("DEBUG tick\n");
        }
    }
    let res = run_fast_squeeze(&input, 200, false, true);
    let listed: Vec<&str> = res.rendered_output.lines().filter(|l| l.starts_with("[x")).collect();
    assert_eq!(listed.len(), 25);
    assert_eq!(listed[0], "[x   79] DEBUG tick");
    let counts: Vec<usize> = listed
        .iter()
        .map(|l| l[2..7].trim().parse::<usize>().unwrap())
        .collect();
    for w in counts.windows(2) {
        assert!(w[0] >= w[1]);
    }
    assert_eq!(listed[1], "[x    3] INFO job ac");
}

#[test]
fn sampling_fits_the_budget() {
    let mut input = String::new();
    for i in 0..200u32 {
        let a = (b'a' + (i / 26 / 26) as u8) as char;
        let b = (b'a' + (i / 26 % 26) as u8) as char;
        let c = (b'a' + (i % 26) as u8) as char;
        input.push_str(&format!("INFO item {}{}{}\n", a, b, c));
    }
    let res = run_fast_squeeze(&input, 30, false, false);
    let shown = res.rendered_output.lines().filter(|l| l.starts_with("INFO item")).count();
    assert!(shown <= 30);
    assert_eq!(shown, 29);
    assert!(res.rendered_output.starts_with("[log-squeeze notice: sampled non-error events 1-in-7 to fit 30 line budget]\n"));
}

#[test]
fn thirty_nine_plain_events_fit_a_twenty_line_budget() {
    let mut input = String::new();
    for i in 0..39u8 {
        input.push_str(&format!("plain note {}{}\n", (b'a' + i / 26) as char, (b'a' + i % 26) as char));
    }
    let res = run_fast_squeeze(&input, 20, false, false);
    assert_eq!(res.clusters.len(), 39);
    let shown = res.rendered_output.lines().filter(|l| l.starts_with("plain note")).count();
    assert_eq!(shown, 20);
    assert!(res.rendered_output.starts_with("[log-squeeze notice: sampled non-error events 1-in-2 to fit 20 line budget]\n"));
}
