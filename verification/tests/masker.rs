use log_squeeze::level::{detect_level, is_stack_trace_line, LogLevel};
use log_squeeze::masker::Masker;

#[test]
fn test_masker_russian_syslog_and_metrics() {
    let masker = Masker::new();

    // Russian syslog timestamp
    let line1 = "Авг 24 13:25:53 app-00 systemd[1]: Started Service.";
    let masked1 = masker.mask(line1);
    assert_eq!(masked1, "<TIME> app-<N> systemd[<N>]: Started Service.");

    // Russian duration and bytes with comma
    let line2 = "Запрос выполнен за 14,5 мс, передано 2,4 МБ данных на 10.254.3.99:5432";
    let masked2 = masker.mask(line2);
    assert_eq!(masked2, "Запрос выполнен за <VAL>, передано <VAL> данных на <IP>");

    // European date format DD.MM.YYYY
    let line3 = "24.08.2026 13:25:53.123 [main] ERROR - Failed to connect";
    let masked3 = masker.mask(line3);
    assert_eq!(masked3, "<TIME> [main] ERROR - Failed to connect");
}

#[test]
fn test_stack_trace_detection() {
    assert!(is_stack_trace_line("  at java.base/sun.nio.ch.NioSocketImpl.connect(NioSocketImpl.java:567)"));
    assert!(is_stack_trace_line("Caused by: java.net.SocketTimeoutException: connect timed out"));
    assert!(is_stack_trace_line("Traceback (most recent call last):"));
    assert!(is_stack_trace_line("  File \"server.py\", line 42, in handle_req"));
    assert!(is_stack_trace_line("goroutine 1 [running]:"));
    assert!(!is_stack_trace_line("2026-08-24T12:00:00Z INFO Server started on port 8080"));
}

#[test]
fn masks_identifiers_addresses_and_numbers() {
    let masker = Masker::default();
    assert_eq!(
        masker.mask("req 550e8400-e29b-41d4-a716-446655440000 from 192.168.1.10 ptr 0xdeadBEEF"),
        "req <UUID> from <IP> ptr <HEX>"
    );
    assert_eq!(masker.mask("took 250ms, moved 3 KB, retry 7"), "took <VAL>, moved <VAL>, retry <N>");
    assert_eq!(masker.mask("backup of 2026-08-24 done"), "backup of <DATE> done");
    assert_eq!(masker.mask("no dynamic parts here"), "no dynamic parts here");
    assert_eq!(masker.mask("Aug 24 13:25:53 host cron"), "<TIME> host cron");
    assert_eq!(
        masker.mask("sha d41d8cd98f00b204e9800998ecf8427e ok"),
        "sha <HASH> ok"
    );
}

#[test]
fn detects_levels_by_keyword_precedence() {
    assert_eq!(detect_level("kernel PANIC and error"), LogLevel::Panic);
    assert_eq!(detect_level("Fatal: disk gone"), LogLevel::Fatal);
    assert_eq!(detect_level("CRITICAL temperature"), LogLevel::Fatal);
    assert_eq!(detect_level("request failed with warning"), LogLevel::Error);
    assert_eq!(detect_level("NullPointerException thrown"), LogLevel::Error);
    assert_eq!(detect_level("[WARN] slow query"), LogLevel::Warn);
    assert_eq!(detect_level("[INFO] started"), LogLevel::Info);
    assert_eq!(detect_level("debug: x=1"), LogLevel::Debug);
    assert_eq!(detect_level("TRACE enter fn"), LogLevel::Trace);
    assert_eq!(detect_level("hello world"), LogLevel::Unknown);
    assert_eq!(detect_level(""), LogLevel::Unknown);
}

#[test]
fn level_labels_and_severity() {
    let all = [
        (LogLevel::Panic, "PANIC", true),
        (LogLevel::Fatal, "FATAL", true),
        (LogLevel::Error, "ERROR", true),
        (LogLevel::Warn, "WARN", true),
        (LogLevel::Info, "INFO", false),
        (LogLevel::Debug, "DEBUG", false),
        (LogLevel::Trace, "TRACE", false),
        (LogLevel::Unknown, "LOG", false),
    ];
    for (level, label, severe) in all.iter() {
        assert_eq!(level.as_str(), *label);
        assert_eq!(level.is_error_or_warn(), *severe);
    }
}

#[test]
fn recognizes_other_stack_trace_shapes() {
    assert!(is_stack_trace_line("   ... 12 more"));
    assert!(is_stack_trace_line("  src/main.rs:42:5"));
    assert!(is_stack_trace_line("\t/usr/lib/go/src/runtime/panic.go:1038 +0x215"));
    assert!(is_stack_trace_line("com.example.Foo.bar(Foo.java)") == false);
    assert!(is_stack_trace_line("at(Foo.java:12)"));
    assert!(!is_stack_trace_line("attention please"));
    assert!(!is_stack_trace_line(""));
}
