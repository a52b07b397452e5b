use log_squeeze::cli::{parse_args, parse_usize, CliCommand, CliOptions};
use log_squeeze::pipeline::{is_blank_input, route_after_fast, runs_lingua_first, FastRoute};
use log_squeeze::ThresholdsConfig;

fn args(list: &[&str]) -> (Vec<String>, Vec<bool>) {
    let a: Vec<String> = list.iter().map(|s| s.to_string()).collect();
    let ok: Vec<bool> = a.iter().map(|s| s.parse::<f32>().is_ok()).collect();
    (a, ok)
}

fn run(list: &[&str]) -> Result<CliOptions, String> {
    let (a, ok) = args(list);
    match parse_args(&a, &ok)? {
        CliCommand::Run(o) => Ok(o),
        CliCommand::Help => Err("help".to_string()),
    }
}

#[test]
fn parses_flags_and_values() {
    let o = run(&["-3", "-e", "-s", "-j", "-m", "50", "-r", "0.4", "--model", "qwen", "--endpoint", "http://x/v1/", "--key", "k", "--config", "c.toml", "app.log"]).unwrap();
    assert_eq!(o.mode_override.as_deref(), Some("ai"));
    assert!(o.errors_only && o.summary_only && o.json_output);
    assert_eq!(o.max_lines, Some(50));
    assert_eq!(o.lingua_rate.as_deref(), Some("0.4"));
    assert_eq!(o.model_override.as_deref(), Some("qwen"));
    assert_eq!(o.endpoint_override.as_deref(), Some("http://x/v1/"));
    assert_eq!(o.api_key_override.as_deref(), Some("k"));
    assert_eq!(o.config_file.as_deref(), Some("c.toml"));
    assert_eq!(o.input_file.as_deref(), Some("app.log"));
}

#[test]
fn later_options_override_earlier_ones() {
    let o = run(&["--fast", "--lingua", "a.log", "b.log", "--max-lines", "+7"]).unwrap();
    assert_eq!(o.mode_override.as_deref(), Some("lingua"));
    assert_eq!(o.input_file.as_deref(), Some("b.log"));
    assert_eq!(o.max_lines, Some(7));
    let none = run(&[]).unwrap();
    assert!(none.input_file.is_none() && none.mode_override.is_none() && !none.errors_only);
}

#[test]
fn reports_each_error() {
    assert_eq!(run(&["-m"]).unwrap_err(), "Missing value for --max-lines");
    assert_eq!(run(&["-m", "x"]).unwrap_err(), "Invalid number for --max-lines");
    assert_eq!(run(&["-m", "-3"]).unwrap_err(), "Invalid number for --max-lines");
    assert_eq!(run(&["--rate"]).unwrap_err(), "Missing value for --rate");
    assert_eq!(run(&["-r", "fast"]).unwrap_err(), "Invalid float for --rate");
    assert_eq!(run(&["--model"]).unwrap_err(), "Missing value for --model");
    assert_eq!(run(&["--endpoint"]).unwrap_err(), "Missing value for --endpoint");
    assert_eq!(run(&["--key"]).unwrap_err(), "Missing value for --key");
    assert_eq!(run(&["--config"]).unwrap_err(), "Missing value for --config");
    assert_eq!(run(&["-x", "-h"]).unwrap_err(), "Unknown option: -x");
    assert_eq!(run(&["-"]).unwrap_err(), "Unknown option: -");
}

#[test]
fn help_stops_reading() {
    let (a, ok) = args(&["-e", "--help", "--bogus"]);
    assert!(matches!(parse_args(&a, &ok), Ok(CliCommand::Help)));
    let (a, ok) = args(&["-h"]);
    assert!(matches!(parse_args(&a, &ok), Ok(CliCommand::Help)));
}

#[test]
fn parses_unsigned_numbers() {
    let p = |s: &str| parse_usize(&s.chars().collect::<Vec<char>>());
    assert_eq!(p("200"), Some(200));
    assert_eq!(p("+0"), Some(0));
    assert_eq!(p("007"), Some(7));
    assert_eq!(p(""), None);
    assert_eq!(p("+"), None);
    assert_eq!(p("1a"), None);
    assert_eq!(p(" 1"), None);
    assert_eq!(p("18446744073709551615"), Some(usize::MAX));
    assert_eq!(p("18446744073709551616"), None);
}

#[test]
fn routes_after_tier_one() {
    let th = ThresholdsConfig { min_lines_for_ai: 100, min_lines_for_lingua: 30 };
    assert_eq!(route_after_fast("auto", true, false, true, 500, 3, &th, true, true), FastRoute::Json);
    assert_eq!(route_after_fast("FAST", false, false, true, 500, 3, &th, true, true), FastRoute::PrintFast);
    assert_eq!(route_after_fast("auto", false, true, true, 500, 3, &th, true, true), FastRoute::PrintFast);
    assert_eq!(route_after_fast("Ai", false, false, false, 1, 0, &th, false, false), FastRoute::ForcedAi);
    assert_eq!(
        route_after_fast("auto", false, false, true, 500, 3, &th, true, true),
        FastRoute::Auto { try_lingua: true, try_ai: true }
    );
    assert_eq!(
        route_after_fast("auto", false, false, true, 29, 3, &th, true, true),
        FastRoute::Auto { try_lingua: false, try_ai: false }
    );
    assert_eq!(
        route_after_fast("auto", false, false, false, 100, 0, &th, true, true),
        FastRoute::Auto { try_lingua: false, try_ai: false }
    );
    assert_eq!(
        route_after_fast("auto", false, false, false, 100, 1, &th, true, false),
        FastRoute::Auto { try_lingua: false, try_ai: false }
    );
}

#[test]
fn lingua_mode_and_blank_input() {
    assert!(runs_lingua_first("LinGua"));
    assert!(!runs_lingua_first("auto"));
    assert!(is_blank_input(" \n\t"));
    assert!(is_blank_input(""));
    assert!(!is_blank_input(" x "));
}

#[test]
fn an_option_is_never_taken_for_the_input_file() {
    assert_eq!(run(&["app.log", "--verbose"]).unwrap_err(), "Unknown option: --verbose");
    let o = run(&["--key", "-secret", "app.log"]).unwrap();
    assert_eq!(o.api_key_override.as_deref(), Some("-secret"));
    assert_eq!(o.input_file.as_deref(), Some("app.log"));
}
