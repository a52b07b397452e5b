//! Command-line options: how the argument list is read, and how decimal
//! numbers are parsed.
use vstd::prelude::*;

use crate::text::{chars_of, push_chars, same_chars, string_of};

verus! {

// ---------------------------------------------------------------------------
// Unsigned decimal numbers
// ---------------------------------------------------------------------------

pub open spec fn is_ascii_digit(c: char) -> bool {
    '0' <= c && c <= '9'
}

/// The value of an ASCII digit.
pub open spec fn digit_value(c: char) -> nat {
    ((c as u32) - ('0' as u32)) as nat
}

/// The value of a string of ASCII digits.
pub open spec fn digits_value(s: Seq<char>) -> nat
    decreases s.len(),
{
    if s.len() == 0 {
        0
    } else {
        digits_value(s.drop_last()) * 10 + digit_value(s.last())
    }
}

pub open spec fn all_digits(s: Seq<char>) -> bool {
    forall|i: int| 0 <= i < s.len() ==> is_ascii_digit(#[trigger] s[i])
}

/// What `str::parse::<usize>` accepts: an optional `+`, then at least one
/// ASCII digit, with a value that fits in `usize`.
pub open spec fn parsed_usize(s: Seq<char>) -> Option<usize> {
    let d = if s.len() > 0 && s[0] == '+' {
        s.drop_first()
    } else {
        s
    };
    if d.len() > 0 && all_digits(d) && digits_value(d) <= usize::MAX {
        Some(digits_value(d) as usize)
    } else {
        None
    }
}

proof fn lemma_digits_value_grows(d: Seq<char>, k: int)
    requires
        0 <= k <= d.len(),
        all_digits(d),
    ensures
        digits_value(d.take(k)) <= digits_value(d),
    decreases d.len() - k,
{
    if k < d.len() {
        lemma_digits_value_grows(d, k + 1);
        assert(d.take(k + 1).drop_last() =~= d.take(k));
        assert(is_ascii_digit(d[k]));
    } else {
        assert(d.take(k) =~= d);
    }
}

/// Parses an unsigned decimal number as `str::parse::<usize>` does.
pub fn parse_usize(s: &[char]) -> (r: Option<usize>)
    ensures
        r == parsed_usize(s@),
{
    let start: usize = if s.len() > 0 && s[0] == '+' {
        1
    } else {
        0
    };
    let ghost d = s@.skip(start as int);
    proof {
        if start == 1 {
            assert(d =~= s@.drop_first());
        } else {
            assert(d =~= s@);
        }
    }
    if start >= s.len() {
        return None;
    }
    let mut value: usize = 0;
    let mut i: usize = start;
    proof {
        assert(d.take(0) =~= Seq::<char>::empty());
    }
    while i < s.len()
        invariant
            start <= i <= s@.len(),
            d == s@.skip(start as int),
            d == (if s@.len() > 0 && s@[0] == '+' {
                s@.drop_first()
            } else {
                s@
            }),
            forall|k: int| 0 <= k < i - start ==> is_ascii_digit(#[trigger] d[k]),
            value == digits_value(d.take(i - start)),
        decreases s.len() - i,
    {
        let c = s[i];
        proof {
            assert(d[i - start] == c);
        }
        if !('0' <= c && c <= '9') {
            proof {
                assert(!is_ascii_digit(d[i - start]));
                assert(!all_digits(d));
            }
            return None;
        }
        let dv = (c as u32) - ('0' as u32);
        let next: u128 = (value as u128) * 10 + (dv as u128);
        proof {
            assert(d.take(i - start + 1).drop_last() =~= d.take(i - start));
            assert(d.take(i - start + 1).last() == c);
            assert(digit_value(c) == dv);
            assert(digits_value(d.take(i - start + 1)) == value * 10 + dv);
            assert(next == digits_value(d.take(i - start + 1)));
        }
        if next > usize::MAX as u128 {
            proof {
                if all_digits(d) {
                    lemma_digits_value_grows(d, i - start + 1);
                }
            }
            return None;
        }
        value = next as usize;
        i = i + 1;
    }
    proof {
        assert(d.take(i - start) =~= d);
    }
    Some(value)
}

// ---------------------------------------------------------------------------
// Options
// ---------------------------------------------------------------------------

/// The options given on the command line.
#[derive(Debug)]
pub struct CliOptions {
    pub input_file: Option<String>,
    pub config_file: Option<String>,
    pub mode_override: Option<String>,
    pub errors_only: bool,
    pub summary_only: bool,
    pub json_output: bool,
    pub max_lines: Option<usize>,
    /// The text of the `--rate` value, which is known to parse as a float.
    pub lingua_rate: Option<String>,
    pub model_override: Option<String>,
    pub endpoint_override: Option<String>,
    pub api_key_override: Option<String>,
}

/// What the command line asks for.
#[derive(Debug)]
pub enum CliCommand {
    /// Print the usage text and stop.
    Help,
    /// Run the pipeline with these options.
    Run(CliOptions),
}

/// The options as the contracts see them.
pub struct OptionsModel {
    pub input_file: Option<Seq<char>>,
    pub config_file: Option<Seq<char>>,
    pub mode_override: Option<Seq<char>>,
    pub errors_only: bool,
    pub summary_only: bool,
    pub json_output: bool,
    pub max_lines: Option<usize>,
    pub lingua_rate: Option<Seq<char>>,
    pub model_override: Option<Seq<char>>,
    pub endpoint_override: Option<Seq<char>>,
    pub api_key_override: Option<Seq<char>>,
}

pub enum CommandModel {
    Help,
    Run(OptionsModel),
}

pub open spec fn opt_text(o: Option<String>) -> Option<Seq<char>> {
    match o {
        Some(s) => Some(s@),
        None => None,
    }
}

pub open spec fn options_model(o: CliOptions) -> OptionsModel {
    OptionsModel {
        input_file: opt_text(o.input_file),
        config_file: opt_text(o.config_file),
        mode_override: opt_text(o.mode_override),
        errors_only: o.errors_only,
        summary_only: o.summary_only,
        json_output: o.json_output,
        max_lines: o.max_lines,
        lingua_rate: opt_text(o.lingua_rate),
        model_override: opt_text(o.model_override),
        endpoint_override: opt_text(o.endpoint_override),
        api_key_override: opt_text(o.api_key_override),
    }
}

pub open spec fn command_model(c: CliCommand) -> CommandModel {
    match c {
        CliCommand::Help => CommandModel::Help,
        CliCommand::Run(o) => CommandModel::Run(options_model(o)),
    }
}

/// No option given.
pub open spec fn no_options() -> OptionsModel {
    OptionsModel {
        input_file: None,
        config_file: None,
        mode_override: None,
        errors_only: false,
        summary_only: false,
        json_output: false,
        max_lines: None,
        lingua_rate: None,
        model_override: None,
        endpoint_override: None,
        api_key_override: None,
    }
}

/// Reads the arguments from position `i` on, with the options `o` read so
/// far. `rate_ok[j]` tells whether argument `j` parses as a float. Options
/// that repeat override earlier ones; the first error or `-h` ends reading.
pub open spec fn parse_from(args: Seq<Seq<char>>, rate_ok: Seq<bool>, i: int, o: OptionsModel) -> Result<
    CommandModel,
    Seq<char>,
>
    decreases args.len() - i,
{
    if i < 0 || i >= args.len() {
        Ok(CommandModel::Run(o))
    } else {
        let a = args[i];
        let has_value = i + 1 < args.len();
        let v = args[i + 1];
        if a == "-1"@ || a == "--fast"@ {
            parse_from(args, rate_ok, i + 1, OptionsModel { mode_override: Some("fast"@), ..o })
        } else if a == "-2"@ || a == "--lingua"@ {
            parse_from(args, rate_ok, i + 1, OptionsModel { mode_override: Some("lingua"@), ..o })
        } else if a == "-3"@ || a == "--ai"@ || a == "--semantic"@ {
            parse_from(args, rate_ok, i + 1, OptionsModel { mode_override: Some("ai"@), ..o })
        } else if a == "-a"@ || a == "--auto"@ {
            parse_from(args, rate_ok, i + 1, OptionsModel { mode_override: Some("auto"@), ..o })
        } else if a == "-e"@ || a == "--errors-only"@ {
            parse_from(args, rate_ok, i + 1, OptionsModel { errors_only: true, ..o })
        } else if a == "-s"@ || a == "--summary"@ {
            parse_from(args, rate_ok, i + 1, OptionsModel { summary_only: true, ..o })
        } else if a == "-j"@ || a == "--json"@ {
            parse_from(args, rate_ok, i + 1, OptionsModel { json_output: true, ..o })
        } else if a == "-m"@ || a == "--max-lines"@ {
            if !has_value {
                Err("Missing value for --max-lines"@)
            } else {
                match parsed_usize(v) {
                    Some(n) => parse_from(
                        args,
                        rate_ok,
                        i + 2,
                        OptionsModel { max_lines: Some(n), ..o },
                    ),
                    None => Err("Invalid number for --max-lines"@),
                }
            }
        } else if a == "-r"@ || a == "--rate"@ {
            if !has_value {
                Err("Missing value for --rate"@)
            } else if !rate_ok[i + 1] {
                Err("Invalid float for --rate"@)
            } else {
                parse_from(args, rate_ok, i + 2, OptionsModel { lingua_rate: Some(v), ..o })
            }
        } else if a == "--model"@ {
            if !has_value {
                Err("Missing value for --model"@)
            } else {
                parse_from(args, rate_ok, i + 2, OptionsModel { model_override: Some(v), ..o })
            }
        } else if a == "--endpoint"@ {
            if !has_value {
                Err("Missing value for --endpoint"@)
            } else {
                parse_from(args, rate_ok, i + 2, OptionsModel { endpoint_override: Some(v), ..o })
            }
        } else if a == "--key"@ {
            if !has_value {
                Err("Missing value for --key"@)
            } else {
                parse_from(args, rate_ok, i + 2, OptionsModel { api_key_override: Some(v), ..o })
            }
        } else if a == "--config"@ {
            if !has_value {
                Err("Missing value for --config"@)
            } else {
                parse_from(args, rate_ok, i + 2, OptionsModel { config_file: Some(v), ..o })
            }
        } else if a == "-h"@ || a == "--help"@ {
            Ok(CommandModel::Help)
        } else if a.len() > 0 && a[0] == '-' {
            Err("Unknown option: "@ + a)
        } else {
            parse_from(args, rate_ok, i + 1, OptionsModel { input_file: Some(a), ..o })
        }
    }
}

/// The arguments as the contracts see them.
pub open spec fn args_model(args: Seq<String>) -> Seq<Seq<char>> {
    args.map_values(|a: String| a@)
}

/// What parsing gives, as the contracts see it.
pub open spec fn result_model(r: Result<CliCommand, String>) -> Result<CommandModel, Seq<char>> {
    match r {
        Ok(c) => Ok(command_model(c)),
        Err(e) => Err(e@),
    }
}

fn is_arg(a: &[char], lit: &str) -> (b: bool)
    ensures
        b == (a@ == lit@),
{
    let l = chars_of(lit);
    same_chars(a, l.as_slice())
}

fn some_text(s: &str) -> (r: Option<String>)
    ensures
        opt_text(r) == Some(s@),
{
    Some(String::from_str(s))
}

fn err_text(s: &str) -> (r: Result<CliCommand, String>)
    ensures
        result_model(r) == Err::<CommandModel, Seq<char>>(s@),
{
    Err(String::from_str(s))
}

fn copy_text(s: &String) -> (r: String)
    ensures
        r@ == s@,
{
    s.clone()
}

/// Reads the command-line arguments (without the program name).
/// `rate_ok[j]` tells whether `args[j]` parses as a float, which decides
/// whether it is a valid `--rate` value.
pub fn parse_args(args: &Vec<String>, rate_ok: &Vec<bool>) -> (r: Result<CliCommand, String>)
    requires
        rate_ok@.len() == args@.len(),
    ensures
        result_model(r) == parse_from(args_model(args@), rate_ok@, 0, no_options()),
{
    let ghost am = args_model(args@);
    let mut opts = CliOptions {
        input_file: None,
        config_file: None,
        mode_override: None,
        errors_only: false,
        summary_only: false,
        json_output: false,
        max_lines: None,
        lingua_rate: None,
        model_override: None,
        endpoint_override: None,
        api_key_override: None,
    };
    let mut i: usize = 0;
    while i < args.len()
        invariant
            i <= args@.len(),
            rate_ok@.len() == args@.len(),
            am == args_model(args@),
            parse_from(am, rate_ok@, i as int, options_model(opts)) == parse_from(
                am,
                rate_ok@,
                0,
                no_options(),
            ),
        decreases args.len() - i,
    {
        let av = chars_of(args[i].as_str());
        let a = av.as_slice();
        let has_value = i + 1 < args.len();
        proof {
            assert(am[i as int] == a@);
            if has_value {
                assert(am[i + 1] == args@[i + 1]@);
            }
        }
        if is_arg(a, "-1") || is_arg(a, "--fast") {
            opts.mode_override = some_text("fast");
            i = i + 1;
        } else if is_arg(a, "-2") || is_arg(a, "--lingua") {
            opts.mode_override = some_text("lingua");
            i = i + 1;
        } else if is_arg(a, "-3") || is_arg(a, "--ai") || is_arg(a, "--semantic") {
            opts.mode_override = some_text("ai");
            i = i + 1;
        } else if is_arg(a, "-a") || is_arg(a, "--auto") {
            opts.mode_override = some_text("auto");
            i = i + 1;
        } else if is_arg(a, "-e") || is_arg(a, "--errors-only") {
            opts.errors_only = true;
            i = i + 1;
        } else if is_arg(a, "-s") || is_arg(a, "--summary") {
            opts.summary_only = true;
            i = i + 1;
        } else if is_arg(a, "-j") || is_arg(a, "--json") {
            opts.json_output = true;
            i = i + 1;
        } else if is_arg(a, "-m") || is_arg(a, "--max-lines") {
            if !has_value {
                return err_text("Missing value for --max-lines");
            }
            let vv = chars_of(args[i + 1].as_str());
            match parse_usize(vv.as_slice()) {
                Some(n) => {
                    opts.max_lines = Some(n);
                },
                None => {
                    return err_text("Invalid number for --max-lines");
                },
            }
            i = i + 2;
        } else if is_arg(a, "-r") || is_arg(a, "--rate") {
            if !has_value {
                return err_text("Missing value for --rate");
            }
            if !rate_ok[i + 1] {
                return err_text("Invalid float for --rate");
            }
            opts.lingua_rate = Some(copy_text(&args[i + 1]));
            i = i + 2;
        } else if is_arg(a, "--model") {
            if !has_value {
                return err_text("Missing value for --model");
            }
            opts.model_override = Some(copy_text(&args[i + 1]));
            i = i + 2;
        } else if is_arg(a, "--endpoint") {
            if !has_value {
                return err_text("Missing value for --endpoint");
            }
            opts.endpoint_override = Some(copy_text(&args[i + 1]));
            i = i + 2;
        } else if is_arg(a, "--key") {
            if !has_value {
                return err_text("Missing value for --key");
            }
            opts.api_key_override = Some(copy_text(&args[i + 1]));
            i = i + 2;
        } else if is_arg(a, "--config") {
            if !has_value {
                return err_text("Missing value for --config");
            }
            opts.config_file = Some(copy_text(&args[i + 1]));
            i = i + 2;
        } else if is_arg(a, "-h") || is_arg(a, "--help") {
            return Ok(CliCommand::Help);
        } else if a.len() > 0 && a[0] == '-' {
            let mut msg: Vec<char> = Vec::new();
            let prefix = chars_of("Unknown option: ");
            push_chars(&mut msg, prefix.as_slice());
            push_chars(&mut msg, a);
            return Err(string_of(msg.as_slice()));
        } else {
            opts.input_file = Some(copy_text(&args[i]));
            i = i + 1;
        }
    }
    Ok(CliCommand::Run(opts))
}

} // verus!
