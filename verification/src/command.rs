//! What a command line asks for: the help or version text, an error with
//! its exit code, or the number to show and how to show it.

use vstd::prelude::*;
use crate::cli::{
    is_colors_flag, is_compact_flag, is_help_flag, is_hex_digits_flag, is_little_endian_flag,
    is_no_color_flag, is_text_only_flag, is_version_flag, parse_colors, parse_hex_digits,
    spec_parse_colors, spec_parse_hex_digits,
};
use crate::format::hex_numeral;
use crate::output::OutputOptions;
use crate::parse::{parse_unsigned, spec_parse_unsigned};
use crate::text::{power, chars_of, digits_in_base, extend_chars, extend_str, format_radix, push_string, string_of};
use crate::{
    fits_hex_digits, inferred_hex_digit_width, output_options, spec_inferred_hex_digit_width,
    spec_output_options,
};

verus! {

/// The flags and values read so far from the command line.
pub struct ArgScan {
    pub no_color: bool,
    pub little_endian: bool,
    pub compact: bool,
    pub text_only: bool,
    pub hex_digits: Option<usize>,
    pub color_indexes: Option<Seq<u8>>,
    pub input: Option<Seq<char>>,
    pub pending_hex_digits: bool,
    pub pending_colors: bool,
}

/// What a command line asks for, in terms of character sequences.
pub enum PlanView {
    Help { program: Seq<char> },
    Version,
    Fail { code: i32, messages: Seq<Seq<char>> },
    Show { number: u128, scan: ArgScan, hex_digits: Option<usize> },
}

/// What a command line asks for.
pub enum Plan {
    /// Print the help text for the program name, exit 0.
    Help { program_name: String },
    /// Print the version, exit 0.
    Version,
    /// Print the messages to standard error, exit with the code.
    Fail { code: i32, messages: Vec<String> },
    /// Print the output for the number, exit 0.
    Show { number: u128, options: OutputOptions },
}

/// Nothing read yet.
pub open spec fn initial_scan() -> ArgScan {
    ArgScan {
        no_color: false,
        little_endian: false,
        compact: false,
        text_only: false,
        hex_digits: None,
        color_indexes: None,
        input: None,
        pending_hex_digits: false,
        pending_colors: false,
    }
}

/// The two lines that explain how to call the program.
pub open spec fn usage_messages(program: Seq<char>) -> Seq<Seq<char>> {
    seq![
        "Usage: "@ + program + " <unsigned-number>"@,
        "Try '"@ + program + " --help' for more information."@,
    ]
}

/// The effect of one argument: the next scan state, or the plan it ends
/// the scan with.
pub open spec fn scan_arg(st: ArgScan, arg: Seq<char>, program: Seq<char>) -> Result<ArgScan, PlanView> {
    if st.pending_colors {
        match spec_parse_colors(arg) {
            Ok(v) => Ok(ArgScan { color_indexes: Some(v), pending_colors: false, ..st }),
            Err(e) => Err(PlanView::Fail { code: 2, messages: seq!["Error: "@ + e] }),
        }
    } else if st.pending_hex_digits {
        match spec_parse_hex_digits(arg) {
            Ok(v) => Ok(ArgScan { hex_digits: Some(v), pending_hex_digits: false, ..st }),
            Err(e) => Err(PlanView::Fail { code: 2, messages: seq!["Error: "@ + e] }),
        }
    } else if arg == "-h"@ || arg == "--help"@ {
        Err(PlanView::Help { program })
    } else if arg == "-v"@ || arg == "--version"@ {
        Err(PlanView::Version)
    } else if arg == "--no-color"@ {
        Ok(ArgScan { no_color: true, ..st })
    } else if arg == "--little-endian"@ {
        Ok(ArgScan { little_endian: true, ..st })
    } else if arg == "--compact"@ {
        Ok(ArgScan { compact: true, ..st })
    } else if arg == "--text-only"@ {
        Ok(ArgScan { text_only: true, ..st })
    } else if arg == "--hex-digits"@ {
        Ok(ArgScan { pending_hex_digits: true, ..st })
    } else if arg == "--colors"@ {
        Ok(ArgScan { pending_colors: true, ..st })
    } else if st.input is Some {
        Err(PlanView::Fail { code: 2, messages: usage_messages(program) })
    } else {
        Ok(ArgScan { input: Some(arg), ..st })
    }
}

/// The scan of the arguments from `i` on, starting in state `st`.
pub open spec fn scan_args(args: Seq<Seq<char>>, i: int, st: ArgScan, program: Seq<char>) -> Result<
    ArgScan,
    PlanView,
>
    decreases args.len() - i,
{
    if i >= args.len() {
        Ok(st)
    } else {
        match scan_arg(st, args[i], program) {
            Ok(next) => scan_args(args, i + 1, next, program),
            Err(plan) => Err(plan),
        }
    }
}

/// The plan once all arguments are read.
pub open spec fn finish_scan(st: ArgScan, program: Seq<char>) -> PlanView {
    if st.pending_hex_digits {
        PlanView::Fail { code: 2, messages: seq!["Error: --hex-digits requires a value"@] }
    } else if st.pending_colors {
        PlanView::Fail { code: 2, messages: seq!["Error: --colors requires a value"@] }
    } else {
        match st.input {
            None => PlanView::Fail { code: 2, messages: usage_messages(program) },
            Some(input) => {
                let hex_digits = match st.hex_digits {
                    Some(w) => Some(w),
                    None => spec_inferred_hex_digit_width(input),
                };
                match spec_parse_unsigned(input) {
                    Ok(number) => if hex_digits matches Some(w) && hex_numeral(number).len() > w {
                        PlanView::Fail {
                            code: 1,
                            messages: seq![
                                "Error: value does not fit in "@ + digits_in_base(
                                    hex_digits.unwrap() as nat,
                                    10,
                                ) + " hex digits"@,
                            ],
                        }
                    } else {
                        PlanView::Show { number, scan: st, hex_digits }
                    },
                    Err(e) => PlanView::Fail { code: 1, messages: seq!["Error: "@ + e] },
                }
            },
        }
    }
}

/// The program name: the first argument, or `bitruler` without one.
pub open spec fn program_name(args: Seq<Seq<char>>) -> Seq<char> {
    if args.len() > 0 {
        args[0]
    } else {
        "bitruler"@
    }
}

/// What the command line `args` (program name first) asks for.
pub open spec fn spec_plan(args: Seq<Seq<char>>) -> PlanView {
    let program = program_name(args);
    match scan_args(args, 1, initial_scan(), program) {
        Ok(st) => finish_scan(st, program),
        Err(plan) => plan,
    }
}

/// Whether output options are those the scanned flags ask for.
pub open spec fn options_match(options: OutputOptions, st: ArgScan, hex_digits: Option<usize>) -> bool {
    exists|indexes: Option<[u8; 4]>|
        #![trigger spec_output_options(st.no_color, st.little_endian, st.compact, st.text_only, hex_digits, indexes)]
        {
            &&& options == spec_output_options(
                st.no_color,
                st.little_endian,
                st.compact,
                st.text_only,
                hex_digits,
                indexes,
            )
            &&& match (indexes, st.color_indexes) {
                (Some(a), Some(s)) => a@ == s,
                (None, None) => true,
                _ => false,
            }
        }
}

/// Whether a plan is the one its view describes.
pub open spec fn plan_matches(plan: Plan, view: PlanView) -> bool {
    match (plan, view) {
        (Plan::Help { program_name }, PlanView::Help { program }) => program_name@ == program,
        (Plan::Version, PlanView::Version) => true,
        (Plan::Fail { code, messages }, PlanView::Fail { code: c, messages: m }) => code == c
            && messages.deep_view() == m,
        (Plan::Show { number, options }, PlanView::Show { number: n, scan, hex_digits }) => number
            == n && options_match(options, scan, hex_digits) && (hex_digits matches Some(w) ==> w <= 32),
        _ => false,
    }
}

/// The scan state held while reading the command line.
struct ScanState {
    no_color: bool,
    little_endian: bool,
    compact: bool,
    text_only: bool,
    hex_digits: Option<usize>,
    color_indexes: Option<[u8; 4]>,
    input: Option<String>,
    pending_hex_digits: bool,
    pending_colors: bool,
}

impl ScanState {
    spec fn view_scan(&self) -> ArgScan {
        ArgScan {
            no_color: self.no_color,
            little_endian: self.little_endian,
            compact: self.compact,
            text_only: self.text_only,
            hex_digits: self.hex_digits,
            color_indexes: match self.color_indexes {
                Some(a) => Some(a@),
                None => None,
            },
            input: match self.input {
                Some(s) => Some(s@),
                None => None,
            },
            pending_hex_digits: self.pending_hex_digits,
            pending_colors: self.pending_colors,
        }
    }
}

fn error_message(error: &String) -> (m: String)
    ensures
        m@ == "Error: "@ + error@,
{
    let mut v = chars_of("Error: ");
    extend_str(&mut v, error.as_str());
    string_of(v.as_slice())
}

fn one_message(message: String) -> (v: Vec<String>)
    ensures
        v.deep_view() == seq![message@],
{
    let mut v: Vec<String> = Vec::new();
    push_string(&mut v, message);
    assert(v.deep_view() =~= seq![message@]);
    v
}

fn usage(program: &String) -> (v: Vec<String>)
    ensures
        v.deep_view() == usage_messages(program@),
{
    let mut first = chars_of("Usage: ");
    extend_str(&mut first, program.as_str());
    extend_str(&mut first, " <unsigned-number>");
    let mut second = chars_of("Try '");
    extend_str(&mut second, program.as_str());
    extend_str(&mut second, " --help' for more information.");
    let mut v: Vec<String> = Vec::new();
    push_string(&mut v, string_of(first.as_slice()));
    push_string(&mut v, string_of(second.as_slice()));
    assert(v.deep_view() =~= usage_messages(program@));
    v
}

/// One argument read into the scan state; the plan when it ends the
/// scan.
fn scan_one(st: &mut ScanState, arg: &String, program: &String) -> (r: Option<Plan>)
    requires
        old(st).hex_digits matches Some(w) ==> w <= 32,
    ensures
        final(st).hex_digits matches Some(w) ==> w <= 32,
        match r {
            None => scan_arg(old(st).view_scan(), arg@, program@) == Ok::<ArgScan, PlanView>(
                final(st).view_scan(),
            ),
            Some(plan) => scan_arg(old(st).view_scan(), arg@, program@) matches Err(view)
                && plan_matches(plan, view),
        },
{
    let a = arg.as_str();
    if st.pending_colors {
        match parse_colors(a) {
            Ok(value) => {
                st.color_indexes = Some(value);
                st.pending_colors = false;
                None
            },
            Err(error) => Some(Plan::Fail { code: 2, messages: one_message(error_message(&error)) }),
        }
    } else if st.pending_hex_digits {
        match parse_hex_digits(a) {
            Ok(value) => {
                st.hex_digits = Some(value);
                st.pending_hex_digits = false;
                None
            },
            Err(error) => Some(Plan::Fail { code: 2, messages: one_message(error_message(&error)) }),
        }
    } else if is_help_flag(a) {
        Some(Plan::Help { program_name: program.clone() })
    } else if is_version_flag(a) {
        Some(Plan::Version)
    } else if is_no_color_flag(a) {
        st.no_color = true;
        None
    } else if is_little_endian_flag(a) {
        st.little_endian = true;
        None
    } else if is_compact_flag(a) {
        st.compact = true;
        None
    } else if is_text_only_flag(a) {
        st.text_only = true;
        None
    } else if is_hex_digits_flag(a) {
        st.pending_hex_digits = true;
        None
    } else if is_colors_flag(a) {
        st.pending_colors = true;
        None
    } else if st.input.is_some() {
        Some(Plan::Fail { code: 2, messages: usage(program) })
    } else {
        st.input = Some(arg.clone());
        None
    }
}

/// Reads the command line (program name first) into what it asks for:
/// help, version, an error with its exit code, or the number to show with
/// its output options.
pub fn plan_run(args: &[String]) -> (plan: Plan)
    ensures
        plan_matches(plan, spec_plan(args@.map_values(|a: String| a@))),
{
    let ghost views = args@.map_values(|a: String| a@);
    let program = if args.len() > 0 {
        args[0].clone()
    } else {
        String::from_str("bitruler")
    };
    assert(program@ == program_name(views));
    let mut st = ScanState {
        no_color: false,
        little_endian: false,
        compact: false,
        text_only: false,
        hex_digits: None,
        color_indexes: None,
        input: None,
        pending_hex_digits: false,
        pending_colors: false,
    };
    assert(st.view_scan() == initial_scan());
    let mut i: usize = 1;
    while i < args.len()
        invariant
            views == args@.map_values(|a: String| a@),
            program@ == program_name(views),
            1 <= i,
            i <= args@.len() || args@.len() == 0,
            st.hex_digits matches Some(w) ==> w <= 32,
            scan_args(views, 1, initial_scan(), program@) == scan_args(
                views,
                i as int,
                st.view_scan(),
                program@,
            ),
        decreases args@.len() - i,
    {
        let ghost before = st.view_scan();
        match scan_one(&mut st, &args[i], &program) {
            Some(plan) => {
                assert(views[i as int] == args@[i as int]@);
                return plan;
            },
            None => {},
        }
        assert(views[i as int] == args@[i as int]@);
        i = i + 1;
    }
    assert(scan_args(views, i as int, st.view_scan(), program@) == Ok::<ArgScan, PlanView>(
        st.view_scan(),
    ));
    finish(&st, &program)
}

fn finish(st: &ScanState, program: &String) -> (plan: Plan)
    requires
        st.hex_digits matches Some(w) ==> w <= 32,
    ensures
        plan_matches(plan, finish_scan(st.view_scan(), program@)),
{
    if st.pending_hex_digits {
        return Plan::Fail {
            code: 2,
            messages: one_message(String::from_str("Error: --hex-digits requires a value")),
        };
    }
    if st.pending_colors {
        return Plan::Fail {
            code: 2,
            messages: one_message(String::from_str("Error: --colors requires a value")),
        };
    }
    let input = match &st.input {
        None => {
            return Plan::Fail { code: 2, messages: usage(program) };
        },
        Some(input) => input,
    };
    let hex_digits = match st.hex_digits {
        Some(w) => Some(w),
        None => inferred_hex_digit_width(input.as_str()),
    };
    proof {
        if st.hex_digits is None {
            crate::lemma_inferred_width_bound(input@);
        }
    }
    match parse_unsigned(input.as_str()) {
        Ok(number) => {
            if let Some(width) = hex_digits {
                if !fits_hex_digits(number, width) {
                    let mut m = chars_of("Error: value does not fit in ");
                    extend_chars(&mut m, format_radix(width as u128, 10).as_slice());
                    extend_str(&mut m, " hex digits");
                    return Plan::Fail { code: 1, messages: one_message(string_of(m.as_slice())) };
                }
            }
            let options = output_options(
                st.no_color,
                st.little_endian,
                st.compact,
                st.text_only,
                hex_digits,
                st.color_indexes,
            );
            assert(options_match(options, st.view_scan(), hex_digits));
            Plan::Show { number, options }
        },
        Err(error) => Plan::Fail { code: 1, messages: one_message(error_message(&error)) },
    }
}

/// A flag that the command line recognizes.
pub open spec fn is_flag(arg: Seq<char>) -> bool {
    ||| arg == "-h"@
    ||| arg == "--help"@
    ||| arg == "-v"@
    ||| arg == "--version"@
    ||| arg == "--no-color"@
    ||| arg == "--little-endian"@
    ||| arg == "--compact"@
    ||| arg == "--text-only"@
    ||| arg == "--hex-digits"@
    ||| arg == "--colors"@
}

/// A lone number argument that parses is always shown: the width its
/// digits ask for always holds it, so `bitruler 0x1234` prints `0x1234`
/// with four hex digits and never fails for the width.
pub proof fn law_parsed_number_is_shown(program: Seq<char>, input: Seq<char>)
    requires
        !is_flag(input),
    ensures
        spec_parse_unsigned(input) matches Ok(n) ==> (spec_plan(seq![program, input]) matches PlanView::Show {
            number,
            hex_digits,
            ..
        } && number == n && hex_digits == spec_inferred_hex_digit_width(input)),
        spec_parse_unsigned(input) is Err ==> (spec_plan(seq![program, input]) matches PlanView::Fail { code, .. }
            && code == 1),
{
    let args = seq![program, input];
    let st = ArgScan { input: Some(input), ..initial_scan() };
    assert(scan_arg(initial_scan(), input, program) == Ok::<ArgScan, PlanView>(st));
    assert(scan_args(args, 2, st, program) == Ok::<ArgScan, PlanView>(st));
    assert(scan_args(args, 1, initial_scan(), program) == Ok::<ArgScan, PlanView>(st));
    crate::law_inferred_width_fits(input);
}

/// With `--hex-digits w` a number that parses is shown exactly when it is
/// below 16 to the `w`-th power (fits in `w` hex digits), with that width;
/// a larger number fails with exit code 1.
pub proof fn law_explicit_width_decides(program: Seq<char>, value: Seq<char>, input: Seq<char>)
    requires
        spec_parse_hex_digits(value) is Ok,
        !is_flag(input),
        spec_parse_unsigned(input) is Ok,
    ensures
        ({
            let w = spec_parse_hex_digits(value)->Ok_0;
            let n = spec_parse_unsigned(input)->Ok_0;
            let plan = spec_plan(seq![program, "--hex-digits"@, value, input]);
            &&& (n < power(16, w as nat)) ==> (plan matches PlanView::Show { number, hex_digits, .. }
                && number == n && hex_digits == Some(w))
            &&& (n >= power(16, w as nat)) ==> (plan matches PlanView::Fail { code, .. } && code == 1)
        }),
{
    reveal_strlit("-h");
    reveal_strlit("--help");
    reveal_strlit("-v");
    reveal_strlit("--version");
    reveal_strlit("--no-color");
    reveal_strlit("--little-endian");
    reveal_strlit("--compact");
    reveal_strlit("--text-only");
    reveal_strlit("--hex-digits");
    let w = spec_parse_hex_digits(value)->Ok_0;
    let n = spec_parse_unsigned(input)->Ok_0;
    let flag = "--hex-digits"@;
    let args = seq![program, flag, value, input];
    let s1 = ArgScan { pending_hex_digits: true, ..initial_scan() };
    assert(flag != "-h"@ && flag != "--help"@ && flag != "-v"@ && flag != "--version"@);
    assert(flag != "--no-color"@ && flag != "--little-endian"@ && flag != "--compact"@);
    assert(flag != "--text-only"@);
    assert(scan_arg(initial_scan(), flag, program) == Ok::<ArgScan, PlanView>(s1));
    let s2 = ArgScan { hex_digits: Some(w), pending_hex_digits: false, ..s1 };
    assert(scan_arg(s1, value, program) == Ok::<ArgScan, PlanView>(s2));
    let s3 = ArgScan { input: Some(input), ..s2 };
    assert(scan_arg(s2, input, program) == Ok::<ArgScan, PlanView>(s3));
    assert(scan_args(args, 4, s3, program) == Ok::<ArgScan, PlanView>(s3));
    assert(scan_args(args, 3, s2, program) == Ok::<ArgScan, PlanView>(s3));
    assert(scan_args(args, 2, s1, program) == Ok::<ArgScan, PlanView>(s3));
    assert(scan_args(args, 1, initial_scan(), program) == Ok::<ArgScan, PlanView>(s3));
    assert(1 <= w <= 32);
    crate::law_fits_hex_digits(n, w);
}

} // verus!
