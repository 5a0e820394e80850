//! The argument surface consumed from the driver: a typed description
//! of one fuzzer invocation, re-emitted as the space-separated flag
//! string handed to the spawned binary's environment.

use vstd::prelude::*;

verus! {

use crate::grammar::push_char;

/// The top-level mode of one invocation.
pub enum FuzzerCommand {
    Fuzz,
    Read { input_file: String },
    MinifyInput { input_file: String },
}

/// Everything one invocation is configured with. Paths are plain
/// strings; absent ones switch the corresponding `--no-...` flag on.
pub struct Arguments {
    pub command: FuzzerCommand,
    pub corpus_in: Option<String>,
    pub corpus_out: Option<String>,
    pub artifacts_folder: Option<String>,
    pub stats_folder: Option<String>,
    pub max_input_cplx: u64,
    pub maximum_duration_secs: u64,
    pub maximum_iterations: u64,
    pub stop_after_first_failure: bool,
    pub detect_infinite_loop: bool,
}

/// The decimal digit character of `d`.
pub open spec fn digit_char(d: int) -> char {
    if d == 0 {
        '0'
    } else if d == 1 {
        '1'
    } else if d == 2 {
        '2'
    } else if d == 3 {
        '3'
    } else if d == 4 {
        '4'
    } else if d == 5 {
        '5'
    } else if d == 6 {
        '6'
    } else if d == 7 {
        '7'
    } else if d == 8 {
        '8'
    } else {
        '9'
    }
}

/// The decimal rendering of `n`, most significant digit first, with no
/// leading zero except for zero itself.
pub open spec fn dec_digits(n: int) -> Seq<char>
    decreases n,
{
    if n < 10 {
        seq![digit_char(n)]
    } else {
        dec_digits(n / 10) + seq![digit_char(n % 10)]
    }
}

fn digit_of(d: u64) -> (r: char)
    requires
        d < 10,
    ensures
        r == digit_char(d as int),
{
    if d == 0 {
        '0'
    } else if d == 1 {
        '1'
    } else if d == 2 {
        '2'
    } else if d == 3 {
        '3'
    } else if d == 4 {
        '4'
    } else if d == 5 {
        '5'
    } else if d == 6 {
        '6'
    } else if d == 7 {
        '7'
    } else if d == 8 {
        '8'
    } else {
        '9'
    }
}

/// Append the decimal rendering of `n`.
pub fn push_decimal(n: u64, out: &mut String)
    ensures
        final(out)@ == old(out)@ + dec_digits(n as int),
    decreases n,
{
    if n >= 10 {
        push_decimal(n / 10, out);
    }
    let d = digit_of(n % 10);
    push_char(out, d);
    proof {
        assert(out@ =~= old(out)@ + dec_digits(n as int));
    }
}

/// The decimal rendering of `n`, as a fresh string.
pub fn decimal_string(n: u64) -> (r: String)
    ensures
        r@ == dec_digits(n as int),
{
    let mut s = String::new();
    push_decimal(n, &mut s);
    proof {
        assert(s@ =~= dec_digits(n as int));
    }
    s
}

/// One optional-path part of the flag string: the flag and the path
/// when present, the negative flag otherwise. A trailing space follows
/// either form.
pub open spec fn spec_opt_part(with_flag: Seq<char>, without_flag: Seq<char>, v: Option<
    String,
>) -> Seq<char> {
    match v {
        Some(p) => with_flag + p@ + " "@,
        None => without_flag,
    }
}

/// The command part, and the input file for the modes that take one.
pub open spec fn spec_command_part(c: FuzzerCommand) -> Seq<char> {
    match c {
        FuzzerCommand::Fuzz => "--command fuzz "@,
        FuzzerCommand::Read { input_file } => "--command read "@ + "--input-file "@ + input_file@
            + " "@,
        FuzzerCommand::MinifyInput { input_file } => "--command minify "@ + "--input-file "@
            + input_file@ + " "@,
    }
}

/// The whole flag string of one invocation.
pub open spec fn spec_args_string(a: Arguments) -> Seq<char> {
    spec_command_part(a.command) + spec_opt_part("--in-corpus "@, "--no-in-corpus "@, a.corpus_in)
        + " "@ + spec_opt_part("--out-corpus "@, "--no-out-corpus "@, a.corpus_out) + " "@
        + spec_opt_part("--artifacts "@, "--no-artifacts "@, a.artifacts_folder) + " "@
        + spec_opt_part("--stats "@, "--no-stats "@, a.stats_folder) + " "@ + "--max-cplx "@
        + dec_digits(a.max_input_cplx as int) + " "@ + "--max-duration "@ + dec_digits(
        a.maximum_duration_secs as int,
    ) + " "@ + "--max-iterations "@ + dec_digits(a.maximum_iterations as int) + " "@ + (
    if a.stop_after_first_failure {
        "--stop-after-first-failure "@
    } else {
        Seq::<char>::empty()
    }) + (if a.detect_infinite_loop {
        "--detect-infinite-loop "@
    } else {
        Seq::<char>::empty()
    })
}

/// Append one optional-path part.
fn push_opt_part(with_flag: &str, without_flag: &str, v: &Option<String>, s: &mut String)
    ensures
        final(s)@ == old(s)@ + spec_opt_part(with_flag@, without_flag@, *v),
{
    match v {
        Some(p) => {
            s.append(with_flag);
            s.append(p.as_str());
            s.append(" ");
        },
        None => {
            s.append(without_flag);
        },
    }
    proof {
        assert(s@ =~= old(s)@ + spec_opt_part(with_flag@, without_flag@, *v));
    }
}

/// The space-separated flag string of one invocation, exactly as the
/// spawned binary expects it in its environment.
pub fn string_from_args(args: &Arguments) -> (r: String)
    ensures
        r@ == spec_args_string(*args),
{
    let mut s = String::new();
    match &args.command {
        FuzzerCommand::Fuzz => {
            s.append("--command fuzz ");
        },
        FuzzerCommand::Read { input_file } => {
            s.append("--command read ");
            s.append("--input-file ");
            s.append(input_file.as_str());
            s.append(" ");
        },
        FuzzerCommand::MinifyInput { input_file } => {
            s.append("--command minify ");
            s.append("--input-file ");
            s.append(input_file.as_str());
            s.append(" ");
        },
    }
    proof {
        assert(s@ =~= spec_command_part(args.command));
    }
    push_opt_part("--in-corpus ", "--no-in-corpus ", &args.corpus_in, &mut s);
    s.append(" ");
    push_opt_part("--out-corpus ", "--no-out-corpus ", &args.corpus_out, &mut s);
    s.append(" ");
    push_opt_part("--artifacts ", "--no-artifacts ", &args.artifacts_folder, &mut s);
    s.append(" ");
    push_opt_part("--stats ", "--no-stats ", &args.stats_folder, &mut s);
    s.append(" ");
    s.append("--max-cplx ");
    push_decimal(args.max_input_cplx, &mut s);
    s.append(" ");
    s.append("--max-duration ");
    push_decimal(args.maximum_duration_secs, &mut s);
    s.append(" ");
    s.append("--max-iterations ");
    push_decimal(args.maximum_iterations, &mut s);
    s.append(" ");
    if args.stop_after_first_failure {
        s.append("--stop-after-first-failure ");
    }
    if args.detect_infinite_loop {
        s.append("--detect-infinite-loop ");
    }
    proof {
        assert(s@ =~= spec_args_string(*args));
    }
    s
}

/// Which compiled artifact of the crate the driver runs.
pub enum CompiledTarget {
    Lib,
    Bin(String),
    Test(String),
}

impl CompiledTarget {
    /// The cargo arguments that select this target.
    pub fn to_args(&self) -> (r: Vec<String>)
        ensures
            match self {
                CompiledTarget::Lib => r@.len() == 1 && r@[0]@ == "--lib"@,
                CompiledTarget::Bin(name) => r@.len() == 2 && r@[0]@ == "--bin"@ && r@[1]@
                    == name@,
                CompiledTarget::Test(name) => r@.len() == 2 && r@[0]@ == "--test"@ && r@[1]@
                    == name@,
            },
    {
        let mut out: Vec<String> = Vec::new();
        match self {
            CompiledTarget::Lib => {
                out.push(String::from_str("--lib"));
            },
            CompiledTarget::Bin(name) => {
                out.push(String::from_str("--bin"));
                out.push(name.clone());
            },
            CompiledTarget::Test(name) => {
                out.push(String::from_str("--test"));
                out.push(name.clone());
            },
        }
        out
    }
}

} // verus!
