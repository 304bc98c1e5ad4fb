//! Command line, environment variables and result file names.
use crate::text::{
    decimal, join, joined, parse_count, parsed_count, texts, written_counts_read_back,
};
use vstd::prelude::*;

verus! {

/// The number of trials where the environment asks for none.
pub const TRIALS: usize = 10;

/// The mode that arguments (the program's name first) ask for: the one after `run` or else the
/// first one, and `cpu` where there is none.
pub open spec fn mode_of(args: Seq<Seq<char>>) -> Seq<char> {
    if args.len() > 1 && args[1] == "run"@ {
        if args.len() > 2 {
            args[2]
        } else {
            "cpu"@
        }
    } else if args.len() > 1 {
        args[1]
    } else {
        "cpu"@
    }
}

/// Reads the mode from the arguments.
pub fn parse_mode(args: &Vec<String>) -> (r: String)
    ensures
        r@ == mode_of(texts(args@)),
{
    let run: String = "run".to_string();
    let at: usize = if args.len() > 1 && args[1] == run {
        2
    } else {
        1
    };
    if at < args.len() {
        args[at].clone()
    } else {
        "cpu".to_string()
    }
}

/// The number of trials that a variable asks for: the number it holds where that is positive.
pub open spec fn trials_of(variable: Option<Seq<char>>) -> usize {
    match variable {
        None => TRIALS,
        Some(s) => match parsed_count(s) {
            None => TRIALS,
            Some(n) => if n > 0 {
                n
            } else {
                TRIALS
            },
        },
    }
}

/// Reads the number of trials from a variable; it is never zero.
pub fn trial_count(variable: Option<String>) -> (r: usize)
    ensures
        r == trials_of(match variable {
            Some(s) => Some(s@),
            None => None,
        }),
        r > 0,
{
    match variable {
        None => TRIALS,
        Some(s) => match parse_count(s.as_str()) {
            None => TRIALS,
            Some(n) => {
                if n > 0 {
                    n
                } else {
                    TRIALS
                }
            },
        },
    }
}

/// The line that says which engines are compared.
pub fn versus_line(mode: &str, names: &Vec<String>) -> (r: String)
    ensures
        r@ == "mode="@ + mode@ + ": "@ + joined(texts(names@), " vs "@),
{
    let mut r: String = "mode=".to_string();
    r.append(mode);
    r.append(": ");
    let all: String = join(names, " vs ");
    r.append(all.as_str());
    r
}

/// The path of a comparison's result file.
pub fn result_path(dir: &str, mode: &str, stamp: &str, host: &str) -> (r: String)
    ensures
        r@ == dir@ + "/"@ + mode@ + "-"@ + stamp@ + "-"@ + host@ + ".json"@,
{
    let mut r: String = dir.to_string();
    r.append("/");
    r.append(mode);
    r.append("-");
    r.append(stamp);
    r.append("-");
    r.append(host);
    r.append(".json");
    r
}

/// The path of a single pass's result file.
pub fn single_pass_path(stamp: &str, host: &str) -> (r: String)
    ensures
        r@ == "results/"@ + stamp@ + "-"@ + host@ + ".json"@,
{
    let mut r: String = "results/".to_string();
    r.append(stamp);
    r.append("-");
    r.append(host);
    r.append(".json");
    r
}

/// A variable's value, or a stock text where it is not set.
pub fn value_or(value: Option<String>, fallback: &str) -> (r: String)
    ensures
        r@ == (match value {
            Some(s) => s@,
            None => fallback@,
        }),
{
    match value {
        Some(s) => s,
        None => fallback.to_string(),
    }
}

/// The mode is the first argument, or the second where the first is `run`; without one it is
/// `cpu`. Further arguments and the program's own name change nothing.
pub proof fn modes_are_given_by_position(
    program: Seq<char>,
    first: Seq<char>,
    second: Seq<char>,
    rest: Seq<Seq<char>>,
)
    ensures
        mode_of(Seq::empty()) == "cpu"@,
        mode_of(seq![program]) == "cpu"@,
        mode_of(seq![program, "run"@]) == "cpu"@,
        first != "run"@ ==> mode_of(seq![program, first] + rest) == first,
        mode_of(seq![program, "run"@, second] + rest) == second,
{
    assert((seq![program, first] + rest)[1] == first);
    assert((seq![program, "run"@, second] + rest)[1] == "run"@);
    assert((seq![program, "run"@, second] + rest)[2] == second);
}

/// A positive number that is written in the variable is the number of trials; without the
/// variable there are ten, and so there are where it holds zero or no number.
pub proof fn trials_are_what_is_asked(n: usize, s: Seq<char>)
    ensures
        trials_of(None) == 10,
        n > 0 ==> trials_of(Some(decimal(n as nat))) == n,
        n == 0 ==> trials_of(Some(decimal(n as nat))) == 10,
        parsed_count(s) is None ==> trials_of(Some(s)) == 10,
{
    written_counts_read_back(n);
}

} // verus!
