use vstd::prelude::*;
use vstd::string::StringExecFns;
use crate::args::{missing_value_message, required_arg};

verus! {

/// Source folder used when none is given.
pub const DEFAULT_SRC: &'static str = "/home/jef/Pictures/theframe";

/// Destination folder used when none is given.
pub const DEFAULT_DST: &'static str = "/home/jef/Pictures/display";

/// Files per folder when no ceiling is given.
pub const DEFAULT_MAX_FILES: usize = 1200;

/// Bytes per folder when no ceiling is given: 4 GiB.
pub const DEFAULT_MAX_BYTES: u64 = 4 * 1024 * 1024 * 1024;

pub const MAX_FILES_NOT_INTEGER: &'static str = "--max-files must be an integer";

pub const MAX_FILES_ZERO: &'static str = "--max-files must be > 0";

pub const MAX_BYTES_NOT_INTEGER: &'static str = "--max-bytes must be an integer";

pub const MAX_BYTES_ZERO: &'static str = "--max-bytes must be > 0";

pub const SEED_NOT_INTEGER: &'static str = "--seed must be an integer";

pub const UNKNOWN_ARGUMENT: &'static str = "unknown argument: ";

pub const HELP_HINT: &'static str = "\n\nRun with --help for usage.";

// ---------------------------------------------------------------- numbers

pub open spec fn is_digit(c: char) -> bool {
    48 <= (c as u32) <= 57
}

pub open spec fn digit_value(c: char) -> nat {
    (c as u32 - 48) as nat
}

pub open spec fn all_digits(d: Seq<char>) -> bool {
    forall|k: int| 0 <= k < d.len() ==> is_digit(#[trigger] d[k])
}

/// The number that a string of decimal digits spells.
pub open spec fn digits_value(d: Seq<char>) -> nat
    decreases d.len(),
{
    if d.len() == 0 {
        0
    } else {
        digits_value(d.drop_last()) * 10 + digit_value(d.last())
    }
}

/// `s` without one leading '+'.
pub open spec fn unsigned_digits(s: Seq<char>) -> Seq<char> {
    if s.len() > 0 && s[0] == '+' {
        s.drop_first()
    } else {
        s
    }
}

/// The value of an unsigned decimal numeral: an optional '+' and then one
/// or more ASCII digits.
pub open spec fn decimal(s: Seq<char>) -> Option<nat> {
    let d = unsigned_digits(s);
    if d.len() > 0 && all_digits(d) {
        Some(digits_value(d))
    } else {
        None
    }
}

proof fn lemma_prefix_value_le(d: Seq<char>, k: int)
    requires
        0 <= k <= d.len(),
    ensures
        digits_value(d.subrange(0, k)) <= digits_value(d),
    decreases d.len(),
{
    if k < d.len() {
        assert(d.drop_last().subrange(0, k) =~= d.subrange(0, k));
        lemma_prefix_value_le(d.drop_last(), k);
    } else {
        assert(d.subrange(0, k) =~= d);
    }
}

/// Reads `s` as an unsigned decimal numeral no larger than `limit`.
pub fn parse_decimal(s: &str, limit: u64) -> (r: Option<u64>)
    ensures
        r is Some <==> (decimal(s@) is Some && decimal(s@)->0 <= limit),
        r matches Some(v) ==> v == decimal(s@)->0,
{
    let n = s.unicode_len();
    let mut start: usize = 0;
    if n > 0 && s.get_char(0) == '+' {
        start = 1;
    }
    let ghost d = unsigned_digits(s@);
    proof {
        assert(d =~= s@.subrange(start as int, n as int));
    }
    if start == n {
        return None;
    }
    let mut acc: u64 = 0;
    let mut k: usize = start;
    while k < n
        invariant
            start <= k <= n,
            n == s@.len(),
            d == s@.subrange(start as int, n as int),
            d == unsigned_digits(s@),
            all_digits(d.subrange(0, k - start)),
            acc == digits_value(d.subrange(0, k - start)),
            acc <= limit,
        decreases n - k,
    {
        let ghost before = d.subrange(0, k - start);
        let ghost after = d.subrange(0, k - start + 1);
        proof {
            assert(after.drop_last() =~= before);
            assert(after.last() == s@[k as int]);
        }
        let c = s.get_char(k);
        let u = c as u32;
        if u < 48 || u > 57 {
            proof {
                assert(!is_digit(d[k - start]));
            }
            return None;
        }
        let dv = (u - 48) as u64;
        if dv > limit || acc > (limit - dv) / 10 {
            proof {
                assert(acc * 10 + dv > limit) by (nonlinear_arith)
                    requires
                        dv > limit || acc > (limit - dv) / 10,
                        dv <= limit ==> limit - dv >= 0,
                ;
                if all_digits(d) {
                    lemma_prefix_value_le(d, k - start + 1);
                }
            }
            return None;
        }
        proof {
            assert(acc * 10 + dv <= limit) by (nonlinear_arith)
                requires
                    dv <= limit,
                    acc <= (limit - dv) / 10,
            ;
            assert forall|m: int| 0 <= m < after.len() implies is_digit(#[trigger] after[m]) by {
                if m < before.len() {
                    assert(after[m] == before[m]);
                }
            }
        }
        acc = acc * 10 + dv;
        k = k + 1;
    }
    proof {
        assert(d.subrange(0, k - start) =~= d);
    }
    Some(acc)
}

// ---------------------------------------------------------------- options

/// Settings of one run.
pub struct Args {
    pub src: String,
    pub dst: String,
    pub max_files: usize,
    pub max_bytes: u64,
    pub seed: u64,
}

/// What the command line asks for.
pub enum Command {
    /// Print usage and stop.
    Help,
    /// Redistribute files with these settings.
    Run(Args),
}

/// Settings of one run, with the paths as character sequences.
pub struct ArgsModel {
    pub src: Seq<char>,
    pub dst: Seq<char>,
    pub max_files: usize,
    pub max_bytes: u64,
    pub seed: u64,
}

pub enum CommandModel {
    Help,
    Run(ArgsModel),
}

impl View for Args {
    type V = ArgsModel;

    open spec fn view(&self) -> ArgsModel {
        ArgsModel {
            src: self.src@,
            dst: self.dst@,
            max_files: self.max_files,
            max_bytes: self.max_bytes,
            seed: self.seed,
        }
    }
}

impl View for Command {
    type V = CommandModel;

    open spec fn view(&self) -> CommandModel {
        match self {
            Command::Help => CommandModel::Help,
            Command::Run(a) => CommandModel::Run(a@),
        }
    }
}

/// The settings before any option is read.
pub open spec fn default_args(seed: u64) -> ArgsModel {
    ArgsModel {
        src: DEFAULT_SRC@,
        dst: DEFAULT_DST@,
        max_files: DEFAULT_MAX_FILES,
        max_bytes: DEFAULT_MAX_BYTES,
        seed,
    }
}

/// The outcome of reading the options `argv[i..]` onto the settings `a`.
/// Each option but the help flags takes the next item as its value; a later
/// option overrides an earlier one; the first error, or a help flag, ends
/// the reading.
pub open spec fn parse_from(argv: Seq<Seq<char>>, i: int, a: ArgsModel) -> Result<
    CommandModel,
    Seq<char>,
>
    decreases argv.len() - i,
{
    if i < 0 || i >= argv.len() {
        Ok(CommandModel::Run(a))
    } else {
        let o = argv[i];
        let has_value = i + 1 < argv.len();
        let v = argv[i + 1];
        if o == "--help"@ || o == "-h"@ {
            Ok(CommandModel::Help)
        } else if o == "--src"@ || o == "--dst"@ || o == "--max-files"@ || o == "--max-bytes"@
            || o == "--seed"@ {
            if !has_value {
                Err(missing_value_message(o))
            } else if o == "--src"@ {
                parse_from(argv, i + 2, ArgsModel { src: v, ..a })
            } else if o == "--dst"@ {
                parse_from(argv, i + 2, ArgsModel { dst: v, ..a })
            } else if o == "--max-files"@ {
                match decimal(v) {
                    Some(n) => if n > usize::MAX {
                        Err(MAX_FILES_NOT_INTEGER@)
                    } else if n == 0 {
                        Err(MAX_FILES_ZERO@)
                    } else {
                        parse_from(argv, i + 2, ArgsModel { max_files: n as usize, ..a })
                    },
                    None => Err(MAX_FILES_NOT_INTEGER@),
                }
            } else if o == "--max-bytes"@ {
                match decimal(v) {
                    Some(n) => if n > u64::MAX {
                        Err(MAX_BYTES_NOT_INTEGER@)
                    } else if n == 0 {
                        Err(MAX_BYTES_ZERO@)
                    } else {
                        parse_from(argv, i + 2, ArgsModel { max_bytes: n as u64, ..a })
                    },
                    None => Err(MAX_BYTES_NOT_INTEGER@),
                }
            } else {
                match decimal(v) {
                    Some(n) => if n > u64::MAX {
                        Err(SEED_NOT_INTEGER@)
                    } else {
                        parse_from(argv, i + 2, ArgsModel { seed: n as u64, ..a })
                    },
                    None => Err(SEED_NOT_INTEGER@),
                }
            }
        } else {
            Err(UNKNOWN_ARGUMENT@ + o + HELP_HINT@)
        }
    }
}

/// The command-line items as character sequences.
pub open spec fn argv_model(argv: Seq<String>) -> Seq<Seq<char>> {
    argv.map_values(|s: String| s@)
}

pub open spec fn result_model(r: Result<Command, String>) -> Result<CommandModel, Seq<char>> {
    match r {
        Ok(c) => Ok(c@),
        Err(e) => Err(e@),
    }
}

/// Whether `a` and `b` hold the same characters.
fn same_text(a: &str, b: &str) -> (r: bool)
    ensures
        r == (a@ == b@),
{
    let n = a.unicode_len();
    if n != b.unicode_len() {
        return false;
    }
    let mut k: usize = 0;
    while k < n
        invariant
            n == a@.len() == b@.len(),
            k <= n,
            forall|m: int| 0 <= m < k ==> a@[m] == b@[m],
        decreases n - k,
    {
        if a.get_char(k) != b.get_char(k) {
            return false;
        }
        k = k + 1;
    }
    assert(a@ =~= b@);
    true
}

/// Reads the command line `argv`, whose first item is the program's name.
/// `default_seed` is the seed used when no `--seed` is given.
pub fn parse_args(argv: &[String], default_seed: u64) -> (r: Result<Command, String>)
    ensures
        result_model(r) == parse_from(argv_model(argv@), 1, default_args(default_seed)),
{
    let ghost av = argv_model(argv@);
    let mut a = Args {
        src: String::from_str(DEFAULT_SRC),
        dst: String::from_str(DEFAULT_DST),
        max_files: DEFAULT_MAX_FILES,
        max_bytes: DEFAULT_MAX_BYTES,
        seed: default_seed,
    };
    let mut i: usize = 1;
    while i < argv.len()
        invariant
            1 <= i,
            av == argv_model(argv@),
            parse_from(av, i as int, a@) == parse_from(av, 1, default_args(default_seed)),
        decreases argv@.len() - i,
    {
        let o = argv[i].as_str();
        let ghost v = av[i + 1];
        proof {
            assert(av[i as int] == o@);
            if i + 1 < argv@.len() {
                assert(av[i + 1] == argv@[i + 1]@);
            }
        }
        if same_text(o, "--help") || same_text(o, "-h") {
            return Ok(Command::Help);
        }
        let is_src = same_text(o, "--src");
        let is_dst = same_text(o, "--dst");
        let is_max_files = same_text(o, "--max-files");
        let is_max_bytes = same_text(o, "--max-bytes");
        let is_seed = same_text(o, "--seed");
        if !(is_src || is_dst || is_max_files || is_max_bytes || is_seed) {
            return Err(String::from_str(UNKNOWN_ARGUMENT).concat(o).concat(HELP_HINT));
        }
        let value = match required_arg(argv, i + 1, o) {
            Ok(v) => v,
            Err(e) => {
                return Err(e);
            },
        };
        if is_src {
            a.src = value;
        } else if is_dst {
            a.dst = value;
        } else if is_max_files {
            match parse_decimal(value.as_str(), usize::MAX as u64) {
                Some(n) => {
                    if n == 0 {
                        return Err(String::from_str(MAX_FILES_ZERO));
                    }
                    a.max_files = n as usize;
                },
                None => {
                    return Err(String::from_str(MAX_FILES_NOT_INTEGER));
                },
            }
        } else if is_max_bytes {
            match parse_decimal(value.as_str(), u64::MAX) {
                Some(n) => {
                    if n == 0 {
                        return Err(String::from_str(MAX_BYTES_ZERO));
                    }
                    a.max_bytes = n;
                },
                None => {
                    return Err(String::from_str(MAX_BYTES_NOT_INTEGER));
                },
            }
        } else {
            match parse_decimal(value.as_str(), u64::MAX) {
                Some(n) => {
                    a.seed = n;
                },
                None => {
                    return Err(String::from_str(SEED_NOT_INTEGER));
                },
            }
        }
        i = i + 2;
    }
    Ok(Command::Run(a))
}

} // verus!
