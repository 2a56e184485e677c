//! Command-line options of the benchmark program: reading, checking, and the
//! decisions taken between runs.
use vstd::prelude::*;
use vstd::std_specs::iter::IteratorSpec;
use crate::generator::{MatrixKind, ascii_lowercase, parsed_kind, to_ascii_lowercase};
use crate::ieee::{self, is_valid_tolerance, ZERO};
use crate::matrix::{valid_order, MAX_ORDER};
use crate::decimal::{parse_unsigned, unsigned_value};

verus! {

/// Added to the seed once per repetition: run `i` uses `seed + i * SEED_STEP`.
pub const SEED_STEP: u64 = 0x9e37_79b9_7f4a_7c15;

/// The options of one invocation.
#[derive(Debug, Clone, Copy, PartialEq, Eq, Structural)]
pub struct Config {
    /// Matrix order.
    pub size: usize,
    /// Kind of matrix to generate.
    pub kind: MatrixKind,
    /// Seed of the first run.
    pub seed: u64,
    /// Number of runs.
    pub repeat: usize,
    /// Pivot tolerance (bit pattern of a binary64 value); `None` for automatic.
    pub tolerance: Option<u64>,
    /// Worker threads; `None` for the default.
    pub threads: Option<usize>,
    /// Print the (small) matrix of the first run.
    pub print_matrix: bool,
    /// Emit CSV rows instead of a report.
    pub csv: bool,
}

/// The options in force before any argument is read.
pub open spec fn default_config() -> Config {
    Config {
        size: 5,
        kind: MatrixKind::Singular,
        seed: 42,
        repeat: 1,
        tolerance: None,
        threads: None,
        print_matrix: false,
        csv: false,
    }
}

impl Default for Config {
    fn default() -> (r: Self)
        ensures
            r == default_config(),
    {
        Config {
            size: 5,
            kind: MatrixKind::Singular,
            seed: 42,
            repeat: 1,
            tolerance: None,
            threads: None,
            print_matrix: false,
            csv: false,
        }
    }
}

/// `missing value after <flag>`.
pub open spec fn missing_value(flag: Seq<char>) -> Seq<char> {
    "missing value after "@ + flag
}

/// Takes the value that follows `flag` on the command line.
pub fn next_value<I: Iterator<Item = String>>(args: &mut I, flag: &str) -> (r: Result<String, String>)
    ensures
        (*old(args)).obeys_prophetic_iter_laws() ==> match r {
            Ok(v) => {
                &&& (*old(args)).remaining().len() > 0
                &&& v == (*old(args)).remaining()[0]
                &&& (*final(args)).remaining() == (*old(args)).remaining().drop_first()
            },
            Err(m) => {
                &&& (*old(args)).remaining().len() == 0
                &&& m@ == missing_value(flag@)
            },
        },
        (*old(args)).obeys_prophetic_iter_laws() ==> (*final(args)).obeys_prophetic_iter_laws(),
{
    match I::next(args) {
        Some(value) => Ok(value),
        None => {
            let mut message = String::from_str("missing value after ");
            message.append(flag);
            Err(message)
        },
    }
}

/// Takes the next argument, if any.
fn next_argument<I: Iterator<Item = String>>(args: &mut I) -> (r: Option<String>)
    ensures
        (*old(args)).obeys_prophetic_iter_laws() ==> {
            &&& (*final(args)).obeys_prophetic_iter_laws()
            &&& match r {
                Some(v) => {
                    &&& (*old(args)).remaining().len() > 0
                    &&& v == (*old(args)).remaining()[0]
                    &&& (*final(args)).remaining() == (*old(args)).remaining().drop_first()
                },
                None => (*old(args)).remaining().len() == 0,
            }
        },
{
    I::next(args)
}

/// The checks made once every argument has been read.
pub open spec fn checked_config(cfg: Config) -> Result<Option<Config>, Seq<char>> {
    if !valid_order(cfg.size as int) {
        Err("--size must be between 1 and 1000"@)
    } else if cfg.repeat == 0 {
        Err("--repeat must be at least 1"@)
    } else if cfg.threads == Some(0usize) {
        Err("--threads must be at least 1"@)
    } else if cfg.tolerance matches Some(t) && !is_valid_tolerance(t) {
        Err("--tolerance must be finite and non-negative"@)
    } else {
        Ok(Some(cfg))
    }
}

/// Reading the arguments from position `i` on, with the options `cfg` so far.
/// `numbers[j]` is the binary64 reading of `args[j]` (bit pattern) where that
/// text is a decimal number, and `None` where it is not.  `Ok(None)` asks for
/// the help text.
pub open spec fn config_steps(args: Seq<Seq<char>>, numbers: Seq<Option<u64>>, i: int, cfg: Config) -> Result<
    Option<Config>,
    Seq<char>,
>
    decreases args.len() - i,
{
    if i < 0 || i >= args.len() {
        checked_config(cfg)
    } else {
        let a = args[i];
        let has_value = i + 1 < args.len();
        let v = args[i + 1];
        if a == "-h"@ || a == "--help"@ {
            Ok(None)
        } else if a == "--print"@ {
            config_steps(args, numbers, i + 1, Config { print_matrix: true, ..cfg })
        } else if a == "--csv"@ {
            config_steps(args, numbers, i + 1, Config { csv: true, ..cfg })
        } else if a == "--size"@ || a == "--kind"@ || a == "--seed"@ || a == "--repeat"@ || a
            == "--tolerance"@ || a == "--threads"@ {
            if !has_value {
                Err(missing_value(a))
            } else if a == "--size"@ {
                match unsigned_value(v, usize::MAX as int) {
                    Some(n) => config_steps(args, numbers, i + 2, Config { size: n as usize, ..cfg }),
                    None => Err("--size expects an integer"@),
                }
            } else if a == "--kind"@ {
                match parsed_kind(ascii_lowercase(v)) {
                    Ok(k) => config_steps(args, numbers, i + 2, Config { kind: k, ..cfg }),
                    Err(m) => Err(m),
                }
            } else if a == "--seed"@ {
                match unsigned_value(v, u64::MAX as int) {
                    Some(n) => config_steps(args, numbers, i + 2, Config { seed: n as u64, ..cfg }),
                    None => Err("--seed expects an unsigned 64-bit integer"@),
                }
            } else if a == "--repeat"@ {
                match unsigned_value(v, usize::MAX as int) {
                    Some(n) => config_steps(args, numbers, i + 2, Config { repeat: n as usize, ..cfg }),
                    None => Err("--repeat expects a positive integer"@),
                }
            } else if a == "--tolerance"@ {
                if ascii_lowercase(v) == "auto"@ {
                    config_steps(args, numbers, i + 2, Config { tolerance: None, ..cfg })
                } else {
                    match numbers[i + 1] {
                        Some(t) => config_steps(args, numbers, i + 2, Config { tolerance: Some(t), ..cfg }),
                        None => Err("--tolerance expects a non-negative number or 'auto'"@),
                    }
                }
            } else {
                match unsigned_value(v, usize::MAX as int) {
                    Some(n) => config_steps(args, numbers, i + 2, Config { threads: Some(n as usize), ..cfg }),
                    None => Err("--threads expects a positive integer"@),
                }
            }
        } else {
            Err("unknown option '"@ + a + "'"@)
        }
    }
}

/// Among `args[from..]`, some argument is exactly `flag`.
pub open spec fn names_flag(args: Seq<Seq<char>>, from: int, flag: Seq<char>) -> bool {
    exists|j: int| from <= j < args.len() && #[trigger] args[j] == flag
}

/// Reading the arguments from position `i` on changes an option only when its
/// flag is among them: a setting read from `cfg` stays unless that flag comes,
/// and the two switches are only ever turned on.
pub proof fn lemma_options_change_only_by_their_flags(args: Seq<Seq<char>>, numbers: Seq<Option<u64>>, i: int, cfg: Config)
    requires
        0 <= i,
    ensures
        config_steps(args, numbers, i, cfg) matches Ok(Some(c)) ==> {
            &&& cfg.csv ==> c.csv
            &&& cfg.print_matrix ==> c.print_matrix
            &&& c.csv != cfg.csv ==> names_flag(args, i, "--csv"@)
            &&& c.print_matrix != cfg.print_matrix ==> names_flag(args, i, "--print"@)
            &&& c.size != cfg.size ==> names_flag(args, i, "--size"@)
            &&& c.kind != cfg.kind ==> names_flag(args, i, "--kind"@)
            &&& c.seed != cfg.seed ==> names_flag(args, i, "--seed"@)
            &&& c.repeat != cfg.repeat ==> names_flag(args, i, "--repeat"@)
            &&& c.tolerance != cfg.tolerance ==> names_flag(args, i, "--tolerance"@)
            &&& c.threads != cfg.threads ==> names_flag(args, i, "--threads"@)
        },
    decreases args.len() - i,
{
    if i < args.len() {
        let a = args[i];
        let v = args[i + 1];
        if a == "-h"@ || a == "--help"@ {
        } else if a == "--print"@ {
            lemma_options_change_only_by_their_flags(args, numbers, i + 1, Config { print_matrix: true, ..cfg });
        } else if a == "--csv"@ {
            lemma_options_change_only_by_their_flags(args, numbers, i + 1, Config { csv: true, ..cfg });
        } else if i + 1 < args.len() {
            if a == "--size"@ {
                if let Some(n) = unsigned_value(v, usize::MAX as int) {
                    lemma_options_change_only_by_their_flags(args, numbers, i + 2, Config { size: n as usize, ..cfg });
                }
            } else if a == "--kind"@ {
                if let Ok(k) = parsed_kind(ascii_lowercase(v)) {
                    lemma_options_change_only_by_their_flags(args, numbers, i + 2, Config { kind: k, ..cfg });
                }
            } else if a == "--seed"@ {
                if let Some(n) = unsigned_value(v, u64::MAX as int) {
                    lemma_options_change_only_by_their_flags(args, numbers, i + 2, Config { seed: n as u64, ..cfg });
                }
            } else if a == "--repeat"@ {
                if let Some(n) = unsigned_value(v, usize::MAX as int) {
                    lemma_options_change_only_by_their_flags(args, numbers, i + 2, Config { repeat: n as usize, ..cfg });
                }
            } else if a == "--tolerance"@ {
                if ascii_lowercase(v) == "auto"@ {
                    lemma_options_change_only_by_their_flags(args, numbers, i + 2, Config { tolerance: None, ..cfg });
                } else if let Some(t) = numbers[i + 1] {
                    lemma_options_change_only_by_their_flags(args, numbers, i + 2, Config { tolerance: Some(t), ..cfg });
                }
            } else if a == "--threads"@ {
                if let Some(n) = unsigned_value(v, usize::MAX as int) {
                    lemma_options_change_only_by_their_flags(args, numbers, i + 2, Config { threads: Some(n as usize), ..cfg });
                }
            }
        }
    }
}

/// What the arguments read into: the output is CSV only when `--csv` is among
/// them, the matrix is printed only when `--print` is, and every other option
/// keeps its default unless its flag is given.
pub proof fn lemma_parsed_options_come_from_flags(args: Seq<Seq<char>>, numbers: Seq<Option<u64>>)
    ensures
        config_steps(args, numbers, 0, default_config()) matches Ok(Some(c)) ==> {
            &&& c.csv ==> names_flag(args, 0, "--csv"@)
            &&& c.print_matrix ==> names_flag(args, 0, "--print"@)
            &&& c.size != 5 ==> names_flag(args, 0, "--size"@)
            &&& c.kind != MatrixKind::Singular ==> names_flag(args, 0, "--kind"@)
            &&& c.seed != 42 ==> names_flag(args, 0, "--seed"@)
            &&& c.repeat != 1 ==> names_flag(args, 0, "--repeat"@)
            &&& c.tolerance is Some ==> names_flag(args, 0, "--tolerance"@)
            &&& c.threads is Some ==> names_flag(args, 0, "--threads"@)
        },
{
    lemma_options_change_only_by_their_flags(args, numbers, 0, default_config());
}

/// The texts of the arguments.
pub open spec fn texts(args: Seq<String>) -> Seq<Seq<char>> {
    args.map_values(|s: String| s@)
}

/// Whether `s` is exactly `lit`.
fn is_text(s: &String, lit: &str) -> (r: bool)
    ensures
        r == (s@ == lit@),
{
    let l = String::from_str(lit);
    *s == l
}

/// Builds a string from a literal.
fn text(lit: &str) -> (r: String)
    ensures
        r@ == lit@,
{
    String::from_str(lit)
}

/// Reads the command-line arguments (without the program name).
///
/// `numbers[j]` is what reading `args[j]` as a binary64 decimal number gives
/// (its bit pattern), or `None` where the text is no such number; it is used for
/// the value of `--tolerance`.  `Ok(None)` means that the help text was asked for.
pub fn parse_config(args: Vec<String>, numbers: &Vec<Option<u64>>) -> (r: Result<Option<Config>, String>)
    requires
        numbers@.len() == args@.len(),
    ensures
        match (r, config_steps(texts(args@), numbers@, 0, default_config())) {
            (Ok(c), Ok(e)) => c == e,
            (Err(m), Err(e)) => m@ == e,
            _ => false,
        },
{
    let ghost av = texts(args@);
    let ghost total = args@.len();
    assert(total <= usize::MAX) by {
        let _ = args.len();
    }
    let ghost all = args@;
    let mut cfg = Config::default();
    let mut pos: usize = 0;
    let mut it = args.into_iter();
    loop
        invariant
            all == args@,
            total == all.len(),
            total <= usize::MAX,
            av == texts(all),
            numbers@.len() == total,
            pos <= total,
            it.obeys_prophetic_iter_laws(),
            it.remaining() == all.skip(pos as int),
            config_steps(av, numbers@, 0, default_config()) == config_steps(av, numbers@, pos as int, cfg),
        decreases total - pos,
    {
        let ghost before = it.remaining();
        match next_argument(&mut it) {
            None => {
                assert(pos == total);
                let v = checked(cfg);
                return v;
            },
            Some(arg) => {
                assert(arg@ == av[pos as int]);
                let here = pos;
                pos = pos + 1;
                if is_text(&arg, "-h") || is_text(&arg, "--help") {
                    return Ok(None);
                } else if is_text(&arg, "--print") {
                    cfg = Config { print_matrix: true, ..cfg };
                } else if is_text(&arg, "--csv") {
                    cfg = Config { csv: true, ..cfg };
                } else if is_text(&arg, "--size") || is_text(&arg, "--kind") || is_text(&arg, "--seed")
                    || is_text(&arg, "--repeat") || is_text(&arg, "--tolerance") || is_text(&arg, "--threads") {
                    let value = match next_value(&mut it, arg.as_str()) {
                        Ok(v) => v,
                        Err(m) => return Err(m),
                    };
                    assert(value@ == av[here + 1]);
                    let at = pos;
                    pos = pos + 1;
                    if is_text(&arg, "--size") {
                        match parse_unsigned(value.as_str(), usize::MAX as u64) {
                            Some(n) => { cfg = Config { size: n as usize, ..cfg }; },
                            None => return Err(text("--size expects an integer")),
                        }
                    } else if is_text(&arg, "--kind") {
                        match MatrixKind::parse(value.as_str()) {
                            Ok(k) => { cfg = Config { kind: k, ..cfg }; },
                            Err(m) => return Err(m),
                        }
                    } else if is_text(&arg, "--seed") {
                        match parse_unsigned(value.as_str(), u64::MAX) {
                            Some(n) => { cfg = Config { seed: n, ..cfg }; },
                            None => return Err(text("--seed expects an unsigned 64-bit integer")),
                        }
                    } else if is_text(&arg, "--repeat") {
                        match parse_unsigned(value.as_str(), usize::MAX as u64) {
                            Some(n) => { cfg = Config { repeat: n as usize, ..cfg }; },
                            None => return Err(text("--repeat expects a positive integer")),
                        }
                    } else if is_text(&arg, "--tolerance") {
                        let lower = to_ascii_lowercase(value.as_str());
                        if is_text(&lower, "auto") {
                            cfg = Config { tolerance: None, ..cfg };
                        } else {
                            match numbers[at] {
                                Some(t) => { cfg = Config { tolerance: Some(t), ..cfg }; },
                                None => return Err(text("--tolerance expects a non-negative number or 'auto'")),
                            }
                        }
                    } else {
                        match parse_unsigned(value.as_str(), usize::MAX as u64) {
                            Some(n) => { cfg = Config { threads: Some(n as usize), ..cfg }; },
                            None => return Err(text("--threads expects a positive integer")),
                        }
                    }
                } else {
                    let mut message = text("unknown option '");
                    message.append(arg.as_str());
                    message.append("'");
                    return Err(message);
                }
            },
        }
    }
}

/// The checks made once every argument has been read.
fn checked(cfg: Config) -> (r: Result<Option<Config>, String>)
    ensures
        match (r, checked_config(cfg)) {
            (Ok(c), Ok(e)) => c == e,
            (Err(m), Err(e)) => m@ == e,
            _ => false,
        },
{
    if !(1 <= cfg.size && cfg.size <= MAX_ORDER) {
        return Err(text("--size must be between 1 and 1000"));
    }
    if cfg.repeat == 0 {
        return Err(text("--repeat must be at least 1"));
    }
    if let Some(threads) = cfg.threads {
        if threads == 0 {
            return Err(text("--threads must be at least 1"));
        }
    }
    if let Some(tolerance) = cfg.tolerance {
        if !ieee::finite(tolerance) || ieee::lt(tolerance, ZERO) {
            return Err(text("--tolerance must be finite and non-negative"));
        }
    }
    Ok(Some(cfg))
}

/// Refuses CSV output together with printing the matrix.
pub fn check_output_options(config: &Config) -> (r: Result<(), String>)
    ensures
        r is Err <==> config.csv && config.print_matrix,
        r matches Err(m) ==> m@ == "--csv and --print cannot be used together"@,
{
    if config.csv && config.print_matrix {
        return Err(text("--csv and --print cannot be used together"));
    }
    Ok(())
}

/// Refuses a classification that contradicts how the matrix was built.
pub fn verify_expected_kind(kind: MatrixKind, singular: bool) -> (r: Result<(), String>)
    ensures
        match r {
            Ok(()) => !(kind == MatrixKind::Singular && !singular) && !(kind == MatrixKind::Invertible && singular),
            Err(m) => {
                ||| kind == MatrixKind::Singular && !singular
                    && m@ == "generated singular matrix was classified as invertible; review the tolerance"@
                ||| kind == MatrixKind::Invertible && singular
                    && m@ == "strictly diagonally dominant matrix was classified as singular; review the tolerance"@
            },
        },
{
    match (kind, singular) {
        (MatrixKind::Singular, false) => Err(
            text("generated singular matrix was classified as invertible; review the tolerance"),
        ),
        (MatrixKind::Invertible, true) => Err(
            text("strictly diagonally dominant matrix was classified as singular; review the tolerance"),
        ),
        _ => Ok(()),
    }
}

/// The seed of run `iteration` (counting from 0): `seed + iteration * SEED_STEP`,
/// wrapping around.
pub fn iteration_seed(seed: u64, iteration: usize) -> (r: u64)
    ensures
        r == vstd::wrapping::u64_specs::wrapping_add(
            seed,
            vstd::wrapping::u64_specs::wrapping_mul(iteration as u64, SEED_STEP),
        ),
{
    seed.wrapping_add((iteration as u64).wrapping_mul(SEED_STEP))
}

} // verus!
