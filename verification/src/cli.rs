//! Command-line configuration.
use vstd::prelude::*;
use vstd::arithmetic::power2::pow2;
use crate::normalize::is_power_of_two;
use crate::text::{
    compare_text, insert_sorted, parse_usize, parse_usize_spec, text_views, texts_increasing,
    TextOrder,
};

verus! {

/// The shard count when `--shards` is not given.
pub const DEFAULT_SHARD_COUNT: usize = 8192;

/// The largest shard count accepted.
pub const MAX_SHARD_COUNT: usize = 16384;

/// A command-line argument: text when it is valid UTF-8, its raw bytes otherwise.
pub enum Argument {
    Text(String),
    Raw(Vec<u8>),
}

pub ghost enum SpecArgument {
    Text(Seq<char>),
    Raw(Seq<u8>),
}

impl View for Argument {
    type V = SpecArgument;

    open spec fn view(&self) -> SpecArgument {
        match self {
            Argument::Text(t) => SpecArgument::Text(t@),
            Argument::Raw(b) => SpecArgument::Raw(b@),
        }
    }
}

pub open spec fn argument_views(v: Seq<Argument>) -> Seq<SpecArgument> {
    v.map_values(|a: Argument| a@)
}

/// The settings of one build.
pub struct Config {
    /// The input file, as given on the command line.
    pub input: Argument,
    /// The output directory, as given on the command line.
    pub output: Argument,
    /// The language codes to keep, in increasing order, each once.
    pub languages: Vec<String>,
    pub shard_count: usize,
    pub source_date: String,
}

impl Config {
    /// The language codes of the configuration, as texts.
    pub open spec fn language_codes(&self) -> Seq<Seq<char>> {
        text_views(self.languages@)
    }
}

/// What the options read so far have set.
pub ghost struct ParseState {
    pub input: Option<SpecArgument>,
    pub output: Option<SpecArgument>,
    pub languages: Set<Seq<char>>,
    pub shard_count: usize,
    pub source_date: Option<Seq<char>>,
}

/// Where reading the arguments stands: still reading (perhaps with an option
/// waiting for its value), help was asked for, or an error.
pub ghost enum ParseProgress {
    Reading { state: ParseState, pending: Option<Seq<char>> },
    Help,
    Failed(Seq<char>),
}

/// The result of reading the whole command line.
pub ghost enum ParseOutcome {
    Help,
    Invalid(Seq<char>),
    Accepted(ParseState),
}

pub open spec fn initial_state() -> ParseState {
    ParseState {
        input: None,
        output: None,
        languages: Set::empty(),
        shard_count: DEFAULT_SHARD_COUNT,
        source_date: None,
    }
}

pub open spec fn is_help_flag(flag: Seq<char>) -> bool {
    flag == "--help"@ || flag == "-h"@
}

/// The options that take a value.
pub open spec fn is_value_flag(flag: Seq<char>) -> bool {
    flag == "--input"@ || flag == "--output"@ || flag == "--language"@ || flag == "--shards"@
        || flag == "--source-date"@
}

/// Sets the value of the pending option `flag`.
pub open spec fn apply_value(state: ParseState, flag: Seq<char>, value: SpecArgument) -> ParseProgress {
    if flag == "--input"@ {
        ParseProgress::Reading { state: ParseState { input: Some(value), ..state }, pending: None }
    } else if flag == "--output"@ {
        ParseProgress::Reading { state: ParseState { output: Some(value), ..state }, pending: None }
    } else {
        match value {
            SpecArgument::Raw(_) => ParseProgress::Failed(flag + " must be valid UTF-8"@),
            SpecArgument::Text(v) => {
                if flag == "--language"@ {
                    ParseProgress::Reading {
                        state: ParseState { languages: state.languages.insert(v), ..state },
                        pending: None,
                    }
                } else if flag == "--shards"@ {
                    match parse_usize_spec(v) {
                        Some(n) => ParseProgress::Reading {
                            state: ParseState { shard_count: n, ..state },
                            pending: None,
                        },
                        None => ParseProgress::Failed("--shards must be an integer"@),
                    }
                } else {
                    ParseProgress::Reading {
                        state: ParseState { source_date: Some(v), ..state },
                        pending: None,
                    }
                }
            },
        }
    }
}

/// Reads one more argument.
pub open spec fn parse_step(progress: ParseProgress, argument: SpecArgument) -> ParseProgress {
    match progress {
        ParseProgress::Reading { state, pending } => match pending {
            Some(flag) => apply_value(state, flag, argument),
            None => match argument {
                SpecArgument::Raw(_) => ParseProgress::Failed("arguments must be valid UTF-8"@),
                SpecArgument::Text(flag) => {
                    if is_help_flag(flag) {
                        ParseProgress::Help
                    } else if is_value_flag(flag) {
                        ParseProgress::Reading { state, pending: Some(flag) }
                    } else {
                        ParseProgress::Failed("unknown argument: "@ + flag)
                    }
                },
            },
        },
        _ => progress,
    }
}

/// Reads the arguments from the first to the last.
pub open spec fn parse_progress(args: Seq<SpecArgument>) -> ParseProgress
    decreases args.len(),
{
    if args.len() == 0 {
        ParseProgress::Reading { state: initial_state(), pending: None }
    } else {
        parse_step(parse_progress(args.drop_last()), args.last())
    }
}

pub open spec fn shard_count_allowed(n: usize) -> bool {
    1 <= n <= MAX_SHARD_COUNT && is_power_of_two(n as nat)
}

/// The shard counts accepted are exactly the powers of two from 1 to 16384:
/// `2^k` for `k` from 0 to 14.
pub proof fn lemma_allowed_shard_counts(n: usize)
    ensures
        shard_count_allowed(n) <==> exists|k: nat| k <= 14 && #[trigger] pow2(k) == n,
{
    vstd::arithmetic::power2::lemma2_to64();
    if shard_count_allowed(n) {
        let k = choose|k: nat| pow2(k) == n as nat;
        if k > 14 {
            vstd::arithmetic::power2::lemma_pow2_strictly_increases(14, k);
        }
        assert(pow2(k) == n);
    }
    if exists|k: nat| k <= 14 && #[trigger] pow2(k) == n {
        let k = choose|k: nat| k <= 14 && #[trigger] pow2(k) == n;
        vstd::arithmetic::power2::lemma_pow2_pos(k);
        if k < 14 {
            vstd::arithmetic::power2::lemma_pow2_strictly_increases(k, 14);
        }
        assert(is_power_of_two(n as nat));
    }
}

/// The outcome of a command line: the options it sets, then the checks that
/// the shard count is a power of two up to `MAX_SHARD_COUNT` and that
/// `--input`, `--output`, at least one `--language`, and `--source-date`
/// were given.
pub open spec fn parse_outcome(args: Seq<SpecArgument>) -> ParseOutcome {
    match parse_progress(args) {
        ParseProgress::Help => ParseOutcome::Help,
        ParseProgress::Failed(message) => ParseOutcome::Invalid(message),
        ParseProgress::Reading { state, pending } => match pending {
            Some(flag) => ParseOutcome::Invalid(flag + " requires a value"@),
            None => {
                if !shard_count_allowed(state.shard_count) {
                    ParseOutcome::Invalid(
                        "--shards must be a power of two between 1 and 16384"@,
                    )
                } else if state.input is None {
                    ParseOutcome::Invalid("--input is required"@)
                } else if state.output is None {
                    ParseOutcome::Invalid("--output is required"@)
                } else if state.languages.is_empty() {
                    ParseOutcome::Invalid("at least one --language is required"@)
                } else if state.source_date is None {
                    ParseOutcome::Invalid("--source-date is required"@)
                } else {
                    ParseOutcome::Accepted(state)
                }
            },
        },
    }
}

/// The configuration holds what the command line set; its languages are
/// the given codes in increasing order, each once.
pub open spec fn config_matches(config: Config, state: ParseState) -> bool {
    &&& state.input == Some(config.input@)
    &&& state.output == Some(config.output@)
    &&& texts_increasing(text_views(config.languages@))
    &&& text_views(config.languages@).to_set() == state.languages
    &&& config.shard_count == state.shard_count
    &&& state.source_date == Some(config.source_date@)
}

proof fn lemma_progress_stops(args: Seq<SpecArgument>, k: int)
    requires
        0 <= k <= args.len(),
        !(parse_progress(args.take(k)) is Reading),
    ensures
        parse_progress(args) == parse_progress(args.take(k)),
    decreases args.len(),
{
    if k < args.len() {
        assert(args.drop_last().take(k) =~= args.take(k));
        lemma_progress_stops(args.drop_last(), k);
    } else {
        assert(args.take(k) =~= args);
    }
}

fn text_is(s: &String, literal: &str) -> (r: bool)
    ensures
        r == (s@ == literal@),
{
    match compare_text(s.as_str(), literal) {
        TextOrder::Equal => true,
        _ => false,
    }
}

fn is_allowed_shard_count(n: usize) -> (r: bool)
    ensures
        r == shard_count_allowed(n),
{
    if n == 0 || n > MAX_SHARD_COUNT {
        return false;
    }
    let mut m: usize = 1;
    let ghost mut k: nat = 0;
    proof {
        vstd::arithmetic::power2::lemma2_to64();
    }
    while m < n
        invariant
            1 <= n <= MAX_SHARD_COUNT,
            m == pow2(k),
            1 <= m <= 2 * MAX_SHARD_COUNT,
            forall|j: nat| j < k ==> pow2(j) < n,
        decreases 2 * MAX_SHARD_COUNT - m,
    {
        proof {
            vstd::arithmetic::power2::lemma_pow2_unfold(k + 1);
            assert forall|j: nat| j < k + 1 implies pow2(j) < n by {
                if j == k {
                }
            }
        }
        m = m * 2;
        proof {
            k = k + 1;
        }
    }
    proof {
        if is_power_of_two(n as nat) {
            let j = choose|j: nat| pow2(j) == n as nat;
            if j > k {
                vstd::arithmetic::power2::lemma_pow2_strictly_increases(k, j);
            }
        }
    }
    m == n
}

impl Config {
    /// The usage text printed with `--help` and after an invalid command line.
    pub fn usage() -> (r: &'static str)
        ensures
            r@ == "Usage: doubleclick-dictionary-data \\\n  --input <wiktextract.jsonl[.gz]> \\\n  --output <directory> \\\n  --language <code> [--language <code> ...] \\\n  --source-date <YYYY-MM-DD> \\\n  [--shards <power-of-two>]"@,
    {
        "Usage: doubleclick-dictionary-data \\\n  --input <wiktextract.jsonl[.gz]> \\\n  --output <directory> \\\n  --language <code> [--language <code> ...] \\\n  --source-date <YYYY-MM-DD> \\\n  [--shards <power-of-two>]"
    }

    /// Reads the command line (without the program name). Returns `Ok(None)`
    /// when help was asked for, the error message when the command line is
    /// invalid, and the configuration otherwise.
    pub fn parse(args: Vec<Argument>) -> (r: Result<Option<Config>, String>)
        ensures
            r matches Ok(None) <==> parse_outcome(argument_views(args@)) is Help,
            r matches Err(m) ==> parse_outcome(argument_views(args@)) == ParseOutcome::Invalid(m@),
            parse_outcome(argument_views(args@)) is Invalid ==> r is Err,
            r matches Ok(Some(c)) ==> parse_outcome(argument_views(args@)) matches ParseOutcome::Accepted(
                state,
            ) && config_matches(c, state),
    {
        let ghost all = argument_views(args@);
        let mut input: Option<Argument> = None;
        let mut output: Option<Argument> = None;
        let mut languages: Vec<String> = Vec::new();
        let mut shard_count: usize = DEFAULT_SHARD_COUNT;
        let mut source_date: Option<String> = None;
        let mut pending: Option<String> = None;
        assert(text_views(languages@).to_set() =~= Set::<Seq<char>>::empty());
        for argument in it: args
            invariant
                all == argument_views(it.seq()),
                texts_increasing(text_views(languages@)),
                parse_progress(all.take(it.index() as int)) == (ParseProgress::Reading {
                    state: ParseState {
                        input: match input {
                            Some(a) => Some(a@),
                            None => None,
                        },
                        output: match output {
                            Some(a) => Some(a@),
                            None => None,
                        },
                        languages: text_views(languages@).to_set(),
                        shard_count,
                        source_date: match source_date {
                            Some(s) => Some(s@),
                            None => None,
                        },
                    },
                    pending: match pending {
                        Some(f) => Some(f@),
                        None => None,
                    },
                }),
        {
            let ghost i = it.index() as int;
            assert(all.take(i + 1).drop_last() =~= all.take(i));
            assert(all.take(i + 1).last() == argument@);
            match pending {
                Some(flag) => {
                    pending = None;
                    if text_is(&flag, "--input") {
                        input = Some(argument);
                    } else if text_is(&flag, "--output") {
                        output = Some(argument);
                    } else {
                        match argument {
                            Argument::Raw(_) => {
                                let mut message = flag;
                                message.append(" must be valid UTF-8");
                                proof {
                                    lemma_progress_stops(all, i + 1);
                                }
                                return Err(message);
                            },
                            Argument::Text(value) => {
                                if text_is(&flag, "--language") {
                                    insert_sorted(&mut languages, value);
                                } else if text_is(&flag, "--shards") {
                                    match parse_usize(value.as_str()) {
                                        Some(n) => {
                                            shard_count = n;
                                        },
                                        None => {
                                            proof {
                                                lemma_progress_stops(all, i + 1);
                                            }
                                            return Err("--shards must be an integer".to_owned());
                                        },
                                    }
                                } else {
                                    source_date = Some(value);
                                }
                            },
                        }
                    }
                },
                None => {
                    match argument {
                        Argument::Raw(_) => {
                            proof {
                                lemma_progress_stops(all, i + 1);
                            }
                            return Err("arguments must be valid UTF-8".to_owned());
                        },
                        Argument::Text(flag) => {
                            if text_is(&flag, "--help") || text_is(&flag, "-h") {
                                proof {
                                    lemma_progress_stops(all, i + 1);
                                }
                                return Ok(None);
                            } else if text_is(&flag, "--input") || text_is(&flag, "--output")
                                || text_is(&flag, "--language") || text_is(&flag, "--shards")
                                || text_is(&flag, "--source-date") {
                                pending = Some(flag);
                            } else {
                                let mut message = "unknown argument: ".to_owned();
                                message.append(flag.as_str());
                                proof {
                                    lemma_progress_stops(all, i + 1);
                                }
                                return Err(message);
                            }
                        },
                    }
                },
            }
        }
        assert(all.take(all.len() as int) =~= all);
        if let Some(flag) = pending {
            let mut message = flag;
            message.append(" requires a value");
            return Err(message);
        }
        if !is_allowed_shard_count(shard_count) {
            return Err("--shards must be a power of two between 1 and 16384".to_owned());
        }
        let input = match input {
            Some(a) => a,
            None => return Err("--input is required".to_owned()),
        };
        let output = match output {
            Some(a) => a,
            None => return Err("--output is required".to_owned()),
        };
        if languages.len() == 0 {
            assert(text_views(languages@).to_set() =~= Set::<Seq<char>>::empty());
            return Err("at least one --language is required".to_owned());
        }
        assert(text_views(languages@)[0] == languages@[0]@);
        assert(text_views(languages@).contains(languages@[0]@));
        assert(text_views(languages@).to_set().contains(languages@[0]@));
        let source_date = match source_date {
            Some(s) => s,
            None => return Err("--source-date is required".to_owned()),
        };
        Ok(Some(Config { input, output, languages, shard_count, source_date }))
    }
}

} // verus!
