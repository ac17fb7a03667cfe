//! Command lines of the two programs: `generate`, which writes the dataset, and
//! `query`, which measures one strategy on it.

use vstd::prelude::*;
use vstd::string::*;
use crate::access_plan::PlanRepr;
use crate::text;
use crate::text::{chars_of, parse_number, same_text};
use crate::workload;
use crate::workload::Pattern;

verus! {

/// Files written and read unless the command line says otherwise.
pub const DEFAULT_FILES: usize = 40;

/// Timed iterations unless the command line says otherwise.
pub const DEFAULT_REPEATS: usize = 5;

/// How the query finds the rows that hit.
#[derive(Clone, Copy, Debug, PartialEq, Eq, Structural)]
pub enum Strategy {
    IndexRle,
    IndexBitmap,
    NoIndex,
}

/// The name by which `strategy` is chosen.
pub open spec fn strategy_name(strategy: Strategy) -> Seq<char> {
    match strategy {
        Strategy::IndexRle => "rle"@,
        Strategy::IndexBitmap => "bitmap"@,
        Strategy::NoIndex => "no-index"@,
    }
}

/// The strategy of that name, if there is one.
pub open spec fn strategy_named(name: Seq<char>) -> Option<Strategy> {
    if name == strategy_name(Strategy::IndexRle) {
        Some(Strategy::IndexRle)
    } else if name == strategy_name(Strategy::IndexBitmap) {
        Some(Strategy::IndexBitmap)
    } else if name == strategy_name(Strategy::NoIndex) {
        Some(Strategy::NoIndex)
    } else {
        None
    }
}

/// What the report calls `strategy`.
pub open spec fn strategy_label(strategy: Strategy) -> Seq<char> {
    match strategy {
        Strategy::IndexRle => "with FTS index (RLE)"@,
        Strategy::IndexBitmap => "with FTS index (bitmap)"@,
        Strategy::NoIndex => "no index (post-filter)"@,
    }
}

/// The encoding of the plans that `strategy` attaches, if it attaches any.
pub open spec fn strategy_repr(strategy: Strategy) -> Option<PlanRepr> {
    match strategy {
        Strategy::IndexRle => Some(PlanRepr::Rle),
        Strategy::IndexBitmap => Some(PlanRepr::Bitmap),
        Strategy::NoIndex => None,
    }
}

impl Strategy {
    /// Parses the name of a strategy.
    pub fn parse(s: &str) -> (parsed: Result<Self, String>)
        ensures
            match strategy_named(s@) {
                Some(strategy) => parsed == Ok::<Self, String>(strategy),
                None => parsed matches Err(message) && message@ == "unknown --strategy: "@ + s@
                    + " (rle|bitmap|no-index)"@,
            },
    {
        if same_text(s, "rle") {
            Ok(Strategy::IndexRle)
        } else if same_text(s, "bitmap") {
            Ok(Strategy::IndexBitmap)
        } else if same_text(s, "no-index") {
            Ok(Strategy::NoIndex)
        } else {
            let message = "unknown --strategy: ".to_owned().concat(s).concat(
                " (rle|bitmap|no-index)",
            );
            Err(message)
        }
    }

    /// What the report calls this strategy.
    pub fn label(self) -> (label: &'static str)
        ensures
            label@ == strategy_label(self),
    {
        match self {
            Strategy::IndexRle => "with FTS index (RLE)",
            Strategy::IndexBitmap => "with FTS index (bitmap)",
            Strategy::NoIndex => "no index (post-filter)",
        }
    }

    /// The encoding of the plans that this strategy attaches, if it attaches any.
    pub fn plan_repr(self) -> (repr: Option<PlanRepr>)
        ensures
            repr == strategy_repr(self),
    {
        match self {
            Strategy::IndexRle => Some(PlanRepr::Rle),
            Strategy::IndexBitmap => Some(PlanRepr::Bitmap),
            Strategy::NoIndex => None,
        }
    }
}

/// Each strategy is found under its own name, and no other name finds one.
pub proof fn law_strategy_names(strategy: Strategy, name: Seq<char>)
    ensures
        strategy_named(strategy_name(strategy)) == Some(strategy),
        strategy_named(name) == Some(strategy) ==> name == strategy_name(strategy),
{
    reveal_strlit("rle");
    reveal_strlit("bitmap");
    reveal_strlit("no-index");
    assert("rle"@.len() == 3 && "bitmap"@.len() == 6 && "no-index"@.len() == 8);
}

/// What is wrong with a command line; the numbers are positions in it.
#[derive(Clone, Copy, Debug, PartialEq, Eq, Structural)]
pub enum ArgError {
    /// The option at that position lacks its value.
    MissingValue(usize),
    /// The value at that position is no number that fits.
    BadNumber(usize),
    /// The value at that position names no pattern.
    BadPattern(usize),
    /// The value at that position names no strategy.
    BadStrategy(usize),
    /// There is no such option.
    Unknown(usize),
    /// No pattern is given.
    NoPattern,
    /// No strategy is given.
    NoStrategy,
}

/// The value of the option at `at`, read as a number.
pub open spec fn number_value(args: Seq<Seq<char>>, at: int) -> Result<usize, ArgError> {
    if at + 1 >= args.len() {
        Err(ArgError::MissingValue(at as usize))
    } else {
        match text::number(args[at + 1]) {
            Some(n) => Ok(n),
            None => Err(ArgError::BadNumber((at + 1) as usize)),
        }
    }
}

/// The value of the option at `at`, read as the name of a pattern.
pub open spec fn pattern_value(args: Seq<Seq<char>>, at: int) -> Result<Pattern, ArgError> {
    if at + 1 >= args.len() {
        Err(ArgError::MissingValue(at as usize))
    } else {
        match workload::pattern_named(args[at + 1]) {
            Some(pattern) => Ok(pattern),
            None => Err(ArgError::BadPattern((at + 1) as usize)),
        }
    }
}

/// The value of the option at `at`, read as the name of a strategy.
pub open spec fn strategy_value(args: Seq<Seq<char>>, at: int) -> Result<Strategy, ArgError> {
    if at + 1 >= args.len() {
        Err(ArgError::MissingValue(at as usize))
    } else {
        match strategy_named(args[at + 1]) {
            Some(strategy) => Ok(strategy),
            None => Err(ArgError::BadStrategy((at + 1) as usize)),
        }
    }
}

/// `word` asks for help.
pub open spec fn asks_help(word: Seq<char>) -> bool {
    word == "-h"@ || word == "--help"@
}

fn read_number(args: &Vec<String>, at: usize) -> (value: Result<usize, ArgError>)
    requires
        at < args@.len(),
    ensures
        value == number_value(text::texts(args@), at as int),
{
    if at >= args.len() - 1 {
        return Err(ArgError::MissingValue(at));
    }
    let chars = chars_of(args[at + 1].as_str());
    match parse_number(chars.as_slice()) {
        Some(n) => Ok(n),
        None => Err(ArgError::BadNumber(at + 1)),
    }
}

fn read_pattern(args: &Vec<String>, at: usize) -> (value: Result<Pattern, ArgError>)
    requires
        at < args@.len(),
    ensures
        value == pattern_value(text::texts(args@), at as int),
{
    if at >= args.len() - 1 {
        return Err(ArgError::MissingValue(at));
    }
    match Pattern::parse(args[at + 1].as_str()) {
        Ok(pattern) => Ok(pattern),
        Err(_) => Err(ArgError::BadPattern(at + 1)),
    }
}

fn read_strategy(args: &Vec<String>, at: usize) -> (value: Result<Strategy, ArgError>)
    requires
        at < args@.len(),
    ensures
        value == strategy_value(text::texts(args@), at as int),
{
    if at >= args.len() - 1 {
        return Err(ArgError::MissingValue(at));
    }
    match Strategy::parse(args[at + 1].as_str()) {
        Ok(strategy) => Ok(strategy),
        Err(_) => Err(ArgError::BadStrategy(at + 1)),
    }
}

// ---------------------------------------------------------------------------
// generate
// ---------------------------------------------------------------------------

/// What `generate` is asked for.
#[derive(Clone, Copy, Debug, PartialEq, Eq, Structural)]
pub struct GenerateArgs {
    pub files: usize,
    pub threads: usize,
}

/// What a command line of `generate` says.
#[derive(Clone, Copy, Debug, PartialEq, Eq, Structural)]
pub enum GenerateCommand {
    Help,
    Run(GenerateArgs),
}

/// What the words from `at` on make of `sofar`: options are read from left to right,
/// a later one wins, and the first mistake or call for help decides.
pub open spec fn generate_from(args: Seq<Seq<char>>, at: int, sofar: GenerateArgs) -> Result<
    GenerateCommand,
    ArgError,
>
    decreases args.len() - at,
{
    if at >= args.len() {
        Ok(GenerateCommand::Run(sofar))
    } else if args[at] == "--files"@ {
        match number_value(args, at) {
            Ok(n) => generate_from(args, at + 2, GenerateArgs { files: n, ..sofar }),
            Err(e) => Err(e),
        }
    } else if args[at] == "--threads"@ {
        match number_value(args, at) {
            Ok(n) => generate_from(args, at + 2, GenerateArgs { threads: n, ..sofar }),
            Err(e) => Err(e),
        }
    } else if asks_help(args[at]) {
        Ok(GenerateCommand::Help)
    } else {
        Err(ArgError::Unknown(at as usize))
    }
}

/// Parses the command line of `generate`, without the program's name.
pub fn parse_generate_args(args: &Vec<String>, threads: usize) -> (command: Result<
    GenerateCommand,
    ArgError,
>)
    ensures
        command == generate_from(
            text::texts(args@),
            0,
            GenerateArgs { files: DEFAULT_FILES, threads },
        ),
{
    let ghost words = text::texts(args@);
    let ghost initial = GenerateArgs { files: DEFAULT_FILES, threads };
    let mut a = GenerateArgs { files: DEFAULT_FILES, threads };
    let mut i: usize = 0;
    while i < args.len()
        invariant
            words == text::texts(args@),
            initial == (GenerateArgs { files: DEFAULT_FILES, threads }),
            i <= args@.len(),
            generate_from(words, 0, initial) == generate_from(words, i as int, a),
        decreases args@.len() - i,
    {
        let arg = args[i].as_str();
        assert(arg@ == words[i as int]);
        if same_text(arg, "--files") {
            match read_number(args, i) {
                Ok(n) => {
                    a.files = n;
                },
                Err(e) => {
                    return Err(e);
                },
            }
        } else if same_text(arg, "--threads") {
            match read_number(args, i) {
                Ok(n) => {
                    a.threads = n;
                },
                Err(e) => {
                    return Err(e);
                },
            }
        } else if same_text(arg, "-h") || same_text(arg, "--help") {
            return Ok(GenerateCommand::Help);
        } else {
            return Err(ArgError::Unknown(i));
        }
        i += 2;
    }
    Ok(GenerateCommand::Run(a))
}

// ---------------------------------------------------------------------------
// query
// ---------------------------------------------------------------------------

/// What `query` is asked for.
#[derive(Clone, Copy, Debug, PartialEq, Eq, Structural)]
pub struct QueryArgs {
    pub files: usize,
    pub threads: usize,
    /// Timed iterations, besides one untimed warmup.
    pub repeats: usize,
    pub pattern: Pattern,
    pub strategy: Strategy,
}

/// What a command line of `query` says.
#[derive(Clone, Copy, Debug, PartialEq, Eq, Structural)]
pub enum QueryCommand {
    Help,
    Run(QueryArgs),
}

/// The options of `query` read so far.
#[derive(Clone, Copy, Debug, PartialEq, Eq, Structural)]
pub struct QueryOptions {
    pub files: usize,
    pub threads: usize,
    pub repeats: usize,
    pub pattern: Option<Pattern>,
    pub strategy: Option<Strategy>,
}

/// What the options come to once all are read: a pattern and a strategy must be
/// among them.
pub open spec fn query_complete(options: QueryOptions) -> Result<QueryCommand, ArgError> {
    match (options.pattern, options.strategy) {
        (None, _) => Err(ArgError::NoPattern),
        (Some(_), None) => Err(ArgError::NoStrategy),
        (Some(pattern), Some(strategy)) => Ok(
            QueryCommand::Run(
                QueryArgs {
                    files: options.files,
                    threads: options.threads,
                    repeats: options.repeats,
                    pattern,
                    strategy,
                },
            ),
        ),
    }
}

/// What the words from `at` on make of `sofar`: options are read from left to right,
/// a later one wins, and the first mistake or call for help decides.
pub open spec fn query_from(args: Seq<Seq<char>>, at: int, sofar: QueryOptions) -> Result<
    QueryCommand,
    ArgError,
>
    decreases args.len() - at,
{
    if at >= args.len() {
        query_complete(sofar)
    } else if args[at] == "--files"@ {
        match number_value(args, at) {
            Ok(n) => query_from(args, at + 2, QueryOptions { files: n, ..sofar }),
            Err(e) => Err(e),
        }
    } else if args[at] == "--threads"@ {
        match number_value(args, at) {
            Ok(n) => query_from(args, at + 2, QueryOptions { threads: n, ..sofar }),
            Err(e) => Err(e),
        }
    } else if args[at] == "--repeats"@ {
        match number_value(args, at) {
            Ok(n) => query_from(args, at + 2, QueryOptions { repeats: n, ..sofar }),
            Err(e) => Err(e),
        }
    } else if args[at] == "--pattern"@ {
        match pattern_value(args, at) {
            Ok(p) => query_from(args, at + 2, QueryOptions { pattern: Some(p), ..sofar }),
            Err(e) => Err(e),
        }
    } else if args[at] == "--strategy"@ {
        match strategy_value(args, at) {
            Ok(s) => query_from(args, at + 2, QueryOptions { strategy: Some(s), ..sofar }),
            Err(e) => Err(e),
        }
    } else if asks_help(args[at]) {
        Ok(QueryCommand::Help)
    } else {
        Err(ArgError::Unknown(at as usize))
    }
}

/// Parses the command line of `query`, without the program's name.
pub fn parse_query_args(args: &Vec<String>, threads: usize) -> (command: Result<
    QueryCommand,
    ArgError,
>)
    ensures
        command == query_from(
            text::texts(args@),
            0,
            QueryOptions {
                files: DEFAULT_FILES,
                threads,
                repeats: DEFAULT_REPEATS,
                pattern: None,
                strategy: None,
            },
        ),
{
    let ghost words = text::texts(args@);
    let mut o = QueryOptions {
        files: DEFAULT_FILES,
        threads,
        repeats: DEFAULT_REPEATS,
        pattern: None,
        strategy: None,
    };
    let ghost initial = o;
    let mut i: usize = 0;
    while i < args.len()
        invariant
            words == text::texts(args@),
            initial == (QueryOptions {
                files: DEFAULT_FILES,
                threads,
                repeats: DEFAULT_REPEATS,
                pattern: None,
                strategy: None,
            }),
            i <= args@.len(),
            query_from(words, 0, initial) == query_from(words, i as int, o),
        decreases args@.len() - i,
    {
        let arg = args[i].as_str();
        assert(arg@ == words[i as int]);
        if same_text(arg, "--files") {
            match read_number(args, i) {
                Ok(n) => {
                    o.files = n;
                },
                Err(e) => {
                    return Err(e);
                },
            }
        } else if same_text(arg, "--threads") {
            match read_number(args, i) {
                Ok(n) => {
                    o.threads = n;
                },
                Err(e) => {
                    return Err(e);
                },
            }
        } else if same_text(arg, "--repeats") {
            match read_number(args, i) {
                Ok(n) => {
                    o.repeats = n;
                },
                Err(e) => {
                    return Err(e);
                },
            }
        } else if same_text(arg, "--pattern") {
            match read_pattern(args, i) {
                Ok(p) => {
                    o.pattern = Some(p);
                },
                Err(e) => {
                    return Err(e);
                },
            }
        } else if same_text(arg, "--strategy") {
            match read_strategy(args, i) {
                Ok(s) => {
                    o.strategy = Some(s);
                },
                Err(e) => {
                    return Err(e);
                },
            }
        } else if same_text(arg, "-h") || same_text(arg, "--help") {
            return Ok(QueryCommand::Help);
        } else {
            return Err(ArgError::Unknown(i));
        }
        i += 2;
    }
    match (o.pattern, o.strategy) {
        (None, _) => Err(ArgError::NoPattern),
        (Some(_), None) => Err(ArgError::NoStrategy),
        (Some(pattern), Some(strategy)) => Ok(
            QueryCommand::Run(
                QueryArgs {
                    files: o.files,
                    threads: o.threads,
                    repeats: o.repeats,
                    pattern,
                    strategy,
                },
            ),
        ),
    }
}

// ---------------------------------------------------------------------------
// What a command line asks for
// ---------------------------------------------------------------------------

/// Among the first `n` pairs of an option and its value, the value that was given last
/// for `option`.
pub open spec fn last_value(args: Seq<Seq<char>>, n: nat, option: Seq<char>) -> Option<Seq<char>>
    decreases n,
{
    if n == 0 {
        None
    } else if args[2 * n - 2] == option {
        Some(args[2 * n - 1])
    } else {
        last_value(args, (n - 1) as nat, option)
    }
}

/// The number that `value` writes, or `default` where no value was given.
pub open spec fn number_or(value: Option<Seq<char>>, default: usize) -> usize {
    match value {
        Some(written) => text::number(written)->0,
        None => default,
    }
}

/// `word` is an option of `generate`; all of them take a number.
pub open spec fn generate_option(word: Seq<char>) -> bool {
    word == "--files"@ || word == "--threads"@
}

/// `word` is an option of `query` that takes a number.
pub open spec fn query_number_option(word: Seq<char>) -> bool {
    word == "--files"@ || word == "--threads"@ || word == "--repeats"@
}

/// `word` is an option of `query`.
pub open spec fn query_option(word: Seq<char>) -> bool {
    query_number_option(word) || word == "--pattern"@ || word == "--strategy"@
}

/// `value` may stand behind the option `word` of `query`.
pub open spec fn query_value_fits(word: Seq<char>, value: Seq<char>) -> bool {
    &&& query_number_option(word) ==> text::number(value) is Some
    &&& word == "--pattern"@ ==> value == "fragmented"@ || value == "clustered"@
    &&& word == "--strategy"@ ==> value == "rle"@ || value == "bitmap"@ || value == "no-index"@
}

/// Words `2 * k` and `2 * k + 1` are an option of `generate` and a value for it.
pub open spec fn generate_pair(args: Seq<Seq<char>>, k: int) -> bool {
    &&& 2 * k + 1 < args.len()
    &&& generate_option(args[2 * k])
    &&& text::number(args[2 * k + 1]) is Some
}

/// Words `2 * k` and `2 * k + 1` are an option of `query` and a value for it.
pub open spec fn query_pair(args: Seq<Seq<char>>, k: int) -> bool {
    &&& 2 * k + 1 < args.len()
    &&& query_option(args[2 * k])
    &&& query_value_fits(args[2 * k], args[2 * k + 1])
}

/// The words of the command lines are all different.
proof fn lemma_words_differ()
    ensures
        "--files"@ != "--threads"@,
        "--files"@ != "--repeats"@,
        "--files"@ != "--pattern"@,
        "--files"@ != "--strategy"@,
        "--threads"@ != "--repeats"@,
        "--threads"@ != "--pattern"@,
        "--threads"@ != "--strategy"@,
        "--repeats"@ != "--pattern"@,
        "--repeats"@ != "--strategy"@,
        "--pattern"@ != "--strategy"@,
        forall|word: Seq<char>|
            #![trigger query_option(word)]
            asks_help(word) ==> !query_option(word),
        "fragmented"@ != "clustered"@,
        "rle"@ != "bitmap"@,
        "rle"@ != "no-index"@,
        "bitmap"@ != "no-index"@,
{
    reveal_strlit("--files");
    reveal_strlit("--threads");
    reveal_strlit("--repeats");
    reveal_strlit("--pattern");
    reveal_strlit("--strategy");
    reveal_strlit("--help");
    reveal_strlit("-h");
    reveal_strlit("fragmented");
    reveal_strlit("clustered");
    reveal_strlit("rle");
    reveal_strlit("bitmap");
    reveal_strlit("no-index");
    assert("--files"@[2] == 'f' && "--threads"@[2] == 't' && "--repeats"@[2] == 'r');
    assert("--pattern"@[2] == 'p' && "--strategy"@[2] == 's' && "--help"@[2] == 'h');
    assert("-h"@.len() == 2 && "--files"@.len() == 7 && "--threads"@.len() == 9);
    assert("--repeats"@.len() == 9 && "--pattern"@.len() == 9 && "--strategy"@.len() == 10);
    assert("fragmented"@.len() == 10 && "clustered"@.len() == 9);
    assert("rle"@.len() == 3 && "bitmap"@.len() == 6 && "no-index"@.len() == 8);
}

/// Reading `n` pairs leads to their last values.
proof fn lemma_generate_pairs(args: Seq<Seq<char>>, n: nat, start: GenerateArgs)
    requires
        forall|k: int| 0 <= k < n ==> #[trigger] generate_pair(args, k),
    ensures
        2 * n <= args.len(),
        generate_from(args, 0, start) == generate_from(
            args,
            2 * n as int,
            GenerateArgs {
                files: number_or(last_value(args, n, "--files"@), start.files),
                threads: number_or(last_value(args, n, "--threads"@), start.threads),
            },
        ),
    decreases n,
{
    if n > 0 {
        lemma_generate_pairs(args, (n - 1) as nat, start);
        assert(generate_pair(args, n - 1));
        lemma_words_differ();
    }
}

/// A command line of `generate` that consists of options and their values gives each
/// option the number that its last value writes, and its default where it is absent.
pub proof fn law_generate_takes_the_last_values(args: Seq<Seq<char>>, n: nat, threads: usize)
    requires
        args.len() == 2 * n,
        forall|k: int| 0 <= k < n ==> #[trigger] generate_pair(args, k),
    ensures
        generate_from(args, 0, GenerateArgs { files: 40, threads }) matches Ok(
            GenerateCommand::Run(asked),
        ) && asked.files == number_or(last_value(args, n, "--files"@), 40) && asked.threads
            == number_or(last_value(args, n, "--threads"@), threads),
{
    lemma_generate_pairs(args, n, GenerateArgs { files: 40, threads });
}

/// Behind options and values of `generate` the first word that is neither decides: a
/// call for help, or what is wrong with it and where.
pub proof fn law_generate_stops_at_the_first_mistake(
    args: Seq<Seq<char>>,
    n: nat,
    threads: usize,
)
    requires
        2 * n < args.len() <= usize::MAX,
        forall|k: int| 0 <= k < n ==> #[trigger] generate_pair(args, k),
        !generate_pair(args, n as int),
    ensures
        ({
            let word = args[2 * n as int];
            let result = generate_from(args, 0, GenerateArgs { files: 40, threads });
            if word == "-h"@ || word == "--help"@ {
                result == Ok::<GenerateCommand, ArgError>(GenerateCommand::Help)
            } else if !generate_option(word) {
                result == Err::<GenerateCommand, ArgError>(ArgError::Unknown((2 * n) as usize))
            } else if 2 * n + 1 == args.len() {
                result == Err::<GenerateCommand, ArgError>(ArgError::MissingValue((2 * n) as usize))
            } else {
                result == Err::<GenerateCommand, ArgError>(
                    ArgError::BadNumber((2 * n + 1) as usize),
                )
            }
        }),
{
    lemma_generate_pairs(args, n, GenerateArgs { files: 40, threads });
    lemma_words_differ();
    assert(asks_help(args[2 * n as int]) ==> !query_option(args[2 * n as int]));
}

/// The pattern of that name.
pub open spec fn named_pattern(name: Option<Seq<char>>) -> Option<Pattern> {
    match name {
        Some(written) => if written == "fragmented"@ {
            Some(Pattern::Fragmented)
        } else {
            Some(Pattern::Clustered)
        },
        None => None,
    }
}

/// The strategy of that name.
pub open spec fn named_strategy(name: Option<Seq<char>>) -> Option<Strategy> {
    match name {
        Some(written) => if written == "rle"@ {
            Some(Strategy::IndexRle)
        } else if written == "bitmap"@ {
            Some(Strategy::IndexBitmap)
        } else {
            Some(Strategy::NoIndex)
        },
        None => None,
    }
}

/// The options as the first `n` pairs leave them.
spec fn options_after(args: Seq<Seq<char>>, n: nat, start: QueryOptions) -> QueryOptions {
    QueryOptions {
        files: number_or(last_value(args, n, "--files"@), start.files),
        threads: number_or(last_value(args, n, "--threads"@), start.threads),
        repeats: number_or(last_value(args, n, "--repeats"@), start.repeats),
        pattern: named_pattern(last_value(args, n, "--pattern"@)),
        strategy: named_strategy(last_value(args, n, "--strategy"@)),
    }
}

/// Reading `n` pairs leads to their last values.
proof fn lemma_query_pairs(args: Seq<Seq<char>>, n: nat, start: QueryOptions)
    requires
        start.pattern is None,
        start.strategy is None,
        forall|k: int| 0 <= k < n ==> #[trigger] query_pair(args, k),
    ensures
        2 * n <= args.len(),
        query_from(args, 0, start) == query_from(
            args,
            2 * n as int,
            options_after(args, n, start),
        ),
    decreases n,
{
    if n > 0 {
        let m = (n - 1) as nat;
        lemma_query_pairs(args, m, start);
        assert(query_pair(args, n - 1));
        lemma_words_differ();
        let word = args[2 * m as int];
        let before = options_after(args, m, start);
        let after = options_after(args, n, start);
        if word == "--pattern"@ {
            assert(after == QueryOptions { pattern: after.pattern, ..before });
        } else if word == "--strategy"@ {
            assert(after == QueryOptions { strategy: after.strategy, ..before });
        }
    } else {
        assert(options_after(args, 0, start) == start);
    }
}

/// A command line of `query` that consists of options and their values gives each
/// option its last value, and its default where it is absent. Pattern and strategy have
/// no default.
pub proof fn law_query_takes_the_last_values(args: Seq<Seq<char>>, n: nat, threads: usize)
    requires
        args.len() == 2 * n,
        forall|k: int| 0 <= k < n ==> #[trigger] query_pair(args, k),
    ensures
        ({
            let result = query_from(
                args,
                0,
                QueryOptions { files: 40, threads, repeats: 5, pattern: None, strategy: None },
            );
            match (
                named_pattern(last_value(args, n, "--pattern"@)),
                named_strategy(last_value(args, n, "--strategy"@)),
            ) {
                (None, _) => result == Err::<QueryCommand, ArgError>(ArgError::NoPattern),
                (Some(_), None) => result == Err::<QueryCommand, ArgError>(ArgError::NoStrategy),
                (Some(pattern), Some(strategy)) => {
                    &&& result matches Ok(QueryCommand::Run(asked))
                    &&& asked.pattern == pattern
                    &&& asked.strategy == strategy
                    &&& asked.files == number_or(last_value(args, n, "--files"@), 40)
                    &&& asked.threads == number_or(last_value(args, n, "--threads"@), threads)
                    &&& asked.repeats == number_or(last_value(args, n, "--repeats"@), 5)
                },
            }
        }),
{
    lemma_query_pairs(
        args,
        n,
        QueryOptions { files: 40, threads, repeats: 5, pattern: None, strategy: None },
    );
}

/// Behind options and values of `query` the first word that is neither decides: a call
/// for help, or what is wrong with it and where.
pub proof fn law_query_stops_at_the_first_mistake(args: Seq<Seq<char>>, n: nat, threads: usize)
    requires
        2 * n < args.len() <= usize::MAX,
        forall|k: int| 0 <= k < n ==> #[trigger] query_pair(args, k),
        !query_pair(args, n as int),
    ensures
        ({
            let word = args[2 * n as int];
            let result = query_from(
                args,
                0,
                QueryOptions { files: 40, threads, repeats: 5, pattern: None, strategy: None },
            );
            if word == "-h"@ || word == "--help"@ {
                result == Ok::<QueryCommand, ArgError>(QueryCommand::Help)
            } else if !query_option(word) {
                result == Err::<QueryCommand, ArgError>(ArgError::Unknown((2 * n) as usize))
            } else if 2 * n + 1 == args.len() {
                result == Err::<QueryCommand, ArgError>(ArgError::MissingValue((2 * n) as usize))
            } else if word == "--pattern"@ {
                result == Err::<QueryCommand, ArgError>(ArgError::BadPattern((2 * n + 1) as usize))
            } else if word == "--strategy"@ {
                result == Err::<QueryCommand, ArgError>(ArgError::BadStrategy((2 * n + 1) as usize))
            } else {
                result == Err::<QueryCommand, ArgError>(ArgError::BadNumber((2 * n + 1) as usize))
            }
        }),
{
    lemma_query_pairs(
        args,
        n,
        QueryOptions { files: 40, threads, repeats: 5, pattern: None, strategy: None },
    );
    lemma_words_differ();
    assert(asks_help(args[2 * n as int]) ==> !query_option(args[2 * n as int]));
}

} // verus!
