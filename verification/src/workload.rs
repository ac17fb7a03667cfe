//! The synthetic workload: how many rows there are, how they are grouped, and
//! which of them carry the token that the query searches for.

use vstd::prelude::*;
use vstd::string::*;
use crate::text::same_text;

verus! {

/// Rows in each data file; fixed, so that measurements compare across runs.
pub const ROWS_PER_FILE: usize = 5_000_000;

/// Rows in each row group of a data file, but for the last one.
pub const ROW_GROUP_SIZE: usize = 128 * 1024;

/// Mean run length of the clustered pattern. The length of each run is jittered
/// in `[BASE_RUN * 3/4, BASE_RUN * 5/4)`.
pub const BASE_RUN: u64 = 8192;

/// One jittered run of hits per `SUPER_BLOCK` rows, which makes a mean
/// selectivity of one third.
pub const SUPER_BLOCK: u64 = 3 * BASE_RUN;

/// The token that hit rows carry, in upper case, in their body.
pub const HIT_TOKEN: &'static str = "svc-c3500";

/// [`HIT_TOKEN`] in upper case.
pub const HIT_TOKEN_UPPER: &'static str = "SVC-C3500";

/// The token that the other rows carry in its place.
pub const MISS_TOKEN: &'static str = "svc-other";

/// Where the data files are.
pub const DATA_DIR: &'static str = "data-fts";

/// The two hit patterns that the benchmark contrasts.
#[derive(Clone, Copy, Debug, PartialEq, Eq, Structural)]
pub enum Pattern {
    /// Every third row hits: the worst case for runs, `select(1)/skip(2)/...`.
    Fragmented,
    /// One jittered run of about `BASE_RUN` rows per `SUPER_BLOCK` rows: long
    /// runs at irregular offsets, like logs sorted by tag.
    Clustered,
}

/// The value that [`splitmix64`] mixes `x` into.
pub open spec fn mixed(x: u64) -> u64 {
    let a = x.wrapping_add(0x9E3779B97F4A7C15);
    let b = (a ^ (a >> 30)).wrapping_mul(0xBF58476D1CE4E5B9);
    let c = (b ^ (b >> 27)).wrapping_mul(0x94D049BB133111EB);
    c ^ (c >> 31)
}

/// The hash that places the run of super block `block`.
pub open spec fn block_hash(block: int) -> u64 {
    mixed((block as u64) ^ 0xCAFE_BABE_5EED_F00D)
}

/// Offset in super block `block` at which its run begins.
pub open spec fn run_start(block: int) -> int {
    block_hash(block) as int % BASE_RUN as int
}

/// Length of the run in super block `block`.
pub open spec fn run_len(block: int) -> int {
    BASE_RUN * 3 / 4 + (block_hash(block) >> 32) as int % (BASE_RUN as int / 2)
}

/// Row `i` hits under `pattern`.
pub open spec fn hit(pattern: Pattern, i: int) -> bool {
    match pattern {
        Pattern::Fragmented => i % 3 == 0,
        Pattern::Clustered => {
            let block = i / SUPER_BLOCK as int;
            let offset = i % SUPER_BLOCK as int;
            run_start(block) <= offset < run_start(block) + run_len(block)
        },
    }
}

/// The column that holds the bodies of `pattern`.
pub open spec fn body_column_name(pattern: Pattern) -> Seq<char> {
    match pattern {
        Pattern::Fragmented => "body_fragmented"@,
        Pattern::Clustered => "body_clustered"@,
    }
}

/// The name by which `pattern` is chosen.
pub open spec fn pattern_name(pattern: Pattern) -> Seq<char> {
    match pattern {
        Pattern::Fragmented => "fragmented"@,
        Pattern::Clustered => "clustered"@,
    }
}

/// The pattern of that name, if there is one.
pub open spec fn pattern_named(name: Seq<char>) -> Option<Pattern> {
    if name == pattern_name(Pattern::Fragmented) {
        Some(Pattern::Fragmented)
    } else if name == pattern_name(Pattern::Clustered) {
        Some(Pattern::Clustered)
    } else {
        None
    }
}

impl Pattern {
    /// Parses the name of a pattern.
    pub fn parse(s: &str) -> (parsed: Result<Self, String>)
        ensures
            match pattern_named(s@) {
                Some(pattern) => parsed == Ok::<Self, String>(pattern),
                None => parsed matches Err(message) && message@ == "unknown pattern: "@ + s@
                    + " (fragmented|clustered)"@,
            },
    {
        if same_text(s, "fragmented") {
            Ok(Pattern::Fragmented)
        } else if same_text(s, "clustered") {
            Ok(Pattern::Clustered)
        } else {
            let message = "unknown pattern: ".to_owned().concat(s).concat(" (fragmented|clustered)");
            Err(message)
        }
    }

    /// Body column that carries this pattern's [`HIT_TOKEN`].
    pub fn body_column(self) -> (column: &'static str)
        ensures
            column@ == body_column_name(self),
    {
        match self {
            Pattern::Fragmented => "body_fragmented",
            Pattern::Clustered => "body_clustered",
        }
    }

    /// One-line description for the report's header.
    pub fn describe(self) -> (line: &'static str)
        ensures
            line@ == description(self),
    {
        match self {
            Pattern::Fragmented => "fragmented (i%3==0)",
            Pattern::Clustered => "clustered (jittered runs, ~8K hits per 24K rows)",
        }
    }

    /// Whether row `i` carries [`HIT_TOKEN`] in this pattern's body column.
    pub fn is_hit(self, i: u64) -> (is: bool)
        ensures
            is == hit(self, i as int),
    {
        match self {
            Pattern::Fragmented => i % 3 == 0,
            Pattern::Clustered => {
                let sb: u64 = i / SUPER_BLOCK;
                let p: u64 = i % SUPER_BLOCK;
                let h: u64 = splitmix64(sb ^ 0xCAFE_BABE_5EED_F00D);
                let start: u64 = h % BASE_RUN;
                let len: u64 = BASE_RUN * 3 / 4 + ((h >> 32) % (BASE_RUN / 2));
                p >= start && p < start + len
            },
        }
    }
}

/// What the report's header says of `pattern`.
pub open spec fn description(pattern: Pattern) -> Seq<char> {
    match pattern {
        Pattern::Fragmented => "fragmented (i%3==0)"@,
        Pattern::Clustered => "clustered (jittered runs, ~8K hits per 24K rows)"@,
    }
}

/// The SplitMix64 finalizer: spreads the bits of `x` over the whole word.
pub fn splitmix64(x: u64) -> (mix: u64)
    ensures
        mix == mixed(x),
{
    let a: u64 = x.wrapping_add(0x9E3779B97F4A7C15);
    let b: u64 = (a ^ (a >> 30)).wrapping_mul(0xBF58476D1CE4E5B9);
    let c: u64 = (b ^ (b >> 27)).wrapping_mul(0x94D049BB133111EB);
    c ^ (c >> 31)
}

/// Of any three neighbouring rows exactly one hits under the fragmented pattern,
/// and the next hit after a hit is three rows on.
pub proof fn law_fragmented_hits_every_third_row(i: int)
    ensures
        hit(Pattern::Fragmented, i) || hit(Pattern::Fragmented, i + 1) || hit(
            Pattern::Fragmented,
            i + 2,
        ),
        hit(Pattern::Fragmented, i) ==> !hit(Pattern::Fragmented, i + 1) && !hit(
            Pattern::Fragmented,
            i + 2,
        ) && hit(Pattern::Fragmented, i + 3),
        hit(Pattern::Fragmented, 0),
{
}

/// Under the clustered pattern each super block holds exactly one run of hits.
/// It begins in the first `BASE_RUN` rows of the block, its length lies in
/// `[BASE_RUN * 3/4, BASE_RUN * 5/4)`, and it ends inside the block.
pub proof fn law_clustered_block_has_one_run(block: int)
    requires
        0 <= block <= u64::MAX / SUPER_BLOCK,
    ensures
        0 <= run_start(block) < BASE_RUN,
        BASE_RUN * 3 / 4 <= run_len(block) < BASE_RUN * 5 / 4,
        run_start(block) + run_len(block) < SUPER_BLOCK,
        forall|p: int|
            0 <= p < SUPER_BLOCK ==> (#[trigger] hit(Pattern::Clustered, block * SUPER_BLOCK + p)
                <==> run_start(block) <= p < run_start(block) + run_len(block)),
{
    assert forall|p: int| 0 <= p < SUPER_BLOCK implies (#[trigger] hit(
        Pattern::Clustered,
        block * SUPER_BLOCK + p,
    ) <==> run_start(block) <= p < run_start(block) + run_len(block)) by {
        let i = block * SUPER_BLOCK + p;
        assert(i / SUPER_BLOCK as int == block);
        assert(i % SUPER_BLOCK as int == p);
    }
}

/// Each pattern is found under its own name, and no other name finds one.
pub proof fn law_pattern_names(pattern: Pattern, name: Seq<char>)
    ensures
        pattern_named(pattern_name(pattern)) == Some(pattern),
        pattern_named(name) == Some(pattern) ==> name == pattern_name(pattern),
{
    reveal_strlit("fragmented");
    reveal_strlit("clustered");
    assert("fragmented"@.len() != "clustered"@.len());
}

/// The mixing steps, in arithmetic modulo 2^64: add the golden gamma, then twice fold
/// the upper bits in and multiply, and fold once more.
pub proof fn law_splitmix64_steps(x: u64)
    ensures
        ({
            let a = ((x + 0x9E3779B97F4A7C15u64) % 0x1_0000_0000_0000_0000) as u64;
            let b = (((a ^ (a >> 30)) * 0xBF58476D1CE4E5B9u64) % 0x1_0000_0000_0000_0000) as u64;
            let c = (((b ^ (b >> 27)) * 0x94D049BB133111EBu64) % 0x1_0000_0000_0000_0000) as u64;
            mixed(x) == c ^ (c >> 31)
        }),
{
}

/// Under the fragmented pattern the rows that hit are the multiples of three.
pub proof fn law_fragmented_hits_are_multiples_of_three(k: int)
    ensures
        hit(Pattern::Fragmented, 3 * k),
        !hit(Pattern::Fragmented, 3 * k + 1),
        !hit(Pattern::Fragmented, 3 * k + 2),
{
}

/// Under the clustered pattern the hash of a super block places its run: row `p` of the
/// block hits exactly where it lies in the stretch of 6144 to 10239 rows whose start and
/// length the hash gives.
pub proof fn law_clustered_runs_follow_the_hash(block: u64, p: int)
    requires
        block <= u64::MAX / 24_576,
        0 <= p < 24_576,
    ensures
        ({
            let h = mixed(block ^ 0xCAFE_BABE_5EED_F00D);
            let start = h as int % 8192;
            let len = 6144 + (h >> 32) as int % 4096;
            hit(Pattern::Clustered, block * 24_576 + p) <==> start <= p < start + len
        }),
{
    let i = block * 24_576 + p;
    assert(SUPER_BLOCK == 24_576 && BASE_RUN == 8192);
    assert(i / 24_576 == block);
    assert(i % 24_576 == p);
}

} // verus!
