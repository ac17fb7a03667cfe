//! The rows of the dataset: service names and log bodies, batch by batch.

use vstd::prelude::*;
use vstd::string::*;
use std::sync::Arc;
use arrow::datatypes::Schema;
use crate::access_plan;
use crate::batch;
use crate::batch::{text_batch, utf8_schema, Batch};
use crate::text;
use crate::text::{
    decimal_text, push_decimal, push_hexadecimal, push_pad_left, push_signed,
};
use crate::workload;
use crate::workload::{splitmix64, Pattern, HIT_TOKEN, HIT_TOKEN_UPPER, MISS_TOKEN, ROWS_PER_FILE};

verus! {

/// Time stamp of row 0, in microseconds.
pub const TS_BASE: i64 = 1_760_000_000_000_000;

/// Number of service names. Their distribution is triangular: bucket 0 is the most
/// common one and the last bucket the rarest.
pub const SERVICE_BUCKETS: u64 = 50;

/// Rows per record batch, but for the last one of a file.
pub const BATCH_ROWS: usize = 131_072;

// ---------------------------------------------------------------------------
// Service names
// ---------------------------------------------------------------------------

/// Sum of the weights of all buckets.
pub open spec fn weight_total() -> int {
    SERVICE_BUCKETS * (SERVICE_BUCKETS + 1) / 2
}

/// Sum of the weights of the buckets before `b`; bucket `b` weighs
/// `SERVICE_BUCKETS - b`.
pub open spec fn weight_before(b: int) -> int
    decreases b,
{
    if b <= 0 {
        0
    } else {
        weight_before(b - 1) + (SERVICE_BUCKETS - (b - 1))
    }
}

/// `h` falls into bucket `b`.
pub open spec fn in_bucket(h: int, b: int) -> bool {
    0 <= b < SERVICE_BUCKETS && weight_before(b) <= h < weight_before(b + 1)
}

/// The bucket that `h` falls into.
pub open spec fn bucket_of(h: int) -> int {
    choose|b: int| in_bucket(h, b)
}

/// The service name of row `i`.
pub open spec fn service_text(i: u64) -> Seq<char> {
    let h = workload::mixed(i ^ 0xD1CE_5EED_C0DE_BEEF) as int % weight_total();
    "svc-"@ + text::pad_left(text::decimal(bucket_of(h) as nat), 2, '0')
}

proof fn lemma_weights_grow(a: int, b: int)
    requires
        0 <= a <= b <= SERVICE_BUCKETS,
    ensures
        weight_before(a) <= weight_before(b),
    decreases b - a,
{
    if a < b {
        lemma_weights_grow(a, b - 1);
    }
}

proof fn lemma_one_bucket(h: int, a: int, b: int)
    requires
        in_bucket(h, a),
        in_bucket(h, b),
    ensures
        a == b,
{
    if a < b {
        lemma_weights_grow(a + 1, b);
    }
    if b < a {
        lemma_weights_grow(b + 1, a);
    }
}

proof fn lemma_weight_sum()
    ensures
        weight_before(SERVICE_BUCKETS as int) == weight_total(),
{
    reveal_with_fuel(weight_before, 51);
}

/// The hash values below the sum of the weights fall into the buckets as the
/// weights say: bucket `b` gets a stretch of `SERVICE_BUCKETS - b` of them, the
/// stretches adjoin, and together they take up all values.
pub proof fn law_services_are_triangular(h: int, b: int)
    requires
        0 <= b < SERVICE_BUCKETS,
    ensures
        weight_before(b + 1) - weight_before(b) == SERVICE_BUCKETS - b,
        weight_before(0) == 0,
        weight_before(SERVICE_BUCKETS as int) == weight_total(),
        0 <= h < weight_total() ==> in_bucket(h, bucket_of(h)),
        0 <= h < weight_total() ==> (bucket_of(h) == b <==> weight_before(b) <= h < weight_before(
            b + 1,
        )),
{
    lemma_weight_sum();
    if 0 <= h < weight_total() {
        let found = lemma_find_bucket(h, SERVICE_BUCKETS as int);
        assert(in_bucket(h, bucket_of(h)));
        if in_bucket(h, b) {
            lemma_one_bucket(h, b, bucket_of(h));
        }
    }
}

proof fn lemma_find_bucket(h: int, below: int) -> (b: int)
    requires
        0 <= below <= SERVICE_BUCKETS,
        0 <= h < weight_before(below),
    ensures
        in_bucket(h, b),
    decreases below,
{
    if h >= weight_before(below - 1) {
        below - 1
    } else {
        lemma_find_bucket(h, below - 1)
    }
}

/// The bucket that `h` falls into.
pub fn service_bucket(h: u64) -> (b: u64)
    requires
        h < weight_total(),
    ensures
        b == bucket_of(h as int),
        in_bucket(h as int, b as int),
{
    let mut left: u64 = h;
    let mut b: u64 = 0;
    proof {
        lemma_weight_sum();
    }
    while b < SERVICE_BUCKETS
        invariant
            b <= SERVICE_BUCKETS,
            h < weight_before(SERVICE_BUCKETS as int),
            left == h - weight_before(b as int),
        decreases SERVICE_BUCKETS - b,
    {
        let weight: u64 = SERVICE_BUCKETS - b;
        if left < weight {
            proof {
                assert(in_bucket(h as int, b as int));
                lemma_one_bucket(h as int, b as int, bucket_of(h as int));
            }
            return b;
        }
        left -= weight;
        b += 1;
    }
    assert(false);
    b
}

/// The service name of row `i`.
pub fn service_name(i: u64) -> (name: String)
    ensures
        name@ == service_text(i),
{
    let total: u64 = SERVICE_BUCKETS * (SERVICE_BUCKETS + 1) / 2;
    let h: u64 = splitmix64(i ^ 0xD1CE_5EED_C0DE_BEEF) % total;
    let number = decimal_text(service_bucket(h));
    let mut name = "svc-".to_owned();
    push_pad_left(&mut name, number.as_str(), 2, '0');
    name
}

// ---------------------------------------------------------------------------
// Bodies
// ---------------------------------------------------------------------------

/// `str::to_uppercase`: of ASCII text, each letter becomes its upper case and
/// everything else stays. Other text is left out.
pub assume_specification[ str::to_uppercase ](s: &str) -> (upper: String)
    ensures
        vstd::utf8::is_ascii_chars(s@) ==> upper@ == in_upper_case(s@),
;

/// The upper case of an ASCII character.
pub open spec fn upper(c: char) -> char {
    if 'a' <= c <= 'z' {
        (c as int - 32) as char
    } else {
        c
    }
}

/// ASCII text in upper case.
pub open spec fn in_upper_case(s: Seq<char>) -> Seq<char> {
    Seq::new(s.len(), |k: int| upper(s[k]))
}

/// `needle` stands somewhere in `s`, upper and lower case taken as one.
pub open spec fn contains_ignoring_case(s: Seq<char>, needle: Seq<char>) -> bool {
    exists|p: int| #[trigger] stands_ignoring_case(s, needle, p)
}

/// `needle` stands in `s` at `p`, upper and lower case taken as one.
pub open spec fn stands_ignoring_case(s: Seq<char>, needle: Seq<char>, p: int) -> bool {
    &&& 0 <= p
    &&& p + needle.len() <= s.len()
    &&& forall|k: int| 0 <= k < needle.len() ==> upper(s[p + k]) == upper(#[trigger] needle[k])
}

/// `i` read as a signed number of the same width.
pub open spec fn as_signed(i: u64) -> int {
    if i <= i64::MAX {
        i as int
    } else {
        i - 0x1_0000_0000_0000_0000
    }
}

/// The time stamp of row `i`.
pub open spec fn stamp(i: u64) -> int {
    TS_BASE + as_signed(i) * 137
}

/// The time stamp of row `i` can be computed in 64 bits.
pub open spec fn stampable(i: u64) -> bool {
    i64::MIN <= as_signed(i) * 137 && stamp(i) <= i64::MAX
}

/// The token in the body of a row.
pub open spec fn tag_text(hit: bool) -> Seq<char> {
    in_upper_case(
        if hit {
            HIT_TOKEN@
        } else {
            MISS_TOKEN@
        },
    )
}

/// What stands before the token in the body of row `i`.
pub open spec fn body_front(i: u64) -> Seq<char> {
    text::signed_decimal(stamp(i)) + " info ["@
}

/// What stands behind the token in the body of row `i`.
pub open spec fn body_back(i: u64) -> Seq<char> {
    let trace = workload::mixed(i ^ 0x7AC3_7AC3_7AC3_7AC3);
    let span = workload::mixed(i ^ 0x0123_4567_89AB_CDEF) & 0xFFFF_FFFF;
    let latency = workload::mixed(i ^ 0x1111_2222_3333_4444) % 2000;
    "] GET /api/v1/object/list?offset="@ + text::decimal((i % 1000) as nat)
        + " status=200 latency="@ + text::decimal(latency as nat) + "ms trace_id="@
        + text::pad_left(text::hexadecimal(trace as nat), 16, '0') + " span_id="@ + text::pad_left(
        text::hexadecimal(span as nat),
        8,
        '0',
    )
        + " caller=handler/object.go:188 msg=\"request finished successfully, cache=miss backend=primary retry=0\""@
}

/// The body of row `i`: a log line that carries [`HIT_TOKEN`], in upper case, where
/// `hit` says so, and [`MISS_TOKEN`] otherwise.
pub open spec fn body_text(i: u64, hit: bool) -> Seq<char> {
    body_front(i) + tag_text(hit) + body_back(i)
}

/// The body of row `i` in the column of `pattern`.
pub open spec fn column_text(pattern: Pattern, i: u64) -> Seq<char> {
    body_text(i, workload::hit(pattern, i as int))
}

fn signed(i: u64) -> (n: i64)
    ensures
        n == as_signed(i),
{
    if i <= i64::MAX as u64 {
        i as i64
    } else {
        -((u64::MAX - i) as i64) - 1
    }
}

/// The body of row `i`, a log line of some 250 characters; `hit` says whether it
/// carries [`HIT_TOKEN`].
pub fn body(i: u64, hit: bool) -> (line: String)
    requires
        stampable(i),
    ensures
        line@ == body_text(i, hit),
{
    let trace: u64 = splitmix64(i ^ 0x7AC3_7AC3_7AC3_7AC3);
    let span: u64 = splitmix64(i ^ 0x0123_4567_89AB_CDEF) & 0xFFFF_FFFF;
    let latency: u64 = splitmix64(i ^ 0x1111_2222_3333_4444) % 2000;
    let token = if hit {
        HIT_TOKEN
    } else {
        MISS_TOKEN
    };
    proof {
        lemma_tokens();
    }
    let tag = token.to_uppercase();
    let ts: i64 = TS_BASE + signed(i) * 137;
    let mut line = String::new();
    push_signed(&mut line, ts);
    line.append(" info [");
    assert(line@ =~= body_front(i));
    line.append(tag.as_str());
    let ghost front = line@;
    let mut number = String::new();
    line.append("] GET /api/v1/object/list?offset=");
    push_decimal(&mut line, i % 1000);
    line.append(" status=200 latency=");
    push_decimal(&mut line, latency);
    line.append("ms trace_id=");
    push_hexadecimal(&mut number, trace);
    assert(number@ =~= text::hexadecimal(trace as nat));
    push_pad_left(&mut line, number.as_str(), 16, '0');
    line.append(" span_id=");
    let mut number = String::new();
    push_hexadecimal(&mut number, span);
    assert(number@ =~= text::hexadecimal(span as nat));
    push_pad_left(&mut line, number.as_str(), 8, '0');
    line.append(
        " caller=handler/object.go:188 msg=\"request finished successfully, cache=miss backend=primary retry=0\"",
    );
    assert(line@ =~= front + body_back(i));
    line
}

proof fn lemma_tokens()
    ensures
        vstd::utf8::is_ascii_chars(HIT_TOKEN@),
        vstd::utf8::is_ascii_chars(MISS_TOKEN@),
        tag_text(true) == seq!['S', 'V', 'C', '-', 'C', '3', '5', '0', '0'],
        tag_text(false) == seq!['S', 'V', 'C', '-', 'O', 'T', 'H', 'E', 'R'],
        HIT_TOKEN_UPPER@ == tag_text(true),
{
    reveal_strlit("svc-c3500");
    reveal_strlit("svc-other");
    reveal_strlit("SVC-C3500");
    assert(HIT_TOKEN@ =~= seq!['s', 'v', 'c', '-', 'c', '3', '5', '0', '0']);
    assert(MISS_TOKEN@ =~= seq!['s', 'v', 'c', '-', 'o', 't', 'h', 'e', 'r']);
    assert(tag_text(true) =~= seq!['S', 'V', 'C', '-', 'C', '3', '5', '0', '0']);
    assert(tag_text(false) =~= seq!['S', 'V', 'C', '-', 'O', 'T', 'H', 'E', 'R']);
    assert(HIT_TOKEN_UPPER@ =~= tag_text(true));
}

/// `c` is ASCII.
spec fn is_ascii(c: char) -> bool {
    '\0' <= c <= '\u{7f}'
}

/// Every character is ASCII, and none is a hyphen.
spec fn plain(s: Seq<char>) -> bool {
    forall|k: int| 0 <= k < s.len() ==> (#[trigger] s[k]) != '-' && is_ascii(s[k])
}

/// As [`plain`], of the first `n` characters, one by one.
spec fn plain_upto(s: Seq<char>, n: nat) -> bool
    decreases n,
{
    n == 0 || (s[n - 1] != '-' && is_ascii(s[n - 1]) && plain_upto(s, (n - 1) as nat))
}

proof fn lemma_plain(s: Seq<char>, n: nat)
    requires
        plain_upto(s, n),
    ensures
        forall|k: int| 0 <= k < n ==> (#[trigger] s[k]) != '-' && is_ascii(s[k]),
    decreases n,
{
    if n > 0 {
        lemma_plain(s, (n - 1) as nat);
    }
}

proof fn lemma_plain_numerals(n: nat, width: int)
    ensures
        plain(text::decimal(n)),
        plain(text::pad_left(text::hexadecimal(n), width, '0')),
{
    text::lemma_decimal(n);
    text::lemma_hexadecimal(n);
    let digits = text::decimal(n);
    assert forall|k: int| 0 <= k < digits.len() implies (#[trigger] digits[k]) != '-' && is_ascii(
        digits[k],
    ) by {
        assert(text::is_digit(digits[k]));
    }
    let hex = text::hexadecimal(n);
    let padded = text::pad_left(hex, width, '0');
    assert forall|k: int| 0 <= k < padded.len() implies (#[trigger] padded[k]) != '-' && is_ascii(
        padded[k],
    ) by {
        let zeros = padded.len() - hex.len();
        if k >= zeros {
            assert(padded[k] == hex[k - zeros]);
            assert(text::is_hex_digit(hex[k - zeros]));
        }
    }
}

proof fn lemma_plain_literals()
    ensures
        plain(" info ["@),
        " info ["@.len() == 7,
        plain("] GET /api/v1/object/list?offset="@),
        "] GET /api/v1/object/list?offset="@.len() == 33,
        plain(" status=200 latency="@),
        " status=200 latency="@.len() == 20,
        plain("ms trace_id="@),
        "ms trace_id="@.len() == 12,
        plain(" span_id="@),
        " span_id="@.len() == 9,
        plain(
            " caller=handler/object.go:188 msg=\"request finished successfully, cache=miss backend=primary retry=0\""@,
        ),
        " caller=handler/object.go:188 msg=\"request finished successfully, cache=miss backend=primary retry=0\""@.len()
            == 101,
{
    reveal_strlit(" info [");
    reveal_strlit("] GET /api/v1/object/list?offset=");
    reveal_strlit(" status=200 latency=");
    reveal_strlit("ms trace_id=");
    reveal_strlit(" span_id=");
    reveal_strlit(
        " caller=handler/object.go:188 msg=\"request finished successfully, cache=miss backend=primary retry=0\"",
    );
    reveal_with_fuel(plain_upto, 40);
    lemma_plain(" info ["@, 7);
    lemma_plain("] GET /api/v1/object/list?offset="@, 33);
    lemma_plain(" status=200 latency="@, 20);
    lemma_plain("ms trace_id="@, 12);
    lemma_plain(" span_id="@, 9);
    let tail =
        " caller=handler/object.go:188 msg=\"request finished successfully, cache=miss backend=primary retry=0\""@;
    assert(plain_upto(tail, 35));
    assert(plain_upto(tail, 70));
    lemma_plain(tail, 101);
}

proof fn lemma_plain_joined(a: Seq<char>, b: Seq<char>)
    requires
        plain(a),
        plain(b),
    ensures
        plain(a + b),
{
    let both = a + b;
    assert forall|k: int| 0 <= k < both.len() implies (#[trigger] both[k]) != '-' && is_ascii(
        both[k],
    ) by {
        if k < a.len() {
            assert(both[k] == a[k]);
        } else {
            assert(both[k] == b[k - a.len()]);
        }
    }
}

/// What stands behind the token holds no hyphen, and is at most 206 characters long.
proof fn lemma_body_back(i: u64)
    ensures
        plain(body_back(i)),
        body_back(i).len() <= 206,
{
    let trace = workload::mixed(i ^ 0x7AC3_7AC3_7AC3_7AC3);
    let mix = workload::mixed(i ^ 0x0123_4567_89AB_CDEF);
    let span = mix & 0xFFFF_FFFF;
    let latency = workload::mixed(i ^ 0x1111_2222_3333_4444) % 2000;
    assert(span <= 0xFFFF_FFFF) by (bit_vector)
        requires
            span == mix & 0xFFFF_FFFF,
    ;
    lemma_plain_literals();
    lemma_plain_numerals((i % 1000) as nat, 0);
    lemma_plain_numerals(latency as nat, 0);
    lemma_plain_numerals(trace as nat, 16);
    lemma_plain_numerals(span as nat, 8);
    reveal_with_fuel(text::power, 17);
    text::lemma_decimal_len((i % 1000) as nat, 3);
    text::lemma_decimal_len(latency as nat, 4);
    text::lemma_hexadecimal_len(trace as nat, 16);
    text::lemma_hexadecimal_len(span as nat, 8);
    let s1 = "] GET /api/v1/object/list?offset="@;
    let s2 = s1 + text::decimal((i % 1000) as nat);
    lemma_plain_joined(s1, text::decimal((i % 1000) as nat));
    let s3 = s2 + " status=200 latency="@;
    lemma_plain_joined(s2, " status=200 latency="@);
    let s4 = s3 + text::decimal(latency as nat);
    lemma_plain_joined(s3, text::decimal(latency as nat));
    let s5 = s4 + "ms trace_id="@;
    lemma_plain_joined(s4, "ms trace_id="@);
    let s6 = s5 + text::pad_left(text::hexadecimal(trace as nat), 16, '0');
    lemma_plain_joined(s5, text::pad_left(text::hexadecimal(trace as nat), 16, '0'));
    let s7 = s6 + " span_id="@;
    lemma_plain_joined(s6, " span_id="@);
    let s8 = s7 + text::pad_left(text::hexadecimal(span as nat), 8, '0');
    lemma_plain_joined(s7, text::pad_left(text::hexadecimal(span as nat), 8, '0'));
    let tail =
        " caller=handler/object.go:188 msg=\"request finished successfully, cache=miss backend=primary retry=0\""@;
    lemma_plain_joined(s8, tail);
    assert(body_back(i) == s8 + tail);
}

/// What stands before the token is ASCII and holds a hyphen at most at its start.
proof fn lemma_body_front(i: u64)
    ensures
        vstd::utf8::is_ascii_chars(body_front(i)),
        forall|k: int|
            0 <= k < body_front(i).len() ==> (k > 0 ==> #[trigger] body_front(i)[k] != '-')
                && is_ascii(body_front(i)[k]),
{
    lemma_plain_literals();
    let n = stamp(i);
    let magnitude = (if n < 0 {
        -n
    } else {
        n
    }) as nat;
    let digits = text::decimal(magnitude);
    lemma_plain_numerals(magnitude, 0);
    let number = text::signed_decimal(n);
    let front = body_front(i);
    assert forall|k: int| 0 <= k < front.len() implies (k > 0 ==> #[trigger] front[k] != '-')
        && is_ascii(front[k]) by {
        if k >= number.len() {
            assert(front[k] == " info ["@[k - number.len()]);
        } else if n < 0 {
            assert(front[k] == (if k == 0 {
                '-'
            } else {
                digits[k - 1]
            }));
        } else {
            assert(front[k] == digits[k]);
        }
    }
}

/// In the body of a row that hits, the token of the search stands exactly once, right
/// behind the front of the line; in any other body it stands nowhere. Upper and lower
/// case are taken as one.
pub proof fn law_token_stands_once(i: u64, hit: bool)
    ensures
        forall|p: int| #[trigger]
            stands_ignoring_case(body_text(i, hit), HIT_TOKEN_UPPER@, p) <==> hit && p
                == body_front(i).len(),
{
    let line = body_text(i, hit);
    let front = body_front(i);
    let tag = tag_text(hit);
    let at = front.len() as int;
    lemma_tokens();
    lemma_body_front(i);
    lemma_body_back(i);
    assert forall|k: int| 0 <= k < 9 implies #[trigger] line[at + k] == tag[k] by {}
    if hit {
        assert(stands_ignoring_case(line, HIT_TOKEN_UPPER@, at)) by {
            assert forall|k: int| 0 <= k < 9 implies upper(line[at + k]) == upper(
                #[trigger] HIT_TOKEN_UPPER@[k],
            ) by {
                assert(line[at + k] == tag[k]);
            }
        }
    }
    assert forall|p: int| #[trigger]
        stands_ignoring_case(line, HIT_TOKEN_UPPER@, p) implies hit && p == at by {
        let hyphen = p + 3;
        assert(upper(line[p + 3]) == upper(HIT_TOKEN_UPPER@[3]));
        assert(upper(line[p + 4]) == upper(HIT_TOKEN_UPPER@[4]));
        assert(line[hyphen] == '-');
        if hyphen < at {
            assert(line[hyphen] == front[hyphen]);
        } else if hyphen < at + 9 {
            assert(line[at + (hyphen - at)] == tag[hyphen - at]);
            assert(line[at + 4] == tag[4]);
        } else {
            assert(line[hyphen] == body_back(i)[hyphen - at - 9]);
        }
    }
}

/// The body of a row holds the token of the search exactly where the row hits,
/// whatever else stands in it.
pub proof fn law_token_marks_hits(i: u64, hit: bool)
    ensures
        contains_ignoring_case(body_text(i, hit), HIT_TOKEN_UPPER@) <==> hit,
{
    law_token_stands_once(i, hit);
    if hit {
        assert(stands_ignoring_case(
            body_text(i, hit),
            HIT_TOKEN_UPPER@,
            body_front(i).len() as int,
        ));
    }
}

/// Whether a row hits changes nothing in its body but the token: the two lines are of
/// one length, and differ only in the nine characters behind the front.
pub proof fn law_hits_change_the_token_only(i: u64, k: int)
    ensures
        body_text(i, true).len() == body_text(i, false).len(),
        tag_text(true).len() == 9,
        0 <= k < body_text(i, true).len() && !(body_front(i).len() <= k < body_front(i).len() + 9)
            ==> body_text(i, true)[k] == body_text(i, false)[k],
        ({
            let at = body_front(i).len() as int;
            body_text(i, true).subrange(at, at + 9) == HIT_TOKEN_UPPER@
        }),
{
    lemma_tokens();
    let at = body_front(i).len() as int;
    assert(body_text(i, true).subrange(at, at + 9) =~= tag_text(true));
}

// ---------------------------------------------------------------------------
// Schema and record batches
// ---------------------------------------------------------------------------

/// The fields of the dataset: the service name, which the query reads, and one body
/// column per pattern. All of them are text and none may be null.
pub open spec fn dataset_fields() -> Seq<batch::FieldShape> {
    seq![
        batch::FieldShape { name: "service_name"@, utf8: true, nullable: false },
        batch::FieldShape {
            name: workload::body_column_name(Pattern::Fragmented),
            utf8: true,
            nullable: false,
        },
        batch::FieldShape {
            name: workload::body_column_name(Pattern::Clustered),
            utf8: true,
            nullable: false,
        },
    ]
}

/// The schema of the dataset. For the same row both body columns are filled side by
/// side, so one dataset serves both patterns.
pub fn schema() -> (schema: Arc<Schema>)
    ensures
        batch::schema_fields(*schema) == dataset_fields(),
{
    let names: Vec<&'static str> = vec![
        "service_name",
        Pattern::Fragmented.body_column(),
        Pattern::Clustered.body_column(),
    ];
    let schema = utf8_schema(names, false);
    assert(batch::schema_fields(schema) =~= dataset_fields());
    Arc::new(schema)
}

/// The service names of the `n` rows from `start` on.
pub open spec fn service_column(start: u64, n: nat) -> Seq<Seq<char>> {
    Seq::new(n, |k: int| service_text((start + k) as u64))
}

/// The bodies of the `n` rows from `start` on, in the column of `pattern`.
pub open spec fn body_rows(pattern: Pattern, start: u64, n: nat) -> Seq<Seq<char>> {
    Seq::new(n, |k: int| column_text(pattern, (start + k) as u64))
}

/// The time stamps of the `n` rows from `start` on can be computed.
pub open spec fn rows_stampable(start: u64, n: nat) -> bool {
    &&& start + n <= u64::MAX
    &&& forall|k: int| 0 <= k < n ==> #[trigger] stampable((start + k) as u64)
}

/// The bytes of each column of the `n` rows from `start` on can be counted in an
/// `i32`, as a text array does.
pub open spec fn columns_fit(start: u64, n: nat) -> bool {
    &&& batch::total_bytes(service_column(start, n)) <= i32::MAX
    &&& batch::total_bytes(body_rows(Pattern::Fragmented, start, n)) <= i32::MAX
    &&& batch::total_bytes(body_rows(Pattern::Clustered, start, n)) <= i32::MAX
}

/// The columns of the record batch of the `n` rows from `start` on.
pub open spec fn dataset_columns(start: u64, n: nat) -> Seq<batch::NamedColumn> {
    seq![
        batch::NamedColumn {
            name: "service_name"@,
            values: batch::Column::Text(service_column(start, n)),
        },
        batch::NamedColumn {
            name: workload::body_column_name(Pattern::Fragmented),
            values: batch::Column::Text(body_rows(Pattern::Fragmented, start, n)),
        },
        batch::NamedColumn {
            name: workload::body_column_name(Pattern::Clustered),
            values: batch::Column::Text(body_rows(Pattern::Clustered, start, n)),
        },
    ]
}

/// The service names of the `n` rows from `start` on.
pub fn service_names(start: u64, n: usize) -> (names: Vec<String>)
    requires
        start + n <= u64::MAX,
    ensures
        text::texts(names@) == service_column(start, n as nat),
{
    let mut names: Vec<String> = Vec::new();
    let mut k: usize = 0;
    while k < n
        invariant
            start + n <= u64::MAX,
            k <= n,
            names@.len() == k,
            forall|j: int|
                0 <= j < k ==> (#[trigger] names@[j])@ == service_text((start + j) as u64),
        decreases n - k,
    {
        names.push(service_name(start + k as u64));
        k += 1;
    }
    assert(text::texts(names@) =~= service_column(start, n as nat));
    names
}

/// The bodies of the `n` rows from `start` on, in the column of `pattern`.
pub fn bodies(pattern: Pattern, start: u64, n: usize) -> (lines: Vec<String>)
    requires
        rows_stampable(start, n as nat),
    ensures
        text::texts(lines@) == body_rows(pattern, start, n as nat),
{
    let mut lines: Vec<String> = Vec::new();
    let mut k: usize = 0;
    while k < n
        invariant
            rows_stampable(start, n as nat),
            k <= n,
            lines@.len() == k,
            forall|j: int|
                0 <= j < k ==> (#[trigger] lines@[j])@ == column_text(pattern, (start + j) as u64),
        decreases n - k,
    {
        let i: u64 = start + k as u64;
        assert(stampable((start + k as int) as u64));
        lines.push(body(i, pattern.is_hit(i)));
        k += 1;
    }
    assert(text::texts(lines@) =~= body_rows(pattern, start, n as nat));
    lines
}

/// The record batch of the `n` rows from `start` on, with the [`schema`] of the dataset.
pub fn build_batch(start: u64, n: usize) -> (batch: Batch)
    requires
        rows_stampable(start, n as nat),
        n <= BATCH_ROWS || columns_fit(start, n as nat),
    ensures
        batch::batch_fields(batch) == dataset_fields(),
        batch::batch_columns(batch) == dataset_columns(start, n as nat),
{
    proof {
        if n <= BATCH_ROWS {
            law_batches_fit_text_arrays(start, n as nat);
        }
    }
    let svc = service_names(start, n);
    let body_f = bodies(Pattern::Fragmented, start, n);
    let body_c = bodies(Pattern::Clustered, start, n);
    let ghost svc_texts = text::texts(svc@);
    assert(svc_texts.len() == svc@.len());
    assert(text::texts(body_f@).len() == body_f@.len());
    assert(text::texts(body_c@).len() == body_c@.len());
    let cols: Vec<Vec<String>> = vec![svc, body_f, body_c];
    let batch = text_batch(schema(), cols);
    assert(batch::batch_columns(batch) =~= dataset_columns(start, n as nat));
    batch
}

proof fn lemma_plain_is_ascii(s: Seq<char>)
    requires
        plain(s),
    ensures
        vstd::utf8::is_ascii_chars(s),
{
}

proof fn lemma_ascii_joined(front: Seq<char>, middle: Seq<char>, back: Seq<char>)
    requires
        vstd::utf8::is_ascii_chars(front),
        vstd::utf8::is_ascii_chars(middle),
        vstd::utf8::is_ascii_chars(back),
    ensures
        vstd::utf8::is_ascii_chars(front + middle + back),
{
    vstd::utf8::is_ascii_chars_concat(front + middle, front, middle);
    vstd::utf8::is_ascii_chars_concat(front + middle + back, front + middle, back);
}

proof fn lemma_tags_are_ascii(hit: bool)
    ensures
        vstd::utf8::is_ascii_chars(tag_text(hit)),
{
    lemma_tokens();
}

proof fn lemma_body_is_ascii(i: u64, hit: bool)
    ensures
        vstd::utf8::is_ascii_chars(body_text(i, hit)),
{
    lemma_body_front(i);
    lemma_body_back(i);
    lemma_plain_is_ascii(body_back(i));
    lemma_tags_are_ascii(hit);
    lemma_ascii_joined(body_front(i), tag_text(hit), body_back(i));
}

/// A body whose time stamp fits in 64 bits is at most 242 characters long.
proof fn lemma_body_len(i: u64, hit: bool)
    requires
        stampable(i),
    ensures
        body_text(i, hit).len() <= 242,
{
    lemma_body_back(i);
    lemma_tokens();
    lemma_plain_literals();
    let n = stamp(i);
    let magnitude = (if n < 0 {
        -n
    } else {
        n
    }) as nat;
    assert(magnitude < text::power(10, 19)) by {
        reveal_with_fuel(text::power, 20);
    }
    text::lemma_decimal_len(magnitude, 19);
    assert(text::signed_decimal(n).len() <= 20);
    assert(tag_text(hit).len() == 9);
}

/// A service name is ASCII and six characters long.
proof fn lemma_service_size(i: u64)
    ensures
        vstd::utf8::is_ascii_chars(service_text(i)),
        service_text(i).len() == 6,
{
    let h = workload::mixed(i ^ 0xD1CE_5EED_C0DE_BEEF) as int % weight_total();
    let b = bucket_of(h);
    law_services_are_triangular(h, 0);
    reveal_strlit("svc-");
    reveal_with_fuel(text::power, 3);
    text::lemma_decimal(b as nat);
    text::lemma_decimal_len(b as nat, 2);
    text::lemma_padded_digits(b as nat, 2);
    let digits = text::pad_left(text::decimal(b as nat), 2, '0');
    let name = service_text(i);
    assert forall|k: int| 0 <= k < name.len() implies is_ascii(#[trigger] name[k]) by {
        if k >= 4 {
            assert(name[k] == digits[k - 4]);
            assert(text::is_digit(digits[k - 4]));
        }
    }
}

/// Short ASCII texts take up few bytes.
proof fn lemma_total_bytes(column: Seq<Seq<char>>, most: nat)
    requires
        forall|k: int|
            0 <= k < column.len() ==> vstd::utf8::is_ascii_chars(#[trigger] column[k])
                && column[k].len() <= most,
    ensures
        batch::total_bytes(column) <= most * column.len(),
    decreases column.len(),
{
    if column.len() > 0 {
        let shorter = column.drop_last();
        assert forall|k: int| 0 <= k < shorter.len() implies vstd::utf8::is_ascii_chars(
            #[trigger] shorter[k],
        ) && shorter[k].len() <= most by {
            assert(shorter[k] == column[k]);
        }
        lemma_total_bytes(shorter, most);
        let last = column.last();
        assert(last == column[column.len() - 1]);
        vstd::utf8::is_ascii_chars_encode_utf8(last);
        assert(most * column.len() == most * shorter.len() + most) by (nonlinear_arith)
            requires
                column.len() == shorter.len() + 1,
        ;
    } else {
        assert(most * column.len() == 0) by (nonlinear_arith)
            requires
                column.len() == 0,
        ;
    }
}

/// The columns of a batch of the usual size can be held in text arrays.
pub proof fn law_batches_fit_text_arrays(start: u64, n: nat)
    requires
        n <= BATCH_ROWS,
        rows_stampable(start, n),
    ensures
        columns_fit(start, n),
{
    let svc = service_column(start, n);
    assert forall|k: int| 0 <= k < svc.len() implies vstd::utf8::is_ascii_chars(#[trigger] svc[k])
        && svc[k].len() <= 242 by {
        lemma_service_size((start + k) as u64);
    }
    lemma_total_bytes(svc, 242);
    lemma_bodies_fit(Pattern::Fragmented, start, n);
    lemma_bodies_fit(Pattern::Clustered, start, n);
}

proof fn lemma_bodies_fit(pattern: Pattern, start: u64, n: nat)
    requires
        n <= BATCH_ROWS,
        rows_stampable(start, n),
    ensures
        batch::total_bytes(body_rows(pattern, start, n)) <= i32::MAX,
{
    let column = body_rows(pattern, start, n);
    assert forall|k: int| 0 <= k < column.len() implies vstd::utf8::is_ascii_chars(
        #[trigger] column[k],
    ) && column[k].len() <= 242 by {
        let i = (start + k) as u64;
        assert(stampable(i));
        lemma_body_is_ascii(i, workload::hit(pattern, i as int));
        lemma_body_len(i, workload::hit(pattern, i as int));
    }
    lemma_total_bytes(column, 242);
}

/// Whether the time stamps of the `n` rows from `start` on can be computed.
pub fn can_stamp(start: u64, n: usize) -> (can: bool)
    ensures
        can == rows_stampable(start, n as nat),
{
    if n as u64 > u64::MAX - start {
        return false;
    }
    if n == 0 {
        return true;
    }
    let last: u64 = start + (n as u64 - 1);
    let up: u64 = ((i64::MAX - TS_BASE) / 137) as u64;
    let down: u64 = 0x8000_0000_0000_0000u64 / 137;
    let can: bool = last <= up || start > u64::MAX - down;
    proof {
        assert forall|i: u64| #[trigger] stampable(i) == (i <= up || i > u64::MAX - down) by {}
        if can {
            assert forall|k: int| 0 <= k < n implies #[trigger] stampable((start + k) as u64) by {}
        } else {
            assert(stampable((start + 0) as u64) ==> start <= up);
            assert(stampable((start + (n - 1)) as u64) ==> last > u64::MAX - down);
            if start <= up && last > u64::MAX - down {
                let between = (up + 1) - start;
                assert(0 <= between < n);
                assert(!stampable((start + between) as u64));
            }
        }
    }
    can
}

/// `rows` rows from row `start` of the dataset on.
#[derive(Clone, Copy, Debug, PartialEq, Eq, Structural)]
pub struct BatchRange {
    pub start: u64,
    pub rows: usize,
}

/// The batches in which file `file_idx` is written, in order. Batch `b` holds the
/// rows of row group `b`.
pub fn batch_ranges(file_idx: usize) -> (ranges: Vec<BatchRange>)
    requires
        access_plan::file_in_range(file_idx as int),
    ensures
        ranges@.len() == access_plan::row_groups(),
        forall|b: int|
            0 <= b < ranges@.len() ==> (#[trigger] ranges@[b]).start == access_plan::file_base(
                file_idx as int,
            ) + access_plan::group_start(b) && ranges@[b].rows == access_plan::group_end(b)
                - access_plan::group_start(b),
{
    let base: u64 = (file_idx * ROWS_PER_FILE) as u64;
    let mut ranges: Vec<BatchRange> = Vec::new();
    let mut written: usize = 0;
    while written < ROWS_PER_FILE
        invariant
            base == access_plan::file_base(file_idx as int),
            base + ROWS_PER_FILE - 1 <= u64::MAX,
            written == ROWS_PER_FILE || written == access_plan::group_start(ranges@.len() as int),
            written < ROWS_PER_FILE ==> ranges@.len() < access_plan::row_groups(),
            written == ROWS_PER_FILE ==> ranges@.len() == access_plan::row_groups(),
            written <= ROWS_PER_FILE,
            forall|b: int|
                0 <= b < ranges@.len() ==> (#[trigger] ranges@[b]).start == base
                    + access_plan::group_start(b) && ranges@[b].rows == access_plan::group_end(b)
                    - access_plan::group_start(b),
        decreases ROWS_PER_FILE - written,
    {
        let left: usize = ROWS_PER_FILE - written;
        let n: usize = if BATCH_ROWS < left {
            BATCH_ROWS
        } else {
            left
        };
        proof {
            let b = ranges@.len() as int;
            access_plan::lemma_row_groups();
            assert(access_plan::group_start(b + 1) == access_plan::group_start(b) + BATCH_ROWS);
        }
        ranges.push(BatchRange { start: base + written as u64, rows: n });
        written += n;
    }
    ranges
}

// ---------------------------------------------------------------------------
// What the rows hold
// ---------------------------------------------------------------------------

/// The number that `s` writes, with a minus sign in front where it is negative.
pub open spec fn written_number(s: Seq<char>) -> int {
    if s.len() > 0 && s[0] == '-' {
        -(text::digits_value(s.skip(1)) as int)
    } else {
        text::digits_value(s) as int
    }
}

proof fn lemma_written_number(n: int)
    ensures
        written_number(text::signed_decimal(n)) == n,
        text::signed_decimal(n).len() > 0,
        forall|k: int|
            0 <= k < text::signed_decimal(n).len() ==> #[trigger] text::signed_decimal(n)[k] != ' ',
{
    let magnitude = (if n < 0 {
        -n
    } else {
        n
    }) as nat;
    let digits = text::decimal(magnitude);
    let s = text::signed_decimal(n);
    text::lemma_decimal(magnitude);
    assert(text::is_digit(digits[0]));
    if n < 0 {
        assert(s.skip(1) =~= digits);
    }
    assert forall|k: int| 0 <= k < s.len() implies #[trigger] s[k] != ' ' by {
        if n < 0 && k > 0 {
            assert(s[k] == digits[k - 1]);
            assert(text::is_digit(digits[k - 1]));
        } else if n >= 0 {
            assert(text::is_digit(digits[k]));
        }
    }
}

/// The body of a row begins with its time stamp, up to the first blank, and the number
/// there is that of row 0 and 137 for each row. Row numbers from 2^63 on count
/// downwards from row 0.
pub proof fn law_bodies_begin_with_the_stamp(i: u64, hit: bool) -> (n: int)
    ensures
        0 < n < body_text(i, hit).len(),
        body_text(i, hit)[n] == ' ',
        forall|k: int| 0 <= k < n ==> #[trigger] body_text(i, hit)[k] != ' ',
        written_number(body_text(i, hit).take(n)) == 1_760_000_000_000_000 + 137 * (if i
            < 0x8000_0000_0000_0000 {
            i as int
        } else {
            i - 0x1_0000_0000_0000_0000
        }),
{
    let number = text::signed_decimal(stamp(i));
    let line = body_text(i, hit);
    let n = number.len() as int;
    lemma_written_number(stamp(i));
    lemma_plain_literals();
    reveal_strlit(" info [");
    assert(line.take(n) =~= number);
    assert(line[n] == " info ["@[0]);
    assert forall|k: int| 0 <= k < n implies #[trigger] line[k] != ' ' by {
        assert(line[k] == number[k]);
    }
    n
}

/// From one row to the next the time stamp grows by 137, whether the rows hit or not;
/// the time stamp of row 0 is [`TS_BASE`].
pub proof fn law_stamps_are_137_apart(i: u64, hit: bool, next_hit: bool) -> (ends: (int, int))
    requires
        i < u64::MAX,
        stampable(i),
        stampable((i + 1) as u64),
    ensures
        ({
            let line = body_text(i, hit);
            let next = body_text((i + 1) as u64, next_hit);
            let (n, m) = ends;
            &&& 0 < n < line.len() && line[n] == ' '
            &&& 0 < m < next.len() && next[m] == ' '
            &&& forall|k: int| 0 <= k < n ==> #[trigger] line[k] != ' '
            &&& forall|k: int| 0 <= k < m ==> #[trigger] next[k] != ' '
            &&& written_number(next.take(m)) == written_number(line.take(n)) + 137
            &&& i == 0 ==> written_number(line.take(n)) == TS_BASE
        }),
{
    let n = law_bodies_begin_with_the_stamp(i, hit);
    let m = law_bodies_begin_with_the_stamp((i + 1) as u64, next_hit);
    (n, m)
}

/// A time stamp can be computed exactly where the product and the sum fit in 64 bits;
/// so can those of the first 67 million billion rows.
pub proof fn law_stamps_that_fit(i: u64, start: u64, n: nat)
    ensures
        rows_stampable(start, n) <==> start + n <= u64::MAX && forall|k: int|
            0 <= k < n ==> #[trigger] stampable((start + k) as u64),
        ({
            let v = if i < 0x8000_0000_0000_0000 {
                i as int
            } else {
                i - 0x1_0000_0000_0000_0000
            };
            stampable(i) <==> -0x8000_0000_0000_0000 <= v * 137 && 1_760_000_000_000_000 + v * 137
                < 0x8000_0000_0000_0000
        }),
        i <= 67_000_000_000_000_000 ==> stampable(i),
{
}

/// The fields of a body behind its stamp: the token, the row number modulo 1000, and
/// latency, trace and span, each drawn from a hash of the row number.
pub proof fn law_bodies_hold_their_fields(i: u64, hit: bool)
    ensures
        ({
            let latency = workload::mixed(i ^ 0x1111_2222_3333_4444) as int % 2000;
            let trace = workload::mixed(i ^ 0x7AC3_7AC3_7AC3_7AC3);
            let span = workload::mixed(i ^ 0x0123_4567_89AB_CDEF) as int % 0x1_0000_0000;
            let at = text::signed_decimal(stamp(i)).len() as int;
            body_text(i, hit).skip(at) == " info ["@ + (if hit {
                "SVC-C3500"@
            } else {
                "SVC-OTHER"@
            }) + "] GET /api/v1/object/list?offset="@ + text::decimal((i as int % 1000) as nat)
                + " status=200 latency="@ + text::decimal(latency as nat) + "ms trace_id="@
                + text::pad_left(text::hexadecimal(trace as nat), 16, '0') + " span_id="@
                + text::pad_left(text::hexadecimal(span as nat), 8, '0')
                + " caller=handler/object.go:188 msg=\"request finished successfully, cache=miss backend=primary retry=0\""@
        }),
{
    let mix = workload::mixed(i ^ 0x0123_4567_89AB_CDEF);
    assert(mix & 0xFFFF_FFFF == mix % 0x1_0000_0000) by (bit_vector);
    let number = text::signed_decimal(stamp(i));
    let at = number.len() as int;
    reveal_strlit("SVC-C3500");
    reveal_strlit("SVC-OTHER");
    lemma_tokens();
    assert("SVC-C3500"@ =~= tag_text(true));
    assert("SVC-OTHER"@ =~= tag_text(false));
    let line = body_text(i, hit);
    assert(line =~= number + (" info ["@ + tag_text(hit) + body_back(i)));
    assert(line.skip(at) =~= " info ["@ + tag_text(hit) + body_back(i));
    lemma_back_joins(" info ["@ + tag_text(hit), i);
}

/// What stands behind the token, piece by piece.
proof fn lemma_back_joins(front: Seq<char>, i: u64)
    ensures
        ({
            let trace = workload::mixed(i ^ 0x7AC3_7AC3_7AC3_7AC3);
            let span = workload::mixed(i ^ 0x0123_4567_89AB_CDEF) & 0xFFFF_FFFF;
            let latency = workload::mixed(i ^ 0x1111_2222_3333_4444) % 2000;
            front + body_back(i) == front + "] GET /api/v1/object/list?offset="@ + text::decimal(
                (i % 1000) as nat,
            ) + " status=200 latency="@ + text::decimal(latency as nat) + "ms trace_id="@
                + text::pad_left(text::hexadecimal(trace as nat), 16, '0') + " span_id="@
                + text::pad_left(text::hexadecimal(span as nat), 8, '0')
                + " caller=handler/object.go:188 msg=\"request finished successfully, cache=miss backend=primary retry=0\""@
        }),
{
    let trace = workload::mixed(i ^ 0x7AC3_7AC3_7AC3_7AC3);
    let span = workload::mixed(i ^ 0x0123_4567_89AB_CDEF) & 0xFFFF_FFFF;
    let latency = workload::mixed(i ^ 0x1111_2222_3333_4444) % 2000;
    let p1 = "] GET /api/v1/object/list?offset="@;
    let p2 = text::decimal((i % 1000) as nat);
    let p3 = " status=200 latency="@;
    let p4 = text::decimal(latency as nat);
    let p5 = "ms trace_id="@;
    let p6 = text::pad_left(text::hexadecimal(trace as nat), 16, '0');
    let p7 = " span_id="@;
    let p8 = text::pad_left(text::hexadecimal(span as nat), 8, '0');
    let p9 =
        " caller=handler/object.go:188 msg=\"request finished successfully, cache=miss backend=primary retry=0\""@;
    lemma_joins(front, p1, p2);
    lemma_joins(front, p1 + p2, p3);
    lemma_joins(front, p1 + p2 + p3, p4);
    lemma_joins(front, p1 + p2 + p3 + p4, p5);
    lemma_joins(front, p1 + p2 + p3 + p4 + p5, p6);
    lemma_joins(front, p1 + p2 + p3 + p4 + p5 + p6, p7);
    lemma_joins(front, p1 + p2 + p3 + p4 + p5 + p6 + p7, p8);
    lemma_joins(front, p1 + p2 + p3 + p4 + p5 + p6 + p7 + p8, p9);
}

proof fn lemma_joins(a: Seq<char>, b: Seq<char>, c: Seq<char>)
    ensures
        a + (b + c) == a + b + c,
{
    assert(a + (b + c) =~= a + b + c);
}

/// The weights before a bucket add up to half of `b * (101 - b)`.
pub proof fn lemma_weights_closed(b: int)
    requires
        0 <= b <= 50,
    ensures
        2 * weight_before(b) == b * (101 - b),
    decreases b,
{
    if b > 0 {
        lemma_weights_closed(b - 1);
        assert(b * (101 - b) == (b - 1) * (101 - (b - 1)) + 2 * (51 - b)) by (nonlinear_arith);
    } else {
        assert(b * (101 - b) == 0) by (nonlinear_arith)
            requires
                b == 0,
        ;
    }
}

/// The service name of a row is `svc-` and two digits, and they write bucket `b` exactly
/// where the hash of the row falls into the stretch of that bucket: the stretches begin
/// at `b * (101 - b) / 2` and are `50 - b` long, out of 1275 values.
pub proof fn law_services_follow_the_hash(i: u64, b: int)
    requires
        0 <= b < 50,
    ensures
        ({
            let h = workload::mixed(i ^ 0xD1CE_5EED_C0DE_BEEF) as int % 1275;
            let name = service_text(i);
            &&& name.len() == 6
            &&& name.take(4) == "svc-"@
            &&& 48 <= name[4] as int <= 57
            &&& 48 <= name[5] as int <= 57
            &&& 10 * (name[4] as int - 48) + (name[5] as int - 48) < 50
            &&& 10 * (name[4] as int - 48) + (name[5] as int - 48) == b <==> b * (101 - b) <= 2 * h
                < (b + 1) * (100 - b)
        }),
{
    let h = workload::mixed(i ^ 0xD1CE_5EED_C0DE_BEEF) as int % 1275;
    let name = service_text(i);
    assert(weight_total() == 1275);
    law_services_are_triangular(h, b);
    lemma_weights_closed(b);
    lemma_weights_closed(b + 1);
    let own = bucket_of(h);
    lemma_service_size(i);
    reveal_strlit("svc-");
    text::lemma_padded_digits(own as nat, 2);
    let digits = text::pad_left(text::decimal(own as nat), 2, '0');
    assert(name.take(4) =~= "svc-"@);
    assert(name[4] == digits[0] && name[5] == digits[1]);
    assert(text::is_digit(digits[0]) && text::is_digit(digits[1]));
    reveal_with_fuel(text::digits_value, 3);
    assert(digits.drop_last().drop_last() =~= Seq::<char>::empty());
    assert(digits.drop_last().last() == digits[0]);
    assert(text::digits_value(digits) == 10 * (digits[0] as int - 48) + (digits[1] as int - 48));
}

/// How many of the `n` rows from `start` on are counted.
pub open spec fn count_rows(start: u64, n: nat, counted: spec_fn(u64) -> bool) -> nat
    decreases n,
{
    if n == 0 {
        0
    } else {
        count_rows(start, (n - 1) as nat, counted) + (if counted((start + n - 1) as u64) {
            1nat
        } else {
            0nat
        })
    }
}

/// Among neighbouring rows a service is named as often as their hashes fall into its
/// stretch.
pub proof fn law_services_are_as_common_as_their_hashes(start: u64, n: nat, b: int)
    requires
        0 <= b < 50,
    ensures
        count_rows(
            start,
            n,
            |i: u64|
                10 * (service_text(i)[4] as int - 48) + (service_text(i)[5] as int - 48) == b,
        ) == count_rows(
            start,
            n,
            |i: u64|
                b * (101 - b) <= 2 * (workload::mixed(i ^ 0xD1CE_5EED_C0DE_BEEF) as int % 1275) < (b
                    + 1) * (100 - b),
        ),
    decreases n,
{
    if n > 0 {
        law_services_are_as_common_as_their_hashes(start, (n - 1) as nat, b);
        law_services_follow_the_hash((start + n - 1) as u64, b);
    }
}

/// A batch holds its rows in order: row `k` of each column is that of row `start + k` of
/// the dataset, with the service name first and then one body per pattern.
pub proof fn law_batches_hold_the_rows_in_order(start: u64, n: nat, k: int)
    requires
        start + n <= u64::MAX,
        0 <= k < n,
    ensures
        ({
            let i = (start + k) as u64;
            let columns = dataset_columns(start, n);
            &&& columns.len() == 3
            &&& columns[0].name == "service_name"@
            &&& columns[1].name == "body_fragmented"@
            &&& columns[2].name == "body_clustered"@
            &&& columns[0].values matches batch::Column::Text(services)
            &&& columns[1].values matches batch::Column::Text(fragmented)
            &&& columns[2].values matches batch::Column::Text(clustered)
            &&& services.len() == n && fragmented.len() == n && clustered.len() == n
            &&& services[k] == service_text(i)
            &&& fragmented[k] == body_text(i, i % 3 == 0)
            &&& clustered[k] == body_text(i, workload::hit(Pattern::Clustered, i as int))
        }),
{
}

/// A hash value falls into the bucket of its stretch, and into no other.
pub proof fn law_buckets_are_stretches(h: int, b: int)
    requires
        0 <= h < 1275,
        0 <= b < 50,
    ensures
        bucket_of(h) == b <==> b * (101 - b) <= 2 * h < (b + 1) * (100 - b),
{
    law_services_are_triangular(h, b);
    lemma_weights_closed(b);
    lemma_weights_closed(b + 1);
}

} // verus!
