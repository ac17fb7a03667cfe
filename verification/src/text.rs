//! Text building and parsing: numerals, padding, comparison, trimming.

use vstd::arithmetic::div_mod::*;
use vstd::arithmetic::power::*;
use vstd::prelude::*;
use vstd::string::*;

verus! {

/// `String::push` appends one character, as its documentation says.
pub assume_specification[ String::push ](s: &mut String, ch: char)
    ensures
        final(s)@ == old(s)@.push(ch),
;

/// The character for digit `d`, below ten a decimal digit, then `a` to `f`.
pub open spec fn digit_char(d: int) -> char {
    if d < 10 {
        ('0' as int + d) as char
    } else {
        ('a' as int + d - 10) as char
    }
}

/// `n` in decimal, without leading zeros.
pub open spec fn decimal(n: nat) -> Seq<char>
    decreases n,
{
    if n < 10 {
        seq![digit_char(n as int)]
    } else {
        decimal(n / 10).push(digit_char((n % 10) as int))
    }
}

/// `n` in lower case hexadecimal, without leading zeros.
pub open spec fn hexadecimal(n: nat) -> Seq<char>
    decreases n,
{
    if n < 16 {
        seq![digit_char(n as int)]
    } else {
        hexadecimal(n / 16).push(digit_char((n % 16) as int))
    }
}

/// `n` in decimal with a leading minus sign where it is negative.
pub open spec fn signed_decimal(n: int) -> Seq<char> {
    if n < 0 {
        seq!['-'] + decimal((-n) as nat)
    } else {
        decimal(n as nat)
    }
}

/// Each string as its characters.
pub open spec fn texts(strings: Seq<String>) -> Seq<Seq<char>> {
    Seq::new(strings.len(), |k: int| strings[k]@)
}

/// `count` times the character `c`.
pub open spec fn repeated(c: char, count: int) -> Seq<char> {
    Seq::new(if count > 0 { count as nat } else { 0 }, |k: int| c)
}

/// `text` right-aligned in `width` columns, filled up with `fill`.
pub open spec fn pad_left(text: Seq<char>, width: int, fill: char) -> Seq<char> {
    repeated(fill, width - text.len()) + text
}

/// `text` left-aligned in `width` columns, filled up with `fill`.
pub open spec fn pad_right(text: Seq<char>, width: int, fill: char) -> Seq<char> {
    text + repeated(fill, width - text.len())
}

fn digit(d: u8) -> (c: char)
    requires
        d < 16,
    ensures
        c == digit_char(d as int),
{
    if d < 10 {
        (48 + d) as char
    } else {
        (97 + (d - 10)) as char
    }
}

/// Appends `n` in decimal.
pub fn push_decimal(out: &mut String, n: u64)
    ensures
        final(out)@ == old(out)@ + decimal(n as nat),
    decreases n,
{
    if n >= 10 {
        push_decimal(out, n / 10);
    }
    out.push(digit((n % 10) as u8));
    assert(final(out)@ =~= old(out)@ + decimal(n as nat));
}

/// Appends `n` in lower case hexadecimal.
pub fn push_hexadecimal(out: &mut String, n: u64)
    ensures
        final(out)@ == old(out)@ + hexadecimal(n as nat),
    decreases n,
{
    if n >= 16 {
        push_hexadecimal(out, n / 16);
    }
    out.push(digit((n % 16) as u8));
    assert(final(out)@ =~= old(out)@ + hexadecimal(n as nat));
}

/// Appends `n` in decimal, with its sign where it is negative.
pub fn push_signed(out: &mut String, n: i64)
    ensures
        final(out)@ == old(out)@ + signed_decimal(n as int),
{
    if n < 0 {
        out.push('-');
        let magnitude: u64 = (-(n as i128)) as u64;
        push_decimal(out, magnitude);
        assert(final(out)@ =~= old(out)@ + (seq!['-'] + decimal((-n) as nat)));
    } else {
        push_decimal(out, n as u64);
    }
}

/// Appends `count` times the character `c`.
pub fn push_repeated(out: &mut String, c: char, count: usize)
    ensures
        final(out)@ == old(out)@ + repeated(c, count as int),
{
    let mut done: usize = 0;
    assert(out@ =~= old(out)@ + repeated(c, 0));
    while done < count
        invariant
            done <= count,
            out@ == old(out)@ + repeated(c, done as int),
        decreases count - done,
    {
        out.push(c);
        done += 1;
        assert(out@ =~= old(out)@ + repeated(c, done as int));
    }
}

/// Appends `text` right-aligned in `width` columns.
pub fn push_pad_left(out: &mut String, text: &str, width: usize, fill: char)
    ensures
        final(out)@ == old(out)@ + pad_left(text@, width as int, fill),
{
    let len: usize = text.unicode_len();
    if len < width {
        push_repeated(out, fill, width - len);
    }
    out.append(text);
    assert(final(out)@ =~= old(out)@ + pad_left(text@, width as int, fill));
}

/// Appends `text` left-aligned in `width` columns.
pub fn push_pad_right(out: &mut String, text: &str, width: usize, fill: char)
    ensures
        final(out)@ == old(out)@ + pad_right(text@, width as int, fill),
{
    let len: usize = text.unicode_len();
    out.append(text);
    if len < width {
        push_repeated(out, fill, width - len);
    }
    assert(final(out)@ =~= old(out)@ + pad_right(text@, width as int, fill));
}

/// `n` in decimal, as text of its own.
pub fn decimal_text(n: u64) -> (text: String)
    ensures
        text@ == decimal(n as nat),
{
    let mut text = String::new();
    push_decimal(&mut text, n);
    assert(text@ =~= decimal(n as nat));
    text
}

/// The characters of `text`.
pub fn chars_of(text: &str) -> (chars: Vec<char>)
    ensures
        chars@ == text@,
{
    let mut chars: Vec<char> = Vec::new();
    for c in it: text.chars()
        invariant
            it.seq() == text@,
            chars@ == text@.take(it.index() as int),
    {
        chars.push(c);
        assert(chars@ =~= text@.take(it.index() + 1));
    }
    assert(text@.take(text@.len() as int) =~= text@);
    chars
}

/// Whether `a` and `b` hold the same characters.
pub fn same_text(a: &str, b: &str) -> (same: bool)
    ensures
        same == (a@ == b@),
{
    let left = chars_of(a);
    let right = chars_of(b);
    if left.len() != right.len() {
        return false;
    }
    let mut k: usize = 0;
    while k < left.len()
        invariant
            left@ == a@,
            right@ == b@,
            left@.len() == right@.len(),
            k <= left@.len(),
            forall|j: int| 0 <= j < k ==> a@[j] == b@[j],
        decreases left@.len() - k,
    {
        if left[k] != right[k] {
            assert(a@[k as int] != b@[k as int]);
            return false;
        }
        k += 1;
    }
    assert(a@ =~= b@);
    true
}

/// `c` is one of `0` to `9`.
pub open spec fn is_digit(c: char) -> bool {
    '0' <= c <= '9'
}

/// Every character of `s` is a decimal digit.
pub open spec fn all_digits(s: Seq<char>) -> bool {
    forall|k: int| 0 <= k < s.len() ==> is_digit(#[trigger] s[k])
}

/// The number that the digits `s` write in decimal.
pub open spec fn digits_value(s: Seq<char>) -> nat
    decreases s.len(),
{
    if s.len() == 0 {
        0
    } else {
        10 * digits_value(s.drop_last()) + (s.last() as int - '0' as int) as nat
    }
}

/// The `usize` that `s` writes: an optional plus sign and then digits only, at
/// least one, whose value fits.
pub open spec fn number(s: Seq<char>) -> Option<usize> {
    let digits = if s.len() > 0 && s[0] == '+' {
        s.skip(1)
    } else {
        s
    };
    if digits.len() > 0 && all_digits(digits) && digits_value(digits) <= usize::MAX {
        Some(digits_value(digits) as usize)
    } else {
        None
    }
}

/// What follows the last `c` in `s`; all of `s` where there is none.
pub open spec fn after_last(s: Seq<char>, c: char) -> Seq<char>
    decreases s.len(),
{
    if s.len() == 0 || s.last() == c {
        Seq::empty()
    } else {
        after_last(s.drop_last(), c).push(s.last())
    }
}

/// `s` without any number of copies of `prefix` at its front.
pub open spec fn trim_front(s: Seq<char>, prefix: Seq<char>) -> Seq<char>
    decreases s.len(),
{
    if 0 < prefix.len() <= s.len() && s.take(prefix.len() as int) == prefix {
        trim_front(s.skip(prefix.len() as int), prefix)
    } else {
        s
    }
}

/// `s` without any number of copies of `suffix` at its end.
pub open spec fn trim_back(s: Seq<char>, suffix: Seq<char>) -> Seq<char>
    decreases s.len(),
{
    if 0 < suffix.len() <= s.len() && s.skip(s.len() - suffix.len()) == suffix {
        trim_back(s.take(s.len() - suffix.len()), suffix)
    } else {
        s
    }
}

/// Decimal notation consists of digits, and they write the number itself.
pub proof fn lemma_decimal(n: nat)
    ensures
        decimal(n).len() > 0,
        all_digits(decimal(n)),
        digits_value(decimal(n)) == n,
    decreases n,
{
    if n < 10 {
        assert(decimal(n).drop_last() =~= Seq::<char>::empty());
        assert(digits_value(decimal(n).drop_last()) == 0);
    } else {
        lemma_decimal(n / 10);
        let shorter = decimal(n / 10);
        assert(decimal(n).drop_last() =~= shorter);
        assert forall|k: int| 0 <= k < decimal(n).len() implies is_digit(
            #[trigger] decimal(n)[k],
        ) by {
            if k < shorter.len() {
                assert(decimal(n)[k] == shorter[k]);
            }
        }
    }
}

/// `c` is a lower case hexadecimal digit.
pub open spec fn is_hex_digit(c: char) -> bool {
    is_digit(c) || 'a' <= c <= 'f'
}

/// Hexadecimal notation consists of hexadecimal digits.
pub proof fn lemma_hexadecimal(n: nat)
    ensures
        hexadecimal(n).len() > 0,
        forall|k: int| 0 <= k < hexadecimal(n).len() ==> is_hex_digit(#[trigger] hexadecimal(n)[k]),
    decreases n,
{
    if n >= 16 {
        lemma_hexadecimal(n / 16);
        let shorter = hexadecimal(n / 16);
        assert forall|k: int| 0 <= k < hexadecimal(n).len() implies is_hex_digit(
            #[trigger] hexadecimal(n)[k],
        ) by {
            if k < shorter.len() {
                assert(hexadecimal(n)[k] == shorter[k]);
            }
        }
    }
}

/// `base` to the power of `k`.
pub open spec fn power(base: int, k: nat) -> int
    decreases k,
{
    if k == 0 {
        1
    } else {
        base * power(base, (k - 1) as nat)
    }
}

/// A number below ten to the power of `k` has at most `k` decimal digits.
pub proof fn lemma_decimal_len(n: nat, k: nat)
    requires
        k > 0,
        n < power(10, k),
    ensures
        decimal(n).len() <= k,
    decreases k,
{
    if n >= 10 {
        if k == 1 {
            assert(power(10, 0) == 1);
        } else {
            lemma_decimal_len(n / 10, (k - 1) as nat);
        }
    }
}

/// A number below sixteen to the power of `k` has at most `k` hexadecimal digits.
pub proof fn lemma_hexadecimal_len(n: nat, k: nat)
    requires
        k > 0,
        n < power(16, k),
    ensures
        hexadecimal(n).len() <= k,
    decreases k,
{
    if n >= 16 {
        if k == 1 {
            assert(power(16, 0) == 1);
        } else {
            lemma_hexadecimal_len(n / 16, (k - 1) as nat);
        }
    }
}

/// Zeros in front of digits do not change the number that they write.
proof fn lemma_leading_zeros(zeros: int, s: Seq<char>)
    requires
        all_digits(s),
    ensures
        all_digits(repeated('0', zeros) + s),
        digits_value(repeated('0', zeros) + s) == digits_value(s),
    decreases s.len(), zeros,
{
    let whole = repeated('0', zeros) + s;
    if s.len() == 0 {
        if zeros > 0 {
            lemma_leading_zeros(zeros - 1, s);
            assert(whole.drop_last() =~= repeated('0', zeros - 1) + s);
        } else {
            assert(whole =~= s);
        }
    } else {
        lemma_leading_zeros(zeros, s.drop_last());
        assert(whole.drop_last() =~= repeated('0', zeros) + s.drop_last());
        assert(whole.last() == s.last());
    }
}

/// A number in at least `width` digits consists of digits and reads back as itself.
pub proof fn lemma_padded_digits(n: nat, width: int)
    ensures
        pad_left(decimal(n), width, '0').len() > 0,
        all_digits(pad_left(decimal(n), width, '0')),
        digits_value(pad_left(decimal(n), width, '0')) == n,
        n <= usize::MAX ==> number(pad_left(decimal(n), width, '0')) == Some(n as usize),
{
    lemma_decimal(n);
    lemma_leading_zeros(width - decimal(n).len(), decimal(n));
    let padded = pad_left(decimal(n), width, '0');
    assert(is_digit(padded[0]));
}

/// What follows the last `c` is what stands behind a `c` and holds none.
pub proof fn lemma_after_last(front: Seq<char>, back: Seq<char>, c: char)
    requires
        front.len() == 0 || front.last() == c,
        forall|k: int| 0 <= k < back.len() ==> #[trigger] back[k] != c,
    ensures
        after_last(front + back, c) == back,
    decreases back.len(),
{
    if back.len() > 0 {
        let shorter = back.drop_last();
        lemma_after_last(front, shorter, c);
        assert((front + back).drop_last() =~= front + shorter);
        assert((front + back).last() == back.last());
        assert(shorter.push(back.last()) =~= back);
    } else {
        assert(front + back =~= front);
    }
}

/// A longer row of digits writes at least as large a number.
proof fn lemma_value_grows(s: Seq<char>, k: int)
    requires
        0 <= k <= s.len(),
    ensures
        digits_value(s.take(k)) <= digits_value(s),
    decreases s.len(),
{
    if k < s.len() {
        lemma_value_grows(s.drop_last(), k);
        assert(s.drop_last().take(k) =~= s.take(k));
    } else {
        assert(s.take(k) =~= s);
    }
}

/// Parses a `usize` as [`number`] reads it.
pub fn parse_number(chars: &[char]) -> (parsed: Option<usize>)
    ensures
        parsed == number(chars@),
{
    let mut k: usize = 0;
    if chars.len() > 0 && chars[0] == '+' {
        k = 1;
    }
    let ghost start = k as int;
    let ghost digits = chars@.skip(start);
    assert(start == 0 ==> digits =~= chars@);
    if k == chars.len() {
        return None;
    }
    let mut value: usize = 0;
    while k < chars.len()
        invariant
            0 <= start <= k <= chars@.len(),
            digits == chars@.skip(start),
            start == (if chars@[0] == '+' { 1int } else { 0int }),
            start == 0 ==> digits == chars@,
            all_digits(digits.take(k - start)),
            value == digits_value(digits.take(k - start)),
        decreases chars@.len() - k,
    {
        let c = chars[k];
        let ghost at = k - start;
        assert(digits[at] == c);
        if !('0' <= c && c <= '9') {
            return None;
        }
        let d = (c as u32 - 48) as usize;
        proof {
            let longer = digits.take(at + 1);
            assert(longer.drop_last() =~= digits.take(at));
            assert(longer.last() == c);
            lemma_value_grows(digits, at + 1);
            assert(digits_value(longer) == 10 * value + d);
        }
        if value > (usize::MAX - d) / 10 {
            return None;
        }
        value = value * 10 + d;
        k += 1;
        proof {
            assert forall|j: int| 0 <= j < at + 1 implies is_digit(
                #[trigger] digits.take(at + 1)[j],
            ) by {
                if j < at {
                    assert(digits.take(at + 1)[j] == digits.take(at)[j]);
                }
            }
        }
    }
    assert(digits.take(k - start) =~= digits);
    Some(value)
}

/// Where what follows the last `c` in `chars` begins.
pub fn after_last_index(chars: &[char], c: char) -> (at: usize)
    ensures
        at <= chars@.len(),
        chars@.skip(at as int) == after_last(chars@, c),
{
    let mut at: usize = 0;
    let mut k: usize = 0;
    while k < chars.len()
        invariant
            at <= k <= chars@.len(),
            chars@.take(k as int).skip(at as int) == after_last(chars@.take(k as int), c),
        decreases chars@.len() - k,
    {
        let ghost longer = chars@.take(k + 1);
        assert(longer.drop_last() =~= chars@.take(k as int));
        assert(longer.last() == chars@[k as int]);
        if chars[k] == c {
            at = k + 1;
            assert(longer.skip(at as int) =~= Seq::<char>::empty());
        } else {
            assert(longer.skip(at as int) =~= chars@.take(k as int).skip(at as int).push(
                chars@[k as int],
            ));
        }
        k += 1;
    }
    assert(chars@.take(k as int) =~= chars@);
    at
}

/// Whether `part` stands in `chars` from `at` on.
fn stands_at(chars: &[char], at: usize, part: &[char]) -> (found: bool)
    requires
        at + part@.len() <= chars@.len(),
    ensures
        found == (chars@.subrange(at as int, at + part@.len()) == part@),
{
    let ghost there = chars@.subrange(at as int, at + part@.len());
    let len: usize = chars.len();
    let mut k: usize = 0;
    while k < part.len()
        invariant
            at + part@.len() <= len == chars@.len(),
            there == chars@.subrange(at as int, at + part@.len()),
            k <= part@.len(),
            forall|j: int| 0 <= j < k ==> there[j] == part@[j],
        decreases part@.len() - k,
    {
        if chars[at + k] != part[k] {
            assert(there[k as int] != part@[k as int]);
            return false;
        }
        k += 1;
    }
    assert(there =~= part@);
    true
}

/// Where `chars` begins once every copy of `prefix` at its front is left out.
pub fn trim_front_index(chars: &[char], prefix: &[char]) -> (at: usize)
    ensures
        at <= chars@.len(),
        chars@.skip(at as int) == trim_front(chars@, prefix@),
{
    let mut at: usize = 0;
    assert(chars@.skip(0) =~= chars@);
    while prefix.len() > 0 && prefix.len() <= chars.len() - at && stands_at(chars, at, prefix)
        invariant
            at <= chars@.len(),
            trim_front(chars@.skip(at as int), prefix@) == trim_front(chars@, prefix@),
        decreases chars@.len() - at,
    {
        proof {
            let rest = chars@.skip(at as int);
            let n = prefix@.len() as int;
            assert(rest.take(n) =~= chars@.subrange(at as int, at + n));
            assert(rest.skip(n) =~= chars@.skip(at + n));
        }
        at += prefix.len();
    }
    proof {
        let rest = chars@.skip(at as int);
        let n = prefix@.len() as int;
        if 0 < n <= rest.len() {
            assert(rest.take(n) =~= chars@.subrange(at as int, at + n));
        }
    }
    at
}

/// Where `chars` ends once every copy of `suffix` at its end is left out.
pub fn trim_back_index(chars: &[char], suffix: &[char]) -> (end: usize)
    ensures
        end <= chars@.len(),
        chars@.take(end as int) == trim_back(chars@, suffix@),
{
    let mut end: usize = chars.len();
    assert(chars@.take(end as int) =~= chars@);
    while suffix.len() > 0 && suffix.len() <= end && stands_at(chars, end - suffix.len(), suffix)
        invariant
            end <= chars@.len(),
            trim_back(chars@.take(end as int), suffix@) == trim_back(chars@, suffix@),
        decreases end,
    {
        proof {
            let rest = chars@.take(end as int);
            let n = suffix@.len() as int;
            assert(rest.skip(end - n) =~= chars@.subrange(end - n, end as int));
            assert(rest.take(end - n) =~= chars@.take(end - n));
        }
        end -= suffix.len();
    }
    proof {
        let rest = chars@.take(end as int);
        let n = suffix@.len() as int;
        if 0 < n <= rest.len() {
            assert(rest.skip(end - n) =~= chars@.subrange(end - n, end as int));
        }
    }
    end
}

// ---------------------------------------------------------------------------
// Laws
// ---------------------------------------------------------------------------

/// Decimal notation, digit by digit: the digit with `j` digits behind it is the number
/// divided by the `j`th power of ten, modulo ten. There is no leading zero but for 0.
pub proof fn law_decimal_digits(n: nat)
    ensures
        decimal(n).len() > 0,
        n < pow(10, decimal(n).len()),
        n > 0 ==> pow(10, (decimal(n).len() - 1) as nat) <= n,
        n == 0 ==> decimal(n).len() == 1,
        forall|k: int|
            0 <= k < decimal(n).len() ==> (#[trigger] decimal(n)[k]) as int == 48 + (n as int / pow(
                10,
                (decimal(n).len() - 1 - k) as nat,
            )) % 10,
    decreases n,
{
    reveal(pow);
    let all = decimal(n);
    if n < 10 {
        assert(pow(10, 0) == 1);
        assert(pow(10, 1) == 10 * pow(10, 0));
        assert(all[0] as int == 48 + n);
        assert((n as int / 1) % 10 == n);
    } else {
        let m = n / 10;
        law_decimal_digits(m);
        let len = decimal(m).len();
        assert(all == decimal(m).push(digit_char((n % 10) as int)));
        assert(pow(10, len + 1) == 10 * pow(10, len));
        assert(pow(10, len) == 10 * pow(10, (len - 1) as nat));
        assert forall|k: int| 0 <= k < all.len() implies (#[trigger] all[k]) as int == 48 + (
        n as int / pow(10, (all.len() - 1 - k) as nat)) % 10 by {
            if k < len {
                let e = (len - 1 - k) as nat;
                assert(all[k] == decimal(m)[k]);
                assert(pow(10, e + 1) == 10 * pow(10, e));
                lemma_pow_positive(10, e);
                lemma_div_denominator(n as int, 10, pow(10, e));
            } else {
                assert(pow(10, 0) == 1);
            }
        }
    }
}

/// Hexadecimal notation, digit by digit, as in [`law_decimal_digits`]; the digits above
/// nine are `a` to `f`.
pub proof fn law_hexadecimal_digits(n: nat)
    ensures
        hexadecimal(n).len() > 0,
        n < pow(16, hexadecimal(n).len()),
        n > 0 ==> pow(16, (hexadecimal(n).len() - 1) as nat) <= n,
        n == 0 ==> hexadecimal(n).len() == 1,
        forall|k: int|
            0 <= k < hexadecimal(n).len() ==> ({
                let d = (n as int / pow(16, (hexadecimal(n).len() - 1 - k) as nat)) % 16;
                (#[trigger] hexadecimal(n)[k]) as int == (if d < 10 {
                    48 + d
                } else {
                    87 + d
                })
            }),
    decreases n,
{
    reveal(pow);
    let all = hexadecimal(n);
    if n < 16 {
        assert(pow(16, 0) == 1);
        assert(pow(16, 1) == 16 * pow(16, 0));
        assert((n as int / 1) % 16 == n);
        assert(all[0] as int == (if n < 10 {
            48 + n
        } else {
            87 + n
        }));
    } else {
        let m = n / 16;
        law_hexadecimal_digits(m);
        let len = hexadecimal(m).len();
        assert(all == hexadecimal(m).push(digit_char((n % 16) as int)));
        assert(pow(16, len + 1) == 16 * pow(16, len));
        assert(pow(16, len) == 16 * pow(16, (len - 1) as nat));
        assert forall|k: int| 0 <= k < all.len() implies ({
            let d = (n as int / pow(16, (all.len() - 1 - k) as nat)) % 16;
            (#[trigger] all[k]) as int == (if d < 10 {
                48 + d
            } else {
                87 + d
            })
        }) by {
            if k < len {
                let e = (len - 1 - k) as nat;
                assert(all[k] == hexadecimal(m)[k]);
                assert(pow(16, e + 1) == 16 * pow(16, e));
                lemma_pow_positive(16, e);
                lemma_div_denominator(n as int, 16, pow(16, e));
            } else {
                assert(pow(16, 0) == 1);
            }
        }
    }
}

/// A negative number is written as a minus sign and its opposite, and no other number
/// has a sign.
pub proof fn law_negative_numbers_have_a_sign(n: nat)
    ensures
        signed_decimal(n as int) == decimal(n),
        n > 0 ==> signed_decimal(-(n as int)) == seq!['-'] + decimal(n),
{
}

/// Padding keeps the text at its end of the field, fills up the rest, and cuts nothing.
pub proof fn law_padding_keeps_the_text(text: Seq<char>, width: int, fill: char)
    ensures
        ({
            let len = text.len() as int;
            let full = if len < width {
                width
            } else {
                len
            };
            let left = pad_left(text, width, fill);
            let right = pad_right(text, width, fill);
            &&& left.len() == full
            &&& right.len() == full
            &&& left.skip(full - len) == text
            &&& right.take(len) == text
            &&& forall|k: int| 0 <= k < full - len ==> #[trigger] left[k] == fill
            &&& forall|k: int| len <= k < full ==> #[trigger] right[k] == fill
        }),
{
    let len = text.len() as int;
    let full = if len < width {
        width
    } else {
        len
    };
    assert(pad_left(text, width, fill).skip(full - len) =~= text);
    assert(pad_right(text, width, fill).take(len) =~= text);
}

/// `repeated` is so many copies of one character.
pub proof fn law_repeated_characters(c: char, count: nat)
    ensures
        repeated(c, count as int).len() == count,
        forall|k: int| 0 <= k < count ==> #[trigger] repeated(c, count as int)[k] == c,
{
}

/// One more digit makes ten times the number and the digit; decimal notation reads back
/// as the number it was made of.
pub proof fn law_digits_read_as_a_number(s: Seq<char>, d: int, n: nat)
    requires
        0 <= d < 10,
    ensures
        digits_value(Seq::empty()) == 0,
        digits_value(s.push((48 + d) as char)) == 10 * digits_value(s) + d,
        digits_value(decimal(n)) == n,
{
    let longer = s.push((48 + d) as char);
    assert(longer.drop_last() =~= s);
    lemma_decimal(n);
}

/// A text is read as a number exactly where it consists of digits, at least one, and
/// their number fits. One plus sign in front changes nothing.
pub proof fn law_numbers_are_digits(s: Seq<char>)
    ensures
        s.len() == 0 ==> number(s) is None,
        s.len() > 0 && s[0] != '+' ==> number(s) == (if (forall|k: int|
            0 <= k < s.len() ==> 48 <= #[trigger] s[k] as int <= 57) && digits_value(s)
            <= usize::MAX {
            Some(digits_value(s) as usize)
        } else {
            None
        }),
        s.len() > 0 && s[0] == '+' ==> number(s) == (if s.len() > 1 && s[1] != '+' {
            number(s.skip(1))
        } else {
            None
        }),
{
    if s.len() > 0 && s[0] != '+' {
        if forall|k: int| 0 <= k < s.len() ==> 48 <= #[trigger] s[k] as int <= 57 {
            assert forall|k: int| 0 <= k < s.len() implies is_digit(#[trigger] s[k]) by {
                assert(48 <= s[k] as int <= 57);
            }
        }
        if all_digits(s) {
            assert forall|k: int| 0 <= k < s.len() implies 48 <= #[trigger] s[k] as int <= 57 by {
                assert(is_digit(s[k]));
            }
        }
    }
    if s.len() > 0 && s[0] == '+' {
        let rest = s.skip(1);
        if s.len() > 1 {
            assert(rest[0] == s[1]);
            if s[1] == '+' {
                assert(!is_digit(rest[0]));
            }
        }
    }
}

/// What follows the last `c` is the end of the text, holds no `c`, and stands behind one
/// unless it is the whole text.
pub proof fn law_after_last_is_the_end(s: Seq<char>, c: char)
    ensures
        ({
            let end = after_last(s, c);
            let at = s.len() - end.len();
            &&& 0 <= at
            &&& s.skip(at) == end
            &&& forall|k: int| 0 <= k < end.len() ==> #[trigger] end[k] != c
            &&& at == 0 || s[at - 1] == c
        }),
    decreases s.len(),
{
    if s.len() > 0 && s.last() != c {
        let shorter = s.drop_last();
        law_after_last_is_the_end(shorter, c);
        let end = after_last(shorter, c);
        let at = shorter.len() - end.len();
        assert(after_last(s, c) == end.push(s.last()));
        assert(s.skip(at) =~= shorter.skip(at).push(s.last()));
        if at > 0 {
            assert(s[at - 1] == shorter[at - 1]);
        }
    } else {
        assert(s.skip(s.len() as int) =~= Seq::<char>::empty());
    }
}

/// `k` copies of `part`, one behind the other.
pub open spec fn copies(part: Seq<char>, k: nat) -> Seq<char>
    decreases k,
{
    if k == 0 {
        Seq::empty()
    } else {
        part + copies(part, (k - 1) as nat)
    }
}

/// One more copy may as well stand at the end.
pub proof fn lemma_copies_end(part: Seq<char>, k: nat)
    ensures
        copies(part, k + 1) == copies(part, k) + part,
    decreases k,
{
    if k > 0 {
        lemma_copies_end(part, (k - 1) as nat);
        assert(part + (copies(part, (k - 1) as nat) + part) =~= part + copies(
            part,
            (k - 1) as nat,
        ) + part);
    } else {
        assert(part + copies(part, 0) =~= copies(part, 0) + part);
    }
}

/// Trimming the front takes away copies of the prefix, as many as there are: what
/// remains does not begin with one.
pub proof fn law_trim_front_takes_all_copies(s: Seq<char>, prefix: Seq<char>) -> (k: nat)
    requires
        prefix.len() > 0,
    ensures
        s == copies(prefix, k) + trim_front(s, prefix),
        !prefix.is_prefix_of(trim_front(s, prefix)),
    decreases s.len(),
{
    let n = prefix.len() as int;
    if n <= s.len() && s.take(n) == prefix {
        let j = law_trim_front_takes_all_copies(s.skip(n), prefix);
        assert(s =~= prefix + s.skip(n));
        assert(copies(prefix, j + 1) + trim_front(s, prefix) =~= prefix + (copies(prefix, j)
            + trim_front(s, prefix)));
        j + 1
    } else {
        assert(s =~= copies(prefix, 0) + s);
        if prefix.is_prefix_of(s) {
            assert(s.take(n) =~= prefix);
        }
        0
    }
}

/// Trimming the back takes away copies of the suffix, as many as there are: what remains
/// does not end in one.
pub proof fn law_trim_back_takes_all_copies(s: Seq<char>, suffix: Seq<char>) -> (k: nat)
    requires
        suffix.len() > 0,
    ensures
        s == trim_back(s, suffix) + copies(suffix, k),
        !suffix.is_suffix_of(trim_back(s, suffix)),
    decreases s.len(),
{
    let n = suffix.len() as int;
    let at = s.len() - n;
    if n <= s.len() && s.skip(at) == suffix {
        let j = law_trim_back_takes_all_copies(s.take(at), suffix);
        lemma_copies_end(suffix, j);
        assert(s =~= s.take(at) + suffix);
        assert(trim_back(s, suffix) + copies(suffix, j + 1) =~= trim_back(s, suffix) + copies(
            suffix,
            j,
        ) + suffix);
        j + 1
    } else {
        assert(s =~= s + copies(suffix, 0));
        if suffix.is_suffix_of(s) {
            assert(s.skip(at) =~= suffix);
        }
        0
    }
}

/// Copies in front of what does not begin with one are all taken away.
pub proof fn lemma_trim_front_copies(prefix: Seq<char>, k: nat, rest: Seq<char>)
    requires
        prefix.len() > 0,
        !prefix.is_prefix_of(rest),
    ensures
        trim_front(copies(prefix, k) + rest, prefix) == rest,
    decreases k,
{
    let n = prefix.len() as int;
    let s = copies(prefix, k) + rest;
    if k > 0 {
        lemma_trim_front_copies(prefix, (k - 1) as nat, rest);
        assert(s.take(n) =~= prefix);
        assert(s.skip(n) =~= copies(prefix, (k - 1) as nat) + rest);
    } else {
        assert(s =~= rest);
        if n <= rest.len() && rest.take(n) == prefix {
            assert(prefix =~= rest.subrange(0, n));
        }
    }
}

/// Copies behind what does not end in one are all taken away.
pub proof fn lemma_trim_back_copies(suffix: Seq<char>, k: nat, rest: Seq<char>)
    requires
        suffix.len() > 0,
        !suffix.is_suffix_of(rest),
    ensures
        trim_back(rest + copies(suffix, k), suffix) == rest,
    decreases k,
{
    let n = suffix.len() as int;
    let s = rest + copies(suffix, k);
    if k > 0 {
        lemma_trim_back_copies(suffix, (k - 1) as nat, rest);
        lemma_copies_end(suffix, (k - 1) as nat);
        assert(s =~= rest + copies(suffix, (k - 1) as nat) + suffix);
        assert(s.skip(s.len() - n) =~= suffix);
        assert(s.take(s.len() - n) =~= rest + copies(suffix, (k - 1) as nat));
    } else {
        assert(s =~= rest);
        if n <= rest.len() && rest.skip(rest.len() - n) == suffix {
            assert(suffix =~= rest.subrange(rest.len() - n, rest.len() as int));
        }
    }
}

/// Copies of a part hold only characters of the part.
pub proof fn lemma_copies_lack(part: Seq<char>, k: nat, c: char)
    requires
        forall|j: int| 0 <= j < part.len() ==> #[trigger] part[j] != c,
    ensures
        forall|j: int| 0 <= j < copies(part, k).len() ==> #[trigger] copies(part, k)[j] != c,
    decreases k,
{
    if k > 0 {
        let fewer = copies(part, (k - 1) as nat);
        lemma_copies_lack(part, (k - 1) as nat, c);
        assert forall|j: int| 0 <= j < copies(part, k).len() implies #[trigger] copies(part, k)[j]
            != c by {
            if j < part.len() {
                assert(copies(part, k)[j] == part[j]);
            } else {
                assert(copies(part, k)[j] == fewer[j - part.len()]);
            }
        }
    }
}

/// The texts are those of the strings, in their order.
pub proof fn law_texts_are_those_of_the_strings(strings: Seq<String>, one: String)
    ensures
        texts(Seq::empty()).len() == 0,
        texts(strings.push(one)) == texts(strings).push(one@),
{
    assert(texts(strings.push(one)) =~= texts(strings).push(one@));
}

} // verus!
