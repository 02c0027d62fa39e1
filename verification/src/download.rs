//! Planning a download in chunks: which byte ranges to ask for, over which
//! connection, how long to wait before a retry, and whether the chunks that
//! came back make up the file.

use crate::numerals::{numeral, push_decimal};
use crate::text::{append_chars, from_chars, to_chars};
use vstd::prelude::*;

verus! {

/// Number of bytes asked for in one request.
pub const REQSIZE: u64 = 1024 * 1024;

/// Number of connections that the requests are spread over.
pub const MAX_CONNECTIONS: usize = 6;

/// How often one range is asked for before it is given up.
pub const MAX_RETRIES: usize = 6;

/// HTTP status of a reply that holds the range asked for.
pub const PARTIAL_CONTENT: u16 = 206;

/// Ten to the power of `n`.
pub open spec fn pow10(n: nat) -> nat
    decreases n,
{
    if n == 0 {
        1
    } else {
        10 * pow10((n - 1) as nat)
    }
}

/// How many milliseconds to wait before try number `trial` of a range, the
/// first try being number 0: one less than ten to the power of `trial`.
pub fn retry_delay_millis(trial: u32) -> (millis: u64)
    requires
        trial <= 19,
    ensures
        millis == pow10(trial as nat) - 1,
{
    let mut power: u64 = 1;
    let mut i: u32 = 0;
    proof {
        assert(pow10(19) == 10_000_000_000_000_000_000) by {
            reveal_with_fuel(pow10, 20);
        }
    }
    while i < trial
        invariant
            i <= trial <= 19,
            power == pow10(i as nat),
            pow10(19) == 10_000_000_000_000_000_000,
        decreases trial - i,
    {
        proof {
            lemma_pow10_monotone((i + 1) as nat, 19);
        }
        power = power * 10;
        i += 1;
    }
    proof {
        lemma_pow10_monotone(trial as nat, 19);
    }
    power - 1
}

/// Powers of ten grow with the exponent.
pub proof fn lemma_pow10_monotone(a: nat, b: nat)
    requires
        a <= b,
    ensures
        1 <= pow10(a) <= pow10(b),
    decreases b,
{
    if a < b {
        lemma_pow10_monotone(a, (b - 1) as nat);
    } else if a > 0 {
        lemma_pow10_monotone((a - 1) as nat, (b - 1) as nat);
    }
}

/// Whether, after `failures` failed tries of a range, another try is made.
pub fn should_retry(failures: usize) -> (again: bool)
    ensures
        again == (failures < MAX_RETRIES),
{
    failures < MAX_RETRIES
}

/// The value of the `Range` header that asks for the bytes from `start` to
/// `end`, both included.
pub open spec fn range_header_spec(start: u64, end: u64) -> Seq<char> {
    "bytes="@ + numeral(start as int, 10) + "-"@ + numeral(end as int, 10)
}

/// The value of the `Range` header that asks for the bytes from `start` to
/// `end`, both included.
pub fn range_header(start: u64, end: u64) -> (value: String)
    ensures
        value@ == range_header_spec(start, end),
{
    let mut chars: Vec<char> = to_chars("bytes=");
    push_decimal(&mut chars, start);
    let dash = to_chars("-");
    append_chars(&mut chars, &dash);
    push_decimal(&mut chars, end);
    let value = from_chars(&chars, 0, chars.len());
    proof {
        assert(chars@.subrange(0, chars@.len() as int) =~= chars@);
    }
    value
}

/// Whether a reply with this status holds the range asked for.
pub fn is_partial_content(status: u16) -> (partial: bool)
    ensures
        partial == (status == PARTIAL_CONTENT),
{
    status == PARTIAL_CONTENT
}

/// One request of a plan: the bytes from `start` to `end`, both included, to
/// be asked for over connection number `connection`.
#[derive(Clone, Copy, Debug, PartialEq, Eq, Structural)]
pub struct Chunk {
    pub start: u64,
    pub end: u64,
    pub connection: usize,
}

/// Chunk number `i` of a plan.
pub open spec fn chunk_at(i: int) -> Chunk {
    Chunk {
        start: (i * REQSIZE) as u64,
        end: (i * REQSIZE + REQSIZE - 1) as u64,
        connection: (i % (MAX_CONNECTIONS as int)) as usize,
    }
}

/// The full chunks of a file of `length` bytes: as many chunks of
/// [`REQSIZE`] bytes as fit, in order, taking the connections in turn.
pub fn plan_chunks(length: u64) -> (plan: Vec<Chunk>)
    requires
        length / REQSIZE <= usize::MAX,
    ensures
        plan@.len() == length / REQSIZE,
        forall|i: int| 0 <= i < plan@.len() ==> plan@[i] == chunk_at(i),
{
    let steps = length / REQSIZE;
    let mut plan: Vec<Chunk> = Vec::new();
    let mut i: u64 = 0;
    while i < steps
        invariant
            i <= steps,
            steps == length / REQSIZE,
            steps <= usize::MAX,
            plan@.len() == i,
            forall|j: int| 0 <= j < plan@.len() ==> plan@[j] == chunk_at(j),
        decreases steps - i,
    {
        assert(i * REQSIZE + REQSIZE <= length) by (nonlinear_arith)
            requires
                i < steps,
                steps == length / REQSIZE,
                REQSIZE == 1048576,
        ;
        let start = i * REQSIZE;
        let end = start + REQSIZE - 1;
        let connection = (i % (MAX_CONNECTIONS as u64)) as usize;
        plan.push(Chunk { start, end, connection });
        i += 1;
    }
    plan
}

/// What is asked for after the full chunks: the bytes from where they end up
/// to `length`, if the full chunks do not reach that far.
pub fn tail_range(length: u64) -> (tail: Option<(u64, u64)>)
    ensures
        tail == (if (length / REQSIZE) * REQSIZE < length {
            Some((((length / REQSIZE) * REQSIZE) as u64, length))
        } else {
            None::<(u64, u64)>
        }),
{
    let steps = length / REQSIZE;
    assert(steps * REQSIZE <= length) by (nonlinear_arith)
        requires
            steps == length / REQSIZE,
            REQSIZE == 1048576,
    ;
    let start = steps * REQSIZE;
    if start < length {
        Some((start, length))
    } else {
        None
    }
}

/// The offsets at which the chunks that came back begin are those of a
/// file in one piece: taken in rising order, chunk number `i` begins at `i`
/// times [`REQSIZE`]. Said without the order: each of these offsets is the
/// start of some chunk.
pub open spec fn offsets_complete(starts: Seq<u64>) -> bool {
    forall|i: int| 0 <= i < starts.len() ==> begins_at(starts, #[trigger] (i * REQSIZE))
}

/// Some chunk begins at `offset`.
pub open spec fn begins_at(starts: Seq<u64>, offset: int) -> bool {
    exists|j: int| 0 <= j < starts.len() && #[trigger] starts[j] == offset
}

/// Where the chunk that begins at `offset` stands in `starts`, if it does.
pub fn find_offset(starts: &Vec<u64>, offset: u64) -> (at: Option<usize>)
    ensures
        match at {
            Some(j) => j < starts@.len() && starts@[j as int] == offset,
            None => !begins_at(starts@, offset as int),
        },
{
    let mut j: usize = 0;
    while j < starts.len()
        invariant
            j <= starts@.len(),
            forall|k: int| 0 <= k < j ==> starts@[k] != offset,
        decreases starts.len() - j,
    {
        if starts[j] == offset {
            return Some(j);
        }
        j += 1;
    }
    None
}

/// Puts the chunks that came back in the order of the file. `starts` holds
/// the offset at which each chunk begins.
///
/// The answer holds, for each place in the file, the index of the chunk that
/// belongs there. There is none if the offsets are not those of a file in one
/// piece.
pub fn order_chunks(starts: &Vec<u64>) -> (order: Option<Vec<usize>>)
    ensures
        order is Some <==> offsets_complete(starts@),
        order matches Some(order) ==> {
            &&& order@.len() == starts@.len()
            &&& forall|i: int|
                0 <= i < order@.len() ==> (#[trigger] order@[i]) < starts@.len()
                    && starts@[order@[i] as int] == i * REQSIZE
        },
{
    let n = starts.len();
    let mut order: Vec<usize> = Vec::new();
    let mut i: usize = 0;
    while i < n
        invariant
            n == starts@.len(),
            i <= n,
            order@.len() == i,
            forall|k: int|
                0 <= k < i ==> (#[trigger] order@[k]) < starts@.len() && starts@[order@[k] as int]
                    == k * REQSIZE,
            forall|k: int| 0 <= k < i ==> begins_at(starts@, #[trigger] (k * REQSIZE)),
        decreases n - i,
    {
        if i as u64 > u64::MAX / REQSIZE {
            proof {
                assert(i * REQSIZE > u64::MAX) by (nonlinear_arith)
                    requires
                        i > u64::MAX / REQSIZE,
                        REQSIZE == 1048576,
                ;
                assert(!begins_at(starts@, i * REQSIZE));
            }
            return None;
        }
        assert(i * REQSIZE <= u64::MAX) by (nonlinear_arith)
            requires
                i <= u64::MAX / REQSIZE,
                REQSIZE == 1048576,
        ;
        let offset = (i as u64) * REQSIZE;
        match find_offset(starts, offset) {
            Some(j) => {
                order.push(j);
            },
            None => {
                proof {
                    assert(!begins_at(starts@, i * REQSIZE));
                }
                return None;
            },
        }
        i += 1;
    }
    Some(order)
}

/// A decimal digit.
pub open spec fn is_digit(c: char) -> bool {
    48 <= c as u32 <= 57
}

/// The number that a run of decimal digits spells.
pub open spec fn digits_value(digits: Seq<char>) -> int
    decreases digits.len(),
{
    if digits.len() == 0 {
        0
    } else {
        digits_value(digits.drop_last()) * 10 + (digits.last() as u32 - 48)
    }
}

/// Every character of the text is a decimal digit.
pub open spec fn all_digits(text: Seq<char>) -> bool {
    forall|i: int| 0 <= i < text.len() ==> is_digit(#[trigger] text[i])
}

/// The text without the plus sign that it may begin with.
pub open spec fn unsigned_part(text: Seq<char>) -> Seq<char> {
    if text.len() > 0 && text[0] == '+' {
        text.subrange(1, text.len() as int)
    } else {
        text
    }
}

/// The number that a text spells: after at most one plus sign, one decimal
/// digit or more and nothing else, for a number that fits in 64 bits.
pub open spec fn decimal_value(text: Seq<char>) -> Option<int> {
    let digits = unsigned_part(text);
    if digits.len() > 0 && all_digits(digits) && digits_value(digits) <= u64::MAX {
        Some(digits_value(digits))
    } else {
        None
    }
}

/// More digits never spell a smaller number.
pub proof fn lemma_digits_value_grows(digits: Seq<char>, i: int)
    requires
        0 <= i <= digits.len(),
        all_digits(digits),
    ensures
        0 <= digits_value(digits.take(i)) <= digits_value(digits),
    decreases digits.len(),
{
    if digits.len() == 0 {
        assert(digits.take(i) =~= digits);
    } else if i == digits.len() {
        assert(digits.take(i) =~= digits);
        lemma_digits_value_grows(digits.drop_last(), i - 1);
        assert(digits.drop_last().take(i - 1) =~= digits.drop_last());
        assert(is_digit(digits[digits.len() - 1]));
    } else {
        lemma_digits_value_grows(digits.drop_last(), i);
        assert(digits.drop_last().take(i) =~= digits.take(i));
        assert(is_digit(digits[digits.len() - 1]));
    }
}

/// Reads the length of a file from the text of a `Content-Length` header.
/// There is none where the text is no decimal number of at most 64 bits.
pub fn parse_length(text: &str) -> (length: Option<u64>)
    ensures
        match length {
            Some(n) => decimal_value(text@) == Some(n as int),
            None => decimal_value(text@) is None,
        },
{
    let chars = to_chars(text);
    let n = chars.len();
    let start: usize = if n > 0 && chars[0] == '+' {
        1
    } else {
        0
    };
    let ghost digits = chars@.subrange(start as int, n as int);
    proof {
        if start == 0 {
            assert(digits =~= text@);
        }
    }
    if start == n {
        return None;
    }
    let mut value: u64 = 0;
    let mut i: usize = start;
    proof {
        assert(digits.take(0) =~= Seq::<char>::empty());
    }
    while i < n
        invariant
            start <= i <= n,
            n == chars@.len(),
            digits == chars@.subrange(start as int, n as int),
            digits.len() > 0,
            digits == unsigned_part(text@),
            forall|k: int| 0 <= k < i - start ==> is_digit(#[trigger] digits[k]),
            value == digits_value(digits.take(i - start)),
        decreases n - i,
    {
        let c = chars[i];
        let code = c as u32;
        if code < 48 || code > 57 {
            proof {
                assert(!is_digit(digits[i - start]));
            }
            return None;
        }
        let d = (code - 48) as u64;
        proof {
            assert(digits.take(i - start + 1).drop_last() =~= digits.take(i - start));
            assert(digits.take(i - start + 1).last() == c);
        }
        if value > (u64::MAX - d) / 10 {
            proof {
                assert(digits_value(digits.take(i - start + 1)) > u64::MAX);
                if all_digits(digits) {
                    lemma_digits_value_grows(digits, i - start + 1);
                }
            }
            return None;
        }
        value = value * 10 + d;
        i += 1;
    }
    proof {
        assert(digits.take(n - start) =~= digits);
    }
    Some(value)
}

} // verus!
