//! Character-level text helpers shared by the other modules.
//!
//! Texts are modelled by their view, a `Seq<char>`; the executable functions
//! work on `Vec<char>` and convert at their edges.

use vstd::prelude::*;
use vstd::utf8::{encode_utf8, valid_utf8};

verus! {

/// `String::from_utf8` of the standard library: the bytes as a string, where
/// they are valid UTF-8; the string then has exactly these bytes. (vstd gives
/// `from_utf8` no specification.)
#[verifier::external_body]
pub(crate) fn utf8_text(bytes: Vec<u8>) -> (text: Option<String>)
    ensures
        text is Some <==> valid_utf8(bytes@),
        text matches Some(s) ==> encode_utf8(s@) == bytes@,
{
    String::from_utf8(bytes).ok()
}

/// `String::push` of the standard library: the string afterwards is the
/// string before with `c` appended. (vstd gives `push` no specification.)
#[verifier::external_body]
pub(crate) fn push_char(s: &mut String, c: char)
    ensures
        final(s)@ == old(s)@.push(c),
{
    s.push(c);
}

/// The characters of `s`, in order.
pub fn to_chars(s: &str) -> (out: Vec<char>)
    ensures
        out@ == s@,
{
    let mut out: Vec<char> = Vec::new();
    for c in it: s.chars()
        invariant
            out@ == it.seq().take(it.index()),
            it.seq() == s@,
    {
        out.push(c);
    }
    out
}

/// The string made of the characters `chars[from..to]`.
pub fn from_chars(chars: &Vec<char>, from: usize, to: usize) -> (out: String)
    requires
        from <= to <= chars.len(),
    ensures
        out@ == chars@.subrange(from as int, to as int),
{
    let mut out = String::new();
    let mut i: usize = from;
    while i < to
        invariant
            from <= i <= to <= chars.len(),
            out@ == chars@.subrange(from as int, i as int),
        decreases to - i,
    {
        push_char(&mut out, chars[i]);
        i += 1;
    }
    out
}

/// Appends the characters of `tail` to `out`.
pub fn append_chars(out: &mut Vec<char>, tail: &Vec<char>)
    ensures
        final(out)@ == old(out)@ + tail@,
{
    let mut i: usize = 0;
    while i < tail.len()
        invariant
            i <= tail.len(),
            out@ == old(out)@ + tail@.subrange(0, i as int),
        decreases tail.len() - i,
    {
        out.push(tail[i]);
        i += 1;
    }
}

/// `pat` occurs in `s` starting at index `at`.
pub open spec fn occurs_at(s: Seq<char>, at: int, pat: Seq<char>) -> bool {
    &&& 0 <= at
    &&& at + pat.len() <= s.len()
    &&& s.subrange(at, at + pat.len()) == pat
}

/// Tests whether `pat` occurs in `s` starting at index `at`.
pub fn matches_at(s: &Vec<char>, at: usize, pat: &Vec<char>) -> (r: bool)
    ensures
        r == occurs_at(s@, at as int, pat@),
{
    if at > s.len() || pat.len() > s.len() - at {
        return false;
    }
    let mut j: usize = 0;
    while j < pat.len()
        invariant
            at + pat.len() <= s.len(),
            j <= pat.len(),
            forall|k: int| 0 <= k < j ==> s@[at + k] == pat@[k],
        decreases pat.len() - j,
    {
        if s[at + j] != pat[j] {
            proof {
                assert(s@.subrange(at as int, at + pat.len())[j as int] == s@[at + j]);
            }
            return false;
        }
        j += 1;
    }
    proof {
        assert(s@.subrange(at as int, at + pat.len()) =~= pat@);
    }
    true
}

/// `s` with every occurrence of `pat` taken out, scanning from the left and
/// resuming after each occurrence found. An empty `pat` takes nothing out.
pub open spec fn without(s: Seq<char>, pat: Seq<char>) -> Seq<char>
    decreases s.len(),
{
    if pat.len() == 0 || s.len() < pat.len() {
        s
    } else if occurs_at(s, 0, pat) {
        without(s.skip(pat.len() as int), pat)
    } else {
        seq![s[0]] + without(s.skip(1), pat)
    }
}

/// Takes every occurrence of `pat` out of `s`.
pub fn remove_all(s: &Vec<char>, pat: &Vec<char>) -> (out: Vec<char>)
    ensures
        out@ == without(s@, pat@),
{
    let n = s.len();
    let m = pat.len();
    let mut out: Vec<char> = Vec::new();
    if m == 0 {
        append_chars(&mut out, s);
        assert(out@ =~= s@);
        return out;
    }
    let mut i: usize = 0;
    assert(s@.skip(0) =~= s@);
    while i < n
        invariant
            n == s@.len(),
            m == pat@.len(),
            m > 0,
            i <= n,
            without(s@, pat@) == out@ + without(s@.skip(i as int), pat@),
        decreases n - i,
    {
        let ghost rest = s@.skip(i as int);
        let hit = matches_at(s, i, pat);
        proof {
            if i + m <= n {
                assert(rest.subrange(0, m as int) =~= s@.subrange(i as int, i + m));
            }
            assert(hit == occurs_at(rest, 0, pat@));
        }
        if hit {
            proof {
                assert(rest.skip(m as int) =~= s@.skip(i + m));
            }
            i += m;
        } else {
            proof {
                assert(rest.skip(1) =~= s@.skip(i + 1));
                if rest.len() < m {
                    assert(rest.skip(1).len() < m);
                    assert(without(rest.skip(1), pat@) == rest.skip(1));
                    assert(seq![rest[0]] + rest.skip(1) =~= rest);
                }
                assert(out@.push(s@[i as int]) + without(s@.skip(i + 1), pat@) =~= out@ + (seq![
                    rest[0],
                ] + without(rest.skip(1), pat@)));
            }
            out.push(s[i]);
            i += 1;
        }
    }
    proof {
        assert(s@.skip(n as int).len() == 0);
        assert(out@ + without(s@.skip(n as int), pat@) =~= out@);
    }
    out
}

/// Removing a pattern never lengthens a text, and adds no character to it.
pub proof fn lemma_without_keeps(s: Seq<char>, pat: Seq<char>)
    ensures
        without(s, pat).len() <= s.len(),
        forall|c: char| #[trigger] without(s, pat).contains(c) ==> s.contains(c),
    decreases s.len(),
{
    let out = without(s, pat);
    if pat.len() == 0 || s.len() < pat.len() {
    } else if occurs_at(s, 0, pat) {
        let rest = s.skip(pat.len() as int);
        lemma_without_keeps(rest, pat);
        assert forall|c: char| out.contains(c) implies s.contains(c) by {
            assert(without(rest, pat).contains(c));
            let j = choose|j: int| 0 <= j < rest.len() && rest[j] == c;
            assert(s[j + pat.len()] == c);
        }
    } else {
        let rest = s.skip(1);
        lemma_without_keeps(rest, pat);
        assert forall|c: char| out.contains(c) implies s.contains(c) by {
            let i = choose|i: int| 0 <= i < out.len() && out[i] == c;
            if i == 0 {
                assert(s[0] == c);
            } else {
                assert(without(rest, pat)[i - 1] == c);
                assert(without(rest, pat).contains(c));
                let j = choose|j: int| 0 <= j < rest.len() && rest[j] == c;
                assert(s[j + 1] == c);
            }
        }
    }
}

/// `pat` occurs somewhere in `s`.
pub open spec fn occurs(s: Seq<char>, pat: Seq<char>) -> bool {
    exists|i: int| occurs_at(s, i, pat)
}

/// A text in which the pattern occurs nowhere is left as it is.
pub proof fn lemma_without_absent(s: Seq<char>, pat: Seq<char>)
    requires
        !occurs(s, pat),
    ensures
        without(s, pat) == s,
    decreases s.len(),
{
    if pat.len() == 0 || s.len() < pat.len() {
    } else {
        assert(!occurs_at(s, 0, pat));
        let rest = s.skip(1);
        assert forall|i: int| !occurs_at(rest, i, pat) by {
            if occurs_at(rest, i, pat) {
                assert(rest.subrange(i, i + pat.len()) =~= s.subrange(i + 1, i + 1 + pat.len()));
                assert(occurs_at(s, i + 1, pat));
            }
        }
        lemma_without_absent(rest, pat);
        assert(seq![s[0]] + rest =~= s);
    }
}

/// A text in which the pattern occurs gets shorter when the pattern is
/// taken out.
pub proof fn lemma_without_shrinks(s: Seq<char>, pat: Seq<char>)
    requires
        pat.len() > 0,
        occurs(s, pat),
    ensures
        without(s, pat).len() < s.len(),
    decreases s.len(),
{
    let at = choose|i: int| occurs_at(s, i, pat);
    if occurs_at(s, 0, pat) {
        lemma_without_keeps(s.skip(pat.len() as int), pat);
    } else {
        let rest = s.skip(1);
        assert(rest.subrange(at - 1, at - 1 + pat.len()) =~= s.subrange(at, at + pat.len()));
        assert(occurs_at(rest, at - 1, pat));
        lemma_without_shrinks(rest, pat);
    }
}

/// `s` with `pat` taken out until it occurs no more: what is left after an
/// occurrence was taken out may hold another, which is taken out in turn.
pub open spec fn purged(s: Seq<char>, pat: Seq<char>) -> Seq<char>
    decreases s.len(),
{
    if pat.len() > 0 && occurs(s, pat) && without(s, pat).len() < s.len() {
        purged(without(s, pat), pat)
    } else {
        s
    }
}

/// What is purged of a pattern does not hold the pattern, is no longer than
/// the text was, and holds no character that the text did not hold.
pub proof fn lemma_purged(s: Seq<char>, pat: Seq<char>)
    requires
        pat.len() > 0,
    ensures
        !occurs(purged(s, pat), pat),
        purged(s, pat).len() <= s.len(),
        forall|c: char| #[trigger] purged(s, pat).contains(c) ==> s.contains(c),
    decreases s.len(),
{
    if occurs(s, pat) {
        lemma_without_shrinks(s, pat);
        lemma_without_keeps(s, pat);
        lemma_purged(without(s, pat), pat);
    }
}

/// Takes `pat` out of `s` until it occurs no more.
pub fn purge(s: &Vec<char>, pat: &Vec<char>) -> (out: Vec<char>)
    ensures
        out@ == purged(s@, pat@),
{
    let mut current = remove_all(s, pat);
    let mut before = s.len();
    proof {
        if pat@.len() > 0 {
            if occurs(s@, pat@) {
                lemma_without_shrinks(s@, pat@);
            } else {
                lemma_without_absent(s@, pat@);
            }
        }
    }
    while current.len() < before
        invariant
            current@.len() <= before,
            current@.len() < before ==> purged(s@, pat@) == purged(current@, pat@) && pat@.len()
                > 0,
            current@.len() == before ==> purged(s@, pat@) == current@,
        decreases before,
    {
        before = current.len();
        let next = remove_all(&current, pat);
        proof {
            if occurs(current@, pat@) {
                lemma_without_shrinks(current@, pat@);
            } else {
                lemma_without_absent(current@, pat@);
            }
        }
        current = next;
    }
    current
}

/// The index of the first item at or after `from` that equals `stop`, or the
/// length of `items` where there is none.
pub open spec fn first_at<T>(items: Seq<T>, from: int, stop: T) -> int
    decreases items.len() - from,
{
    if from >= items.len() {
        items.len() as int
    } else if items[from] == stop {
        from
    } else {
        first_at(items, from + 1, stop)
    }
}

/// Where `first_at` points: between `from` and the end, at an item equal to
/// `stop` if not at the end, with no such item before it.
pub proof fn lemma_first_at<T>(items: Seq<T>, from: int, stop: T)
    requires
        0 <= from <= items.len(),
    ensures
        from <= first_at(items, from, stop) <= items.len(),
        first_at(items, from, stop) < items.len() ==> items[first_at(items, from, stop)] == stop,
        forall|i: int| from <= i < first_at(items, from, stop) ==> items[i] != stop,
    decreases items.len() - from,
{
    if from < items.len() && items[from] != stop {
        lemma_first_at(items, from + 1, stop);
    }
}

/// Finds the first index at or after `from` at which `stop` stands, or the
/// length of `chars` where it stands nowhere.
pub fn find_char(chars: &Vec<char>, from: usize, stop: char) -> (at: usize)
    requires
        from <= chars.len(),
    ensures
        at == first_at(chars@, from as int, stop),
        from <= at <= chars.len(),
{
    let mut at: usize = from;
    while at < chars.len() && chars[at] != stop
        invariant
            from <= at <= chars.len(),
            first_at(chars@, from as int, stop) == first_at(chars@, at as int, stop),
        decreases chars.len() - at,
    {
        at += 1;
    }
    at
}

/// `first_at` is the one index that stands at a `stop`, or at the end, with
/// no `stop` between `from` and it.
pub proof fn lemma_first_at_is<T>(items: Seq<T>, from: int, stop: T, at: int)
    requires
        0 <= from <= at <= items.len(),
        at < items.len() ==> items[at] == stop,
        forall|i: int| from <= i < at ==> items[i] != stop,
    ensures
        first_at(items, from, stop) == at,
    decreases at - from,
{
    if from < at {
        assert(items[from] != stop);
        lemma_first_at_is(items, from + 1, stop, at);
    }
}

/// Searching the piece `items[from..to]` from an index within it finds what
/// searching `items` from there finds, if that lies within the piece, and
/// else nothing.
pub proof fn lemma_first_at_piece<T>(items: Seq<T>, from: int, to: int, at: int, stop: T)
    requires
        0 <= from <= at <= to <= items.len(),
    ensures
        first_at(items.subrange(from, to), at - from, stop) == (if first_at(items, at, stop) < to {
            first_at(items, at, stop) - from
        } else {
            to - from
        }),
{
    let piece = items.subrange(from, to);
    let found = first_at(items, at, stop);
    lemma_first_at(items, at, stop);
    let k = if found < to {
        found - from
    } else {
        to - from
    };
    assert forall|i: int| at - from <= i < k implies piece[i] != stop by {
        assert(piece[i] == items[from + i]);
    }
    if k < piece.len() {
        assert(piece[k] == items[found]);
    }
    lemma_first_at_is(piece, at - from, stop, k);
}

/// A character that ends a line: a line feed or a carriage return.
pub open spec fn is_line_break(c: char) -> bool {
    c == '\n' || c == '\r'
}

/// The text holds no line break.
pub open spec fn is_one_line(s: Seq<char>) -> bool {
    forall|i: int| 0 <= i < s.len() ==> !is_line_break(#[trigger] s[i])
}

/// The text on one line: every line break gives way to a space.
pub open spec fn on_one_line(s: Seq<char>) -> Seq<char> {
    Seq::new(s.len(), |i: int| if is_line_break(s[i]) { ' ' } else { s[i] })
}

/// Puts a text on one line: every line break gives way to a space.
pub fn join_lines(s: &Vec<char>) -> (out: Vec<char>)
    ensures
        out@ == on_one_line(s@),
        is_one_line(out@),
{
    let mut out: Vec<char> = Vec::new();
    let mut i: usize = 0;
    while i < s.len()
        invariant
            i <= s.len(),
            out@.len() == i,
            forall|k: int|
                0 <= k < i ==> (#[trigger] out@[k]) == (if is_line_break(s@[k]) {
                    ' '
                } else {
                    s@[k]
                }),
        decreases s.len() - i,
    {
        let c = s[i];
        if c == '\n' || c == '\r' {
            out.push(' ');
        } else {
            out.push(c);
        }
        i += 1;
    }
    proof {
        assert(out@ =~= on_one_line(s@));
    }
    out
}

} // verus!
