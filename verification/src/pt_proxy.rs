//! What the proxy for a pluggable transport works out for itself: the
//! address it asks the transport server to bind, the credentials it reads out
//! of the server's bridge line, and what it tells a client that it cannot
//! serve.

use crate::text::{
    append_chars, find_char, first_at, from_chars, matches_at, occurs_at, to_chars, utf8_text,
};
use vstd::prelude::*;
use vstd::slice::slice_to_vec;
use vstd::utf8::{decode_utf8, encode_utf8_decode_utf8, valid_utf8};

verus! {

/// No bridge line with the data that was looked for could be found.
#[derive(Clone, Copy, Debug, PartialEq, Eq, Structural)]
pub struct BridgeLineParseError;

impl BridgeLineParseError {
    /// What the error says.
    pub fn message(&self) -> (text: String)
        ensures
            text@ == "Error while obtaining bridge line data"@,
    {
        "Error while obtaining bridge line data".to_owned()
    }
}

/// The address that the transport server is asked to bind: the protocol, a
/// hyphen, the address to listen on.
pub fn bind_address(protocol: &str, bind_addr: &str) -> (out: String)
    ensures
        out@ == protocol@ + "-"@ + bind_addr@,
{
    let mut chars = to_chars(protocol);
    let hyphen = to_chars("-");
    let addr = to_chars(bind_addr);
    append_chars(&mut chars, &hyphen);
    append_chars(&mut chars, &addr);
    let out = from_chars(&chars, 0, chars.len());
    proof {
        assert(chars@.subrange(0, chars@.len() as int) =~= chars@);
    }
    out
}

/// A character that separates the words of a line: a Unicode white space.
pub open spec fn is_space(c: char) -> bool {
    let u = c as u32;
    (9 <= u <= 13) || u == 0x20 || u == 0x85 || u == 0xA0 || u == 0x1680 || (0x2000 <= u
        <= 0x200A) || u == 0x2028 || u == 0x2029 || u == 0x202F || u == 0x205F || u == 0x3000
}

/// Whether a character separates the words of a line.
pub fn is_space_char(c: char) -> (b: bool)
    ensures
        b == is_space(c),
{
    let u = c as u32;
    (9 <= u && u <= 13) || u == 0x20 || u == 0x85 || u == 0xA0 || u == 0x1680 || (0x2000 <= u
        && u <= 0x200A) || u == 0x2028 || u == 0x2029 || u == 0x202F || u == 0x205F || u
        == 0x3000
}

/// `pat` occurs in `text[from..to]`.
pub open spec fn occurs_within(text: Seq<char>, from: int, to: int, pat: Seq<char>) -> bool {
    exists|i: int| from <= i && i + pat.len() <= to && #[trigger] occurs_at(text, i, pat)
}

/// Whether `pat` occurs in `text[from..to]`.
pub fn contains_within(text: &Vec<char>, from: usize, to: usize, pat: &Vec<char>) -> (found: bool)
    requires
        from <= to <= text.len(),
    ensures
        found == occurs_within(text@, from as int, to as int, pat@),
{
    if pat.len() > to - from {
        return false;
    }
    let last = to - pat.len();
    let mut i: usize = from;
    while i < last
        invariant
            from <= i <= last,
            last + pat.len() == to,
            to <= text.len(),
            forall|k: int| from <= k < i ==> !occurs_at(text@, k, pat@),
        decreases last - i,
    {
        if matches_at(text, i, pat) {
            return true;
        }
        i += 1;
    }
    matches_at(text, last, pat)
}

/// Where the word that begins at index `from` ends: at the first white space
/// at or after `from`, or at `to` where none comes before.
pub open spec fn word_end(text: Seq<char>, from: int, to: int) -> int
    decreases to - from,
{
    if from >= to {
        to
    } else if is_space(text[from]) {
        from
    } else {
        word_end(text, from + 1, to)
    }
}

/// A word ends between where it begins and the end of the line.
pub proof fn lemma_word_end(text: Seq<char>, from: int, to: int)
    requires
        from <= to,
    ensures
        from <= word_end(text, from, to) <= to,
        from < to && !is_space(text[from]) ==> from < word_end(text, from, to),
    decreases to - from,
{
    if from < to && !is_space(text[from]) {
        lemma_word_end(text, from + 1, to);
    }
}

/// The first word of `text[from..to]` that begins with `prefix`, as the
/// indices at which it begins and ends; words are what white space
/// separates.
pub open spec fn first_word_with(text: Seq<char>, from: int, to: int, prefix: Seq<char>)
    -> Option<(int, int)>
    decreases to - from,
{
    if from >= to {
        None
    } else if is_space(text[from]) {
        first_word_with(text, from + 1, to, prefix)
    } else {
        let end = word_end(text, from, to);
        if from + prefix.len() <= end && occurs_at(text, from, prefix) {
            Some((from, end))
        } else if from < end <= to {
            first_word_with(text, end, to, prefix)
        } else {
            None
        }
    }
}

/// Finds the first word of `text[from..to]` that begins with `prefix`.
pub fn find_word_with(text: &Vec<char>, from: usize, to: usize, prefix: &Vec<char>) -> (found:
    Option<(usize, usize)>)
    requires
        from <= to <= text.len(),
    ensures
        match found {
            Some((a, b)) => first_word_with(text@, from as int, to as int, prefix@) == Some(
                (a as int, b as int),
            ) && from <= a <= b <= to,
            None => first_word_with(text@, from as int, to as int, prefix@) is None,
        },
{
    let mut at: usize = from;
    while at < to
        invariant
            from <= at <= to <= text.len(),
            first_word_with(text@, from as int, to as int, prefix@) == first_word_with(
                text@,
                at as int,
                to as int,
                prefix@,
            ),
        decreases to - at,
    {
        if is_space_char(text[at]) {
            at += 1;
        } else {
            let mut end: usize = at;
            while end < to && !is_space_char(text[end])
                invariant
                    at <= end <= to <= text.len(),
                    word_end(text@, at as int, to as int) == word_end(text@, end as int, to as int),
                decreases to - end,
            {
                end += 1;
            }
            proof {
                lemma_word_end(text@, at as int, to as int);
            }
            if prefix.len() <= end - at && matches_at(text, at, prefix) {
                return Some((at, end));
            }
            at = end;
        }
    }
    None
}

/// The first line of `text`, from index `from` on, in which `pat` occurs, as
/// the indices at which it begins and ends; lines are what line feeds
/// separate.
pub open spec fn first_line_with(text: Seq<char>, from: int, pat: Seq<char>) -> Option<(int, int)>
    decreases text.len() - from,
{
    if from < 0 || from > text.len() {
        None
    } else {
        let end = first_at(text, from, '\n');
        if occurs_within(text, from, end, pat) {
            Some((from, end))
        } else if from <= end < text.len() {
            first_line_with(text, end + 1, pat)
        } else {
            None
        }
    }
}

/// What the transport server wrote for its clients, read out of the text of
/// its bridge line file: from the first line that holds `Bridge obfs4`, the
/// first word that begins with `cert=` and the first that begins with
/// `iat-mode=`, joined by a semicolon. There is nothing to read where no line
/// holds `Bridge obfs4` or that line lacks one of the two words.
pub open spec fn cert_info(text: Seq<char>) -> Option<Seq<char>> {
    match first_line_with(text, 0, "Bridge obfs4"@) {
        Some((from, to)) => match (
            first_word_with(text, from, to, "cert="@),
            first_word_with(text, from, to, "iat-mode="@),
        ) {
            (Some((c0, c1)), Some((i0, i1))) => Some(
                text.subrange(c0, c1) + ";"@ + text.subrange(i0, i1),
            ),
            _ => None,
        },
        None => None,
    }
}

/// Reads the credentials for the clients out of the text of the transport
/// server's bridge line file; see [`cert_info`].
pub fn extract_cert_info(contents: &str) -> (info: Result<String, BridgeLineParseError>)
    ensures
        match info {
            Ok(text) => cert_info(contents@) == Some(text@),
            Err(_) => cert_info(contents@) is None,
        },
{
    let text = to_chars(contents);
    let n = text.len();
    let marker = to_chars("Bridge obfs4");
    let mut from: usize = 0;
    let mut to: usize = 0;
    let mut found = false;
    let mut over = false;
    while !found && !over
        invariant
            n == text@.len(),
            text@ == contents@,
            marker@ == "Bridge obfs4"@,
            from <= n,
            !found && !over ==> first_line_with(text@, 0, marker@) == first_line_with(
                text@,
                from as int,
                marker@,
            ),
            found ==> from <= to <= n && first_line_with(text@, 0, marker@) == Some(
                (from as int, to as int),
            ),
            over ==> !found && first_line_with(text@, 0, marker@) is None,
        decreases n - from, if found || over { 0int } else { 1int },
    {
        let end = find_char(&text, from, '\n');
        if contains_within(&text, from, end, &marker) {
            to = end;
            found = true;
        } else if end < n {
            from = end + 1;
        } else {
            over = true;
        }
    }
    if !found {
        return Err(BridgeLineParseError);
    }
    let cert_prefix = to_chars("cert=");
    let iat_prefix = to_chars("iat-mode=");
    let cert = find_word_with(&text, from, to, &cert_prefix);
    let iat = find_word_with(&text, from, to, &iat_prefix);
    match (cert, iat) {
        (Some((c0, c1)), Some((i0, i1))) => {
            let mut out: Vec<char> = Vec::new();
            let mut k: usize = c0;
            while k < c1
                invariant
                    c0 <= k <= c1 <= text.len(),
                    out@ == text@.subrange(c0 as int, k as int),
                decreases c1 - k,
            {
                out.push(text[k]);
                k += 1;
            }
            out.push(';');
            let mut k: usize = i0;
            while k < i1
                invariant
                    i0 <= k <= i1 <= text.len(),
                    out@ == text@.subrange(c0 as int, c1 as int).push(';') + text@.subrange(
                        i0 as int,
                        k as int,
                    ),
                decreases i1 - k,
            {
                out.push(text[k]);
                k += 1;
            }
            let info = from_chars(&out, 0, out.len());
            proof {
                reveal_strlit(";");
                assert(";"@ =~= seq![';']);
                assert(out@.subrange(0, out@.len() as int) =~= out@);
                assert(out@ =~= text@.subrange(c0 as int, c1 as int) + ";"@ + text@.subrange(
                    i0 as int,
                    i1 as int,
                ));
            }
            Ok(info)
        },
        _ => Err(BridgeLineParseError),
    }
}

/// The password to hand to the transport client, from the password of the
/// settings: a password of no bytes becomes a single NUL character, any
/// other is taken as the text that its bytes spell. There is none where the
/// bytes are not valid UTF-8.
pub fn forwarding_password(raw_password: &[u8]) -> (password: Option<String>)
    ensures
        password is Some <==> valid_utf8(raw_password@),
        password matches Some(p) ==> p@ == (if raw_password@.len() == 0 {
            "\0"@
        } else {
            decode_utf8(raw_password@)
        }),
{
    let text = utf8_text(slice_to_vec(raw_password));
    match text {
        Some(text) => {
            proof {
                encode_utf8_decode_utf8(text@);
            }
            if raw_password.len() == 0 {
                Some("\0".to_owned())
            } else {
                Some(text)
            }
        },
        None => None,
    }
}

/// What a SOCKS5 client is told when the transport client cannot be
/// reached: version 5, reply 5 (connection refused), and an empty IPv4
/// address and port.
pub fn refusal_reply() -> (reply: [u8; 10])
    ensures
        reply@ == seq![5u8, 5u8, 0u8, 1u8, 0u8, 0u8, 0u8, 0u8, 0u8, 0u8],
{
    let reply: [u8; 10] = [5, 5, 0, 1, 0, 0, 0, 0, 0, 0];
    proof {
        assert(reply@ =~= seq![5u8, 5u8, 0u8, 1u8, 0u8, 0u8, 0u8, 0u8, 0u8, 0u8]);
    }
    reply
}

} // verus!
