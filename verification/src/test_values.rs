//! Which connection tests were asked for on the command line.
//!
//! The tests are given as one text: pairs separated by commas, each pair a
//! protocol name and the path of the binary that speaks it, separated by a
//! colon.

use crate::line_map::LineMap;
use crate::text::{
    find_char, first_at, from_chars, lemma_first_at, lemma_first_at_piece, matches_at, to_chars,
};
use vstd::prelude::*;

verus! {

/// The protocol that a name in the text stands for: `meek`, `snowflake` and
/// `obfs4` for themselves, every other name for a direct connection.
pub open spec fn protocol_of(name: Seq<char>) -> Seq<char> {
    if name == "meek"@ || name == "snowflake"@ || name == "obfs4"@ {
        name
    } else {
        "direct"@
    }
}

/// What one piece of the text adds to the tests: where the piece holds
/// exactly one colon, the path after the colon for the protocol before it;
/// else nothing.
pub open spec fn with_pair(values: Map<Seq<char>, Seq<char>>, piece: Seq<char>) -> Map<
    Seq<char>,
    Seq<char>,
> {
    let colon = first_at(piece, 0, ':');
    if colon < piece.len() && first_at(piece, colon + 1, ':') >= piece.len() {
        values.insert(
            protocol_of(piece.subrange(0, colon)),
            piece.subrange(colon + 1, piece.len() as int),
        )
    } else {
        values
    }
}

/// The tests that the text gives from index `from` on, on top of `values`:
/// piece by piece from the left, a later pair replacing an earlier one for
/// the same protocol.
pub open spec fn tests_from(text: Seq<char>, from: int, values: Map<Seq<char>, Seq<char>>) -> Map<
    Seq<char>,
    Seq<char>,
>
    decreases text.len() - from,
{
    if from < 0 || from > text.len() {
        values
    } else {
        let end = first_at(text, from, ',');
        let next = with_pair(values, text.subrange(from, end));
        if from <= end < text.len() {
            tests_from(text, end + 1, next)
        } else {
            next
        }
    }
}

/// The connection tests to run: for each protocol the path of its binary.
pub struct TestValues {
    /// The path of the binary, by protocol name.
    pub values: LineMap<String>,
}

impl View for TestValues {
    type V = Map<Seq<char>, Seq<char>>;

    open spec fn view(&self) -> Map<Seq<char>, Seq<char>> {
        self.values.deep_view()
    }
}

/// Whether `chars[from..to]` spells `word`.
fn spells(chars: &Vec<char>, from: usize, to: usize, word: &str) -> (r: bool)
    requires
        from <= to <= chars.len(),
    ensures
        r == (chars@.subrange(from as int, to as int) == word@),
{
    let pattern = to_chars(word);
    if pattern.len() != to - from {
        return false;
    }
    matches_at(chars, from, &pattern)
}

/// The protocol that `chars[from..to]` stands for.
fn protocol_name(chars: &Vec<char>, from: usize, to: usize) -> (name: String)
    requires
        from <= to <= chars.len(),
    ensures
        name@ == protocol_of(chars@.subrange(from as int, to as int)),
{
    if spells(chars, from, to, "meek") {
        "meek".to_owned()
    } else if spells(chars, from, to, "snowflake") {
        "snowflake".to_owned()
    } else if spells(chars, from, to, "obfs4") {
        "obfs4".to_owned()
    } else {
        "direct".to_owned()
    }
}

impl TestValues {
    /// Reads the tests from the text of the command line. Never fails: a
    /// piece that is no pair is passed over.
    pub fn from_str(s: &str) -> (tests: TestValues)
        ensures
            tests.values.wf(),
            tests@ == tests_from(s@, 0, Map::empty()),
    {
        let chars = to_chars(s);
        let n = chars.len();
        let mut values: LineMap<String> = LineMap::new();
        let mut start: usize = 0;
        let mut done = false;
        proof {
            assert(values.deep_view() =~= Map::<Seq<char>, Seq<char>>::empty());
        }
        while !done
            invariant
                n == chars@.len(),
                chars@ == s@,
                start <= n,
                values.wf(),
                !done ==> tests_from(s@, 0, Map::empty()) == tests_from(
                    s@,
                    start as int,
                    values.deep_view(),
                ),
                done ==> tests_from(s@, 0, Map::empty()) == values.deep_view(),
            decreases n - start, if done { 0int } else { 1int },
        {
            let end = find_char(&chars, start, ',');
            let colon = find_char(&chars, start, ':');
            let ghost piece = chars@.subrange(start as int, end as int);
            let ghost before = values.deep_view();
            proof {
                lemma_first_at(chars@, start as int, ',');
                lemma_first_at_piece(chars@, start as int, end as int, start as int, ':');
            }
            if colon < end {
                let second = find_char(&chars, colon + 1, ':');
                proof {
                    lemma_first_at_piece(chars@, start as int, end as int, colon + 1, ':');
                }
                if second >= end {
                    let name = protocol_name(&chars, start, colon);
                    let path = from_chars(&chars, colon + 1, end);
                    proof {
                        assert(piece.subrange(0, colon - start) =~= chars@.subrange(
                            start as int,
                            colon as int,
                        ));
                        assert(piece.subrange(colon - start + 1, piece.len() as int)
                            =~= chars@.subrange(colon + 1, end as int));
                    }
                    values.insert(name, path);
                    proof {
                        assert(values.deep_view() =~= before.insert(name@, path@));
                    }
                }
            }
            proof {
                assert(values.deep_view() == with_pair(before, piece));
            }
            if end < n {
                start = end + 1;
            } else {
                done = true;
            }
        }
        TestValues { values }
    }
}

} // verus!
