//! The recovery prober: the list of bridges believed down, and what each
//! round of re-probing and each message from the queues does to it.

use crate::bridge_result::BridgeResult;
use crate::line_map::LineMap;
use crate::invariants::lemma_round_keeps_order;
use crate::probe::{
    channels_after, get_failed_bridges, is_flat, lacks_channel, lemma_pass_covers, results_after,
    ProbeRun,
};
use crate::queue::QueueEvent;
use crate::vecs::clone_lines;
use vstd::prelude::*;

verus! {

/// A list of lines with every repetition taken out: of each line the first
/// occurrence stays.
pub open spec fn distinct(lines: Seq<Seq<char>>) -> Seq<Seq<char>>
    decreases lines.len(),
{
    if lines.len() == 0 {
        lines
    } else {
        let before = distinct(lines.drop_last());
        if before.contains(lines.last()) {
            before
        } else {
            before.push(lines.last())
        }
    }
}

/// `distinct` keeps exactly the lines of the list, each once.
pub proof fn lemma_distinct(lines: Seq<Seq<char>>)
    ensures
        distinct(lines).no_duplicates(),
        forall|line: Seq<char>|
            #![trigger distinct(lines).contains(line)]
            #![trigger lines.contains(line)]
            distinct(lines).contains(line) <==> lines.contains(line),
        distinct(lines).to_set() == lines.to_set(),
    decreases lines.len(),
{
    let out = distinct(lines);
    if lines.len() == 0 {
    } else {
        let front = lines.drop_last();
        let before = distinct(front);
        lemma_distinct(front);
        assert forall|line: Seq<char>| out.contains(line) <==> lines.contains(line) by {
            if out.contains(line) {
                let j = choose|j: int| 0 <= j < out.len() && out[j] == line;
                if j < before.len() {
                    assert(before[j] == line);
                    assert(before.contains(line));
                    let i = choose|i: int| 0 <= i < front.len() && front[i] == line;
                    assert(lines[i] == line);
                } else {
                    assert(lines[lines.len() - 1] == line);
                }
            }
            if lines.contains(line) {
                let i = choose|i: int| 0 <= i < lines.len() && lines[i] == line;
                if i < front.len() {
                    assert(front[i] == line);
                    assert(before.contains(line));
                    let j = choose|j: int| 0 <= j < before.len() && before[j] == line;
                    assert(out[j] == line);
                } else if before.contains(line) {
                    let j = choose|j: int| 0 <= j < before.len() && before[j] == line;
                    assert(out[j] == line);
                } else {
                    assert(out[out.len() - 1] == line);
                }
            }
        }
        if !before.contains(lines.last()) {
            assert forall|a: int, b: int|
                0 <= a < out.len() && 0 <= b < out.len() && a != b implies out[a] != out[b] by {
                if a < before.len() && b < before.len() {
                } else if a < before.len() {
                    assert(before.contains(out[a]));
                } else {
                    assert(before.contains(out[b]));
                }
            }
        }
    }
    assert(distinct(lines).to_set() =~= lines.to_set());
}

/// The list of failed bridges after a batch of new bridges was admitted: the
/// lines of both, each once, those already there first.
pub open spec fn admitted(failed: Seq<Seq<char>>, batch: Seq<Seq<char>>) -> Seq<Seq<char>> {
    distinct(failed + batch)
}

/// Whether `line` occurs in `lines`.
pub fn contains_line(lines: &Vec<String>, line: &String) -> (found: bool)
    ensures
        found == lines.deep_view().contains(line@),
{
    let mut i: usize = 0;
    while i < lines.len()
        invariant
            i <= lines.len(),
            forall|j: int| 0 <= j < i ==> lines.deep_view()[j] != line@,
        decreases lines.len() - i,
    {
        if lines[i] == *line {
            proof {
                assert(lines.deep_view()[i as int] == line@);
            }
            return true;
        }
        i += 1;
    }
    false
}

/// The lines of `failed` and of `batch`, each once, in the order of their
/// first occurrence.
pub fn merge_lines(failed: &Vec<String>, batch: &Vec<String>) -> (out: Vec<String>)
    ensures
        out.deep_view() == admitted(failed.deep_view(), batch.deep_view()),
{
    let ghost f = failed.deep_view();
    let ghost b = batch.deep_view();
    let mut out: Vec<String> = Vec::new();
    let mut i: usize = 0;
    proof {
        assert(out.deep_view() =~= distinct(f.take(0)));
    }
    while i < failed.len()
        invariant
            i <= failed.len(),
            f == failed.deep_view(),
            out.deep_view() == distinct(f.take(i as int)),
        decreases failed.len() - i,
    {
        proof {
            assert(f.take(i + 1).drop_last() =~= f.take(i as int));
            assert(f.take(i + 1).last() == failed@[i as int]@);
        }
        if !contains_line(&out, &failed[i]) {
            let ghost prev = out.deep_view();
            out.push(failed[i].clone());
            proof {
                assert(out.deep_view() =~= prev.push(failed@[i as int]@));
            }
        }
        i += 1;
    }
    let mut k: usize = 0;
    proof {
        assert(f.take(failed@.len() as int) =~= f);
        assert(f + b.take(0) =~= f);
    }
    while k < batch.len()
        invariant
            k <= batch.len(),
            f == failed.deep_view(),
            b == batch.deep_view(),
            out.deep_view() == distinct(f + b.take(k as int)),
        decreases batch.len() - k,
    {
        proof {
            assert((f + b.take(k + 1)).drop_last() =~= f + b.take(k as int));
            assert((f + b.take(k + 1)).last() == batch@[k as int]@);
        }
        if !contains_line(&out, &batch[k]) {
            let ghost prev = out.deep_view();
            out.push(batch[k].clone());
            proof {
                assert(out.deep_view() =~= prev.push(batch@[k as int]@));
            }
        }
        k += 1;
    }
    proof {
        assert(b.take(batch@.len() as int) =~= b);
    }
    out
}

/// The lines that a queue event carries: those of its batch, and none where
/// the wait ended otherwise.
pub open spec fn event_lines(event: QueueEvent<Vec<String>>) -> Seq<Seq<char>> {
    match event {
        QueueEvent::Batch(batch) => batch.deep_view(),
        _ => Seq::empty(),
    }
}

/// The state of the recovery prober: the bridges currently believed down, in
/// the order in which they are probed next.
pub struct Prober {
    failed: Vec<String>,
}

impl Prober {
    /// The bridges currently believed down.
    pub closed spec fn failed(&self) -> Seq<Seq<char>> {
        self.failed.deep_view()
    }

    /// A prober that starts from `initial_failed`.
    pub fn new(initial_failed: Vec<String>) -> (prober: Prober)
        ensures
            prober.failed() == initial_failed.deep_view(),
    {
        Prober { failed: initial_failed }
    }

    /// The bridges currently believed down.
    pub fn failed_lines(&self) -> (lines: &Vec<String>)
        ensures
            lines.deep_view() == self.failed(),
    {
        &self.failed
    }

    /// Begins a round: a pass of the probe executor over the bridges
    /// currently believed down.
    pub fn begin_round<C>(&self) -> (run: ProbeRun<C>)
        ensures
            run.wf(),
            run.lines() == self.failed(),
            run.cursor() == 0,
            run.absorbed().len() == 0,
    {
        ProbeRun::new(clone_lines(self.failed.as_slice()))
    }

    /// Ends a round: the bridges for which the pass holds an open channel
    /// leave the list, the others stay in their order. Hands back what the
    /// pass found: the results to publish and the channels to watch.
    ///
    /// Where the pass was the one begun by [`Prober::begin_round`] and has
    /// reported on every line, each bridge that was believed down has a
    /// result, and it stays on the list exactly if its result says that it is
    /// not functional.
    pub fn end_round<C>(&mut self, run: ProbeRun<C>) -> (out: (LineMap<BridgeResult>, LineMap<C>))
        requires
            run.wf(),
        ensures
            out.0.wf(),
            out.1.wf(),
            out.0.deep_view() == results_after(run.absorbed()),
            out.1@ == channels_after(run.absorbed()),
            final(self).failed() == old(self).failed().filter(
                lacks_channel(channels_after(run.absorbed())),
            ),
            forall|line: Seq<char>| #[trigger]
                out.0.deep_view().contains_key(line) ==> (out.0.deep_view()[line].error matches Some(
                    e,
                ) ==> is_flat(e)),
            run.lines() == old(self).failed() && run.cursor() == run.lines().len() ==> {
                &&& out.0.deep_view().dom() == old(self).failed().to_set()
                &&& forall|line: Seq<char>| #[trigger]
                    out.0.deep_view().contains_key(line) ==> (out.0.deep_view()[line].functional
                        <==> out.1@.contains_key(line))
                &&& forall|line: Seq<char>| #[trigger]
                    out.0.deep_view().contains_key(line) ==> (!out.0.deep_view()[line].functional
                        <==> final(self).failed().contains(line))
            },
    {
        proof {
            if run.lines() == self.failed() && run.cursor() == run.lines().len() {
                run.lemma_absorbed();
                lemma_round_keeps_order(Map::<Seq<char>, C>::empty(), self.failed(), run.absorbed());
                lemma_pass_covers(self.failed(), run.absorbed());
                assert(Map::<Seq<char>, C>::empty().union_prefer_right(
                    channels_after(run.absorbed()),
                ) =~= channels_after(run.absorbed()));
            }
        }
        let (results, channels) = run.finish();
        let still_failed = get_failed_bridges(self.failed.as_slice(), &channels);
        self.failed = still_failed;
        (results, channels)
    }

    /// Takes in what the wait on the queue of bridges that went down gave.
    ///
    /// A batch that holds lines goes to the front of the list, in its order,
    /// and the answer is `true`: wait once more. An empty batch says that
    /// nothing more is to come for now; it, and a wait that ended without a
    /// batch, change nothing and give `false`.
    pub fn on_failures(&mut self, event: QueueEvent<Vec<String>>) -> (again: bool)
        ensures
            again == (event_lines(event).len() > 0),
            final(self).failed() == event_lines(event) + old(self).failed(),
    {
        match event {
            QueueEvent::Batch(batch) => {
                if batch.len() == 0 {
                    proof {
                        assert(event_lines(event) + old(self).failed() =~= old(self).failed());
                    }
                    false
                } else {
                    let mut front = batch;
                    front.append(&mut self.failed);
                    proof {
                        assert(front.deep_view() =~= batch.deep_view() + old(self).failed());
                    }
                    self.failed = front;
                    true
                }
            },
            _ => {
                proof {
                    assert(event_lines(event) + old(self).failed() =~= old(self).failed());
                }
                false
            },
        }
    }

    /// Takes in what the wait on the queue of newly submitted bridges gave.
    ///
    /// A batch that holds lines is merged into the list as into a set: the
    /// list afterwards holds the lines of both, each once, and the answer is
    /// `true`: wait once more. An empty batch, and a wait that ended without a
    /// batch, change nothing and give `false`.
    pub fn on_new_bridges(&mut self, event: QueueEvent<Vec<String>>) -> (again: bool)
        ensures
            again == (event_lines(event).len() > 0),
            final(self).failed() == (if again {
                admitted(old(self).failed(), event_lines(event))
            } else {
                old(self).failed()
            }),
    {
        match event {
            QueueEvent::Batch(batch) => {
                if batch.len() == 0 {
                    false
                } else {
                    let merged = merge_lines(&self.failed, &batch);
                    self.failed = merged;
                    true
                }
            },
            _ => false,
        }
    }
}

/// Whether the results of a round are published: only where there are any.
pub fn should_publish(results: &LineMap<BridgeResult>) -> (publish: bool)
    requires
        results.wf(),
    ensures
        publish == (exists|line: Seq<char>| results.deep_view().contains_key(line)),
{
    proof {
        if results.keys().len() > 0 {
            results.lemma_entry(0);
            assert(results.deep_view().contains_key(results.keys()[0]));
        } else {
            results.lemma_dom();
        }
    }
    !results.is_empty()
}

} // verus!
