//! What holds of the engine whatever the bridges do.
//!
//! The watcher and the prober each keep their own state and talk through
//! queues. The statements here are about the two states seen together: the
//! bridges believed up (`online`, the watcher's) and the bridges believed down
//! (`failed`, the prober's), and about what a pass of the probe executor
//! reports.

use crate::line_map::{flagged, lemma_select, select};
use crate::probe::{
    bridge_line_defect, channels_after, flattened, lacks_channel, last_report_on,
    lemma_last_report_decides, lemma_pass_coherent, lemma_pass_covers, reported,
    results_after, ReportView,
};
use crate::recovery::{admitted, lemma_distinct};
use vstd::prelude::*;

verus! {

/// The result that a pass holds for a line carries the time of a probe of
/// that line, so it is no older than the clock was when the pass began: if
/// every probe of a second pass began no earlier than every probe of the
/// first, no line's `last_tested` goes back from the first pass to the second.
pub proof fn lemma_last_tested_monotone<C>(
    first: Seq<ReportView<C>>,
    second: Seq<ReportView<C>>,
    line: Seq<char>,
)
    requires
        forall|i: int, j: int|
            0 <= i < first.len() && 0 <= j < second.len() ==> (#[trigger] first[i]).time.at_or_before(
                (#[trigger] second[j]).time,
            ),
        results_after(first).contains_key(line),
        results_after(second).contains_key(line),
    ensures
        results_after(first)[line].last_tested.at_or_before(
            results_after(second)[line].last_tested,
        ),
{
    lemma_last_report_decides(first, line);
    lemma_last_report_decides(second, line);
    let i = last_report_on(first, line);
    let j = last_report_on(second, line);
    assert(first[i].time.at_or_before(second[j].time));
}

/// A line that the parser refuses gets the same answer every time: whenever
/// the reports on it are rejections with the parser's objection, the pass
/// says of it that it is not functional, with that objection, flattened, as
/// the error, and holds no channel for it.
pub proof fn lemma_malformed_line_stable<C>(reports: Seq<ReportView<C>>, line: Seq<char>)
    requires
        bridge_line_defect(line) is Some,
        reported(reports, line),
        forall|i: int|
            0 <= i < reports.len() && (#[trigger] reports[i]).line == line ==> reports[i].channel
                is None && reports[i].error == Some(flattened(bridge_line_defect(line)->0)),
    ensures
        !results_after(reports)[line].functional,
        results_after(reports)[line].error == Some(flattened(bridge_line_defect(line)->0)),
        !channels_after(reports).contains_key(line),
{
    lemma_last_report_decides(reports, line);
}

/// The two states seen together are in order: no bridge is believed up and
/// down at once.
pub open spec fn apart<C>(online: Map<Seq<char>, C>, failed: Seq<Seq<char>>) -> bool {
    forall|line: Seq<char>| !(online.contains_key(line) && failed.contains(line))
}

/// The bridges that the engine knows of: those believed up and those believed
/// down.
pub open spec fn admitted_lines<C>(online: Map<Seq<char>, C>, failed: Seq<Seq<char>>) -> Set<
    Seq<char>,
> {
    online.dom().union(failed.to_set())
}

/// A round of the recovery prober, with its channels handed to the watcher,
/// keeps the two states apart and loses no bridge.
///
/// The round is a pass over the bridges believed down. Afterwards each of
/// them is in exactly one state: believed up if the pass holds a channel for
/// it, and then its result says `functional`; believed down otherwise, and
/// then its result says not.
pub proof fn lemma_round_keeps_order<C>(
    online: Map<Seq<char>, C>,
    failed: Seq<Seq<char>>,
    reports: Seq<ReportView<C>>,
)
    requires
        apart(online, failed),
        reports.len() == failed.len(),
        forall|i: int| 0 <= i < failed.len() ==> (#[trigger] reports[i]).line == failed[i],
    ensures
        ({
            let channels = channels_after(reports);
            let results = results_after(reports);
            let online_next = online.union_prefer_right(channels);
            let failed_next = failed.filter(lacks_channel(channels));
            &&& apart(online_next, failed_next)
            &&& admitted_lines(online_next, failed_next) == admitted_lines(online, failed)
            &&& forall|line: Seq<char>| #[trigger]
                results.contains_key(line) ==> (results[line].functional
                    <==> online_next.contains_key(line))
            &&& forall|line: Seq<char>| #[trigger]
                results.contains_key(line) ==> (!results[line].functional
                    <==> failed_next.contains(line))
        }),
{
    let channels = channels_after(reports);
    let results = results_after(reports);
    let online_next = online.union_prefer_right(channels);
    let pred = lacks_channel(channels);
    let failed_next = failed.filter(pred);
    lemma_pass_covers(failed, reports);
    lemma_pass_coherent(reports);
    assert forall|line: Seq<char>| failed_next.contains(line) <==> (failed.contains(line)
        && !channels.contains_key(line)) by {
        if failed_next.contains(line) {
            let j = choose|j: int| 0 <= j < failed_next.len() && failed_next[j] == line;
            failed.lemma_filter_pred(pred, j);
            failed.lemma_filter_contains_rev(pred, line);
        }
        if failed.contains(line) && !channels.contains_key(line) {
            let i = choose|i: int| 0 <= i < failed.len() && failed[i] == line;
            assert(pred(failed[i]));
            failed.lemma_filter_contains(pred, i);
        }
    }
    assert forall|line: Seq<char>| !(online_next.contains_key(line) && failed_next.contains(
        line,
    )) by {
        if online_next.contains_key(line) && failed_next.contains(line) {
            assert(online.contains_key(line) || channels.contains_key(line));
            assert(failed.contains(line));
        }
    }
    assert forall|line: Seq<char>| admitted_lines(online_next, failed_next).contains(line)
        <==> admitted_lines(online, failed).contains(line) by {
        if channels.contains_key(line) {
            assert(failed.to_set().contains(line));
        }
    }
    assert(admitted_lines(online_next, failed_next) =~= admitted_lines(online, failed));
    assert forall|line: Seq<char>| #[trigger]
        results.contains_key(line) implies (results[line].functional
        <==> online_next.contains_key(line)) by {
        assert(failed.to_set().contains(line));
        assert(failed.contains(line));
        assert(!online.contains_key(line));
    }
    assert forall|line: Seq<char>| #[trigger]
        results.contains_key(line) implies (!results[line].functional <==> failed_next.contains(
        line,
    )) by {
        assert(failed.to_set().contains(line));
        assert(failed.contains(line));
    }
}

/// A poll of the watcher, with the bridges found closing handed to the
/// prober, keeps the two states apart and loses no bridge: a bridge whose
/// channel was found closing is believed down afterwards, the others stay
/// where they were.
pub proof fn lemma_sweep_keeps_order<C>(
    online: Map<Seq<char>, C>,
    failed: Seq<Seq<char>>,
    closed: Seq<Seq<char>>,
)
    requires
        apart(online, failed),
        forall|i: int| 0 <= i < closed.len() ==> online.contains_key(#[trigger] closed[i]),
    ensures
        ({
            let online_next = online.remove_keys(closed.to_set());
            let failed_next = closed + failed;
            &&& apart(online_next, failed_next)
            &&& admitted_lines(online_next, failed_next) == admitted_lines(online, failed)
            &&& forall|i: int|
                0 <= i < closed.len() ==> !online_next.contains_key(#[trigger] closed[i])
                    && failed_next.contains(closed[i])
        }),
{
    let online_next = online.remove_keys(closed.to_set());
    let failed_next = closed + failed;
    assert forall|line: Seq<char>| failed_next.contains(line) <==> (closed.contains(line)
        || failed.contains(line)) by {
        if failed_next.contains(line) {
            let j = choose|j: int| 0 <= j < failed_next.len() && failed_next[j] == line;
            if j < closed.len() {
                assert(closed[j] == line);
            } else {
                assert(failed[j - closed.len()] == line);
            }
        }
        if closed.contains(line) {
            let j = choose|j: int| 0 <= j < closed.len() && closed[j] == line;
            assert(failed_next[j] == line);
        }
        if failed.contains(line) {
            let j = choose|j: int| 0 <= j < failed.len() && failed[j] == line;
            assert(failed_next[closed.len() + j] == line);
        }
    }
    assert forall|line: Seq<char>| !(online_next.contains_key(line) && failed_next.contains(
        line,
    )) by {}
    assert forall|line: Seq<char>| admitted_lines(online_next, failed_next).contains(line)
        <==> admitted_lines(online, failed).contains(line) by {
        if closed.contains(line) {
            let j = choose|j: int| 0 <= j < closed.len() && closed[j] == line;
            assert(online.contains_key(closed[j]));
        }
    }
    assert(admitted_lines(online_next, failed_next) =~= admitted_lines(online, failed));
    assert forall|i: int| 0 <= i < closed.len() implies !online_next.contains_key(
        #[trigger] closed[i],
    ) && failed_next.contains(closed[i]) by {
        assert(closed.contains(closed[i]));
    }
}

/// Admitting a batch of new bridges, none of which is believed up, keeps the
/// two states apart: every line of the batch is believed down afterwards, no
/// line twice, and nothing else changes.
pub proof fn lemma_admission_keeps_order<C>(
    online: Map<Seq<char>, C>,
    failed: Seq<Seq<char>>,
    batch: Seq<Seq<char>>,
)
    requires
        apart(online, failed),
        forall|i: int| 0 <= i < batch.len() ==> !online.contains_key(#[trigger] batch[i]),
    ensures
        apart(online, admitted(failed, batch)),
        admitted(failed, batch).no_duplicates(),
        admitted(failed, batch).to_set() == failed.to_set().union(batch.to_set()),
        forall|i: int| 0 <= i < batch.len() ==> admitted(failed, batch).contains(#[trigger] batch[i]),
{
    let all = failed + batch;
    lemma_distinct(all);
    assert forall|line: Seq<char>| all.contains(line) <==> (failed.contains(line)
        || batch.contains(line)) by {
        if all.contains(line) {
            let j = choose|j: int| 0 <= j < all.len() && all[j] == line;
            if j < failed.len() {
                assert(failed[j] == line);
            } else {
                assert(batch[j - failed.len()] == line);
            }
        }
        if failed.contains(line) {
            let j = choose|j: int| 0 <= j < failed.len() && failed[j] == line;
            assert(all[j] == line);
        }
        if batch.contains(line) {
            let j = choose|j: int| 0 <= j < batch.len() && batch[j] == line;
            assert(all[failed.len() + j] == line);
        }
    }
    assert forall|line: Seq<char>| !(online.contains_key(line) && admitted(failed, batch).contains(
        line,
    )) by {
        if online.contains_key(line) && admitted(failed, batch).contains(line) {
            assert(all.contains(line));
            if batch.contains(line) {
                let j = choose|j: int| 0 <= j < batch.len() && batch[j] == line;
                assert(!online.contains_key(batch[j]));
            }
        }
    }
    assert(admitted(failed, batch).to_set() =~= failed.to_set().union(batch.to_set()));
    assert forall|i: int| 0 <= i < batch.len() implies admitted(failed, batch).contains(
        #[trigger] batch[i],
    ) by {
        assert(batch.contains(batch[i]));
        assert(all.contains(batch[i]));
    }
}

/// A bridge believed down whose handshake succeeds comes up within the round:
/// if the last report of the round on it has a channel, the round hands that
/// channel to the watcher, holds a result for the bridge that says
/// `functional` (so there is something to publish), and no longer lists the
/// bridge as down.
pub proof fn lemma_recovery_within_round<C>(
    failed: Seq<Seq<char>>,
    reports: Seq<ReportView<C>>,
    line: Seq<char>,
)
    requires
        reported(reports, line),
        reports[last_report_on(reports, line)].channel is Some,
    ensures
        channels_after(reports).contains_key(line),
        Some(channels_after(reports)[line]) == reports[last_report_on(reports, line)].channel,
        results_after(reports).contains_key(line),
        results_after(reports)[line].functional,
        results_after(reports)[line].error is None,
        !failed.filter(lacks_channel(channels_after(reports))).contains(line),
{
    lemma_last_report_decides(reports, line);
    let channels = channels_after(reports);
    let pred = lacks_channel(channels);
    let next = failed.filter(pred);
    if next.contains(line) {
        let j = choose|j: int| 0 <= j < next.len() && next[j] == line;
        failed.lemma_filter_pred(pred, j);
    }
}

/// A bridge whose channel is found closing is probed again in the next round:
/// once the poll has handed its line to the prober, a pass over the bridges
/// then believed down holds a result for it.
pub proof fn lemma_closed_bridge_is_probed<C>(
    watched: Seq<Seq<char>>,
    closing: Seq<bool>,
    failed: Seq<Seq<char>>,
    reports: Seq<ReportView<C>>,
    i: int,
)
    requires
        0 <= i < watched.len(),
        flagged(closing, i),
        reports.len() == (select(watched, closing, true) + failed).len(),
        forall|k: int|
            0 <= k < reports.len() ==> (#[trigger] reports[k]).line == (select(
                watched,
                closing,
                true,
            ) + failed)[k],
    ensures
        watched.no_duplicates() ==> !select(watched, closing, false).contains(watched[i]),
        (select(watched, closing, true) + failed).contains(watched[i]),
        results_after(reports).contains_key(watched[i]),
{
    let closed = select(watched, closing, true);
    let next = closed + failed;
    lemma_select(watched, closing, true);
    lemma_select(watched, closing, false);
    assert(closed.contains(watched[i]));
    let j = choose|j: int| 0 <= j < closed.len() && closed[j] == watched[i];
    assert(next[j] == watched[i]);
    lemma_pass_covers(next, reports);
    assert(next.to_set().contains(watched[i]));
    if watched.no_duplicates() && select(watched, closing, false).contains(watched[i]) {
        let a = choose|a: int|
            0 <= a < watched.len() && #[trigger] watched[a] == watched[i] && flagged(closing, a)
                == false;
        assert(a != i);
    }
}

/// A bridge that is submitted while the engine runs is probed in the next
/// round: once its batch is admitted, a pass over the bridges then believed
/// down holds a result for it.
pub proof fn lemma_admitted_bridge_is_probed<C>(
    failed: Seq<Seq<char>>,
    batch: Seq<Seq<char>>,
    reports: Seq<ReportView<C>>,
    i: int,
)
    requires
        0 <= i < batch.len(),
        reports.len() == admitted(failed, batch).len(),
        forall|k: int|
            0 <= k < reports.len() ==> (#[trigger] reports[k]).line == admitted(failed, batch)[k],
    ensures
        admitted(failed, batch).contains(batch[i]),
        results_after(reports).contains_key(batch[i]),
{
    let all = failed + batch;
    lemma_distinct(all);
    assert(all[failed.len() + i] == batch[i]);
    assert(all.contains(batch[i]));
    lemma_pass_covers(admitted(failed, batch), reports);
    assert(admitted(failed, batch).to_set().contains(batch[i]));
}

} // verus!
