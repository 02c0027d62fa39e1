//! What the HTTP boundary decides: the body of a reply, when a poll for
//! updates ends, and the status of a submission.

use crate::bridge_result::{BridgeResult, BridgeResultView};
use crate::line_map::LineMap;
use crate::probe::{flatten_report, flattened, is_flat};
use crate::queue::QueueEvent;
use vstd::prelude::*;

verus! {

/// HTTP status of a reply that was produced.
pub const STATUS_OK: u16 = 200;

/// HTTP status of a submission that nobody was there to take.
pub const STATUS_INTERNAL_SERVER_ERROR: u16 = 500;

/// The body of a reply about bridge states: the results by bridge line, and
/// an error where the engine itself could not start.
pub struct BridgesResult {
    /// The results, by bridge line.
    pub bridge_results: LineMap<BridgeResult>,
    /// Why there are none, where the transport client could not start.
    pub error: Option<String>,
}

impl BridgesResult {
    /// The reply to an initial probe that ran: its results, whatever they say
    /// of the single bridges, and no error.
    pub fn probed(results: LineMap<BridgeResult>) -> (reply: BridgesResult)
        ensures
            reply.bridge_results == results,
            reply.error is None,
    {
        BridgesResult { bridge_results: results, error: None }
    }

    /// The reply where the transport client could not start: no results, and
    /// the error report, flattened. `report` is the error as the transport
    /// client reports it.
    pub fn bootstrap_failed(report: &str) -> (reply: BridgesResult)
        ensures
            reply.bridge_results.wf(),
            reply.bridge_results@ == Map::<Seq<char>, BridgeResult>::empty(),
            reply.error.deep_view() == Some(flattened(report@)),
            is_flat(flattened(report@)),
    {
        BridgesResult { bridge_results: LineMap::new(), error: Some(flatten_report(report)) }
    }
}

/// The results that a queue event carries: the binding of its batch, and none
/// where the wait ended otherwise.
pub open spec fn event_results(event: QueueEvent<LineMap<BridgeResult>>) -> Map<
    Seq<char>,
    BridgeResultView,
> {
    match event {
        QueueEvent::Batch(delta) => delta.deep_view(),
        _ => Map::empty(),
    }
}

/// One poll for updates: the results gathered from the update queue until
/// the queue has nothing more for now.
pub struct UpdateCollector {
    gathered: LineMap<BridgeResult>,
}

impl UpdateCollector {
    /// The results gathered so far, by bridge line.
    pub closed spec fn gathered(&self) -> Map<Seq<char>, BridgeResultView> {
        self.gathered.deep_view()
    }

    /// A collector is well formed: no bridge line is held twice.
    pub closed spec fn wf(&self) -> bool {
        self.gathered.wf()
    }

    /// A poll that has gathered nothing yet.
    pub fn new() -> (collector: UpdateCollector)
        ensures
            collector.wf(),
            collector.gathered() == Map::<Seq<char>, BridgeResultView>::empty(),
    {
        let collector = UpdateCollector { gathered: LineMap::new() };
        proof {
            assert(collector.gathered() =~= Map::<Seq<char>, BridgeResultView>::empty());
        }
        collector
    }

    /// Takes in what the wait on the update queue gave.
    ///
    /// The results of a batch that holds any replace what was gathered for
    /// their bridges, and the answer is `true`: wait once more. An empty
    /// batch, and a wait that ended without a batch, change nothing and give
    /// `false`: the poll is over.
    pub fn on_update(&mut self, event: QueueEvent<LineMap<BridgeResult>>) -> (again: bool)
        requires
            old(self).wf(),
            event matches QueueEvent::Batch(delta) ==> delta.wf(),
        ensures
            final(self).wf(),
            again == (exists|line: Seq<char>| event_results(event).contains_key(line)),
            final(self).gathered() == old(self).gathered().union_prefer_right(
                event_results(event),
            ),
    {
        match event {
            QueueEvent::Batch(delta) => {
                if delta.is_empty() {
                    proof {
                        delta.lemma_dom();
                        assert(self.gathered() =~= old(self).gathered().union_prefer_right(
                            event_results(event),
                        ));
                    }
                    false
                } else {
                    proof {
                        delta.lemma_entry(0);
                        assert(event_results(event).contains_key(delta.keys()[0]));
                    }
                    self.gathered.extend(delta);
                    proof {
                        assert(self.gathered() =~= old(self).gathered().union_prefer_right(
                            event_results(event),
                        ));
                    }
                    true
                }
            },
            _ => {
                proof {
                    assert(self.gathered() =~= old(self).gathered().union_prefer_right(
                        event_results(event),
                    ));
                }
                false
            },
        }
    }

    /// Ends the poll: the reply that holds what was gathered, and no error.
    pub fn finish(self) -> (reply: BridgesResult)
        requires
            self.wf(),
        ensures
            reply.bridge_results.wf(),
            reply.bridge_results.deep_view() == self.gathered(),
            reply.error is None,
    {
        BridgesResult { bridge_results: self.gathered, error: None }
    }
}

/// The HTTP status of a submission of new bridges: [`STATUS_OK`] where the
/// batch was handed to the intake queue, [`STATUS_INTERNAL_SERVER_ERROR`]
/// where no receiver was there to take it.
pub fn admission_status(delivered: bool) -> (status: u16)
    ensures
        status == (if delivered {
            STATUS_OK
        } else {
            STATUS_INTERNAL_SERVER_ERROR
        }),
{
    if delivered {
        STATUS_OK
    } else {
        STATUS_INTERNAL_SERVER_ERROR
    }
}

/// A copy of a map of results: the same results for the same bridge lines.
pub fn copy_results(results: &LineMap<BridgeResult>) -> (copy: LineMap<BridgeResult>)
    requires
        results.wf(),
    ensures
        copy.wf(),
        copy.keys() == results.keys(),
        copy.deep_view() == results.deep_view(),
{
    let copy = results.clone();
    proof {
        results.lemma_dom();
        copy.lemma_dom();
        assert forall|line: Seq<char>| results@.contains_key(line) implies copy@[line]@
            == results@[line]@ by {
            let i = choose|i: int| 0 <= i < results.keys().len() && results.keys()[i] == line;
            results.lemma_entry(i);
            copy.lemma_entry(i);
            assert(cloned::<BridgeResult>(results.values()[i], copy.values()[i]));
        }
        assert(copy.deep_view() =~= results.deep_view());
    }
    copy
}

} // verus!
