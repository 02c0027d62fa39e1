//! The liveness watcher: the channels currently believed open, and what each
//! poll and each message from the recovery prober does to them.

use crate::line_map::{lemma_select, select, LineMap};
use crate::queue::QueueEvent;
use vstd::prelude::*;

verus! {

/// The state of the liveness watcher: the bridges currently believed up, each
/// with its channel. `C` is whatever the transport client hands out as a
/// channel; the watcher never looks inside one.
pub struct Watcher<C> {
    online: LineMap<C>,
}

impl<C> Watcher<C> {
    /// The bridges currently believed up, in the order in which a poll walks
    /// them.
    pub closed spec fn lines(&self) -> Seq<Seq<char>> {
        self.online.keys()
    }

    /// The channels of the bridges currently believed up, each at the index of
    /// its bridge.
    pub closed spec fn channels(&self) -> Seq<C> {
        self.online.values()
    }

    /// The bridges currently believed up, each with its channel.
    pub closed spec fn online(&self) -> Map<Seq<char>, C> {
        self.online@
    }

    /// No bridge is watched twice.
    pub closed spec fn wf(&self) -> bool {
        self.online.wf()
    }

    /// A watcher that starts from `initial_channels`.
    pub fn new(initial_channels: LineMap<C>) -> (watcher: Self)
        requires
            initial_channels.wf(),
        ensures
            watcher.wf(),
            watcher.lines() == initial_channels.keys(),
            watcher.channels() == initial_channels.values(),
            watcher.online() == initial_channels@,
    {
        Watcher { online: initial_channels }
    }

    /// The bridges currently believed up, each with its channel.
    pub fn watched(&self) -> (map: &LineMap<C>)
        ensures
            map.keys() == self.lines(),
            map.values() == self.channels(),
            map@ == self.online(),
            self.wf() ==> map.wf(),
    {
        &self.online
    }

    /// Takes in a poll of the channels: `closing` holds, for each watched
    /// bridge in order, whether its channel was found closing. A bridge for
    /// which `closing` holds nothing counts as open.
    ///
    /// The bridges found closing leave the watcher, and their channels are
    /// dropped; their lines are handed back, in order, to be sent to the
    /// recovery prober. The others stay as they are.
    pub fn sweep(&mut self, closing: &Vec<bool>) -> (closed: Vec<String>)
        requires
            old(self).wf(),
        ensures
            final(self).wf(),
            final(self).lines() == select(old(self).lines(), closing@, false),
            final(self).channels() == select(old(self).channels(), closing@, false),
            closed.deep_view() == select(old(self).lines(), closing@, true),
            final(self).online() == old(self).online().remove_keys(closed.deep_view().to_set()),
            forall|i: int|
                0 <= i < closed.deep_view().len() ==> old(self).online().contains_key(
                    #[trigger] closed.deep_view()[i],
                ),
    {
        let mut online = LineMap::new();
        std::mem::swap(&mut online, &mut self.online);
        let (still_open, gone) = online.partition(closing);
        self.online = still_open;
        let (closed, _channels) = gone.into_parts();
        proof {
            lemma_select(old(self).lines(), closing@, true);
            old(self).online.lemma_dom();
            assert forall|i: int| 0 <= i < closed.deep_view().len() implies old(
                self,
            ).online().contains_key(#[trigger] closed.deep_view()[i]) by {
                assert(select(old(self).lines(), closing@, true).contains(closed.deep_view()[i]));
            }
        }
        closed
    }

    /// Takes in what the wait on the queue of bridges that came up gave.
    ///
    /// The channels of a batch are watched from now on, each in place of the
    /// channel that its bridge had before, if it had one; the answer is
    /// `true`: wait once more. A wait that ended without a batch changes
    /// nothing and gives `false`.
    pub fn on_now_online(&mut self, event: QueueEvent<LineMap<C>>) -> (again: bool)
        requires
            old(self).wf(),
            event matches QueueEvent::Batch(batch) ==> batch.wf(),
        ensures
            final(self).wf(),
            again == event.is_batch(),
            final(self).online() == (match event {
                QueueEvent::Batch(batch) => old(self).online().union_prefer_right(batch@),
                _ => old(self).online(),
            }),
    {
        match event {
            QueueEvent::Batch(batch) => {
                self.online.extend(batch);
                true
            },
            _ => false,
        }
    }
}

} // verus!
