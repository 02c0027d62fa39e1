//! The watcher at work on the channels of the Tor transport client.

use crate::line_map::select;
use crate::liveness::Watcher;
use std::sync::Arc;
use tor_proto::channel::Channel;
use vstd::prelude::*;

verus! {

/// A channel of tor-proto: an open session to a relay or bridge. Opaque here.
#[verifier::external_type_specification]
#[verifier::external_body]
pub struct ExChannel(tor_proto::channel::Channel);

/// `Channel::is_closing` of tor-proto: whether the channel is closed and
/// therefore unusable. The answer depends on what has happened on the network,
/// so nothing is claimed of it.
#[verifier::external_body]
fn channel_is_closing(channel: &Channel) -> (closing: bool) {
    channel.is_closing()
}

/// Asks each watched channel, in order, whether it is closing.
pub fn poll_channels(watcher: &Watcher<Arc<Channel>>) -> (closing: Vec<bool>)
    ensures
        closing@.len() == watcher.lines().len(),
{
    let online = watcher.watched();
    let mut closing: Vec<bool> = Vec::new();
    let n = online.len();
    let mut i: usize = 0;
    while i < n
        invariant
            i <= n,
            n == online.values().len(),
            n == watcher.lines().len(),
            closing@.len() == i,
        decreases n - i,
    {
        let channel = online.value_at(i);
        closing.push(channel_is_closing(channel));
        i += 1;
    }
    closing
}

/// One poll of the watcher: asks each watched channel whether it is closing,
/// drops those that are, and hands back their bridge lines, in order, to be
/// sent to the recovery prober.
pub fn sweep_channels(watcher: &mut Watcher<Arc<Channel>>) -> (closed: Vec<String>)
    requires
        old(watcher).wf(),
    ensures
        final(watcher).wf(),
        exists|closing: Seq<bool>|
            {
                &&& closing.len() == old(watcher).lines().len()
                &&& final(watcher).lines() == select(old(watcher).lines(), closing, false)
                &&& final(watcher).channels() == select(old(watcher).channels(), closing, false)
                &&& closed.deep_view() == select(old(watcher).lines(), closing, true)
            },
{
    let closing = poll_channels(watcher);
    let closed = watcher.sweep(&closing);
    proof {
        let flags = closing@;
        assert({
            &&& flags.len() == old(watcher).lines().len()
            &&& final(watcher).lines() == select(old(watcher).lines(), flags, false)
            &&& final(watcher).channels() == select(old(watcher).channels(), flags, false)
            &&& closed.deep_view() == select(old(watcher).lines(), flags, true)
        });
    }
    closed
}

} // verus!
