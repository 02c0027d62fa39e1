use bridge_checker::line_map::LineMap;
use bridge_checker::liveness::Watcher;
use bridge_checker::transport::{poll_channels, sweep_channels};
use std::sync::Arc;
use tor_proto::channel::Channel;

#[test]
fn watcher_without_channels_has_nothing_to_sweep() {
    let mut watcher: Watcher<Arc<Channel>> = Watcher::new(LineMap::new());
    assert!(poll_channels(&watcher).is_empty());
    assert!(sweep_channels(&mut watcher).is_empty());
    assert!(watcher.watched().is_empty());
}
