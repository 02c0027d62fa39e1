use bridge_checker::api::{
    admission_status, BridgesResult, UpdateCollector, STATUS_INTERNAL_SERVER_ERROR, STATUS_OK,
};
use bridge_checker::bridge_result::BridgeResult;
use bridge_checker::line_map::LineMap;
use bridge_checker::liveness::Watcher;
use bridge_checker::probe::{get_failed_bridges, ProbeReport, ProbeRun};
use bridge_checker::queue::{QueueEvent, QUEUE_CAPACITY, RECEIVE_TIMEOUT_SECS};
use bridge_checker::recovery::{contains_line, merge_lines, should_publish, Prober};
use bridge_checker::timestamp::Timestamp;

/// A stand-in for a channel: an id and whether it is closing.
#[derive(Debug, Clone, PartialEq)]
struct FakeChannel {
    id: u32,
    closing: bool,
}

fn lines(items: &[&str]) -> Vec<String> {
    items.iter().map(|s| s.to_string()).collect()
}

fn at(secs: i64) -> Timestamp {
    Timestamp::new(secs, 0)
}

fn open(line: &str, secs: i64, id: u32) -> ProbeReport<FakeChannel> {
    ProbeReport::opened(line.to_string(), at(secs), FakeChannel { id, closing: false })
}

fn poll(watcher: &Watcher<FakeChannel>) -> Vec<bool> {
    let online = watcher.watched();
    (0..online.len()).map(|i| online.value_at(i).closing).collect()
}

/// The steady state after the initial probe of A, B and BAD: A and B are up,
/// BAD is down.
fn steady_state() -> (Watcher<FakeChannel>, Prober, LineMap<BridgeResult>) {
    let input = lines(&["A", "B", "BAD"]);
    let mut run: ProbeRun<FakeChannel> = ProbeRun::new(input.clone());
    assert!(run.record(vec![
        open("A", 100, 1),
        open("B", 100, 2),
        ProbeReport::rejected("BAD".to_string(), at(100), "parse message"),
    ]));
    let (results, channels) = run.finish();
    let failed = get_failed_bridges(&input, &channels);
    (Watcher::new(channels), Prober::new(failed), results)
}

#[test]
fn initial_probe_gives_two_online_one_failed() {
    let (watcher, prober, results) = steady_state();
    assert_eq!(watcher.watched().len(), 2);
    assert!(watcher.watched().contains_key(&"A".to_string()));
    assert!(watcher.watched().contains_key(&"B".to_string()));
    assert_eq!(prober.failed_lines(), &lines(&["BAD"]));
    assert!(results.get(&"A".to_string()).unwrap().functional());
    assert!(results.get(&"B".to_string()).unwrap().functional());
    let bad = results.get(&"BAD".to_string()).unwrap();
    assert!(!bad.functional());
    assert_eq!(bad.error().map(|s| s.as_str()), Some("parse message"));
}

#[test]
fn liveness_loss_moves_bridge_to_failed_with_delta() {
    let (mut watcher, mut prober, _) = steady_state();
    // A's channel starts closing: the poll sees it.
    let closed = watcher.sweep(&vec![true, false]);
    assert_eq!(closed, lines(&["A"]));
    assert!(!watcher.watched().contains_key(&"A".to_string()));
    assert!(watcher.watched().contains_key(&"B".to_string()));
    // The prober hears of it, then of nothing more.
    assert!(prober.on_failures(QueueEvent::Batch(closed)));
    assert!(!prober.on_failures(QueueEvent::Batch(Vec::new())));
    assert_eq!(prober.failed_lines(), &lines(&["A", "BAD"]));
    // The next round probes A again and fails.
    let mut run: ProbeRun<FakeChannel> = prober.begin_round();
    assert!(run.record(vec![
        ProbeReport::failed("A".to_string(), at(200), "error: probe message"),
        ProbeReport::rejected("BAD".to_string(), at(200), "parse message"),
    ]));
    let (delta, channels) = prober.end_round(run);
    assert!(should_publish(&delta));
    let a = delta.get(&"A".to_string()).unwrap();
    assert!(!a.functional());
    assert_eq!(a.error().map(|s| s.as_str()), Some("probe message"));
    assert!(channels.is_empty());
    assert!(contains_line(prober.failed_lines(), &"A".to_string()));
}

#[test]
fn recovery_moves_bridge_online_with_delta() {
    let (mut watcher, mut prober, _) = steady_state();
    let mut run: ProbeRun<FakeChannel> = prober.begin_round();
    let tasks = run.window();
    assert_eq!(tasks.len(), 1);
    assert_eq!(tasks[0].line, "BAD");
    assert!(run.record(vec![open("BAD", 300, 3)]));
    let (delta, channels) = prober.end_round(run);
    assert!(delta.get(&"BAD".to_string()).unwrap().functional());
    assert!(prober.failed_lines().is_empty());
    assert!(watcher.on_now_online(QueueEvent::Batch(channels)));
    assert!(!watcher.on_now_online(QueueEvent::TimedOut));
    assert_eq!(watcher.watched().len(), 3);
    assert_eq!(watcher.watched().get(&"BAD".to_string()).map(|c| c.id), Some(3));
}

#[test]
fn hot_add_is_probed_in_next_round() {
    let (_watcher, mut prober, _) = steady_state();
    assert!(prober.on_new_bridges(QueueEvent::Batch(lines(&["C"]))));
    assert!(!prober.on_new_bridges(QueueEvent::TimedOut));
    assert_eq!(prober.failed_lines(), &lines(&["BAD", "C"]));
    let mut run: ProbeRun<FakeChannel> = prober.begin_round();
    let tasks: Vec<String> = run.window().into_iter().map(|t| t.line).collect();
    assert_eq!(tasks, lines(&["BAD", "C"]));
    assert!(run.record(vec![
        ProbeReport::rejected("BAD".to_string(), at(400), "parse message"),
        open("C", 400, 4),
    ]));
    let (delta, channels) = prober.end_round(run);
    let mut collector = UpdateCollector::new();
    assert!(collector.on_update(QueueEvent::Batch(delta)));
    assert!(!collector.on_update(QueueEvent::TimedOut));
    let reply = collector.finish();
    assert!(reply.error.is_none());
    assert!(reply.bridge_results.get(&"C".to_string()).unwrap().functional());
    assert!(channels.contains_key(&"C".to_string()));
    assert_eq!(prober.failed_lines(), &lines(&["BAD"]));
}

#[test]
fn last_tested_does_not_go_back_over_three_flips() {
    let mut watcher: Watcher<FakeChannel> = Watcher::new(LineMap::new());
    let mut prober = Prober::new(lines(&["A"]));
    let mut published = Vec::new();
    let mut clock = 1_000;
    for flip in 0..3 {
        // comes up
        clock += 10;
        let mut run: ProbeRun<FakeChannel> = prober.begin_round();
        assert!(run.record(vec![open("A", clock, flip)]));
        let (delta, channels) = prober.end_round(run);
        published.push(delta.get(&"A".to_string()).unwrap().last_tested());
        assert!(watcher.on_now_online(QueueEvent::Batch(channels)));
        // goes down
        let closed = watcher.sweep(&vec![true]);
        assert!(prober.on_failures(QueueEvent::Batch(closed)));
        clock += 10;
        let mut run: ProbeRun<FakeChannel> = prober.begin_round();
        assert!(run.record(vec![ProbeReport::failed(
            "A".to_string(),
            at(clock),
            "error: down"
        )]));
        let (delta, _) = prober.end_round(run);
        published.push(delta.get(&"A".to_string()).unwrap().last_tested());
    }
    assert_eq!(published.len(), 6);
    for pair in published.windows(2) {
        assert!(pair[0].is_at_or_before(&pair[1]));
    }
}

#[test]
fn online_and_failed_stay_disjoint_through_a_cycle() {
    let (mut watcher, mut prober, _) = steady_state();
    let check = |watcher: &Watcher<FakeChannel>, prober: &Prober| {
        for line in prober.failed_lines() {
            assert!(!watcher.watched().contains_key(line));
        }
        for line in ["A", "B", "BAD"] {
            let up = watcher.watched().contains_key(&line.to_string());
            let down = contains_line(prober.failed_lines(), &line.to_string());
            assert!(up != down);
        }
    };
    check(&watcher, &prober);
    let closed = watcher.sweep(&poll(&watcher));
    assert!(closed.is_empty());
    let closed = watcher.sweep(&vec![false, true]);
    prober.on_failures(QueueEvent::Batch(closed));
    check(&watcher, &prober);
    let mut run: ProbeRun<FakeChannel> = prober.begin_round();
    assert!(run.record(vec![
        open("B", 500, 5),
        ProbeReport::rejected("BAD".to_string(), at(500), "parse message"),
    ]));
    let (_, channels) = prober.end_round(run);
    watcher.on_now_online(QueueEvent::Batch(channels));
    check(&watcher, &prober);
}

#[test]
fn sweep_without_flags_keeps_everything() {
    let (mut watcher, _, _) = steady_state();
    assert!(watcher.sweep(&Vec::new()).is_empty());
    assert_eq!(watcher.watched().len(), 2);
    assert_eq!(watcher.sweep(&vec![true, true, true]), lines(&["A", "B"]));
    assert!(watcher.watched().is_empty());
}

#[test]
fn failures_go_to_the_front_in_order() {
    let mut prober = Prober::new(lines(&["X", "Y"]));
    assert!(prober.on_failures(QueueEvent::Batch(lines(&["A", "B"]))));
    assert_eq!(prober.failed_lines(), &lines(&["A", "B", "X", "Y"]));
    assert!(prober.on_failures(QueueEvent::Batch(lines(&["C"]))));
    assert_eq!(prober.failed_lines(), &lines(&["C", "A", "B", "X", "Y"]));
    assert!(!prober.on_failures(QueueEvent::Closed));
    assert!(!prober.on_failures(QueueEvent::Lagged));
    assert_eq!(prober.failed_lines(), &lines(&["C", "A", "B", "X", "Y"]));
}

#[test]
fn new_bridges_are_merged_as_a_set() {
    let mut prober = Prober::new(lines(&["X", "Y", "X"]));
    assert!(prober.on_new_bridges(QueueEvent::Batch(lines(&["Y", "N", "N", "M"]))));
    assert_eq!(prober.failed_lines(), &lines(&["X", "Y", "N", "M"]));
    assert!(!prober.on_new_bridges(QueueEvent::Batch(Vec::new())));
    assert!(!prober.on_new_bridges(QueueEvent::Closed));
    assert_eq!(prober.failed_lines(), &lines(&["X", "Y", "N", "M"]));
    assert_eq!(
        merge_lines(&lines(&["a", "b"]), &lines(&["b", "c", "a", "d"])),
        lines(&["a", "b", "c", "d"])
    );
}

#[test]
fn round_without_failed_bridges_publishes_nothing() {
    let mut prober = Prober::new(Vec::new());
    let run: ProbeRun<FakeChannel> = prober.begin_round();
    assert!(run.is_done());
    let (delta, channels) = prober.end_round(run);
    assert!(!should_publish(&delta));
    assert!(channels.is_empty());
}

#[test]
fn update_poll_ends_on_first_empty_batch() {
    let mut collector = UpdateCollector::new();
    let mut first: LineMap<BridgeResult> = LineMap::new();
    first.insert("A".to_string(), BridgeResult::from_probe(true, at(1), None));
    first.insert("B".to_string(), BridgeResult::from_probe(false, at(1), Some("x".to_string())));
    let mut second: LineMap<BridgeResult> = LineMap::new();
    second.insert("A".to_string(), BridgeResult::from_probe(false, at(2), None));
    assert!(collector.on_update(QueueEvent::Batch(first)));
    assert!(collector.on_update(QueueEvent::Batch(second)));
    assert!(!collector.on_update(QueueEvent::Batch(LineMap::new())));
    let reply = collector.finish();
    assert_eq!(reply.bridge_results.len(), 2);
    let a = reply.bridge_results.get(&"A".to_string()).unwrap();
    assert!(!a.functional());
    assert_eq!(a.last_tested(), at(2));
    assert!(!reply.bridge_results.get(&"B".to_string()).unwrap().functional());
}

#[test]
fn update_poll_ends_on_timeout_lag_or_close() {
    for event in [QueueEvent::TimedOut, QueueEvent::Closed, QueueEvent::Lagged] {
        let mut collector = UpdateCollector::new();
        assert!(!collector.on_update(event));
        assert!(collector.finish().bridge_results.is_empty());
    }
}

#[test]
fn admission_status_is_200_or_500() {
    assert_eq!(admission_status(true), 200);
    assert_eq!(admission_status(false), 500);
    assert_eq!(STATUS_OK, 200);
    assert_eq!(STATUS_INTERNAL_SERVER_ERROR, 500);
}

#[test]
fn replies_carry_results_or_the_bootstrap_error() {
    let (_, _, results) = steady_state();
    let reply = BridgesResult::probed(results);
    assert!(reply.error.is_none());
    assert_eq!(reply.bridge_results.len(), 3);
    let reply = BridgesResult::bootstrap_failed("error: could not start: error: no binary");
    assert!(reply.bridge_results.is_empty());
    assert_eq!(reply.error.as_deref(), Some("could not start: no binary"));
}

#[test]
fn engine_constants() {
    assert_eq!(RECEIVE_TIMEOUT_SECS, 1);
    assert_eq!(QUEUE_CAPACITY, 100);
}

#[test]
fn bridge_result_from_probe_drops_error_when_functional() {
    let r = BridgeResult::from_probe(true, at(5), Some("stale".to_string()));
    assert!(r.functional());
    assert_eq!(r.error(), None);
    let r = BridgeResult::from_probe(false, Timestamp::new(5, 7), Some("why".to_string()));
    let copy = r.clone();
    assert_eq!(copy.into_parts(), (false, Timestamp::new(5, 7), Some("why".to_string())));
    assert_eq!(r.last_tested().secs(), 5);
    assert_eq!(r.last_tested().nanos(), 7);
}

#[test]
fn timestamps_are_ordered_by_seconds_then_nanoseconds() {
    let a = Timestamp::new(1, 999_999_999);
    let b = Timestamp::new(2, 0);
    assert!(a.is_at_or_before(&b));
    assert!(!b.is_at_or_before(&a));
    assert!(a.is_at_or_before(&a));
    assert!(Timestamp::new(-5, 3).is_at_or_before(&Timestamp::new(-5, 4)));
}
