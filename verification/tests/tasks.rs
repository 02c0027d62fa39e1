//! The engine at work: its two tasks and their queues on a real runtime,
//! against a transport whose bridges do as they are told.

use bridge_checker::bridge_result::BridgeResult;
use bridge_checker::line_map::LineMap;
use bridge_checker::liveness::Watcher;
use bridge_checker::probe::{
    get_failed_bridges, ProbePlan, ProbeReport, ProbeRun, ProbeTask, MAX_CONNECTIONS,
};
use bridge_checker::queue::{QueueEvent, QUEUE_CAPACITY};
use bridge_checker::recovery::{should_publish, Prober};
use bridge_checker::timestamp::Timestamp;
use std::collections::{HashMap, HashSet};
use std::sync::{Arc, Mutex};
use std::time::{Duration, Instant, SystemTime, UNIX_EPOCH};
use tokio::sync::{broadcast, mpsc};

type Results = LineMap<BridgeResult>;
type Links = LineMap<Link>;

/// An open session to a bridge, as far as the engine can see it.
#[derive(Clone, Debug)]
struct Link {
    closing: Arc<Mutex<bool>>,
}

impl Link {
    fn is_closing(&self) -> bool {
        *self.closing.lock().unwrap()
    }
}

/// A transport whose bridges do as they are told.
#[derive(Clone)]
struct Facade {
    malformed: Arc<Mutex<HashSet<String>>>,
    refusing: Arc<Mutex<HashSet<String>>>,
    opened: Arc<Mutex<HashMap<String, Link>>>,
    in_flight: Arc<Mutex<usize>>,
    most_in_flight: Arc<Mutex<usize>>,
    handshake: Duration,
}

impl Facade {
    fn new(handshake: Duration) -> Self {
        Facade {
            malformed: Arc::new(Mutex::new(HashSet::new())),
            refusing: Arc::new(Mutex::new(HashSet::new())),
            opened: Arc::new(Mutex::new(HashMap::new())),
            in_flight: Arc::new(Mutex::new(0)),
            most_in_flight: Arc::new(Mutex::new(0)),
            handshake,
        }
    }

    fn set_malformed(&self, line: &str, malformed: bool) {
        let mut set = self.malformed.lock().unwrap();
        if malformed {
            set.insert(line.to_string());
        } else {
            set.remove(line);
        }
    }

    fn set_refusing(&self, line: &str, refusing: bool) {
        let mut set = self.refusing.lock().unwrap();
        if refusing {
            set.insert(line.to_string());
        } else {
            set.remove(line);
        }
    }

    /// Makes the channel last opened to `line` report that it is closing.
    fn close(&self, line: &str) {
        let opened = self.opened.lock().unwrap();
        *opened.get(line).unwrap().closing.lock().unwrap() = true;
    }

    fn plan(&self, line: &str) -> ProbePlan {
        if self.malformed.lock().unwrap().contains(line) {
            ProbePlan::Reject("error: parse message".to_string())
        } else {
            ProbePlan::Attempt
        }
    }

    async fn try_channel(&self, line: &str) -> Result<Link, String> {
        {
            let mut now = self.in_flight.lock().unwrap();
            *now += 1;
            let mut most = self.most_in_flight.lock().unwrap();
            if *now > *most {
                *most = *now;
            }
        }
        tokio::time::sleep(self.handshake).await;
        *self.in_flight.lock().unwrap() -= 1;
        if self.refusing.lock().unwrap().contains(line) {
            Err("error: probe message".to_string())
        } else {
            let channel = Link { closing: Arc::new(Mutex::new(false)) };
            self.opened.lock().unwrap().insert(line.to_string(), channel.clone());
            Ok(channel)
        }
    }
}

fn now() -> Timestamp {
    let since = SystemTime::now().duration_since(UNIX_EPOCH).unwrap();
    Timestamp::new(since.as_secs() as i64, since.subsec_nanos())
}

async fn wait_mpsc<T>(queue: &mut mpsc::Receiver<T>, wait: Duration) -> QueueEvent<T> {
    match tokio::time::timeout(wait, queue.recv()).await {
        Ok(Some(batch)) => QueueEvent::Batch(batch),
        Ok(None) => QueueEvent::Closed,
        Err(_) => QueueEvent::TimedOut,
    }
}

async fn wait_broadcast<T: Clone>(
    queue: &mut broadcast::Receiver<T>,
    wait: Duration,
) -> QueueEvent<T> {
    match tokio::time::timeout(wait, queue.recv()).await {
        Ok(Ok(batch)) => QueueEvent::Batch(batch),
        Ok(Err(broadcast::error::RecvError::Closed)) => QueueEvent::Closed,
        Ok(Err(broadcast::error::RecvError::Lagged(_))) => QueueEvent::Lagged,
        Err(_) => QueueEvent::TimedOut,
    }
}

async fn run_pass(mut run: ProbeRun<Link>, facade: &Facade) -> ProbeRun<Link> {
    while !run.is_done() {
        let tasks = run.window();
        assert!(tasks.len() <= MAX_CONNECTIONS);
        let mut lines = Vec::new();
        let mut handles = Vec::new();
        for task in tasks {
            let ProbeTask { line, plan: _ } = task;
            let probed = line.clone();
            let facade = facade.clone();
            lines.push(line);
            handles.push(tokio::spawn(async move {
                let current_time = now();
                match facade.plan(&probed) {
                    ProbePlan::Attempt => match facade.try_channel(&probed).await {
                        Ok(channel) => ProbeReport::opened(probed, current_time, channel),
                        Err(report) => ProbeReport::failed(probed, current_time, &report),
                    },
                    ProbePlan::Reject(reason) => {
                        ProbeReport::rejected(probed, current_time, &reason)
                    }
                }
            }));
        }
        let outcomes = futures::future::join_all(handles).await;
        let reports = lines
            .into_iter()
            .zip(outcomes)
            .map(|(line, outcome)| match outcome {
                Ok(report) => report,
                Err(_) => ProbeReport::crashed(line, now()),
            })
            .collect();
        assert!(run.record(reports));
    }
    run
}

async fn test_bridges(lines: &[String], facade: &Facade) -> (Results, Links) {
    run_pass(ProbeRun::new(lines.to_vec()), facade).await.finish()
}

async fn check_failed_bridges_task(
    initial_failed: Vec<String>,
    facade: Facade,
    now_online: mpsc::Sender<Links>,
    mut once_online: mpsc::Receiver<Vec<String>>,
    updates: broadcast::Sender<Results>,
    mut new_bridges: broadcast::Receiver<Vec<String>>,
    wait: Duration,
) {
    let mut prober = Prober::new(initial_failed);
    loop {
        let run = run_pass(prober.begin_round(), &facade).await;
        let (newresults, channels) = prober.end_round(run);
        if now_online.send(channels).await.is_err() {
            return;
        }
        while prober.on_failures(wait_mpsc(&mut once_online, wait).await) {}
        while prober.on_new_bridges(wait_broadcast(&mut new_bridges, wait).await) {}
        if should_publish(&newresults) && updates.send(newresults).is_err() {
            return;
        }
    }
}

async fn detect_bridges_going_down(
    initial_channels: Links,
    once_online: mpsc::Sender<Vec<String>>,
    mut now_online: mpsc::Receiver<Links>,
    wait: Duration,
) {
    let mut watcher = Watcher::new(initial_channels);
    loop {
        let closing: Vec<bool> = {
            let watched = watcher.watched();
            (0..watched.len()).map(|i| watched.value_at(i).is_closing()).collect()
        };
        let failed = watcher.sweep(&closing);
        if once_online.send(failed).await.is_err() {
            return;
        }
        while watcher.on_now_online(wait_mpsc(&mut now_online, wait).await) {}
    }
}

/// An engine that runs: the initial report, and the two ends that the
/// boundary holds.
struct Engine {
    runtime: tokio::runtime::Runtime,
    facade: Facade,
    initial: Results,
    online: Vec<String>,
    failed: Vec<String>,
    updates: broadcast::Receiver<Results>,
    new_bridges: broadcast::Sender<Vec<String>>,
}

const WAIT: Duration = Duration::from_millis(100);

fn start(lines: &[&str], facade: Facade) -> Engine {
    let runtime = tokio::runtime::Builder::new_multi_thread()
        .worker_threads(2)
        .enable_all()
        .build()
        .unwrap();
    let lines: Vec<String> = lines.iter().map(|l| l.to_string()).collect();
    let (initial, channels) = runtime.block_on(test_bridges(&lines, &facade));
    let failed = get_failed_bridges(&lines, &channels);
    let online: Vec<String> = (0..channels.len()).map(|i| channels.key_at(i).clone()).collect();
    let (updates_sender, updates) = broadcast::channel::<Results>(QUEUE_CAPACITY);
    let (new_bridges, new_bridges_receiver) = broadcast::channel::<Vec<String>>(QUEUE_CAPACITY);
    let (once_online_sender, once_online_recv) = mpsc::channel(QUEUE_CAPACITY);
    let (now_online_sender, now_online_recv) = mpsc::channel(QUEUE_CAPACITY);
    let watcher = detect_bridges_going_down(channels, once_online_sender, now_online_recv, WAIT);
    let prober = check_failed_bridges_task(
        failed.clone(),
        facade.clone(),
        now_online_sender,
        once_online_recv,
        updates_sender,
        new_bridges_receiver,
        WAIT,
    );
    runtime.spawn(futures::future::join(watcher, prober));
    Engine { runtime, facade, initial, online, failed, updates, new_bridges }
}

impl Engine {
    /// Waits for the next published delta that reports on `line`.
    fn next_delta_on(&mut self, line: &str) -> BridgeResult {
        let deadline = Instant::now() + Duration::from_secs(10);
        let key = line.to_string();
        loop {
            assert!(Instant::now() < deadline, "no delta on {} in time", line);
            let event = self.runtime.block_on(wait_broadcast(&mut self.updates, WAIT));
            if let QueueEvent::Batch(delta) = event {
                if let Some(result) = delta.get(&key) {
                    return result.clone();
                }
            }
        }
    }

    /// Waits until a delta says of `line` that it is, or is not, functional.
    fn wait_until(&mut self, line: &str, functional: bool) -> BridgeResult {
        let deadline = Instant::now() + Duration::from_secs(10);
        loop {
            assert!(Instant::now() < deadline, "{} did not change in time", line);
            let result = self.next_delta_on(line);
            if result.functional() == functional {
                return result;
            }
        }
    }

    fn stop(self) {
        self.runtime.shutdown_background();
    }
}

fn steady_engine() -> Engine {
    let facade = Facade::new(Duration::from_millis(5));
    facade.set_malformed("BAD", true);
    start(&["A", "B", "BAD"], facade)
}

#[test]
fn tasks_initial_probe_two_good_one_bad() {
    let engine = steady_engine();
    assert_eq!(engine.initial.len(), 3);
    for line in ["A", "B"] {
        let result = engine.initial.get(&line.to_string()).unwrap();
        assert!(result.functional());
        assert_eq!(result.error(), None);
    }
    let bad = engine.initial.get(&"BAD".to_string()).unwrap();
    assert!(!bad.functional());
    assert_eq!(bad.error().map(|e| e.as_str()), Some("parse message"));
    assert_eq!(engine.online, vec!["A".to_string(), "B".to_string()]);
    assert_eq!(engine.failed, vec!["BAD".to_string()]);
    engine.stop();
}

#[test]
fn tasks_publish_liveness_loss() {
    let mut engine = steady_engine();
    engine.facade.set_refusing("A", true);
    engine.facade.close("A");
    let a = engine.wait_until("A", false);
    assert_eq!(a.error().map(|e| e.as_str()), Some("probe message"));
    // A stays among the failed bridges: every later round reports on it again.
    let again = engine.next_delta_on("A");
    assert!(!again.functional());
    engine.stop();
}

#[test]
fn tasks_publish_recovery() {
    let mut engine = steady_engine();
    engine.facade.set_refusing("A", true);
    engine.facade.close("A");
    engine.wait_until("A", false);
    engine.facade.set_malformed("BAD", false);
    let bad = engine.wait_until("BAD", true);
    assert_eq!(bad.error(), None);
    // BAD is online now: the rounds no longer report on it, while A is still probed.
    engine.next_delta_on("A");
    let deadline = Instant::now() + Duration::from_secs(2);
    while Instant::now() < deadline {
        let event = engine.runtime.block_on(wait_broadcast(&mut engine.updates, WAIT));
        if let QueueEvent::Batch(delta) = event {
            assert!(!delta.contains_key(&"BAD".to_string()));
        }
    }
    engine.stop();
}

#[test]
fn tasks_probe_hot_added_bridge() {
    let mut engine = steady_engine();
    engine.new_bridges.send(vec!["C".to_string()]).unwrap();
    let c = engine.next_delta_on("C");
    assert!(c.functional());
    assert_eq!(c.error(), None);
    engine.stop();
}

#[test]
fn tasks_keep_fan_out_within_cap() {
    let facade = Facade::new(Duration::from_millis(200));
    let lines: Vec<String> = (0..50).map(|i| format!("bridge-{}", i)).collect();
    let runtime = tokio::runtime::Builder::new_multi_thread()
        .worker_threads(2)
        .enable_all()
        .build()
        .unwrap();
    let began = Instant::now();
    let (results, channels) = runtime.block_on(test_bridges(&lines, &facade));
    let took = began.elapsed();
    assert_eq!(results.len(), 50);
    assert_eq!(channels.len(), 50);
    let most = *facade.most_in_flight.lock().unwrap();
    assert!(most <= MAX_CONNECTIONS, "{} handshakes in flight", most);
    assert!(most > 1, "the handshakes of a window run side by side");
    assert!(took >= Duration::from_millis(1000), "took {:?}", took);
    assert!(took < Duration::from_secs(10), "took {:?}", took);
}

#[test]
fn tasks_never_set_last_tested_back() {
    let mut engine = steady_engine();
    let mut published = vec![engine.initial.get(&"A".to_string()).unwrap().last_tested()];
    for _ in 0..3 {
        engine.facade.set_refusing("A", true);
        engine.facade.close("A");
        published.push(engine.wait_until("A", false).last_tested());
        engine.facade.set_refusing("A", false);
        published.push(engine.wait_until("A", true).last_tested());
    }
    assert_eq!(published.len(), 7);
    for pair in published.windows(2) {
        assert!(pair[0].is_at_or_before(&pair[1]));
    }
    engine.stop();
}

#[test]
fn tasks_report_parse_failure_the_same_every_round() {
    let mut engine = steady_engine();
    let first = engine.next_delta_on("BAD");
    let second = engine.next_delta_on("BAD");
    for result in [first, second] {
        assert!(!result.functional());
        assert_eq!(result.error().map(|e| e.as_str()), Some("parse message"));
    }
    assert!(engine.facade.opened.lock().unwrap().get("BAD").is_none());
    engine.stop();
}
