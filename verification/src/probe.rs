//! The probe executor: one pass over a list of bridge lines, at most
//! [`MAX_CONNECTIONS`] handshakes at a time.
//!
//! The handshakes themselves are the caller's work. This module decides which
//! lines are attempted at all, in which windows, and what the pass reports
//! once the outcomes are in.

use crate::bridge_result::{probe_result, BridgeResult, BridgeResultView};
use crate::line_map::LineMap;
use crate::text::{
    from_chars, is_line_break, is_one_line, join_lines, lemma_purged, occurs, occurs_at,
    on_one_line, purge, purged, to_chars,
};
use crate::timestamp::Timestamp;
use tor_error::ErrorReport;
use tor_guardmgr::bridge::BridgeConfigBuilder;
use vstd::prelude::*;

verus! {

/// Largest number of handshakes that may be in flight at once.
pub const MAX_CONNECTIONS: usize = 10;

/// What tor-guardmgr's bridge-line parser objects to in `line`: `None` where
/// the line parses, else the parser's error as tor-error reports it.
pub uninterp spec fn bridge_line_defect(line: Seq<char>) -> Option<Seq<char>>;

/// Parses `line` with `BridgeConfigBuilder::from_str` of tor-guardmgr and, where
/// that fails, renders the error with `ErrorReport::report` of tor-error.
///
/// Trusted: that the outcome depends on the characters of `line` alone, so
/// that it can be named by [`bridge_line_defect`]. Nothing is claimed about
/// which lines parse or what the error says.
#[verifier::external_body]
fn line_defect(line: &str) -> (defect: Option<String>)
    ensures
        defect.deep_view() == bridge_line_defect(line@),
{
    match line.parse::<BridgeConfigBuilder>() {
        Ok(_) => None,
        Err(e) => Some(e.report().to_string()),
    }
}

/// An error report as it is shown to callers: put on one line, and with
/// `"error: "` taken out until it occurs no more.
pub open spec fn flattened(report: Seq<char>) -> Seq<char> {
    purged(on_one_line(report), "error: "@)
}

/// An error text is fit to be shown: it is on one line and `"error: "`
/// occurs nowhere in it.
pub open spec fn is_flat(text: Seq<char>) -> bool {
    is_one_line(text) && !occurs(text, "error: "@)
}

/// Flattens an error report: puts it on one line and takes `"error: "` out of
/// it until it occurs no more.
pub fn flatten_report(report: &str) -> (out: String)
    ensures
        out@ == flattened(report@),
        is_flat(out@),
{
    let chars = to_chars(report);
    let prefix = to_chars("error: ");
    let joined = join_lines(&chars);
    let kept = purge(&joined, &prefix);
    let out = from_chars(&kept, 0, kept.len());
    proof {
        reveal_strlit("error: ");
        lemma_purged(joined@, prefix@);
        assert(kept@.subrange(0, kept@.len() as int) =~= kept@);
        assert forall|i: int| 0 <= i < kept@.len() implies !is_line_break(#[trigger] kept@[i]) by {
            assert(kept@.contains(kept@[i]));
            let j = choose|j: int| 0 <= j < joined@.len() && joined@[j] == kept@[i];
            assert(!is_line_break(joined@[j]));
        }
    }
    out
}

/// What is to be done about one bridge line.
pub enum ProbePlan {
    /// The line parses: a handshake is to be attempted.
    Attempt,
    /// The line does not parse: no handshake. This is what the parser objects
    /// to, as it was reported.
    Reject(String),
}

impl DeepView for ProbePlan {
    type V = Option<Seq<char>>;

    /// `None` for an attempt, else the parser's objection.
    open spec fn deep_view(&self) -> Option<Seq<char>> {
        match self {
            ProbePlan::Attempt => None,
            ProbePlan::Reject(report) => Some(report@),
        }
    }
}

/// The plan for a line, given what the parser objected to: an attempt where
/// it objected to nothing, else a rejection.
pub fn plan_from_defect(defect: Option<String>) -> (plan: ProbePlan)
    ensures
        plan.deep_view() == defect.deep_view(),
{
    match defect {
        None => ProbePlan::Attempt,
        Some(report) => ProbePlan::Reject(report),
    }
}

/// Decides whether `line` is worth a handshake.
pub fn plan_probe(line: &str) -> (plan: ProbePlan)
    ensures
        plan.deep_view() == bridge_line_defect(line@),
{
    plan_from_defect(line_defect(line))
}

/// What a [`ProbeReport`] says, as a mathematical value.
pub struct ReportView<C> {
    /// The bridge line that was probed.
    pub line: Seq<char>,
    /// The channel that the handshake opened, if it opened one.
    pub channel: Option<C>,
    /// When the probe began.
    pub time: Timestamp,
    /// Why no channel was opened, where a reason is known.
    pub error: Option<Seq<char>>,
}

impl<C> ReportView<C> {
    /// The status of the bridge that follows from this report.
    pub open spec fn result(self) -> BridgeResultView {
        probe_result(self.channel is Some, self.time, self.error)
    }

    /// The error of the report, if it has one, is fit to be shown.
    pub open spec fn tidy(self) -> bool {
        self.error matches Some(e) ==> is_flat(e)
    }
}

/// How the probe of one bridge line ended.
pub struct ProbeReport<C> {
    line: String,
    channel: Option<C>,
    time: Timestamp,
    error: Option<String>,
}

impl<C> View for ProbeReport<C> {
    type V = ReportView<C>;

    closed spec fn view(&self) -> ReportView<C> {
        ReportView {
            line: self.line@,
            channel: self.channel,
            time: self.time,
            error: self.error.deep_view(),
        }
    }
}

impl<C> ProbeReport<C> {
    #[verifier::type_invariant]
    spec fn inv(self) -> bool {
        self.error matches Some(e) ==> is_flat(e@)
    }

    /// The handshake begun at `time` opened `channel`.
    pub fn opened(line: String, time: Timestamp, channel: C) -> (r: Self)
        ensures
            r@ == (ReportView { line: line@, channel: Some(channel), time, error: None }),
    {
        ProbeReport { line, channel: Some(channel), time, error: None }
    }

    /// The handshake begun at `time` failed; `report` is the error as the
    /// transport client reports it, and the report keeps it flattened.
    pub fn failed(line: String, time: Timestamp, report: &str) -> (r: Self)
        ensures
            r@ == (ReportView::<C> {
                line: line@,
                channel: None,
                time,
                error: Some(flattened(report@)),
            }),
    {
        ProbeReport { line, channel: None, time, error: Some(flatten_report(report)) }
    }

    /// The line was rejected at `time` without a handshake; `report` is what
    /// the parser objected to, as it was reported, and the report keeps it
    /// flattened.
    pub fn rejected(line: String, time: Timestamp, report: &str) -> (r: Self)
        ensures
            r@ == (ReportView::<C> {
                line: line@,
                channel: None,
                time,
                error: Some(flattened(report@)),
            }),
    {
        ProbeReport { line, channel: None, time, error: Some(flatten_report(report)) }
    }

    /// The task that probed the line, begun at `time`, did not come back with
    /// an outcome.
    pub fn crashed(line: String, time: Timestamp) -> (r: Self)
        ensures
            r@ == (ReportView::<C> {
                line: line@,
                channel: None,
                time,
                error: Some("internal probe failure"@),
            }),
    {
        let message = "internal probe failure".to_owned();
        proof {
            reveal_strlit("internal probe failure");
            reveal_strlit("error: ");
            assert(is_one_line(message@));
            assert forall|i: int| !occurs_at(message@, i, "error: "@) by {
                if occurs_at(message@, i, "error: "@) {
                    assert(message@.subrange(i, i + 7)[5] == ':');
                    assert(message@[i + 5] == ':');
                }
            }
        }
        ProbeReport { line, channel: None, time, error: Some(message) }
    }


    /// The bridge line that was probed.
    pub fn line(&self) -> (line: &String)
        ensures
            line@ == self@.line,
    {
        &self.line
    }

    /// Whether the handshake opened a channel.
    pub fn is_open(&self) -> (b: bool)
        ensures
            b == (self@.channel is Some),
    {
        self.channel.is_some()
    }
}

/// The status of every bridge after a run of reports, taken in order: for each
/// line the last report on it decides.
pub open spec fn results_after<C>(reports: Seq<ReportView<C>>) -> Map<Seq<char>, BridgeResultView>
    decreases reports.len(),
{
    if reports.len() == 0 {
        Map::empty()
    } else {
        results_after(reports.drop_last()).insert(reports.last().line, reports.last().result())
    }
}

/// The channels that are open after a run of reports, taken in order: a line
/// has the channel of the last report on it, if that report has one.
pub open spec fn channels_after<C>(reports: Seq<ReportView<C>>) -> Map<Seq<char>, C>
    decreases reports.len(),
{
    if reports.len() == 0 {
        Map::empty()
    } else {
        let before = channels_after(reports.drop_last());
        match reports.last().channel {
            Some(channel) => before.insert(reports.last().line, channel),
            None => before.remove(reports.last().line),
        }
    }
}

/// Enters one report into the two maps of a pass: the status of the line is
/// replaced, and its channel is replaced or, where the probe opened none,
/// dropped.
pub fn record_report<C>(
    results: &mut LineMap<BridgeResult>,
    channels: &mut LineMap<C>,
    report: ProbeReport<C>,
)
    requires
        old(results).wf(),
        old(channels).wf(),
    ensures
        final(results).wf(),
        final(channels).wf(),
        final(results).deep_view() == old(results).deep_view().insert(
            report@.line,
            report@.result(),
        ),
        final(channels)@ == (match report@.channel {
            Some(channel) => old(channels)@.insert(report@.line, channel),
            None => old(channels)@.remove(report@.line),
        }),
{
    let ProbeReport { line, channel, time, error } = report;
    let result = BridgeResult::from_probe(channel.is_some(), time, error);
    match channel {
        Some(c) => {
            channels.insert(line.clone(), c);
        },
        None => {
            let _ = channels.remove(&line);
        },
    }
    results.insert(line, result);
    proof {
        assert(final(results).deep_view() =~= old(results).deep_view().insert(
            report@.line,
            report@.result(),
        ));
    }
}

/// Appending a report to a run enters it into both maps.
pub proof fn lemma_after_push<C>(reports: Seq<ReportView<C>>, report: ReportView<C>)
    ensures
        results_after(reports.push(report)) == results_after(reports).insert(
            report.line,
            report.result(),
        ),
        channels_after(reports.push(report)) == (match report.channel {
            Some(channel) => channels_after(reports).insert(report.line, channel),
            None => channels_after(reports).remove(report.line),
        }),
{
    assert(reports.push(report).drop_last() =~= reports);
}

/// The index of the last report on `line`, or `-1` where there is none.
pub open spec fn last_report_on<C>(reports: Seq<ReportView<C>>, line: Seq<char>) -> int
    decreases reports.len(),
{
    if reports.len() == 0 {
        -1
    } else if reports.last().line == line {
        reports.len() - 1
    } else {
        last_report_on(reports.drop_last(), line)
    }
}

/// Some report is on `line`.
pub open spec fn reported<C>(reports: Seq<ReportView<C>>, line: Seq<char>) -> bool {
    exists|i: int| 0 <= i < reports.len() && (#[trigger] reports[i]).line == line
}

/// For each line the last report on it decides: the pass holds a result for
/// the line exactly if some report is on it, and then the result of the last
/// one; it holds a channel for the line exactly if that last report has one,
/// and then that channel.
pub proof fn lemma_last_report_decides<C>(reports: Seq<ReportView<C>>, line: Seq<char>)
    ensures
        -1 <= last_report_on(reports, line) < reports.len(),
        last_report_on(reports, line) >= 0 <==> reported(reports, line),
        last_report_on(reports, line) >= 0 ==> reports[last_report_on(reports, line)].line == line,
        forall|j: int|
            last_report_on(reports, line) < j < reports.len() ==> (#[trigger] reports[j]).line
                != line,
        results_after(reports).contains_key(line) <==> reported(reports, line),
        reported(reports, line) ==> results_after(reports)[line] == reports[last_report_on(
            reports,
            line,
        )].result(),
        channels_after(reports).contains_key(line) <==> (reported(reports, line)
            && reports[last_report_on(reports, line)].channel is Some),
        channels_after(reports).contains_key(line) ==> Some(channels_after(reports)[line])
            == reports[last_report_on(reports, line)].channel,
    decreases reports.len(),
{
    if reports.len() == 0 {
    } else {
        let front = reports.drop_last();
        let last = reports.last();
        lemma_last_report_decides(front, line);
        if last.line == line {
            assert(reports[reports.len() - 1].line == line);
        } else {
            let k = last_report_on(front, line);
            if reported(front, line) {
                assert(reports[k] == front[k]);
                assert(reports[k].line == line);
            }
            if reported(reports, line) {
                let i = choose|i: int| 0 <= i < reports.len() && (#[trigger] reports[i]).line == line;
                assert(front[i].line == line);
            }
            assert forall|j: int| k < j < reports.len() implies (#[trigger] reports[j]).line
                != line by {
                if j < front.len() {
                    assert(front[j].line != line);
                }
            }
        }
    }
}

/// What a pass reports hangs together: it holds a result for exactly the lines
/// reported on; a line has a channel exactly if its result says `functional`;
/// and a result that says `functional` carries no error.
pub proof fn lemma_pass_coherent<C>(reports: Seq<ReportView<C>>)
    ensures
        forall|line: Seq<char>| #[trigger]
            results_after(reports).contains_key(line) <==> reported(reports, line),
        forall|line: Seq<char>| #[trigger]
            channels_after(reports).contains_key(line) ==> results_after(reports).contains_key(
                line,
            ),
        forall|line: Seq<char>| #[trigger]
            results_after(reports).contains_key(line) ==> (results_after(reports)[line].functional
                <==> channels_after(reports).contains_key(line)),
        forall|line: Seq<char>| #[trigger]
            results_after(reports).contains_key(line) ==> results_after(reports)[line].coherent(),
{
    assert forall|line: Seq<char>|
        {
            &&& (#[trigger] results_after(reports).contains_key(line) <==> reported(reports, line))
            &&& (channels_after(reports).contains_key(line) ==> results_after(
                reports,
            ).contains_key(line))
            &&& (results_after(reports).contains_key(line) ==> (results_after(
                reports,
            )[line].functional <==> channels_after(reports).contains_key(line)))
            &&& (results_after(reports).contains_key(line) ==> results_after(
                reports,
            )[line].coherent())
        } by {
        lemma_last_report_decides(reports, line);
    }
    assert forall|line: Seq<char>| #[trigger]
        channels_after(reports).contains_key(line) implies results_after(reports).contains_key(
        line,
    ) by {
        lemma_last_report_decides(reports, line);
    }
}

/// A pass that has reported on every line of its list holds a result for
/// exactly the lines of the list.
pub proof fn lemma_pass_covers<C>(lines: Seq<Seq<char>>, reports: Seq<ReportView<C>>)
    requires
        reports.len() == lines.len(),
        forall|i: int| 0 <= i < lines.len() ==> (#[trigger] reports[i]).line == lines[i],
    ensures
        results_after(reports).dom() == lines.to_set(),
        channels_after(reports).dom().subset_of(lines.to_set()),
{
    assert forall|line: Seq<char>| results_after(reports).contains_key(line) <==> lines.contains(
        line,
    ) by {
        lemma_last_report_decides(reports, line);
        if reported(reports, line) {
            let i = choose|i: int| 0 <= i < reports.len() && (#[trigger] reports[i]).line == line;
            assert(lines[i] == line);
        }
        if lines.contains(line) {
            let i = choose|i: int| 0 <= i < lines.len() && lines[i] == line;
            assert(reports[i].line == line);
        }
    }
    assert(results_after(reports).dom() =~= lines.to_set());
    assert forall|line: Seq<char>| channels_after(reports).contains_key(line) implies lines.to_set().contains(
        line,
    ) by {
        lemma_last_report_decides(reports, line);
    }
}

/// One past the last index of the window that starts at `start`, in a list of
/// `total` lines.
pub open spec fn window_end_spec(start: int, total: int) -> int {
    if start + MAX_CONNECTIONS <= total {
        start + MAX_CONNECTIONS
    } else {
        total
    }
}

/// Where the window that starts at `start` ends, in a list of `total` lines.
pub fn window_end(start: usize, total: usize) -> (end: usize)
    ensures
        end == window_end_spec(start as int, total as int),
        start <= total ==> start <= end <= total && end - start <= MAX_CONNECTIONS,
        start < total ==> start < end,
{
    if total >= start && total - start >= MAX_CONNECTIONS {
        start + MAX_CONNECTIONS
    } else {
        total
    }
}

/// One bridge line of a window, with what is to be done about it.
pub struct ProbeTask {
    /// The bridge line.
    pub line: String,
    /// Whether a handshake is to be attempted.
    pub plan: ProbePlan,
}

/// The views of a list of reports.
pub open spec fn report_views<C>(reports: Seq<ProbeReport<C>>) -> Seq<ReportView<C>> {
    Seq::new(reports.len(), |i: int| reports[i]@)
}

/// One pass of the probe executor over a list of bridge lines.
///
/// The lines are handed out window by window, each of at most
/// [`MAX_CONNECTIONS`] lines and in the order of the list. The next window is
/// handed out only once the reports on the current one have been recorded, so
/// no more than [`MAX_CONNECTIONS`] handshakes are ever in flight.
pub struct ProbeRun<C> {
    lines: Vec<String>,
    cursor: usize,
    results: LineMap<BridgeResult>,
    channels: LineMap<C>,
    absorbed: Ghost<Seq<ReportView<C>>>,
}

impl<C> ProbeRun<C> {
    /// The bridge lines of the pass.
    pub closed spec fn lines(&self) -> Seq<Seq<char>> {
        self.lines.deep_view()
    }

    /// How many lines, counted from the front of the list, have been reported on.
    pub closed spec fn cursor(&self) -> int {
        self.cursor as int
    }

    /// The reports recorded so far, in order.
    pub closed spec fn absorbed(&self) -> Seq<ReportView<C>> {
        self.absorbed@
    }

    /// The state of a pass is well formed: there is one recorded report for
    /// each line before the cursor, in the order of the list.
    pub closed spec fn wf(&self) -> bool {
        &&& self.cursor <= self.lines@.len()
        &&& self.results.wf()
        &&& self.channels.wf()
        &&& self.absorbed@.len() == self.cursor
        &&& forall|i: int| 0 <= i < self.cursor ==> (#[trigger] self.absorbed@[i]).line == self.lines@[i]@
        &&& forall|i: int| 0 <= i < self.cursor ==> (#[trigger] self.absorbed@[i]).tidy()
        &&& self.results.deep_view() == results_after(self.absorbed@)
        &&& self.channels@ == channels_after(self.absorbed@)
    }

    /// What [`ProbeRun::wf`] says of the reports recorded so far.
    pub proof fn lemma_absorbed(&self)
        requires
            self.wf(),
        ensures
            0 <= self.cursor() <= self.lines().len(),
            self.absorbed().len() == self.cursor(),
            forall|i: int|
                0 <= i < self.cursor() ==> (#[trigger] self.absorbed()[i]).line == self.lines()[i],
            forall|i: int| 0 <= i < self.cursor() ==> (#[trigger] self.absorbed()[i]).tidy(),
    {
    }

    /// The lines of the current window.
    pub open spec fn window_lines(&self) -> Seq<Seq<char>> {
        self.lines().subrange(
            self.cursor(),
            window_end_spec(self.cursor(), self.lines().len() as int),
        )
    }

    /// The reports are on the lines of the current window, one each and in order.
    pub open spec fn fits(&self, reports: Seq<ReportView<C>>) -> bool {
        &&& reports.len() == self.window_lines().len()
        &&& forall|i: int| 0 <= i < reports.len() ==> (#[trigger] reports[i]).line == self.window_lines()[i]
    }

    /// A pass over `lines` of which nothing has been probed yet.
    pub fn new(lines: Vec<String>) -> (run: Self)
        ensures
            run.wf(),
            run.lines() == lines.deep_view(),
            run.cursor() == 0,
            run.absorbed() == Seq::<ReportView<C>>::empty(),
    {
        let run = ProbeRun {
            lines,
            cursor: 0,
            results: LineMap::new(),
            channels: LineMap::new(),
            absorbed: Ghost(Seq::empty()),
        };
        proof {
            assert(run.results.deep_view() =~= results_after(run.absorbed@));
        }
        run
    }

    /// Whether every line has been reported on.
    pub fn is_done(&self) -> (done: bool)
        requires
            self.wf(),
        ensures
            done == (self.cursor() == self.lines().len()),
    {
        self.cursor == self.lines.len()
    }

    /// The current window: the next lines not yet reported on, at most
    /// [`MAX_CONNECTIONS`] of them, each with its plan.
    pub fn window(&self) -> (tasks: Vec<ProbeTask>)
        requires
            self.wf(),
        ensures
            tasks@.len() == self.window_lines().len(),
            tasks@.len() <= MAX_CONNECTIONS,
            self.cursor() < self.lines().len() ==> tasks@.len() > 0,
            forall|i: int|
                0 <= i < tasks@.len() ==> {
                    &&& (#[trigger] tasks@[i]).line@ == self.window_lines()[i]
                    &&& tasks@[i].plan.deep_view() == bridge_line_defect(self.window_lines()[i])
                },
    {
        let end = window_end(self.cursor, self.lines.len());
        let mut tasks: Vec<ProbeTask> = Vec::new();
        let mut i: usize = self.cursor;
        while i < end
            invariant
                self.cursor <= i <= end <= self.lines@.len(),
                end == window_end_spec(self.cursor(), self.lines().len() as int),
                tasks@.len() == i - self.cursor,
                forall|j: int|
                    0 <= j < tasks@.len() ==> {
                        &&& (#[trigger] tasks@[j]).line@ == self.lines@[self.cursor + j]@
                        &&& tasks@[j].plan.deep_view() == bridge_line_defect(
                            self.lines@[self.cursor + j]@,
                        )
                    },
            decreases end - i,
        {
            let line = self.lines[i].clone();
            let plan = plan_probe(line.as_str());
            tasks.push(ProbeTask { line, plan });
            i += 1;
        }
        tasks
    }

    /// Whether `reports` are on the lines of the current window, one each and
    /// in order.
    fn matches_window(&self, reports: &Vec<ProbeReport<C>>) -> (ok: bool)
        requires
            self.wf(),
        ensures
            ok == self.fits(report_views(reports@)),
    {
        let end = window_end(self.cursor, self.lines.len());
        if reports.len() != end - self.cursor {
            return false;
        }
        let mut i: usize = 0;
        while i < reports.len()
            invariant
                self.cursor <= end <= self.lines@.len(),
                end == window_end_spec(self.cursor(), self.lines().len() as int),
                reports@.len() == end - self.cursor,
                i <= reports@.len(),
                forall|j: int|
                    0 <= j < i ==> (#[trigger] report_views(reports@)[j]).line
                        == self.window_lines()[j],
            decreases reports.len() - i,
        {
            if reports[i].line != self.lines[self.cursor + i] {
                proof {
                    assert(report_views(reports@)[i as int].line != self.window_lines()[i as int]);
                }
                return false;
            }
            i += 1;
        }
        true
    }

    /// Records the reports on the current window and moves on to the next.
    ///
    /// The reports are taken only if they are on the lines of the current
    /// window, one each and in order; otherwise nothing changes and the answer
    /// is `false`.
    pub fn record(&mut self, reports: Vec<ProbeReport<C>>) -> (accepted: bool)
        requires
            old(self).wf(),
        ensures
            final(self).wf(),
            final(self).lines() == old(self).lines(),
            accepted == old(self).fits(report_views(reports@)),
            accepted ==> {
                &&& final(self).absorbed() == old(self).absorbed() + report_views(reports@)
                &&& final(self).cursor() == window_end_spec(
                    old(self).cursor(),
                    old(self).lines().len() as int,
                )
            },
            !accepted ==> {
                &&& final(self).absorbed() == old(self).absorbed()
                &&& final(self).cursor() == old(self).cursor()
            },
    {
        if !self.matches_window(&reports) {
            return false;
        }
        let end = window_end(self.cursor, self.lines.len());
        let ghost views = report_views(reports@);
        let ghost before = self.absorbed@;
        proof {
            assert(before.len() == self.cursor);
        }
        let mut reports = reports;
        crate::vecs::reverse(&mut reports);
        let ghost n = views.len();
        while reports.len() > 0
            invariant
                self.lines == old(self).lines,
                self.cursor == old(self).cursor,
                self.results.wf(),
                self.channels.wf(),
                n == views.len(),
                reports@.len() <= n,
                forall|j: int| 0 <= j < reports@.len() ==> (#[trigger] reports@[j])@ == views[n - 1 - j],
                self.absorbed@ == before + views.take(n - reports@.len()),
                forall|j: int| 0 <= j < self.absorbed@.len() ==> (#[trigger] self.absorbed@[j]).tidy(),
                self.results.deep_view() == results_after(self.absorbed@),
                self.channels@ == channels_after(self.absorbed@),
            decreases reports.len(),
        {
            let ghost k = n - reports@.len();
            let next = reports.pop();
            match next {
                Some(report) => {
                    proof {
                        use_type_invariant(&report);
                        assert(report@.tidy());
                        assert(report@ == views[k]);
                        lemma_after_push(self.absorbed@, report@);
                        assert(views.take(k + 1) =~= views.take(k).push(views[k]));
                        assert(before + views.take(k + 1) =~= (before + views.take(k)).push(
                            views[k],
                        ));
                    }
                    record_report(&mut self.results, &mut self.channels, report);
                    self.absorbed = Ghost(self.absorbed@.push(report@));
                },
                None => {},
            }
        }
        self.cursor = end;
        proof {
            assert(views.take(n as int) =~= views);
            assert forall|i: int| 0 <= i < self.cursor implies (#[trigger] self.absorbed@[i]).line
                == self.lines@[i]@ by {
                if i >= old(self).cursor {
                    let j = i - old(self).cursor;
                    assert(self.absorbed@[i] == views[j]);
                    assert(views[j].line == old(self).window_lines()[j]);
                }
            }
        }
        true
    }

    /// Ends the pass: the status of every line reported on, and the channels
    /// that are open.
    ///
    /// The two hang together: a line has a channel exactly if its status says
    /// `functional`. Of a pass that has reported on every line of its list,
    /// there is a status for exactly the lines of the list.
    pub fn finish(self) -> (out: (LineMap<BridgeResult>, LineMap<C>))
        requires
            self.wf(),
        ensures
            out.0.wf(),
            out.1.wf(),
            out.0.deep_view() == results_after(self.absorbed()),
            out.1@ == channels_after(self.absorbed()),
            forall|line: Seq<char>| #[trigger]
                out.0.deep_view().contains_key(line) ==> (out.0.deep_view()[line].functional
                    <==> out.1@.contains_key(line)),
            forall|line: Seq<char>| #[trigger]
                out.1@.contains_key(line) ==> out.0.deep_view().contains_key(line),
            self.cursor() == self.lines().len() ==> out.0.deep_view().dom()
                == self.lines().to_set(),
            forall|line: Seq<char>| #[trigger]
                out.0.deep_view().contains_key(line) ==> (out.0.deep_view()[line].error matches Some(
                    e,
                ) ==> is_flat(e)),
    {
        proof {
            assert forall|line: Seq<char>| #[trigger]
                results_after(self.absorbed@).contains_key(line) implies (results_after(
                self.absorbed@,
            )[line].error matches Some(e) ==> is_flat(e)) by {
                lemma_last_report_decides(self.absorbed@, line);
                let k = last_report_on(self.absorbed@, line);
                assert(self.absorbed@[k].tidy());
            }
            lemma_pass_coherent(self.absorbed@);
            if self.cursor == self.lines@.len() {
                lemma_pass_covers(self.lines.deep_view(), self.absorbed@);
            }
        }
        (self.results, self.channels)
    }
}

/// The test that a line has no channel in `channels`.
pub open spec fn lacks_channel<C>(channels: Map<Seq<char>, C>) -> spec_fn(Seq<char>) -> bool {
    |line: Seq<char>| !channels.contains_key(line)
}

/// The bridge lines that have no channel: those of `bridge_lines` that are no
/// key of `channels`, in their order and as often as they occur.
pub fn get_failed_bridges<C>(bridge_lines: &[String], channels: &LineMap<C>) -> (failed: Vec<
    String,
>)
    ensures
        failed.deep_view() == bridge_lines.deep_view().filter(lacks_channel(channels@)),
{
    let mut failed: Vec<String> = Vec::new();
    let ghost lines = bridge_lines.deep_view();
    let ghost pred = lacks_channel(channels@);
    let mut i: usize = 0;
    while i < bridge_lines.len()
        invariant
            i <= bridge_lines.len(),
            lines == bridge_lines.deep_view(),
            pred == lacks_channel(channels@),
            failed.deep_view() == lines.take(i as int).filter(pred),
        decreases bridge_lines.len() - i,
    {
        proof {
            assert(lines.take(i + 1).drop_last() =~= lines.take(i as int));
            assert(lines.take(i + 1).last() == bridge_lines@[i as int]@);
            reveal(Seq::filter);
        }
        if !channels.contains_key(&bridge_lines[i]) {
            let ghost prev = failed.deep_view();
            failed.push(bridge_lines[i].clone());
            proof {
                assert(failed.deep_view() =~= prev.push(bridge_lines@[i as int]@));
            }
        }
        i += 1;
    }
    proof {
        assert(lines.take(bridge_lines@.len() as int) =~= lines);
    }
    failed
}

} // verus!
