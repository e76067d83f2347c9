use std::io::Write;

use vstd::prelude::*;

use crate::codec::decoder_inv;
use crate::codec::StageModel;
use crate::codec::StreamDecoder;
use crate::config::Config;
use crate::execution::CompletedTask;
use crate::execution::Report;
use crate::execution::Status;
use crate::execution::Task;
use crate::time::Duration;
use crate::Options;

verus! {

/// Nanoseconds a task may run before its process group is killed,
/// when the configuration does not say otherwise.
pub const DEFAULT_TIMEOUT_NANOS: u64 = 10_000_000_000;

/// Relies on num_cpus::get: the number of logical processors
/// available to this process, documented to be at least one.
#[verifier::external_body]
fn cpu_count() -> (n: usize)
    ensures
        n >= 1,
{
    num_cpus::get()
}

/// What one non-blocking wait on a child reported.
pub enum WaitOutcome {
    /// The child exited on its own with this code.
    Exited(i32),
    /// The child was terminated by the named signal.
    Signaled(&'static str),
    /// The child is still running.
    StillRunning,
}

/// A launched child under observation: which of its pipes are still
/// open, what it has written so far, and its terminal status once
/// known. A task is retired only when all three pipes are closed and
/// the status is set.
pub struct ObservedTask {
    pub full_name: Vec<String>,
    pub pid: i32,
    pub stdout_open: bool,
    pub stderr_open: bool,
    pub report_open: bool,
    pub status_and_duration: Option<(Status, Duration)>,
    pub stdout_buf: Vec<u8>,
    pub stderr_buf: Vec<u8>,
    pub stdout_offset: usize,
    pub stderr_offset: usize,
    pub report_decoder: StreamDecoder,
    /// The position in the plan of the task this child runs.
    pub idx: Ghost<int>,
}

/// One reporter callback, recorded in the order the supervisor made
/// them; the integer is the task's position in the plan.
pub ghost enum Event {
    Init,
    Start(int, Seq<Seq<char>>),
    Stage(int, Seq<Seq<char>>, StageModel),
    Report(int, Seq<Seq<char>>),
    Done,
}

/// The plan position an event speaks of; the run-wide events stand
/// apart.
pub open spec fn ev_idx(e: Event) -> int {
    match e {
        Event::Start(k, _) => k,
        Event::Stage(k, _, _) => k,
        Event::Report(k, _) => k,
        _ => -1,
    }
}

/// An event names a plan position and carries that task's path.
pub open spec fn ev_wf(e: Event, plan: Seq<Seq<Seq<char>>>) -> bool {
    match e {
        Event::Start(k, p) => 0 <= k < plan.len() && p == plan[k],
        Event::Stage(k, p, _) => 0 <= k < plan.len() && p == plan[k],
        Event::Report(k, p) => 0 <= k < plan.len() && p == plan[k],
        Event::Init => true,
        Event::Done => true,
    }
}

pub open spec fn has_start(log: Seq<Event>, k: int) -> bool {
    exists|j: int| 0 <= j < log.len() && (#[trigger] log[j]) is Start && ev_idx(log[j]) == k
}

pub open spec fn no_start(log: Seq<Event>, k: int) -> bool {
    forall|j: int| 0 <= j < log.len() ==> !((#[trigger] log[j]) is Start && ev_idx(log[j]) == k)
}

pub open spec fn no_report(log: Seq<Event>, k: int) -> bool {
    forall|j: int| 0 <= j < log.len() ==> !((#[trigger] log[j]) is Report && ev_idx(log[j]) == k)
}

pub open spec fn no_done(log: Seq<Event>) -> bool {
    forall|j: int| 0 <= j < log.len() ==> !((#[trigger] log[j]) is Done)
}

/// The reporter discipline: one `init` first; at most one `start` and
/// one `report` per task, in that order, with every `stage` of a task
/// between its `start` and its `report`; `done` only as the last
/// word; and every event carrying the path the plan gives its task.
pub open spec fn log_wf(log: Seq<Event>, plan: Seq<Seq<Seq<char>>>) -> bool {
    &&& log.len() >= 1
    &&& log[0] == Event::Init
    &&& (forall|i: int| 0 < i < log.len() ==> !((#[trigger] log[i]) is Init))
    &&& (forall|i: int| 0 <= i < log.len() && (#[trigger] log[i]) is Done ==> i == log.len() - 1)
    &&& (forall|i: int| 0 <= i < log.len() ==> ev_wf(#[trigger] log[i], plan))
    &&& (forall|i: int, j: int|
        0 <= i < log.len() && 0 <= j < log.len() && (#[trigger] log[i]) is Start && (
        #[trigger] log[j]) is Start && ev_idx(log[i]) == ev_idx(log[j]) ==> i == j)
    &&& (forall|i: int, j: int|
        0 <= i < log.len() && 0 <= j < log.len() && (#[trigger] log[i]) is Report && (
        #[trigger] log[j]) is Report && ev_idx(log[i]) == ev_idx(log[j]) ==> i == j)
    &&& (forall|i: int, j: int|
        0 <= i < log.len() && 0 <= j < log.len() && (#[trigger] log[i]) is Stage && (
        #[trigger] log[j]) is Report && ev_idx(log[i]) == ev_idx(log[j]) ==> i < j)
    &&& (forall|i: int|
        0 <= i < log.len() && ((#[trigger] log[i]) is Stage || log[i] is Report) ==> exists|j: int|
            0 <= j < i && (#[trigger] log[j]) is Start && ev_idx(log[j]) == ev_idx(log[i]))
}

/// Appending a permissible task event keeps the log disciplined.
proof fn lemma_log_push(log: Seq<Event>, plan: Seq<Seq<Seq<char>>>, e: Event)
    requires
        log_wf(log, plan),
        no_done(log),
        !(e is Init),
        !(e is Done),
        ev_wf(e, plan),
        e is Start ==> no_start(log, ev_idx(e)),
        e is Report ==> no_report(log, ev_idx(e)) && has_start(log, ev_idx(e)),
        e is Stage ==> has_start(log, ev_idx(e)) && no_report(log, ev_idx(e)),
    ensures
        log_wf(log.push(e), plan),
        no_done(log.push(e)),
        forall|k: int| has_start(log, k) ==> has_start(log.push(e), k),
        forall|k: int|
            no_report(log, k) && !(e is Report && ev_idx(e) == k) ==> no_report(log.push(e), k),
        forall|k: int|
            no_start(log, k) && !(e is Start && ev_idx(e) == k) ==> no_start(log.push(e), k),
        e is Start ==> has_start(log.push(e), ev_idx(e)),
{
    assert forall|k: int| has_start(log, k) implies has_start(log.push(e), k) by {
        let j = choose|j: int|
            0 <= j < log.len() && (#[trigger] log[j]) is Start && ev_idx(log[j]) == k;
        assert(log.push(e)[j] == log[j]);
    }
    if e is Start {
        assert(log.push(e)[log.len() as int] == e);
    }
    let log2 = log.push(e);
    assert(log2[0] == Event::Init);
    assert forall|i: int|
        0 <= i < log2.len() && ((#[trigger] log2[i]) is Stage || log2[i] is Report) implies exists|
    j: int|
        0 <= j < i && (#[trigger] log2[j]) is Start && ev_idx(log2[j]) == ev_idx(log2[i]) by {
        if i < log.len() {
            let j = choose|j: int|
                0 <= j < i && (#[trigger] log[j]) is Start && ev_idx(log[j]) == ev_idx(log[i]);
            assert(log2[j] == log[j]);
        } else {
            let j = choose|j: int|
                0 <= j < log.len() && (#[trigger] log[j]) is Start && ev_idx(log[j]) == ev_idx(e);
            assert(log2[j] == log[j]);
        }
    }
}

/// The end of a run: `done` may close a disciplined log.
proof fn lemma_log_push_done(log: Seq<Event>, plan: Seq<Seq<Seq<char>>>)
    requires
        log_wf(log, plan),
        no_done(log),
    ensures
        log_wf(log.push(Event::Done), plan),
{
    let log2 = log.push(Event::Done);
    assert(log2[0] == Event::Init);
    assert forall|i: int|
        0 <= i < log2.len() && ((#[trigger] log2[i]) is Stage || log2[i] is Report) implies exists|
    j: int|
        0 <= j < i && (#[trigger] log2[j]) is Start && ev_idx(log2[j]) == ev_idx(log2[i]) by {
        let j = choose|j: int|
            0 <= j < i && (#[trigger] log[j]) is Start && ev_idx(log[j]) == ev_idx(log[i]);
        assert(log2[j] == log[j]);
    }
}

/// The path a task shows to the reporter.
pub open spec fn task_path<W>(t: Task<W>) -> Seq<Seq<char>> {
    t.full_name.deep_view()
}

/// What always holds of an observed child within a supervisor run.
pub open spec fn obs_inv(o: ObservedTask, plan: Seq<Seq<Seq<char>>>, admitted: int) -> bool {
    &&& 0 <= o.idx@ < admitted
    &&& o.full_name.deep_view() == plan[o.idx@]
    &&& decoder_inv(o.report_decoder)
    &&& o.stdout_offset <= o.stdout_buf@.len()
    &&& o.stderr_offset <= o.stderr_buf@.len()
}

/// Whether a child may be retired: all three pipes closed and the
/// terminal status known.
pub open spec fn ready_to_retire(o: ObservedTask) -> bool {
    &&& !o.stdout_open
    &&& !o.stderr_open
    &&& !o.report_open
    &&& o.status_and_duration is Some
}

/// The single-threaded event loop's state: tasks not yet admitted,
/// children being observed, and results in completion order, with a
/// ghost record of every reporter callback made so far.
pub struct Supervisor<W> {
    /// The plan, reversed, so that popping admits in plan order.
    pub pending: Vec<Task<W>>,
    /// The live children, at most `jobs` of them.
    pub live: Vec<ObservedTask>,
    /// The completed tasks, in completion order.
    pub results: Vec<CompletedTask>,
    /// The parallelism cap this run was configured with.
    pub jobs: usize,
    /// The wall-clock limit for one task.
    pub timeout: Duration,
    /// Whether child output is mirrored to the driver's own streams.
    pub nocapture: bool,
    /// Whether `done` has been sent.
    pub finished: bool,
    /// The paths of the plan's tasks, in plan order.
    pub plan: Ghost<Seq<Seq<Seq<char>>>>,
    /// How many tasks have been admitted so far.
    pub admitted: Ghost<int>,
    /// The plan position admitted for launch but not yet registered.
    pub launching: Ghost<Option<int>>,
    /// Every reporter callback made so far, in order.
    pub log: Ghost<Seq<Event>>,
    /// For each result, the plan position it completed.
    pub result_idxs: Ghost<Seq<int>>,
}

pub open spec fn live_has_idx<W>(s: Supervisor<W>, k: int) -> bool {
    exists|l: int| 0 <= l < s.live@.len() && (#[trigger] s.live@[l]).idx@ == k
}

/// What always holds of a supervisor between calls.
pub open spec fn supervisor_inv<W>(s: Supervisor<W>) -> bool {
    &&& s.live@.len() <= s.jobs
    &&& 0 <= s.admitted@ <= s.plan@.len()
    &&& s.pending@.len() == s.plan@.len() - s.admitted@
    &&& (forall|i: int|
        0 <= i < s.pending@.len() ==> task_path(#[trigger] s.pending@[i]) == s.plan@[s.plan@.len()
            - 1 - i])
    &&& (forall|l: int| 0 <= l < s.live@.len() ==> obs_inv(#[trigger] s.live@[l], s.plan@, s.admitted@))
    &&& (forall|l1: int, l2: int|
        0 <= l1 < l2 < s.live@.len() ==> (#[trigger] s.live@[l1]).pid != (#[trigger] s.live@[l2]).pid)
    &&& (forall|l1: int, l2: int|
        0 <= l1 < l2 < s.live@.len() ==> (#[trigger] s.live@[l1]).idx@ != (#[trigger] s.live@[l2]).idx@)
    &&& log_wf(s.log@, s.plan@)
    &&& (forall|i: int| 0 <= i < s.log@.len() ==> ev_idx(#[trigger] s.log@[i]) < s.admitted@)
    &&& (forall|l: int|
        0 <= l < s.live@.len() ==> has_start(s.log@, (#[trigger] s.live@[l]).idx@) && no_report(
            s.log@,
            s.live@[l].idx@,
        ))
    &&& (forall|i: int|
        0 <= i < s.log@.len() && (#[trigger] s.log@[i]) is Report ==> s.result_idxs@.contains(
            ev_idx(s.log@[i]),
        ))
    &&& s.result_idxs@.len() == s.results@.len()
    &&& (forall|r: int|
        0 <= r < s.result_idxs@.len() ==> 0 <= #[trigger] s.result_idxs@[r] < s.admitted@
            && s.results@[r].full_name.deep_view() == s.plan@[s.result_idxs@[r]])
    &&& (forall|r1: int, r2: int|
        0 <= r1 < r2 < s.result_idxs@.len() ==> #[trigger] s.result_idxs@[r1]
            != #[trigger] s.result_idxs@[r2])
    &&& (forall|r: int, l: int|
        0 <= r < s.result_idxs@.len() && 0 <= l < s.live@.len() ==> #[trigger] s.result_idxs@[r]
            != (#[trigger] s.live@[l]).idx@)
    &&& (match s.launching@ {
        Some(k) => {
            &&& k == s.admitted@ - 1
            &&& s.live@.len() < s.jobs
            &&& !live_has_idx(s, k)
            &&& !s.result_idxs@.contains(k)
            &&& has_start(s.log@, k)
            &&& no_report(s.log@, k)
        },
        None => true,
    })
    &&& (!s.finished ==> no_done(s.log@))
    &&& (s.finished ==> s.pending@.len() == 0 && s.live@.len() == 0 && s.log@.last() is Done)
}

impl<W> Supervisor<W> {
    /// Takes over a plan: tells the reporter the run begins, resolves
    /// the effective parallelism and timeout, and stands ready to
    /// admit the tasks in plan order.
    pub fn new<R: Report<W>>(config: &Config, plan: Vec<Task<W>>, reporter: &mut R) -> (s:
        Supervisor<W>)
        ensures
            supervisor_inv(s),
            s.plan@ == plan@.map_values(|t: Task<W>| task_path(t)),
            s.admitted@ == 0,
            s.results@.len() == 0,
            s.log@ == seq![Event::Init],
            s.launching@ is None,
            !s.finished,
            config.jobs matches Some(j) ==> s.jobs == j,
            config.jobs is None ==> s.jobs >= 1,
            s.timeout == (if config.timeout is Some {
                config.timeout->0
            } else {
                Duration { nanos: DEFAULT_TIMEOUT_NANOS }
            }),
            s.nocapture == config.nocapture,
    {
        let jobs = match config.jobs {
            Some(j) => j,
            None => cpu_count(),
        };
        let timeout = match config.timeout {
            Some(d) => d,
            None => Duration::from_nanos(DEFAULT_TIMEOUT_NANOS),
        };
        reporter.init(plan.as_slice());
        let ghost plan_paths = plan@.map_values(|t: Task<W>| task_path(t));
        let mut plan = plan;
        let mut pending: Vec<Task<W>> = Vec::new();
        proof {
            assert(plan@.map_values(|t: Task<W>| task_path(t)) =~= plan_paths);
        }
        while plan.len() > 0
            invariant
                pending@.len() + plan@.len() == plan_paths.len(),
                forall|i: int|
                    0 <= i < plan@.len() ==> task_path(#[trigger] plan@[i]) == plan_paths[i],
                forall|i: int|
                    0 <= i < pending@.len() ==> task_path(#[trigger] pending@[i]) == plan_paths[
                        plan_paths.len() - 1 - i
                    ],
            decreases plan@.len(),
        {
            let t = plan.pop().unwrap();
            pending.push(t);
        }
        let ghost init_log: Seq<Event> = seq![Event::Init];
        let s = Supervisor {
            pending,
            live: Vec::new(),
            results: Vec::new(),
            jobs,
            timeout,
            nocapture: config.nocapture,
            finished: false,
            plan: Ghost(plan_paths),
            admitted: Ghost(0),
            launching: Ghost(None),
            log: Ghost(init_log),
            result_idxs: Ghost(Seq::empty()),
        };
        proof {
            assert(s.log@[0] == Event::Init);
        }
        s
    }

    /// True while another task may be admitted: a slot is free and
    /// tasks are waiting.
    pub fn needs_admission(&self) -> (r: bool)
        ensures
            r == (self.live@.len() < self.jobs && self.pending@.len() > 0),
    {
        self.live.len() < self.jobs && self.pending.len() > 0
    }

    /// Admits the next task of the plan: tells the reporter it
    /// starts, and either completes it on the spot as skipped — the
    /// child is never forked — or hands it back for launching, to be
    /// registered under its pid.
    #[verifier::rlimit(100)]
    pub fn admit_next<R: Report<W>>(&mut self, reporter: &mut R) -> (launch: Option<Task<W>>)
        requires
            supervisor_inv(*old(self)),
            !old(self).finished,
            old(self).launching@ is None,
            old(self).live@.len() < old(self).jobs,
            old(self).pending@.len() > 0,
        ensures
            supervisor_inv(*final(self)),
            !final(self).finished,
            final(self).plan == old(self).plan,
            final(self).jobs == old(self).jobs,
            final(self).timeout == old(self).timeout,
            final(self).nocapture == old(self).nocapture,
            final(self).live == old(self).live,
            final(self).admitted@ == old(self).admitted@ + 1,
            final(self).pending@ == old(self).pending@.drop_last(),
            ({
                let task = old(self).pending@.last();
                let k = old(self).admitted@;
                let p = task_path(task);
                match launch {
                    Some(t) => {
                        &&& t == task
                        &&& t.options.skip_reason is None
                        &&& final(self).results == old(self).results
                        &&& final(self).log@ == old(self).log@.push(Event::Start(k, p))
                        &&& final(self).launching@ == Some(k)
                    },
                    None => {
                        &&& task.options.skip_reason is Some
                        &&& final(self).results@.len() == old(self).results@.len() + 1
                        &&& final(self).results@ == old(self).results@.push(
                            final(self).results@.last(),
                        )
                        &&& ({
                            let c = final(self).results@.last();
                            &&& c.full_name == task.full_name
                            &&& c.status == Status::Skipped(task.options.skip_reason->0)
                            &&& c.duration.nanos == 0
                            &&& c.stdout@.len() == 0
                            &&& c.stderr@.len() == 0
                        })
                        &&& final(self).log@ == old(self).log@.push(Event::Start(k, p)).push(
                            Event::Report(k, p),
                        )
                        &&& final(self).launching@ is None
                    },
                }
            }),
    {
        let task = self.pending.pop().unwrap();
        let ghost k = self.admitted@;
        let ghost p = task_path(task);
        reporter.start(task.name());
        proof {
            lemma_log_push(self.log@, self.plan@, Event::Start(k, p));
            self.log@ = self.log@.push(Event::Start(k, p));
            self.admitted@ = self.admitted@ + 1;
        }
        let Task { full_name, work, options } = task;
        let Options { skip_reason } = options;
        match skip_reason {
            Some(reason) => {
                let completed = CompletedTask {
                    full_name,
                    duration: Duration::default(),
                    stdout: Vec::new(),
                    stderr: Vec::new(),
                    status: Status::Skipped(reason),
                };
                reporter.report(&completed);
                proof {
                    lemma_log_push(self.log@, self.plan@, Event::Report(k, p));
                    self.log@ = self.log@.push(Event::Report(k, p));
                    self.result_idxs@ = self.result_idxs@.push(k);
                    let l2 = self.log@;
                    let ri2 = self.result_idxs@;
                    let old_log = old(self).log@;
                    let old_ri = old(self).result_idxs@;
                    assert(ri2[ri2.len() - 1] == k);
                    assert forall|i: int|
                        0 <= i < l2.len() && (#[trigger] l2[i]) is Report implies ri2.contains(
                        ev_idx(l2[i]),
                    ) by {
                        if i < old_log.len() {
                            assert(l2[i] == old_log[i]);
                            let r = choose|r: int|
                                0 <= r < old_ri.len() && old_ri[r] == ev_idx(old_log[i]);
                            assert(ri2[r] == ev_idx(l2[i]));
                        } else if i == l2.len() - 1 {
                            assert(ri2[ri2.len() - 1] == ev_idx(l2[i]));
                        }
                    }
                }
                self.results.push(completed);
                let _ = work;
                None
            },
            None => {
                proof {
                    self.launching@ = Some(k);
                }
                Some(Task { full_name, work, options: Options { skip_reason: None } })
            },
        }
    }

    /// Registers the child that now runs the task `admit` handed out.
    /// The caller passes back the task's path and the child's pid; no
    /// other child may still be live under that pid.
    pub fn register_child(&mut self, full_name: Vec<String>, pid: i32)
        requires
            supervisor_inv(*old(self)),
            !old(self).finished,
            old(self).launching@ matches Some(k) && full_name.deep_view() == old(self).plan@[k],
            forall|l: int| 0 <= l < old(self).live@.len() ==> (#[trigger] old(self).live@[l]).pid != pid,
        ensures
            supervisor_inv(*final(self)),
            final(self).pending == old(self).pending,
            final(self).results == old(self).results,
            final(self).jobs == old(self).jobs,
            final(self).timeout == old(self).timeout,
            final(self).nocapture == old(self).nocapture,
            final(self).finished == old(self).finished,
            final(self).plan == old(self).plan,
            final(self).admitted == old(self).admitted,
            final(self).log == old(self).log,
            final(self).result_idxs == old(self).result_idxs,
            final(self).launching@ is None,
            final(self).live@ == old(self).live@.push(final(self).live@.last()),
            ({
                let o = final(self).live@.last();
                &&& o.full_name == full_name
                &&& o.pid == pid
                &&& o.stdout_open && o.stderr_open && o.report_open
                &&& o.status_and_duration is None
                &&& o.stdout_buf@.len() == 0
                &&& o.stderr_buf@.len() == 0
                &&& o.stdout_offset == 0
                &&& o.stderr_offset == 0
                &&& o.report_decoder.buf@.len() == 0
                &&& o.report_decoder.offset == 0
                &&& !o.report_decoder.corrupt
                &&& o.report_decoder.emitted@ == Seq::<StageModel>::empty()
                &&& o.idx@ == old(self).launching@->0
            }),
    {
        let observed = ObservedTask {
            full_name,
            pid,
            stdout_open: true,
            stderr_open: true,
            report_open: true,
            status_and_duration: None,
            stdout_buf: Vec::new(),
            stderr_buf: Vec::new(),
            stdout_offset: 0,
            stderr_offset: 0,
            report_decoder: StreamDecoder::new(),
            idx: Ghost(self.launching@->0),
        };
        self.live.push(observed);
        proof {
            self.launching@ = None;
        }
    }
}

/// Every completed task the run has emitted stands for exactly one
/// task of the plan: each record carries the path of its plan entry,
/// and no plan entry is completed twice.
pub proof fn lemma_one_completion_per_task<W>(s: Supervisor<W>)
    requires
        supervisor_inv(s),
    ensures
        s.result_idxs@.len() == s.results@.len(),
        forall|r: int|
            0 <= r < s.results@.len() ==> 0 <= #[trigger] s.result_idxs@[r] < s.plan@.len()
                && s.results@[r].full_name.deep_view() == s.plan@[s.result_idxs@[r]],
        forall|r1: int, r2: int|
            0 <= r1 < r2 < s.results@.len() ==> #[trigger] s.result_idxs@[r1]
                != #[trigger] s.result_idxs@[r2],
{
}

/// Which of the driver's own streams mirrored output goes to.
#[derive(Clone, Copy, Debug, PartialEq, Eq, Structural)]
pub enum OutputStream {
    Stdout,
    Stderr,
}

/// Relies on the write macro over std::io::Stdout: mirrors already
/// captured child output to the driver's own standard output. A
/// failed write is dropped on purpose: mirroring is best effort, and
/// the library's functions do not panic.
#[verifier::external_body]
fn print_stdout(text: &str) {
    let _ = write!(std::io::stdout(), "{}", text);
}

/// Relies on the write macro over std::io::Stderr: mirrors already
/// captured child output to the driver's own standard error. A
/// failed write is dropped on purpose: mirroring is best effort, and
/// the library's functions do not panic.
#[verifier::external_body]
fn print_stderr(text: &str) {
    let _ = write!(std::io::stderr(), "{}", text);
}

fn print_to(stream: OutputStream, text: &str) {
    match stream {
        OutputStream::Stdout => print_stdout(text),
        OutputStream::Stderr => print_stderr(text),
    }
}

/// Displays as many complete lines from `buf` as possible starting
/// from `pos`, and advances `pos` to the beginning of the last
/// incomplete line. The text handed to the driver's stream is also
/// returned: the lossy decode of exactly the bytes the offset moved
/// past, or nothing when no complete line had arrived.
pub fn display_lines(stream: OutputStream, buf: &Vec<u8>, pos: &mut usize) -> (text: Option<
    String,
>)
    requires
        *old(pos) <= buf@.len(),
    ensures
        *old(pos) <= *final(pos) <= buf@.len(),
        forall|j: int| *final(pos) <= j < buf@.len() ==> buf@[j] != 10u8,
        *final(pos) > *old(pos) ==> buf@[*final(pos) - 1] == 10u8,
        text matches Some(s) ==> *final(pos) > *old(pos) && s@ == crate::execution::lossy_utf8(
            buf@.subrange(*old(pos) as int, *final(pos) as int),
        ),
        text is None ==> *final(pos) == *old(pos),
{
    let mut i = buf.len();
    while i > *pos
        invariant
            *pos == *old(pos),
            *pos <= i <= buf@.len(),
            forall|j: int| i <= j < buf@.len() ==> buf@[j] != 10u8,
        decreases i,
    {
        if buf[i - 1] == 10 {
            let text = crate::execution::bytes_to_string_lossy(&buf.as_slice()[*pos..i]);
            print_to(stream, text.as_str());
            *pos = i;
            return Some(text);
        }
        i = i - 1;
    }
    None
}

/// Outputs the remaining part of the buffer, assuming that it ends
/// with an incomplete line, and closes that line. The text handed to
/// the driver's stream is also returned: the lossy decode of the
/// trailing partial line with a newline after it, or nothing when the
/// buffer held no undisplayed bytes.
pub fn flush_output(stream: OutputStream, buf: &Vec<u8>, pos: &mut usize) -> (text: Option<
    String,
>)
    requires
        *old(pos) <= buf@.len(),
    ensures
        *old(pos) < buf@.len() ==> ({
            &&& *final(pos) == buf@.len()
            &&& text matches Some(s)
            &&& s@ == crate::execution::lossy_utf8(
                buf@.subrange(*old(pos) as int, buf@.len() as int),
            ) + "\n"@
        }),
        *old(pos) >= buf@.len() ==> *final(pos) == *old(pos) && text is None,
{
    let n = buf.len();
    if *pos < n {
        let mut text = crate::execution::bytes_to_string_lossy(&buf.as_slice()[*pos..n]);
        text.append("\n");
        print_to(stream, text.as_str());
        *pos = n;
        Some(text)
    } else {
        None
    }
}

/// What feeding readable output bytes does to a capture offset and
/// to the driver's own stream: with capture on, nothing moves and
/// nothing is mirrored; with capture off, the offset advances exactly
/// past the last complete line, whose lossy decode is the mirrored
/// text.
pub open spec fn mirror_law(
    buf: Seq<u8>,
    old_pos: int,
    new_pos: int,
    mirror: bool,
    text: Option<String>,
) -> bool {
    &&& old_pos <= new_pos <= buf.len()
    &&& (!mirror ==> new_pos == old_pos && text is None)
    &&& (mirror ==> {
        &&& (forall|j: int| new_pos <= j < buf.len() ==> buf[j] != 10u8)
        &&& (new_pos > old_pos ==> buf[new_pos - 1] == 10u8)
        &&& (text matches Some(t) ==> new_pos > old_pos && t@ == crate::execution::lossy_utf8(
            buf.subrange(old_pos, new_pos),
        ))
        &&& (text is None ==> new_pos == old_pos)
    })
}

/// What closing an output pipe does to its capture offset and the
/// driver's own stream: with capture off, the trailing partial line
/// is mirrored once, newline-completed, and the offset reaches the
/// end; a repeated close mirrors nothing more.
pub open spec fn flush_law(
    buf: Seq<u8>,
    old_pos: int,
    new_pos: int,
    mirror: bool,
    text: Option<String>,
) -> bool {
    &&& (!mirror ==> new_pos == old_pos && text is None)
    &&& (mirror ==> {
        &&& (old_pos < buf.len() ==> new_pos == buf.len() && (text matches Some(t) && t@
            == crate::execution::lossy_utf8(buf.subrange(old_pos, buf.len() as int)) + "\n"@))
        &&& (old_pos >= buf.len() ==> new_pos == old_pos && text is None)
    })
}

/// What one readable event does to the matching child: the bytes land
/// in the buffer or decoder behind `source`, everything else stays,
/// the capture offset and mirrored text follow [`mirror_law`], and
/// decoded stage frames extend the callback log, one `stage` each.
pub open spec fn readable_update(
    o: ObservedTask,
    prev: ObservedTask,
    source: crate::execution::InputSource,
    bytes: Seq<u8>,
    mirror: bool,
    mirrored: Option<String>,
    log0: Seq<Event>,
    log1: Seq<Event>,
    plan: Seq<Seq<Seq<char>>>,
) -> bool {
    &&& o.full_name == prev.full_name
    &&& o.pid == prev.pid
    &&& o.idx == prev.idx
    &&& o.status_and_duration == prev.status_and_duration
    &&& o.stdout_open == prev.stdout_open
    &&& o.stderr_open == prev.stderr_open
    &&& o.report_open == prev.report_open
    &&& (source is Stdout && prev.stdout_open ==> {
        &&& o.stdout_buf@ == prev.stdout_buf@ + bytes
        &&& o.stderr_buf == prev.stderr_buf
        &&& o.report_decoder == prev.report_decoder
        &&& o.stderr_offset == prev.stderr_offset
        &&& mirror_law(
            prev.stdout_buf@ + bytes,
            prev.stdout_offset as int,
            o.stdout_offset as int,
            mirror,
            mirrored,
        )
        &&& log1 == log0
    })
    &&& (source is Stderr && prev.stderr_open ==> {
        &&& o.stderr_buf@ == prev.stderr_buf@ + bytes
        &&& o.stdout_buf == prev.stdout_buf
        &&& o.report_decoder == prev.report_decoder
        &&& o.stdout_offset == prev.stdout_offset
        &&& mirror_law(
            prev.stderr_buf@ + bytes,
            prev.stderr_offset as int,
            o.stderr_offset as int,
            mirror,
            mirrored,
        )
        &&& log1 == log0
    })
    &&& (source is Report && prev.report_open ==> {
        &&& o.report_decoder.buf@ == prev.report_decoder.buf@ + bytes
        &&& o.stdout_buf == prev.stdout_buf
        &&& o.stderr_buf == prev.stderr_buf
        &&& o.stdout_offset == prev.stdout_offset
        &&& o.stderr_offset == prev.stderr_offset
        &&& mirrored is None
        &&& log1 == log0 + stage_events(
            prev.idx@,
            plan[prev.idx@],
            o.report_decoder.emitted@.skip(prev.report_decoder.emitted@.len() as int),
        )
    })
    &&& (source is Stdout && !prev.stdout_open ==> o == prev && mirrored is None && log1 == log0)
    &&& (source is Stderr && !prev.stderr_open ==> o == prev && mirrored is None && log1 == log0)
    &&& (source is Report && !prev.report_open ==> o == prev && mirrored is None && log1 == log0)
}

/// The status a non-blocking wait resolves for a child, given what it
/// had before: an exit or a signal ends it; a child still running at
/// the deadline times out; otherwise nothing is known yet.
pub open spec fn wait_status(
    o: ObservedTask,
    outcome: WaitOutcome,
    elapsed: Duration,
    timeout: Duration,
) -> Option<(Status, Duration)> {
    if o.status_and_duration is Some {
        o.status_and_duration
    } else {
        match outcome {
            WaitOutcome::Exited(code) => {
                if code == 0 {
                    Some((Status::Success, elapsed))
                } else {
                    Some((Status::Failure(code), elapsed))
                }
            },
            WaitOutcome::Signaled(name) => Some((Status::Signaled(name), elapsed)),
            WaitOutcome::StillRunning => {
                if elapsed.nanos >= timeout.nanos {
                    Some((Status::Timeout, elapsed))
                } else {
                    None
                }
            },
        }
    }
}

/// Whether this wait observation makes the supervisor kill the
/// child's process group: only a still-running child past its
/// deadline.
pub open spec fn wait_kills(
    o: ObservedTask,
    outcome: WaitOutcome,
    elapsed: Duration,
    timeout: Duration,
) -> bool {
    &&& o.status_and_duration is None
    &&& outcome is StillRunning
    &&& elapsed.nanos >= timeout.nanos
}

/// The stage callbacks a run of decoded frames produces for one task.
pub open spec fn stage_events(k: int, p: Seq<Seq<char>>, ms: Seq<StageModel>) -> Seq<Event> {
    ms.map_values(|m: StageModel| Event::Stage(k, p, m))
}

/// The children a sweep of the live set leaves in place: exactly
/// those not yet ready to retire, in their order.
pub open spec fn live_survivors(live0: Seq<ObservedTask>) -> Seq<ObservedTask> {
    live0.filter(|o: ObservedTask| !ready_to_retire(o))
}

/// The children a sweep of the live set retires: exactly those ready,
/// in their order.
pub open spec fn retired_children(live0: Seq<ObservedTask>) -> Seq<ObservedTask> {
    live0.filter(|o: ObservedTask| ready_to_retire(o))
}

/// The `report` callbacks retiring these children makes, one each, in
/// order.
pub open spec fn report_events(os: Seq<ObservedTask>, plan: Seq<Seq<Seq<char>>>) -> Seq<Event> {
    os.map_values(|o: ObservedTask| Event::Report(o.idx@, plan[o.idx@]))
}

/// The record a retired child leaves: its captures, its status and
/// the duration recorded when the status was resolved.
pub open spec fn completed_matches(c: CompletedTask, o: ObservedTask) -> bool {
    &&& c.full_name == o.full_name
    &&& o.status_and_duration matches Some(sd) && c.status == sd.0 && c.duration == sd.1
    &&& c.stdout == o.stdout_buf
    &&& c.stderr == o.stderr_buf
}

impl<W> Supervisor<W> {
    /// The index of the live child with this pid, if any.
    fn find_live(&self, pid: i32) -> (r: Option<usize>)
        ensures
            (match r {
                Some(l) => l < self.live@.len() && self.live@[l as int].pid == pid,
                None => forall|l: int|
                    0 <= l < self.live@.len() ==> (#[trigger] self.live@[l]).pid != pid,
            }),
    {
        let mut l: usize = 0;
        while l < self.live.len()
            invariant
                l <= self.live@.len(),
                forall|j: int| 0 <= j < l ==> (#[trigger] self.live@[j]).pid != pid,
            decreases self.live@.len() - l,
        {
            if self.live[l].pid == pid {
                return Some(l);
            }
            l += 1;
        }
        None
    }

    /// Maps one non-blocking wait observation onto the child's
    /// status, recording the elapsed time as its duration the moment
    /// the status resolves. Returns true exactly when the caller must
    /// kill the child's process group: the child is still running and
    /// its deadline has passed.
    pub fn on_wait(&mut self, pid: i32, outcome: WaitOutcome, elapsed: Duration) -> (kill: bool)
        requires
            supervisor_inv(*old(self)),
            !old(self).finished,
        ensures
            supervisor_inv(*final(self)),
            final(self).pending == old(self).pending,
            final(self).results == old(self).results,
            final(self).jobs == old(self).jobs,
            final(self).timeout == old(self).timeout,
            final(self).nocapture == old(self).nocapture,
            final(self).finished == old(self).finished,
            final(self).plan == old(self).plan,
            final(self).admitted == old(self).admitted,
            final(self).launching == old(self).launching,
            final(self).log == old(self).log,
            final(self).result_idxs == old(self).result_idxs,
            final(self).live@.len() == old(self).live@.len(),
            forall|l: int|
                0 <= l < old(self).live@.len() && (#[trigger] old(self).live@[l]).pid != pid
                    ==> final(self).live@[l] == old(self).live@[l],
            forall|l: int|
                0 <= l < old(self).live@.len() && (#[trigger] old(self).live@[l]).pid == pid
                    ==> final(self).live@[l] == (ObservedTask {
                    status_and_duration: wait_status(
                        old(self).live@[l],
                        outcome,
                        elapsed,
                        old(self).timeout,
                    ),
                    ..old(self).live@[l]
                }),
            kill == exists|l: int|
                0 <= l < old(self).live@.len() && (#[trigger] old(self).live@[l]).pid == pid
                    && wait_kills(old(self).live@[l], outcome, elapsed, old(self).timeout),
    {
        let found = self.find_live(pid);
        match found {
            None => {
                proof {
                    assert(self.live@ =~= old(self).live@);
                }
                false
            },
            Some(l) => {
                let ghost old_live = self.live@;
                let mut o = self.live.remove(l);
                let ghost orig = o;
                let mut kill = false;
                if o.status_and_duration.is_none() {
                    match outcome {
                        WaitOutcome::Exited(code) => {
                            if code == 0 {
                                o.status_and_duration = Some((Status::Success, elapsed));
                            } else {
                                o.status_and_duration = Some((Status::Failure(code), elapsed));
                            }
                        },
                        WaitOutcome::Signaled(name) => {
                            o.status_and_duration = Some((Status::Signaled(name), elapsed));
                        },
                        WaitOutcome::StillRunning => {
                            if elapsed.at_least(&self.timeout) {
                                o.status_and_duration = Some((Status::Timeout, elapsed));
                                kill = true;
                            }
                        },
                    }
                }
                self.live.insert(l, o);
                proof {
                    assert(o == (ObservedTask {
                        status_and_duration: wait_status(orig, outcome, elapsed, self.timeout),
                        ..orig
                    }));
                    assert(self.live@ =~= old_live.update(l as int, o));
                    assert forall|j: int|
                        0 <= j < old_live.len() && (#[trigger] old_live[j]).pid != pid
                            implies self.live@[j] == old_live[j] by {
                        assert(j != l);
                    }
                    assert forall|j: int|
                        0 <= j < old_live.len() && (#[trigger] old_live[j]).pid == pid
                            implies self.live@[j] == o by {
                        assert(j == l);
                    }
                }
                kill
            },
        }
    }

    /// Feeds bytes just read from one of a child's pipes: output is
    /// appended to the task's capture buffer (and, with capture off,
    /// whole lines are mirrored at once), while stage-pipe bytes go
    /// to the task's decoder, and each decoded frame is handed to the
    /// reporter as one stage of the task.
    #[verifier::rlimit(100)]
    pub fn on_readable<R: Report<W>>(
        &mut self,
        reporter: &mut R,
        pid: i32,
        source: crate::execution::InputSource,
        bytes: &[u8],
    ) -> (mirrored: Option<String>)
        requires
            supervisor_inv(*old(self)),
            !old(self).finished,
        ensures
            supervisor_inv(*final(self)),
            final(self).pending == old(self).pending,
            final(self).results == old(self).results,
            final(self).jobs == old(self).jobs,
            final(self).timeout == old(self).timeout,
            final(self).nocapture == old(self).nocapture,
            final(self).finished == old(self).finished,
            final(self).plan == old(self).plan,
            final(self).admitted == old(self).admitted,
            final(self).launching == old(self).launching,
            final(self).result_idxs == old(self).result_idxs,
            final(self).live@.len() == old(self).live@.len(),
            forall|l: int|
                0 <= l < old(self).live@.len() && (#[trigger] old(self).live@[l]).pid != pid
                    ==> final(self).live@[l] == old(self).live@[l],
            forall|l: int|
                0 <= l < old(self).live@.len() && (#[trigger] old(self).live@[l]).pid == pid
                    ==> readable_update(
                    final(self).live@[l],
                    old(self).live@[l],
                    source,
                    bytes@,
                    old(self).nocapture,
                    mirrored,
                    old(self).log@,
                    final(self).log@,
                    old(self).plan@,
                ),
            (forall|l: int|
                0 <= l < old(self).live@.len() ==> !((#[trigger] old(self).live@[l]).pid == pid
                    && source is Report && old(self).live@[l].report_open)) ==> final(self).log
                == old(self).log,
            (forall|l: int|
                0 <= l < old(self).live@.len() ==> (#[trigger] old(self).live@[l]).pid != pid)
                ==> mirrored is None,
    {
        let mut mirrored: Option<String> = None;
        let found = self.find_live(pid);
        match found {
            None => {
                proof {
                    assert(self.live@ =~= old(self).live@);
                }
                return None;
            },
            Some(l) => {
                let ghost old_live = self.live@;
                proof {
                    assert(has_start(self.log@, self.live@[l as int].idx@));
                    assert(no_report(self.log@, self.live@[l as int].idx@));
                    assert(obs_inv(self.live@[l as int], self.plan@, self.admitted@));
                }
                let mut o = self.live.remove(l);
                let ghost orig = o;
                match source {
                    crate::execution::InputSource::Stdout => {
                        if o.stdout_open {
                            o.stdout_buf.extend_from_slice(bytes);
                            proof {
                                assert(o.stdout_buf@ =~= orig.stdout_buf@ + bytes@);
                            }
                            if self.nocapture {
                                mirrored = display_lines(
                                    OutputStream::Stdout,
                                    &o.stdout_buf,
                                    &mut o.stdout_offset,
                                );
                            }
                        }
                    },
                    crate::execution::InputSource::Stderr => {
                        if o.stderr_open {
                            o.stderr_buf.extend_from_slice(bytes);
                            proof {
                                assert(o.stderr_buf@ =~= orig.stderr_buf@ + bytes@);
                            }
                            if self.nocapture {
                                mirrored = display_lines(
                                    OutputStream::Stderr,
                                    &o.stderr_buf,
                                    &mut o.stderr_offset,
                                );
                            }
                        }
                    },
                    crate::execution::InputSource::Report => {
                        if o.report_open {
                            o.report_decoder.append(bytes);
                            let ghost k = o.idx@;
                            let ghost path = self.plan@[k];
                            let ghost log0 = self.log@;
                            let ghost emitted0 = o.report_decoder.emitted@.len() as int;
                            let mut going = true;
                            while going
                                invariant
                                    decoder_inv(o.report_decoder),
                                    self.live@ == old_live.remove(l as int),
                                    l < old_live.len(),
                                    old_live == old(self).live@,
                                    self.pending == old(self).pending,
                                    self.results == old(self).results,
                                    self.jobs == old(self).jobs,
                                    self.timeout == old(self).timeout,
                                    self.nocapture == old(self).nocapture,
                                    self.finished == old(self).finished,
                                    !self.finished,
                                    self.plan == old(self).plan,
                                    self.admitted == old(self).admitted,
                                    self.launching == old(self).launching,
                                    self.result_idxs == old(self).result_idxs,
                                    o.full_name == orig.full_name,
                                    o.pid == orig.pid,
                                    o.idx == orig.idx,
                                    o.stdout_open == orig.stdout_open,
                                    o.stderr_open == orig.stderr_open,
                                    o.report_open == orig.report_open,
                                    o.status_and_duration == orig.status_and_duration,
                                    o.stdout_buf == orig.stdout_buf,
                                    o.stderr_buf == orig.stderr_buf,
                                    o.stdout_offset == orig.stdout_offset,
                                    o.stderr_offset == orig.stderr_offset,
                                    o.report_decoder.buf@ == orig.report_decoder.buf@ + bytes@,
                                    orig == old(self).live@[l as int],
                                    k == orig.idx@,
                                    path == self.plan@[k],
                                    log0 == old(self).log@,
                                    emitted0 == orig.report_decoder.emitted@.len() as int,
                                    0 <= emitted0 <= o.report_decoder.emitted@.len(),
                                    self.log@ == log0 + stage_events(
                                        k,
                                        path,
                                        o.report_decoder.emitted@.skip(emitted0),
                                    ),
                                    log_wf(self.log@, self.plan@),
                                    no_done(self.log@),
                                    ev_wf(Event::Stage(k, path, arbitrary()), self.plan@),
                                    has_start(self.log@, k),
                                    no_report(self.log@, k),
                                    forall|k2: int|
                                        has_start(log0, k2) ==> has_start(self.log@, k2),
                                    forall|k2: int|
                                        no_report(log0, k2) ==> no_report(self.log@, k2),
                                    forall|i: int|
                                        0 <= i < self.log@.len() ==> ev_idx(#[trigger] self.log@[i])
                                            < self.admitted@,
                                    forall|i: int|
                                        0 <= i < self.log@.len() && (#[trigger] self.log@[i])
                                            is Report ==> self.result_idxs@.contains(
                                            ev_idx(self.log@[i]),
                                        ),
                                decreases o.report_decoder.buf@.len() - o.report_decoder.offset + (
                                if going {
                                    1int
                                } else {
                                    0int
                                }),
                            {
                                let ghost pre_dec = o.report_decoder;
                                let ghost pre_log = self.log@;
                                match o.report_decoder.try_decode() {
                                    Some(rep) => {
                                        reporter.stage(o.full_name.as_slice(), rep);
                                        proof {
                                            let m = crate::codec::report_model(rep);
                                            let e = Event::Stage(k, path, m);
                                            lemma_log_push(self.log@, self.plan@, e);
                                            self.log@ = self.log@.push(e);
                                            assert(o.report_decoder.emitted@.skip(emitted0)
                                                =~= pre_dec.emitted@.skip(emitted0).push(m));
                                            assert(stage_events(
                                                k,
                                                path,
                                                o.report_decoder.emitted@.skip(emitted0),
                                            ) =~= stage_events(
                                                k,
                                                path,
                                                pre_dec.emitted@.skip(emitted0),
                                            ).push(e));
                                            assert(self.log@ =~= log0 + stage_events(
                                                k,
                                                path,
                                                o.report_decoder.emitted@.skip(emitted0),
                                            ));
                                            assert forall|i: int|
                                                0 <= i < self.log@.len() && (
                                                #[trigger] self.log@[i]) is Report
                                                    implies self.result_idxs@.contains(
                                                ev_idx(self.log@[i]),
                                            ) by {
                                                assert(self.log@[i] == pre_log[i]);
                                            }
                                        }
                                    },
                                    None => {
                                        going = false;
                                        proof {
                                            assert(o.report_decoder.emitted@ == pre_dec.emitted@);
                                        }
                                    },
                                }
                            }
                        }
                    },
                }
                self.live.insert(l, o);
                proof {
                    assert(self.live@ =~= old_live.update(l as int, o));
                    assert forall|j: int|
                        0 <= j < old_live.len() && (#[trigger] old_live[j]).pid != pid
                            implies self.live@[j] == old_live[j] by {
                        assert(j != l);
                    }
                    assert forall|j: int|
                        0 <= j < old_live.len() && (#[trigger] old_live[j]).pid == pid
                            implies self.live@[j] == o by {
                        assert(j == l);
                    }
                    assert forall|j: int|
                        0 <= j < self.live@.len() implies has_start(
                        self.log@,
                        (#[trigger] self.live@[j]).idx@,
                    ) && no_report(self.log@, self.live@[j].idx@) by {
                        assert(self.live@[j].idx@ == old_live[j].idx@);
                    }
                    assert(readable_update(
                        o,
                        orig,
                        source,
                        bytes@,
                        old(self).nocapture,
                        mirrored,
                        old(self).log@,
                        self.log@,
                        self.plan@,
                    ));
                }
                mirrored
            },
        }
    }

    /// Marks the pipe behind `source` as closed for the child with
    /// this pid; with capture off, the trailing partial line of a
    /// closing output stream is first mirrored and completed.
    pub fn on_closed(&mut self, pid: i32, source: crate::execution::InputSource) -> (mirrored:
        Option<String>)
        requires
            supervisor_inv(*old(self)),
            !old(self).finished,
        ensures
            supervisor_inv(*final(self)),
            final(self).pending == old(self).pending,
            final(self).results == old(self).results,
            final(self).jobs == old(self).jobs,
            final(self).timeout == old(self).timeout,
            final(self).nocapture == old(self).nocapture,
            final(self).finished == old(self).finished,
            final(self).plan == old(self).plan,
            final(self).admitted == old(self).admitted,
            final(self).launching == old(self).launching,
            final(self).log == old(self).log,
            final(self).result_idxs == old(self).result_idxs,
            final(self).live@.len() == old(self).live@.len(),
            forall|l: int|
                0 <= l < old(self).live@.len() && (#[trigger] old(self).live@[l]).pid != pid
                    ==> final(self).live@[l] == old(self).live@[l],
            forall|l: int|
                0 <= l < old(self).live@.len() && (#[trigger] old(self).live@[l]).pid == pid ==> ({
                    let o = final(self).live@[l];
                    let prev = old(self).live@[l];
                    &&& o.stdout_open == (prev.stdout_open && !(source is Stdout))
                    &&& o.stderr_open == (prev.stderr_open && !(source is Stderr))
                    &&& o.report_open == (prev.report_open && !(source is Report))
                    &&& o.full_name == prev.full_name
                    &&& o.pid == prev.pid
                    &&& o.status_and_duration == prev.status_and_duration
                    &&& o.stdout_buf == prev.stdout_buf
                    &&& o.stderr_buf == prev.stderr_buf
                    &&& o.report_decoder == prev.report_decoder
                    &&& o.idx == prev.idx
                    &&& (source is Stdout ==> o.stderr_offset == prev.stderr_offset && flush_law(
                        prev.stdout_buf@,
                        prev.stdout_offset as int,
                        o.stdout_offset as int,
                        old(self).nocapture,
                        mirrored,
                    ))
                    &&& (source is Stderr ==> o.stdout_offset == prev.stdout_offset && flush_law(
                        prev.stderr_buf@,
                        prev.stderr_offset as int,
                        o.stderr_offset as int,
                        old(self).nocapture,
                        mirrored,
                    ))
                    &&& (source is Report ==> o.stdout_offset == prev.stdout_offset
                        && o.stderr_offset == prev.stderr_offset && mirrored is None)
                }),
            (forall|l: int|
                0 <= l < old(self).live@.len() ==> (#[trigger] old(self).live@[l]).pid != pid)
                ==> mirrored is None,
    {
        let mut mirrored: Option<String> = None;
        let found = self.find_live(pid);
        match found {
            None => {
                proof {
                    assert(self.live@ =~= old(self).live@);
                }
            },
            Some(l) => {
                let ghost old_live = self.live@;
                let mut o = self.live.remove(l);
                match source {
                    crate::execution::InputSource::Stdout => {
                        if self.nocapture {
                            mirrored = flush_output(
                                OutputStream::Stdout,
                                &o.stdout_buf,
                                &mut o.stdout_offset,
                            );
                        }
                        o.stdout_open = false;
                    },
                    crate::execution::InputSource::Stderr => {
                        if self.nocapture {
                            mirrored = flush_output(
                                OutputStream::Stderr,
                                &o.stderr_buf,
                                &mut o.stderr_offset,
                            );
                        }
                        o.stderr_open = false;
                    },
                    crate::execution::InputSource::Report => {
                        o.report_open = false;
                    },
                }
                self.live.insert(l, o);
                proof {
                    assert(self.live@ =~= old_live.update(l as int, o));
                    assert forall|j: int|
                        0 <= j < old_live.len() && (#[trigger] old_live[j]).pid != pid
                            implies self.live@[j] == old_live[j] by {
                        assert(j != l);
                    }
                    assert forall|j: int|
                        0 <= j < old_live.len() && (#[trigger] old_live[j]).pid == pid
                            implies self.live@[j] == o by {
                        assert(j == l);
                    }
                }
            },
        }
        mirrored
    }

    /// Retires every child whose three pipes are closed and whose
    /// status is known: each one, in live order, yields a completed
    /// task carrying its captures, status and duration, which is
    /// handed to the reporter and appended to the results; exactly
    /// the children not yet ready stay live, in their order.
    #[verifier::rlimit(100)]
    pub fn retire<R: Report<W>>(&mut self, reporter: &mut R)
        requires
            supervisor_inv(*old(self)),
            !old(self).finished,
        ensures
            supervisor_inv(*final(self)),
            final(self).pending == old(self).pending,
            final(self).jobs == old(self).jobs,
            final(self).timeout == old(self).timeout,
            final(self).nocapture == old(self).nocapture,
            final(self).finished == old(self).finished,
            final(self).plan == old(self).plan,
            final(self).admitted == old(self).admitted,
            final(self).launching == old(self).launching,
            final(self).live@ == live_survivors(old(self).live@),
            final(self).results@.len() == old(self).results@.len() + retired_children(
                old(self).live@,
            ).len(),
            forall|r: int|
                0 <= r < old(self).results@.len() ==> #[trigger] final(self).results@[r] == old(
                    self,
                ).results@[r],
            forall|r: int|
                0 <= r < retired_children(old(self).live@).len() ==> completed_matches(
                    #[trigger] final(self).results@[old(self).results@.len() + r],
                    retired_children(old(self).live@)[r],
                ),
            final(self).log@ == old(self).log@ + report_events(
                retired_children(old(self).live@),
                old(self).plan@,
            ),
    {
        let mut l: usize = 0;
        let ghost mut scanned: int = 0;
        proof {
            reveal_with_fuel(Seq::filter, 2);
            assert(old(self).live@.take(0) =~= Seq::<ObservedTask>::empty());
            assert(live_survivors(old(self).live@.take(0)) =~= Seq::<ObservedTask>::empty());
            assert(retired_children(old(self).live@.take(0)) =~= Seq::<ObservedTask>::empty());
            assert(self.live@ =~= live_survivors(old(self).live@.take(0)) + old(self).live@.skip(
                0,
            ));
            assert(report_events(retired_children(old(self).live@.take(0)), old(self).plan@)
                =~= Seq::<Event>::empty());
            assert(self.log@ =~= old(self).log@ + report_events(
                retired_children(old(self).live@.take(0)),
                old(self).plan@,
            ));
        }
        while l < self.live.len()
            invariant
                supervisor_inv(*self),
                !self.finished,
                self.pending == old(self).pending,
                self.jobs == old(self).jobs,
                self.timeout == old(self).timeout,
                self.nocapture == old(self).nocapture,
                self.finished == old(self).finished,
                self.plan == old(self).plan,
                self.admitted == old(self).admitted,
                self.launching == old(self).launching,
                0 <= scanned <= old(self).live@.len(),
                l as int == live_survivors(old(self).live@.take(scanned)).len(),
                self.live@ == live_survivors(old(self).live@.take(scanned)) + old(
                    self,
                ).live@.skip(scanned),
                self.results@.len() == old(self).results@.len() + retired_children(
                    old(self).live@.take(scanned),
                ).len(),
                forall|r: int|
                    0 <= r < old(self).results@.len() ==> #[trigger] self.results@[r] == old(
                        self,
                    ).results@[r],
                forall|r: int|
                    0 <= r < retired_children(old(self).live@.take(scanned)).len()
                        ==> completed_matches(
                        #[trigger] self.results@[old(self).results@.len() + r],
                        retired_children(old(self).live@.take(scanned))[r],
                    ),
                self.log@ == old(self).log@ + report_events(
                    retired_children(old(self).live@.take(scanned)),
                    old(self).plan@,
                ),
            decreases self.live@.len() - l,
        {
            let ghost e = old(self).live@[scanned];
            proof {
                assert(old(self).live@.skip(scanned).len() > 0);
                assert(scanned < old(self).live@.len());
                assert(self.live@[l as int] == old(self).live@.skip(scanned)[0]);
                assert(old(self).live@.skip(scanned)[0] == e);
            }
            let ready = {
                let o = &self.live[l];
                !o.stdout_open && !o.stderr_open && !o.report_open
                    && o.status_and_duration.is_some()
            };
            let ghost t1 = old(self).live@.take(scanned + 1);
            proof {
                reveal_with_fuel(Seq::filter, 2);
                assert(ready == ready_to_retire(e));
                assert(t1.drop_last() =~= old(self).live@.take(scanned));
                assert(t1.last() == e);
                assert(t1.len() > 0);
            }
            if ready {
                let ghost old_live = self.live@;
                let ghost pre = *self;
                proof {
                    assert(has_start(self.log@, self.live@[l as int].idx@));
                    assert(no_report(self.log@, self.live@[l as int].idx@));
                    assert(obs_inv(self.live@[l as int], self.plan@, self.admitted@));
                }
                let o = self.live.remove(l);
                proof {
                    assert(o == e);
                    assert forall|j: int| 0 <= j < self.live@.len() implies (
                    #[trigger] self.live@[j]) == old_live[
                        if j < l {
                            j as int
                        } else {
                            j + 1
                        }
                    ] by {}
                    assert forall|j1: int, j2: int|
                        0 <= j1 < j2 < self.live@.len() implies (#[trigger] self.live@[j1]).pid
                        != (#[trigger] self.live@[j2]).pid && self.live@[j1].idx@
                        != self.live@[j2].idx@ by {
                        let jj1: int = if j1 < l {
                            j1 as int
                        } else {
                            j1 + 1
                        };
                        let jj2: int = if j2 < l {
                            j2 as int
                        } else {
                            j2 + 1
                        };
                        assert(self.live@[j1] == old_live[jj1]);
                        assert(self.live@[j2] == old_live[jj2]);
                    }
                    // The sweep's bookkeeping: the ready child leaves
                    // the live set and joins the retired run.
                    reveal_with_fuel(Seq::filter, 2);
                    assert(live_survivors(t1) == live_survivors(old(self).live@.take(scanned)));
                    assert(retired_children(t1) =~= retired_children(
                        old(self).live@.take(scanned),
                    ).push(e));
                    assert(self.live@ =~= live_survivors(t1) + old(self).live@.skip(scanned + 1));
                }
                let ObservedTask {
                    full_name,
                    pid: _,
                    stdout_open: _,
                    stderr_open: _,
                    report_open: _,
                    status_and_duration,
                    stdout_buf,
                    stderr_buf,
                    stdout_offset: _,
                    stderr_offset: _,
                    report_decoder: _,
                    idx,
                } = o;
                let (status, duration) = match status_and_duration {
                    Some(sd) => sd,
                    None => {
                        proof {
                            assert(false);
                        }
                        (Status::Timeout, Duration::default())
                    },
                };
                let completed = CompletedTask {
                    full_name,
                    duration,
                    stdout: stdout_buf,
                    stderr: stderr_buf,
                    status,
                };
                reporter.report(&completed);
                proof {
                    let k = idx@;
                    let p = self.plan@[k];
                    let pre_log = self.log@;
                    let pre_ri = self.result_idxs@;
                    assert forall|r: int| 0 <= r < pre_ri.len() implies #[trigger] pre_ri[r]
                        != k by {
                        assert(pre.result_idxs@[r] != pre.live@[l as int].idx@);
                    }
                    lemma_log_push(self.log@, self.plan@, Event::Report(k, p));
                    self.log@ = self.log@.push(Event::Report(k, p));
                    self.result_idxs@ = self.result_idxs@.push(k);
                    let l2 = self.log@;
                    let ri2 = self.result_idxs@;
                    assert(ri2[ri2.len() - 1] == k);
                    assert forall|i: int|
                        0 <= i < l2.len() && (#[trigger] l2[i]) is Report implies ri2.contains(
                        ev_idx(l2[i]),
                    ) by {
                        if i < l2.len() - 1 {
                            assert(l2[i] == pre_log[i]);
                            let r = choose|r: int|
                                0 <= r < pre_ri.len() && pre_ri[r] == ev_idx(pre_log[i]);
                            assert(ri2[r] == ev_idx(l2[i]));
                        } else {
                            assert(ri2[ri2.len() - 1] == ev_idx(l2[i]));
                        }
                    }
                    assert forall|r: int, j: int|
                        0 <= r < ri2.len() && 0 <= j < self.live@.len() implies #[trigger] ri2[r]
                        != (#[trigger] self.live@[j]).idx@ by {
                        if r < ri2.len() - 1 {
                            assert(ri2[r] == pre_ri[r]);
                        } else {
                            assert(ri2[r] == k);
                        }
                    }
                    // One more report callback, for exactly this child.
                    assert(report_events(retired_children(t1), old(self).plan@) =~= report_events(
                        retired_children(old(self).live@.take(scanned)),
                        old(self).plan@,
                    ).push(Event::Report(e.idx@, old(self).plan@[e.idx@])));
                    assert(self.log@ =~= old(self).log@ + report_events(
                        retired_children(t1),
                        old(self).plan@,
                    ));
                }
                self.results.push(completed);
                proof {
                    assert(completed_matches(self.results@.last(), e));
                    let retired1 = retired_children(t1);
                    assert forall|r: int|
                        0 <= r < retired1.len() implies completed_matches(
                        #[trigger] self.results@[old(self).results@.len() + r],
                        retired1[r],
                    ) by {
                        if r < retired1.len() - 1 {
                            assert(self.results@[old(self).results@.len() + r] == pre.results@[old(
                                self,
                            ).results@.len() + r]);
                            assert(retired1[r] == retired_children(
                                old(self).live@.take(scanned),
                            )[r]);
                        } else {
                            assert(self.results@[old(self).results@.len() + r]
                                == self.results@.last());
                            assert(retired1[r] == e);
                        }
                    }
                    scanned = scanned + 1;
                }
            } else {
                proof {
                    reveal_with_fuel(Seq::filter, 2);
                    assert(live_survivors(t1) =~= live_survivors(
                        old(self).live@.take(scanned),
                    ).push(e));
                    assert(retired_children(t1) == retired_children(
                        old(self).live@.take(scanned),
                    ));
                    assert(self.live@ =~= live_survivors(t1) + old(self).live@.skip(scanned + 1));
                    scanned = scanned + 1;
                }
                l += 1;
            }
        }
        proof {
            assert(old(self).live@.skip(scanned).len() == 0);
            assert(scanned == old(self).live@.len());
            assert(old(self).live@.take(scanned) =~= old(self).live@);
            assert(self.live@ =~= live_survivors(old(self).live@));
        }
    }

    /// True when the run is over: nothing pending and nothing live.
    pub fn is_done(&self) -> (r: bool)
        ensures
            r == (self.pending@.len() == 0 && self.live@.len() == 0),
    {
        self.pending.len() == 0 && self.live.len() == 0
    }

    /// Closes the run: tells the reporter everything has been
    /// reported. Called once, after the last retirement.
    pub fn finish<R: Report<W>>(&mut self, reporter: &mut R)
        requires
            supervisor_inv(*old(self)),
            !old(self).finished,
            old(self).launching@ is None,
            old(self).pending@.len() == 0,
            old(self).live@.len() == 0,
        ensures
            supervisor_inv(*final(self)),
            final(self).finished,
            final(self).results == old(self).results,
            final(self).plan == old(self).plan,
            final(self).log@ == old(self).log@.push(Event::Done),
    {
        reporter.done();
        proof {
            lemma_log_push_done(self.log@, self.plan@);
            self.log@ = self.log@.push(Event::Done);
        }
        self.finished = true;
    }

    /// The pids of the live children, for waiting and for the
    /// cancellation path.
    pub fn live_pids(&self) -> (r: Vec<i32>)
        ensures
            r@.len() == self.live@.len(),
            forall|l: int| 0 <= l < r@.len() ==> r@[l] == (#[trigger] self.live@[l]).pid,
    {
        let mut r: Vec<i32> = Vec::new();
        let mut l: usize = 0;
        while l < self.live.len()
            invariant
                l <= self.live@.len(),
                r@.len() == l,
                forall|j: int| 0 <= j < l ==> r@[j] == (#[trigger] self.live@[j]).pid,
            decreases self.live@.len() - l,
        {
            r.push(self.live[l].pid);
            l += 1;
        }
        r
    }

    /// Hands back the accumulated results, in completion order.
    pub fn into_results(self) -> (r: Vec<CompletedTask>)
        ensures
            r == self.results,
    {
        self.results
    }
}

} // verus!
