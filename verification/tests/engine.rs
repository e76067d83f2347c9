use raclette::codec::serialize_and_write;
use raclette::codec::StreamDecoder;
use raclette::config::Format;
use raclette::config::When;
use raclette::execution::make_plan;
use raclette::execution::make_token;
use raclette::execution::split_token;
use raclette::execution::CompletedTask;
use raclette::execution::InputSource;
use raclette::execution::Report;
use raclette::execution::StageReport;
use raclette::execution::StageStatus;
use raclette::execution::Status;
use raclette::execution::Task;
use raclette::report::TestStats;
use raclette::skip;
use raclette::supervisor::Supervisor;
use raclette::supervisor::WaitOutcome;
use raclette::test_case;
use raclette::test_case_ctx;
use raclette::test_suite;
use raclette::Config;
use raclette::Duration;
use raclette::TestResults;

struct Recorder {
    events: Vec<String>,
}

impl Recorder {
    fn new() -> Recorder {
        Recorder { events: Vec::new() }
    }
}

impl<W> Report<W> for Recorder {
    fn init(&mut self, plan: &[Task<W>]) {
        self.events.push(format!("init {}", plan.len()));
    }

    fn start(&mut self, task_name: String) {
        self.events.push(format!("start {}", task_name));
    }

    fn report(&mut self, result: &CompletedTask) {
        let verdict = if result.status.is_ok() { "ok" } else { "failed" };
        self.events.push(format!("report {} {}", result.name(), verdict));
    }

    fn done(&mut self) {
        self.events.push("done".to_string());
    }
}

fn plan_names(plan: &Vec<Task<u64>>) -> Vec<String> {
    let mut names = Vec::new();
    for task in plan.iter() {
        names.push(task.name());
    }
    names
}

#[test]
fn make_token_is_correct() {
    for src in vec![InputSource::Stdout, InputSource::Stderr, InputSource::Report] {
        let pid = nix::unistd::Pid::this().as_raw();
        assert_eq!(split_token(make_token(pid, src.clone())), (pid, src));
    }
}

#[test]
fn stream_decoder_is_correct() {
    let s1 = StageReport {
        stage_name: "s1".to_string(),
        status: StageStatus::Success,
        duration: Duration::from_millis(111),
    };
    let s2 = StageReport {
        stage_name: "s2".to_string(),
        status: StageStatus::Success,
        duration: Duration::from_millis(222),
    };
    let s3 = StageReport {
        stage_name: "s3".to_string(),
        status: StageStatus::Failure(42),
        duration: Duration::from_millis(333),
    };

    let mut dec = StreamDecoder::new();
    let mut buf = Vec::new();
    for s in vec![&s1, &s2, &s3] {
        serialize_and_write(&mut buf, s);
    }

    dec.append(&buf);
    assert_eq!(dec.try_decode(), Some(s1));
    assert_eq!(dec.try_decode(), Some(s2));
    assert_eq!(dec.try_decode(), Some(s3));
    assert_eq!(dec.try_decode(), None);
}

#[test]
fn stream_decoder_handles_any_chunking() {
    let s1 = StageReport {
        stage_name: "first".to_string(),
        status: StageStatus::Skipped("why".to_string()),
        duration: Duration::from_millis(5),
    };
    let s2 = StageReport {
        stage_name: "second".to_string(),
        status: StageStatus::Failure(-7),
        duration: Duration::from_nanos(123_456_789),
    };
    let mut buf = Vec::new();
    serialize_and_write(&mut buf, &s1);
    serialize_and_write(&mut buf, &s2);

    let mut dec = StreamDecoder::new();
    let mut decoded = Vec::new();
    for byte in buf.iter() {
        dec.append(&[*byte]);
        while let Some(rep) = dec.try_decode() {
            decoded.push(rep);
        }
    }
    assert_eq!(decoded, vec![s1, s2]);
    assert_eq!(dec.try_decode(), None);
}

#[test]
fn decoder_stops_on_corrupt_payload() {
    let mut dec = StreamDecoder::new();
    // A frame whose payload is one byte long and holds a bad tag.
    dec.append(&[0, 0, 0, 0, 0, 0, 0, 1, 9]);
    assert_eq!(dec.try_decode(), None);
    // A well-formed frame after the corrupt one is never decoded.
    let good = StageReport {
        stage_name: "s".to_string(),
        status: StageStatus::Success,
        duration: Duration::from_millis(1),
    };
    let mut buf = Vec::new();
    serialize_and_write(&mut buf, &good);
    dec.append(&buf);
    assert_eq!(dec.try_decode(), None);
}

#[test]
fn parse_when_words() {
    assert_eq!(raclette::config::parse_when("auto"), Ok(When::Auto));
    assert_eq!(raclette::config::parse_when("always"), Ok(When::Always));
    assert_eq!(raclette::config::parse_when("never"), Ok(When::Never));
    assert_eq!(
        raclette::config::parse_when("sometimes"),
        Err("unsupported WHEN value: sometimes".to_string())
    );
}

#[test]
fn parse_format_words() {
    assert_eq!(raclette::config::parse_format("auto"), Ok(Format::Auto));
    assert_eq!(raclette::config::parse_format("libtest"), Ok(Format::LibTest));
    assert_eq!(raclette::config::parse_format("tap"), Ok(Format::Tap));
    assert_eq!(raclette::config::parse_format("json"), Ok(Format::Json));
    assert_eq!(
        raclette::config::parse_format("xml"),
        Err("unsupported FMT value: xml".to_string())
    );
}

#[test]
fn config_merge_prefers_set_fields() {
    let override_config = Config::default().filter("foo".to_string()).jobs(3);
    let default_config = Config::default()
        .filter("bar".to_string())
        .timeout(Duration::from_secs(7))
        .color(When::Never)
        .format(Format::Tap);
    let merged = override_config.merge(default_config);
    assert_eq!(merged.filter, Some("foo".to_string()));
    assert_eq!(merged.jobs, Some(3));
    assert_eq!(merged.timeout, Some(Duration::from_secs(7)));
    assert_eq!(merged.color, When::Never);
    assert_eq!(merged.format, Format::Tap);
    assert!(!merged.nocapture);
}

#[test]
fn config_merge_concatenates_skip_filters() {
    let a = Config::default().skip_filters(vec!["x".to_string()]);
    let b = Config::default().skip_filters(vec!["y".to_string(), "z".to_string()]);
    let merged = a.merge(b);
    assert_eq!(
        merged.skip_filters,
        vec!["x".to_string(), "y".to_string(), "z".to_string()]
    );
}

fn sample_tree() -> raclette::TestTree<u64> {
    test_suite(
        "all",
        vec![
            test_case("foo", 1u64),
            test_case("bar", 2u64),
            test_case("foobar", 3u64),
        ],
    )
}

#[test]
fn filter_admits_matching_names() {
    let config = Config::default().filter("foo".to_string());
    let plan = make_plan(&config, sample_tree());
    assert_eq!(plan_names(&plan), vec!["all::foo".to_string(), "all::foobar".to_string()]);
}

#[test]
fn skip_filters_prune_names() {
    let config = Config::default().skip_filters(vec!["bar".to_string()]);
    let plan = make_plan(&config, sample_tree());
    assert_eq!(plan_names(&plan), vec!["all::foo".to_string()]);
}

#[test]
fn matching_suite_name_admits_subtree() {
    let config = Config::default().filter("all".to_string());
    let plan = make_plan(&config, sample_tree());
    assert_eq!(plan.len(), 3);
}

#[test]
fn suite_of_two_passing_tests() {
    let tree = test_suite("arith", vec![test_case("add", 0u64), test_case("mul", 1u64)]);
    let config = Config::default().jobs(2);
    let plan = make_plan(&config, tree);
    assert_eq!(plan.len(), 2);
    let mut rec = Recorder::new();
    let mut sup = Supervisor::new(&config, plan, &mut rec);
    let mut pid = 100;
    let mut registered = Vec::new();
    while sup.needs_admission() {
        if let Some(task) = sup.admit_next(&mut rec) {
            pid += 1;
            sup.register_child(task.full_name, pid);
            registered.push(pid);
        }
    }
    for p in registered.iter() {
        assert!(!sup.on_wait(*p, WaitOutcome::Exited(0), Duration::from_millis(3)));
        sup.on_closed(*p, InputSource::Stdout);
        sup.on_closed(*p, InputSource::Stderr);
        sup.on_closed(*p, InputSource::Report);
    }
    sup.retire(&mut rec);
    assert!(sup.is_done());
    sup.finish(&mut rec);
    let results = TestResults::new(sup.into_results());
    assert!(results.all_ok());
    let completed = results.into_completed_tasks();
    assert_eq!(completed.len(), 2);
    for c in completed.iter() {
        assert_eq!(c.status, Status::Success);
    }
    assert_eq!(rec.events[0], "init 2");
    assert_eq!(rec.events.last().unwrap(), "done");
}

#[test]
fn failing_test_keeps_its_stderr() {
    let tree = test_suite(
        "arith",
        vec![test_case("add", 0u64), test_case("bad_math", 1u64)],
    );
    let config = Config::default().jobs(2);
    let plan = make_plan(&config, tree);
    let mut rec = Recorder::new();
    let mut sup = Supervisor::new(&config, plan, &mut rec);
    let mut handles = Vec::new();
    let mut pid = 40;
    while sup.needs_admission() {
        if let Some(task) = sup.admit_next(&mut rec) {
            pid += 1;
            let name = task.name();
            sup.register_child(task.full_name, pid);
            handles.push((pid, name));
        }
    }
    for (p, name) in handles.iter() {
        if name == "arith::bad_math" {
            sup.on_readable(&mut rec, *p, InputSource::Stderr, b"panicked at 'assertion failed'\n");
            assert!(!sup.on_wait(*p, WaitOutcome::Exited(101), Duration::from_millis(2)));
        } else {
            assert!(!sup.on_wait(*p, WaitOutcome::Exited(0), Duration::from_millis(2)));
        }
        sup.on_closed(*p, InputSource::Stdout);
        sup.on_closed(*p, InputSource::Stderr);
        sup.on_closed(*p, InputSource::Report);
    }
    sup.retire(&mut rec);
    sup.finish(&mut rec);
    let results = TestResults::new(sup.into_results());
    assert!(!results.all_ok());
    let completed = results.into_completed_tasks();
    let bad = completed
        .iter()
        .find(|c| c.name() == "arith::bad_math")
        .unwrap();
    assert_eq!(bad.status, Status::Failure(101));
    assert!(bad.stderr_as_string().contains("assertion failed"));
    let good = completed.iter().find(|c| c.name() == "arith::add").unwrap();
    assert_eq!(good.status, Status::Success);
}

#[test]
fn never_returning_test_times_out() {
    let tree = test_case("spin", 0u64);
    let config = Config::default().timeout(Duration::from_secs(1));
    let plan = make_plan(&config, tree);
    let mut rec = Recorder::new();
    let mut sup = Supervisor::new(&config, plan, &mut rec);
    let task = sup.admit_next(&mut rec).unwrap();
    sup.register_child(task.full_name, 77);
    sup.on_readable(&mut rec, 77, InputSource::Stdout, b"watching a second passing by...\n");
    sup.on_readable(&mut rec, 77, InputSource::Stdout, b"watching a second passing by...\n");
    // Before the deadline nothing happens.
    assert!(!sup.on_wait(77, WaitOutcome::StillRunning, Duration::from_millis(900)));
    // At the deadline the process group must be killed.
    assert!(sup.on_wait(77, WaitOutcome::StillRunning, Duration::from_millis(1100)));
    sup.on_closed(77, InputSource::Stdout);
    sup.on_closed(77, InputSource::Stderr);
    sup.on_closed(77, InputSource::Report);
    sup.retire(&mut rec);
    sup.finish(&mut rec);
    let completed = sup.into_results();
    assert_eq!(completed.len(), 1);
    assert_eq!(completed[0].status, Status::Timeout);
    assert!(completed[0].duration.as_nanos() >= 1_000_000_000);
    assert!(completed[0]
        .stdout_as_string()
        .contains("watching a second passing by..."));
}

#[test]
fn skipped_test_never_forks() {
    let tree = skip("reason-y", test_case("x", 0u64));
    let config = Config::default();
    let plan = make_plan(&config, tree);
    let mut rec = Recorder::new();
    let mut sup = Supervisor::new(&config, plan, &mut rec);
    let launch = sup.admit_next(&mut rec);
    assert!(launch.is_none());
    assert!(sup.live_pids().is_empty());
    sup.finish(&mut rec);
    let results = TestResults::new(sup.into_results());
    assert!(results.all_ok());
    let completed = results.into_completed_tasks();
    assert_eq!(completed.len(), 1);
    assert_eq!(completed[0].status, Status::Skipped("reason-y".to_string()));
    assert_eq!(completed[0].duration, Duration::from_nanos(0));
    assert!(completed[0].stdout.is_empty());
    assert!(completed[0].stderr.is_empty());
}

#[test]
fn at_most_jobs_children_are_live() {
    let mut leaves = Vec::new();
    for i in 0..8 {
        leaves.push(test_case(&format!("sleep{}", i), i as u64));
    }
    let config = Config::default().jobs(2);
    let plan = make_plan(&config, test_suite("sleepers", leaves));
    assert_eq!(plan.len(), 8);
    let mut rec = Recorder::new();
    let mut sup = Supervisor::new(&config, plan, &mut rec);
    let mut pid = 500;
    let mut completed = 0;
    while !sup.is_done() {
        while sup.needs_admission() {
            if let Some(task) = sup.admit_next(&mut rec) {
                pid += 1;
                sup.register_child(task.full_name, pid);
            }
            assert!(sup.live_pids().len() <= 2);
        }
        let live = sup.live_pids();
        assert!(live.len() <= 2);
        // The oldest child finishes its second of sleep.
        let p = live[0];
        sup.on_wait(p, WaitOutcome::Exited(0), Duration::from_secs(1));
        sup.on_closed(p, InputSource::Stdout);
        sup.on_closed(p, InputSource::Stderr);
        sup.on_closed(p, InputSource::Report);
        sup.retire(&mut rec);
        completed += 1;
    }
    assert_eq!(completed, 8);
    sup.finish(&mut rec);
    assert_eq!(sup.into_results().len(), 8);
}

#[test]
fn stage_reports_reach_the_reporter_in_order() {
    let tree = test_case_ctx("t", 0u64);
    let config = Config::default();
    let plan = make_plan(&config, tree);
    let mut rec = Recorder::new();
    let mut sup = Supervisor::new(&config, plan, &mut rec);
    let task = sup.admit_next(&mut rec).unwrap();
    sup.register_child(task.full_name, 9);
    let mut wire = Vec::new();
    serialize_and_write(
        &mut wire,
        &StageReport {
            stage_name: "s1".to_string(),
            status: StageStatus::Success,
            duration: Duration::from_millis(10),
        },
    );
    serialize_and_write(
        &mut wire,
        &StageReport {
            stage_name: "s2".to_string(),
            status: StageStatus::Failure(42),
            duration: Duration::from_millis(20),
        },
    );
    sup.on_readable(&mut rec, 9, InputSource::Report, &wire);
    sup.on_wait(9, WaitOutcome::Exited(0), Duration::from_millis(50));
    sup.on_closed(9, InputSource::Stdout);
    sup.on_closed(9, InputSource::Stderr);
    sup.on_closed(9, InputSource::Report);
    sup.retire(&mut rec);
    sup.finish(&mut rec);
    assert_eq!(
        rec.events,
        vec![
            "init 1".to_string(),
            "start t".to_string(),
            "report t::s1 ok".to_string(),
            "report t::s2 failed".to_string(),
            "report t ok".to_string(),
            "done".to_string(),
        ]
    );
}

#[test]
fn signaled_child_is_a_failure() {
    let tree = test_case("sig", 0u64);
    let config = Config::default();
    let plan = make_plan(&config, tree);
    let mut rec = Recorder::new();
    let mut sup = Supervisor::new(&config, plan, &mut rec);
    let task = sup.admit_next(&mut rec).unwrap();
    sup.register_child(task.full_name, 11);
    sup.on_wait(11, WaitOutcome::Signaled("SIGSEGV"), Duration::from_millis(4));
    sup.on_closed(11, InputSource::Stdout);
    sup.on_closed(11, InputSource::Stderr);
    sup.on_closed(11, InputSource::Report);
    sup.retire(&mut rec);
    sup.finish(&mut rec);
    let completed = sup.into_results();
    assert_eq!(completed[0].status, Status::Signaled("SIGSEGV"));
    assert!(!completed[0].status.is_ok());
}

#[test]
fn lossy_capture_replaces_invalid_bytes() {
    let c = CompletedTask {
        full_name: vec!["t".to_string()],
        duration: Duration::from_nanos(0),
        stdout: vec![0x68, 0x69, 0xff],
        stderr: vec![0xfe],
        status: Status::Success,
    };
    assert_eq!(c.stdout_as_string(), "hi\u{fffd}".to_string());
    assert_eq!(c.stderr_as_string(), "\u{fffd}".to_string());
    assert_eq!(c.name(), "t");
}

#[test]
fn inherited_skip_reason_reaches_the_leaf() {
    let tree = skip(
        "whole suite is off",
        test_suite("s", vec![test_case("a", 0u64), test_case("b", 1u64)]),
    );
    let config = Config::default();
    let plan = make_plan(&config, tree);
    assert_eq!(plan.len(), 2);
    let mut rec = Recorder::new();
    let mut sup = Supervisor::new(&config, plan, &mut rec);
    assert!(sup.admit_next(&mut rec).is_none());
    assert!(sup.admit_next(&mut rec).is_none());
    sup.finish(&mut rec);
    let completed = sup.into_results();
    assert_eq!(completed.len(), 2);
    for c in completed.iter() {
        assert_eq!(c.status, Status::Skipped("whole suite is off".to_string()));
    }
}

#[test]
fn stats_count_outcomes() {
    let mut stats = TestStats::default();
    let mk = |status: Status| CompletedTask {
        full_name: vec!["x".to_string()],
        duration: Duration::from_nanos(0),
        stdout: Vec::new(),
        stderr: Vec::new(),
        status,
    };
    stats.update(&mk(Status::Success));
    stats.update(&mk(Status::Failure(1)));
    stats.update(&mk(Status::Signaled("SIGKILL")));
    stats.update(&mk(Status::Timeout));
    stats.update(&mk(Status::Skipped("r".to_string())));
    assert_eq!(stats.total, 5);
    assert_eq!(stats.ok, 1);
    assert_eq!(stats.failed, 3);
    assert_eq!(stats.ignored, 1);
    assert!(!stats.ok());
}

#[test]
fn empty_filter_runs_everything() {
    let config = Config::default();
    let plan = make_plan(&config, sample_tree());
    assert_eq!(plan.len(), 3);
}
