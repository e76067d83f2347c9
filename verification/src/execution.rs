use vstd::prelude::*;
use vstd::string::StringExecFns;
use vstd::utf8::decode_utf8;
use vstd::utf8::valid_utf8;

use crate::config::Config;
use crate::text;
use crate::time::Duration;
use crate::Options;
use crate::spec_tree_name;
use crate::TestTree;
use crate::TreeNode;

verus! {

/// The terminal outcome of one task.
#[derive(Clone, Debug, PartialEq)]
pub enum Status {
    Success,
    Failure(i32),
    Signaled(&'static str),
    Timeout,
    Skipped(String),
}

impl Status {
    /// Returns whether a [Status] represents a non-failure. This includes
    /// [Status::Success] and [Status::Skipped]. Anything else is a failure
    /// of some sort.
    pub fn is_ok(&self) -> (r: bool)
        ensures
            r == (self is Success || self is Skipped),
    {
        match self {
            Status::Success => true,
            Status::Skipped(_) => true,
            _ => false,
        }
    }
}

/// Which of a child's three pipes a readiness token stands for.
#[derive(Clone, Copy, Debug, PartialEq, Eq, Structural)]
pub enum InputSource {
    Stdout,
    Stderr,
    Report,
}

/// The low two bits a pipe contributes to its readiness token.
pub open spec fn spec_source_tag(source: InputSource) -> u64 {
    match source {
        InputSource::Stdout => 0,
        InputSource::Stderr => 1,
        InputSource::Report => 2,
    }
}

pub open spec fn spec_make_token(pid: i32, source: InputSource) -> u64 {
    ((pid as u64) << 2) | spec_source_tag(source)
}

pub open spec fn spec_split_token(token: u64) -> (i32, InputSource) {
    (
        (token >> 2) as i32,
        if token & 2 == 2 {
            InputSource::Report
        } else if token & 1 == 1 {
            InputSource::Stderr
        } else {
            InputSource::Stdout
        },
    )
}

/// Packs a child's pid and one of its pipes into a readiness token.
/// Token 0 is reserved for the signal source, which no child can
/// collide with because pids are positive.
pub fn make_token(pid: i32, source: InputSource) -> (token: u64)
    requires
        pid >= 0,
    ensures
        token == spec_make_token(pid, source),
{
    match source {
        InputSource::Stdout => ((pid as u64) << 2u64) | 0,
        InputSource::Stderr => ((pid as u64) << 2u64) | 1,
        InputSource::Report => ((pid as u64) << 2u64) | 2,
    }
}

/// Recovers the pid and the pipe from a readiness token.
pub fn split_token(token: u64) -> (r: (i32, InputSource))
    requires
        token >> 2 <= i32::MAX,
    ensures
        r == spec_split_token(token),
{
    let source = if token & 2 == 2 {
        InputSource::Report
    } else if token & 1 == 1 {
        InputSource::Stderr
    } else {
        InputSource::Stdout
    };
    ((token >> 2u64) as i32, source)
}

/// Every token made from a positive pid splits back into exactly the
/// pid and the source it was made from.
pub proof fn lemma_token_round_trip(pid: i32, source: InputSource)
    requires
        pid >= 0,
    ensures
        spec_split_token(spec_make_token(pid, source)) == (pid, source),
{
    let p = pid as u64;
    assert(p <= 0x7fff_ffff);
    match source {
        InputSource::Stdout => {
            assert(((p << 2) | 0) >> 2 == p && ((p << 2) | 0) & 2 != 2 && ((p << 2) | 0) & 1
                != 1) by (bit_vector)
                requires
                    p <= 0x7fff_ffff,
            ;
            assert(((p << 2 | 0) >> 2) as i32 == pid);
        },
        InputSource::Stderr => {
            assert(((p << 2) | 1) >> 2 == p && ((p << 2) | 1) & 2 != 2 && ((p << 2) | 1) & 1
                == 1) by (bit_vector)
                requires
                    p <= 0x7fff_ffff,
            ;
            assert(((p << 2 | 1) >> 2) as i32 == pid);
        },
        InputSource::Report => {
            assert(((p << 2) | 2) >> 2 == p && ((p << 2) | 2) & 2 == 2) by (bit_vector)
                requires
                    p <= 0x7fff_ffff,
            ;
            assert(((p << 2 | 2) >> 2) as i32 == pid);
        },
    }
}

/// A task to be executed as a test.
pub struct Task<W> {
    /// The root-to-leaf path of names that identifies the test.
    pub full_name: Vec<String>,
    /// The test body, moved into the child on launch.
    pub work: W,
    /// The options resolved for this leaf at plan time.
    pub options: Options,
}

/// The ghost shape of a task: its path, its body and its resolved
/// skip reason.
pub ghost struct TaskModel<W> {
    pub path: Seq<Seq<char>>,
    pub work: W,
    pub skip_reason: Option<Seq<char>>,
}

/// The value of an optional string, `None` kept as `None`.
pub open spec fn opt_str_view(o: Option<String>) -> Option<Seq<char>> {
    match o {
        Some(s) => Some(s@),
        None => None,
    }
}

pub open spec fn task_model<W>(t: Task<W>) -> TaskModel<W> {
    TaskModel { path: t.full_name.deep_view(), work: t.work, skip_reason: opt_str_view(t.options.skip_reason) }
}

/// The ghost shape of a whole plan.
pub open spec fn plan_model<W>(tasks: Seq<Task<W>>) -> Seq<TaskModel<W>> {
    tasks.map_values(|x: Task<W>| task_model(x))
}

impl<W> Task<W> {
    /// The task's display name: its path joined by `"::"`.
    pub fn name(&self) -> (r: String)
        ensures
            r@ == text::spec_joined(self.full_name.deep_view()),
    {
        text::join_path(&self.full_name)
    }
}

/// A task that finished executing and is ready to be reported.
#[derive(Clone, Debug, PartialEq)]
pub struct CompletedTask {
    pub full_name: Vec<String>,
    pub duration: Duration,
    pub stdout: Vec<u8>,
    pub stderr: Vec<u8>,
    pub status: Status,
}

/// What `String::from_utf8_lossy` makes of a byte sequence.
pub uninterp spec fn lossy_utf8(bytes: Seq<u8>) -> Seq<char>;

/// Relies on String::from_utf8_lossy: the characters depend on the
/// bytes alone, and valid UTF-8 decodes to exactly its characters.
#[verifier::external_body]
pub(crate) fn bytes_to_string_lossy(bytes: &[u8]) -> (r: String)
    ensures
        r@ == lossy_utf8(bytes@),
        valid_utf8(bytes@) ==> r@ == decode_utf8(bytes@),
{
    String::from_utf8_lossy(bytes).into_owned()
}

impl CompletedTask {
    /// The captured standard output, decoded as UTF-8 with lossy
    /// replacement of invalid sequences.
    pub fn stdout_as_string(&self) -> (r: String)
        ensures
            r@ == lossy_utf8(self.stdout@),
            valid_utf8(self.stdout@) ==> r@ == decode_utf8(self.stdout@),
    {
        bytes_to_string_lossy(self.stdout.as_slice())
    }

    /// The captured standard error, decoded as UTF-8 with lossy
    /// replacement of invalid sequences.
    pub fn stderr_as_string(&self) -> (r: String)
        ensures
            r@ == lossy_utf8(self.stderr@),
            valid_utf8(self.stderr@) ==> r@ == decode_utf8(self.stderr@),
    {
        bytes_to_string_lossy(self.stderr.as_slice())
    }

    /// The task's display name: its path joined by `"::"`.
    pub fn name(&self) -> (r: String)
        ensures
            r@ == text::spec_joined(self.full_name.deep_view()),
    {
        text::join_path(&self.full_name)
    }
}

/// The completed record a skipped task yields: zero duration, empty
/// captures, and the skip reason as its status.
pub fn skip_task<W>(task: Task<W>, reason: String) -> (r: CompletedTask)
    ensures
        r.full_name == task.full_name,
        r.duration.nanos == 0,
        r.stdout@.len() == 0,
        r.stderr@.len() == 0,
        r.status == Status::Skipped(reason),
{
    CompletedTask {
        full_name: task.full_name,
        duration: Duration::default(),
        stdout: Vec::new(),
        stderr: Vec::new(),
        status: Status::Skipped(reason),
    }
}

/// An intermediate sub-step outcome a child reports over its stage
/// pipe while it runs.
#[derive(Clone, Debug, PartialEq)]
pub enum StageStatus {
    Success,
    Failure(i32),
    Skipped(String),
}

pub open spec fn spec_status_of_stage(s: StageStatus) -> Status {
    match s {
        StageStatus::Success => Status::Success,
        StageStatus::Failure(code) => Status::Failure(code),
        StageStatus::Skipped(reason) => Status::Skipped(reason),
    }
}

impl vstd::std_specs::convert::FromSpecImpl<StageStatus> for Status {
    open spec fn obeys_from_spec() -> bool {
        true
    }

    open spec fn from_spec(s: StageStatus) -> Status {
        spec_status_of_stage(s)
    }
}

impl From<StageStatus> for Status {
    fn from(s: StageStatus) -> (r: Status) {
        match s {
            StageStatus::Success => Status::Success,
            StageStatus::Failure(code) => Status::Failure(code),
            StageStatus::Skipped(reason) => Status::Skipped(reason),
        }
    }
}

/// One frame on the stage side channel: a named sub-step, its
/// outcome, and the time it took.
#[derive(Clone, Debug, PartialEq)]
pub struct StageReport {
    pub stage_name: String,
    pub status: StageStatus,
    pub duration: Duration,
}

/// The synthetic completed sub-entry a stage frame stands for: the
/// task's path extended by the stage name, the frame's outcome and
/// duration, and no captures of its own.
pub fn stage_sub_entry(full_name: &[String], stage_rep: StageReport) -> (c: CompletedTask)
    ensures
        c.full_name@.len() == full_name@.len() + 1,
        forall|i: int| 0 <= i < full_name@.len() ==> (#[trigger] c.full_name@[i])@ == full_name@[i]@,
        c.full_name@[full_name@.len() as int]@ == stage_rep.stage_name@,
        c.duration == stage_rep.duration,
        c.stdout@.len() == 0,
        c.stderr@.len() == 0,
        c.status == spec_status_of_stage(stage_rep.status),
{
    let mut path: Vec<String> = Vec::new();
    let mut i: usize = 0;
    while i < full_name.len()
        invariant
            i <= full_name@.len(),
            path@.len() == i,
            forall|j: int| 0 <= j < i ==> (#[trigger] path@[j])@ == full_name@[j]@,
        decreases full_name@.len() - i,
    {
        path.push(full_name[i].clone());
        i += 1;
    }
    let StageReport { stage_name, status, duration } = stage_rep;
    path.push(stage_name);
    CompletedTask {
        full_name: path,
        duration,
        stdout: Vec::new(),
        stderr: Vec::new(),
        status: Status::from(status),
    }
}

/// The sink the supervisor drives: reporters are external formatters
/// written against these callbacks.
pub trait Report<W> {
    fn init(&mut self, plan: &[Task<W>]);

    fn start(&mut self, task_name: String);

    fn report(&mut self, result: &CompletedTask);

    fn done(&mut self);

    /// Surfaces a stage frame as a synthetic completed sub-entry whose
    /// name is the task's path extended by the stage name, so that
    /// reporters that do not care about stages need only `report`.
    fn stage(&mut self, full_name: &[String], stage_rep: StageReport) {
        let completed_task = stage_sub_entry(full_name, stage_rep);
        self.report(&completed_task);
    }
}

/// True when the name passes the filter: no filter admits everything.
pub open spec fn spec_matches(name: Seq<char>, filter: Option<Seq<char>>) -> bool {
    match filter {
        None => true,
        Some(f) => text::spec_contains(name, f),
    }
}

/// True when any skip filter is a substring of the name.
pub open spec fn spec_skip_applies(name: Seq<char>, skips: Seq<Seq<char>>) -> bool {
    exists|k: int| 0 <= k < skips.len() && text::spec_contains(name, #[trigger] skips[k])
}

/// A child's option wins over the inherited one.
pub open spec fn spec_inherit(own: Option<Seq<char>>, parent: Option<Seq<char>>) -> Option<
    Seq<char>,
> {
    match own {
        Some(s) => Some(s),
        None => parent,
    }
}

/// The tasks a subtree contributes to the plan, in depth-first order.
pub open spec fn spec_plan<W>(
    t: TestTree<W>,
    filter: Option<Seq<char>>,
    skips: Seq<Seq<char>>,
    path: Seq<Seq<char>>,
    inherited: Option<Seq<char>>,
) -> Seq<TaskModel<W>>
    decreases t,
{
    match t.0 {
        TreeNode::Leaf { name, assertion, options } => {
            if spec_matches(name@, filter) && !spec_skip_applies(name@, skips) {
                seq![
                    TaskModel {
                        path: path.push(name@),
                        work: assertion,
                        skip_reason: spec_inherit(opt_str_view(options.skip_reason), inherited),
                    },
                ]
            } else {
                Seq::empty()
            }
        },
        TreeNode::Fork { name, tests, options } => {
            if spec_skip_applies(name@, skips) {
                Seq::empty()
            } else {
                let effective = spec_inherit(opt_str_view(options.skip_reason), inherited);
                let sub_filter = if spec_matches(name@, filter) {
                    None
                } else {
                    filter
                };
                spec_forest_plan(tests@, sub_filter, skips, path.push(name@), effective)
            }
        },
    }
}

/// The tasks a forest of subtrees contributes, left to right.
pub open spec fn spec_forest_plan<W>(
    ts: Seq<TestTree<W>>,
    filter: Option<Seq<char>>,
    skips: Seq<Seq<char>>,
    path: Seq<Seq<char>>,
    inherited: Option<Seq<char>>,
) -> Seq<TaskModel<W>>
    decreases ts,
{
    if ts.len() == 0 {
        Seq::empty()
    } else {
        spec_plan(ts[0], filter, skips, path, inherited) + spec_forest_plan(
            ts.subrange(1, ts.len() as int),
            filter,
            skips,
            path,
            inherited,
        )
    }
}

/// The paths of the tasks of a plan.
pub open spec fn plan_paths<W>(ms: Seq<TaskModel<W>>) -> Seq<Seq<Seq<char>>> {
    ms.map_values(|m: TaskModel<W>| m.path)
}

/// The root-to-leaf paths of every leaf of a subtree, depth first.
pub open spec fn spec_leaf_paths<W>(t: TestTree<W>, path: Seq<Seq<char>>) -> Seq<Seq<Seq<char>>>
    decreases t,
{
    match t.0 {
        TreeNode::Leaf { name, .. } => seq![path.push(name@)],
        TreeNode::Fork { name, tests, .. } => spec_forest_leaf_paths(tests@, path.push(name@)),
    }
}

/// The root-to-leaf paths of every leaf of a forest, left to right.
pub open spec fn spec_forest_leaf_paths<W>(
    ts: Seq<TestTree<W>>,
    path: Seq<Seq<char>>,
) -> Seq<Seq<Seq<char>>>
    decreases ts,
{
    if ts.len() == 0 {
        Seq::empty()
    } else {
        spec_leaf_paths(ts[0], path) + spec_forest_leaf_paths(ts.subrange(1, ts.len() as int), path)
    }
}

/// Whether the leaf at path `p` survives the filter rules, judging
/// the components from index `from` on: the filter must occur in some
/// component, and no skip filter may occur in any.
pub open spec fn spec_path_admitted(
    p: Seq<Seq<char>>,
    filter: Option<Seq<char>>,
    skips: Seq<Seq<char>>,
    from: int,
) -> bool {
    &&& (filter matches Some(f) ==> exists|i: int|
        from <= i < p.len() && text::spec_contains(#[trigger] p[i], f))
    &&& !(exists|i: int| from <= i < p.len() && spec_skip_applies(#[trigger] p[i], skips))
}

/// The paths among `ps` that the filter rules admit.
pub open spec fn admitted_paths(
    ps: Seq<Seq<Seq<char>>>,
    filter: Option<Seq<char>>,
    skips: Seq<Seq<char>>,
    from: int,
) -> Seq<Seq<Seq<char>>> {
    ps.filter(|p: Seq<Seq<char>>| spec_path_admitted(p, filter, skips, from))
}

/// Whether the name passes the filter.
fn matches_filter(name: &String, filter: &Option<String>) -> (r: bool)
    ensures
        r == spec_matches(name@, opt_str_view(*filter)),
{
    match filter {
        None => true,
        Some(f) => text::str_contains(name.as_str(), f.as_str()),
    }
}

/// Whether any of the skip filters is a substring of the name.
fn skip_applies(name: &String, skips: &Vec<String>) -> (r: bool)
    ensures
        r == spec_skip_applies(name@, skips.deep_view()),
{
    let mut k: usize = 0;
    while k < skips.len()
        invariant
            k <= skips@.len(),
            skips.deep_view().len() == skips@.len(),
            forall|j: int| 0 <= j < skips@.len() ==> skips.deep_view()[j] == skips@[j]@,
            forall|j: int| 0 <= j < k ==> !text::spec_contains(name@, #[trigger] skips.deep_view()[j]),
        decreases skips@.len() - k,
    {
        if text::str_contains(name.as_str(), skips[k].as_str()) {
            proof {
                assert(text::spec_contains(name@, skips.deep_view()[k as int]));
            }
            return true;
        }
        k += 1;
    }
    false
}

/// A copy of a path vector with the same names.
fn clone_path(path: &Vec<String>) -> (r: Vec<String>)
    ensures
        r.deep_view() == path.deep_view(),
{
    let mut r: Vec<String> = Vec::new();
    let mut i: usize = 0;
    while i < path.len()
        invariant
            i <= path@.len(),
            r@.len() == i,
            forall|j: int| 0 <= j < i ==> r.deep_view()[j] == path.deep_view()[j],
        decreases path@.len() - i,
    {
        r.push(path[i].clone());
        i += 1;
    }
    proof {
        assert(r.deep_view() =~= path.deep_view());
    }
    r
}

/// Flattens one subtree into `buf`, depth first, carrying the filter,
/// the accumulated path and the inherited options.
fn plan_tree<W>(
    t: TestTree<W>,
    filter: &Option<String>,
    skips: &Vec<String>,
    path: Vec<String>,
    inherited: Options,
    buf: &mut Vec<Task<W>>,
)
    ensures
        plan_model(final(buf)@) == plan_model(old(buf)@) + spec_plan(
            t,
            opt_str_view(*filter),
            skips.deep_view(),
            path.deep_view(),
            opt_str_view(inherited.skip_reason),
        ),
    decreases t,
{
    let ghost gt = t;
    let ghost spec_inherited = opt_str_view(inherited.skip_reason);
    match t.0 {
        TreeNode::Leaf { name, assertion, options } => {
            let mut path = path;
            if matches_filter(&name, filter) && !skip_applies(&name, skips) {
                let ghost old_path = path.deep_view();
                let resolved = options.inherit(inherited);
                path.push(name);
                proof {
                    assert(path.deep_view() =~= old_path.push(gt.0->Leaf_name@));
                }
                let task = Task { full_name: path, work: assertion, options: resolved };
                let ghost old_buf = buf@;
                buf.push(task);
                proof {
                    assert(plan_model(buf@) =~= plan_model(old_buf) + spec_plan(
                        gt,
                        opt_str_view(*filter),
                        skips.deep_view(),
                        old_path,
                        spec_inherited,
                    ));
                }
            } else {
                proof {
                    assert(plan_model(buf@) =~= plan_model(buf@) + spec_plan(
                        gt,
                        opt_str_view(*filter),
                        skips.deep_view(),
                        path.deep_view(),
                        spec_inherited,
                    ));
                }
            }
        },
        TreeNode::Fork { name, tests, options } => {
            if skip_applies(&name, skips) {
                proof {
                    assert(plan_model(buf@) =~= plan_model(buf@) + spec_plan(
                        gt,
                        opt_str_view(*filter),
                        skips.deep_view(),
                        path.deep_view(),
                        spec_inherited,
                    ));
                }
            } else {
                let use_cleared = matches_filter(&name, filter);
                let cleared: Option<String> = None;
                let effective = options.inherit(inherited);
                let mut path = path;
                let ghost old_path = path.deep_view();
                path.push(name);
                proof {
                    assert(path.deep_view() =~= old_path.push(gt.0->Fork_name@));
                }
                let mut tests = tests;
                let ghost orig = tests@;
                let ghost sub_filter: Option<Seq<char>> = if use_cleared {
                    None
                } else {
                    opt_str_view(*filter)
                };
                let ghost spec_effective = opt_str_view(effective.skip_reason);
                let ghost added_target = spec_forest_plan(
                    orig,
                    sub_filter,
                    skips.deep_view(),
                    path.deep_view(),
                    spec_effective,
                );
                let ghost entry_buf = buf@;
                proof {
                    assert(tests == gt.0->Fork_tests);
                    assert forall|j: int| #![trigger tests@[j]]
                        0 <= j < tests@.len() implies decreases_to!(gt => tests@[j]) by {
                        assert(decreases_to!(gt => gt.0));
                        assert(decreases_to!(gt.0 => gt.0->Fork_tests));
                        assert(decreases_to!(gt.0->Fork_tests => gt.0->Fork_tests@));
                        assert(decreases_to!(gt.0->Fork_tests@ => gt.0->Fork_tests@[j]));
                    };
                }
                #[verifier::loop_isolation(false)]
                while tests.len() > 0
                    invariant
                        plan_model(buf@) + spec_forest_plan(
                            tests@,
                            sub_filter,
                            skips.deep_view(),
                            path.deep_view(),
                            spec_effective,
                        ) == plan_model(entry_buf) + added_target,
                        spec_effective == opt_str_view(effective.skip_reason),
                        forall|j: int| #![trigger tests@[j]]
                            0 <= j < tests@.len() ==> decreases_to!(gt => tests@[j]),
                    decreases tests@.len(),
                {
                    let ghost pre = tests@;
                    let child = tests.remove(0);
                    proof {
                        assert(pre.subrange(1, pre.len() as int) =~= tests@);
                        assert(child == pre[0]);
                        assert(decreases_to!(gt => child));
                    }
                    let child_path = clone_path(&path);
                    let child_opts = effective.duplicate();
                    let ghost buf_before = buf@;
                    proof {
                        assert(opt_str_view(child_opts.skip_reason) == spec_effective);
                    }
                    if use_cleared {
                        plan_tree(child, &cleared, skips, child_path, child_opts, buf);
                    } else {
                        plan_tree(child, filter, skips, child_path, child_opts, buf);
                    }
                    proof {
                        assert(spec_forest_plan(
                            pre,
                            sub_filter,
                            skips.deep_view(),
                            path.deep_view(),
                            spec_effective,
                        ) == spec_plan(
                            child,
                            sub_filter,
                            skips.deep_view(),
                            path.deep_view(),
                            spec_effective,
                        ) + spec_forest_plan(
                            tests@,
                            sub_filter,
                            skips.deep_view(),
                            path.deep_view(),
                            spec_effective,
                        ));
                        assert(plan_model(buf@) == plan_model(buf_before) + spec_plan(
                            child,
                            sub_filter,
                            skips.deep_view(),
                            path.deep_view(),
                            spec_effective,
                        ));
                        assert(plan_model(buf@) + spec_forest_plan(
                            tests@,
                            sub_filter,
                            skips.deep_view(),
                            path.deep_view(),
                            spec_effective,
                        ) =~= plan_model(entry_buf) + added_target);
                    }
                }
                proof {
                    assert(spec_forest_plan(
                        tests@,
                        sub_filter,
                        skips.deep_view(),
                        path.deep_view(),
                        spec_effective,
                    ) =~= Seq::<TaskModel<W>>::empty());
                    assert(plan_model(buf@) =~= plan_model(entry_buf) + added_target);
                }
            }
        },
    }
}

/// Flattens the test tree to the ordered execution plan, applying the
/// filter and the skip filters and resolving inherited options.
pub fn make_plan<W>(config: &Config, t: TestTree<W>) -> (plan: Vec<Task<W>>)
    ensures
        plan_model(plan@) == spec_plan(
            t,
            opt_str_view(config.filter),
            config.skip_filters.deep_view(),
            Seq::empty(),
            None,
        ),
{
    let mut plan: Vec<Task<W>> = Vec::new();
    let path: Vec<String> = Vec::new();
    proof {
        assert(path.deep_view() =~= Seq::<Seq<char>>::empty());
        assert(plan_model(plan@) =~= Seq::<TaskModel<W>>::empty());
    }
    plan_tree(
        t,
        &config.filter,
        &config.skip_filters,
        path,
        Options { skip_reason: None },
        &mut plan,
    );
    plan
}

proof fn lemma_leaf_paths_extend<W>(t: TestTree<W>, path: Seq<Seq<char>>)
    ensures
        forall|k: int|
            0 <= k < spec_leaf_paths(t, path).len() ==> {
                let p = #[trigger] spec_leaf_paths(t, path)[k];
                &&& p.len() > path.len()
                &&& p.subrange(0, path.len() as int) == path
                &&& p[path.len() as int] == spec_tree_name(t)
            },
    decreases t,
{
    match t.0 {
        TreeNode::Leaf { name, .. } => {
            assert(path.push(name@).subrange(0, path.len() as int) =~= path);
        },
        TreeNode::Fork { name, tests, .. } => {
            lemma_forest_leaf_paths_extend(tests@, path.push(name@));
            assert forall|k: int| 0 <= k < spec_leaf_paths(t, path).len() implies {
                let p = #[trigger] spec_leaf_paths(t, path)[k];
                &&& p.len() > path.len()
                &&& p.subrange(0, path.len() as int) == path
                &&& p[path.len() as int] == spec_tree_name(t)
            } by {
                let q = path.push(name@);
                let p = spec_forest_leaf_paths(tests@, q)[k];
                assert(spec_leaf_paths(t, path)[k] == p);
                assert(p.subrange(0, q.len() as int) == q);
                assert(p.subrange(0, path.len() as int) =~= path);
                assert(p[path.len() as int] == p.subrange(0, q.len() as int)[path.len() as int]);
            }
        },
    }
}

proof fn lemma_forest_leaf_paths_extend<W>(ts: Seq<TestTree<W>>, path: Seq<Seq<char>>)
    ensures
        forall|k: int|
            0 <= k < spec_forest_leaf_paths(ts, path).len() ==> {
                let p = #[trigger] spec_forest_leaf_paths(ts, path)[k];
                &&& p.len() > path.len()
                &&& p.subrange(0, path.len() as int) == path
            },
    decreases ts,
{
    if ts.len() > 0 {
        let rest = ts.subrange(1, ts.len() as int);
        lemma_leaf_paths_extend(ts[0], path);
        lemma_forest_leaf_paths_extend(rest, path);
        let head = spec_leaf_paths(ts[0], path);
        let tail = spec_forest_leaf_paths(rest, path);
        assert forall|k: int| 0 <= k < spec_forest_leaf_paths(ts, path).len() implies {
            let p = #[trigger] spec_forest_leaf_paths(ts, path)[k];
            &&& p.len() > path.len()
            &&& p.subrange(0, path.len() as int) == path
        } by {
            if k < head.len() {
                assert(spec_forest_leaf_paths(ts, path)[k] == head[k]);
            } else {
                assert(spec_forest_leaf_paths(ts, path)[k] == tail[k - head.len()]);
            }
        }
    }
}

/// One fork step keeps admittance unchanged: with the fork's name at
/// index `from` neither skipped nor consulted again, judging the rest
/// from `from + 1` under the filter the fork passes down comes to the
/// same as judging from `from` under the incoming filter.
proof fn lemma_admitted_shift_one(
    p: Seq<Seq<char>>,
    filter: Option<Seq<char>>,
    skips: Seq<Seq<char>>,
    from: int,
    name: Seq<char>,
)
    requires
        0 <= from < p.len(),
        p[from] == name,
        !spec_skip_applies(name, skips),
    ensures
        spec_path_admitted(p, filter, skips, from) == spec_path_admitted(
            p,
            if spec_matches(name, filter) {
                None
            } else {
                filter
            },
            skips,
            from + 1,
        ),
{
    let sub_filter: Option<Seq<char>> = if spec_matches(name, filter) {
        None
    } else {
        filter
    };
    assert forall|i: int| from <= i < p.len() && spec_skip_applies(#[trigger] p[i], skips) implies (
    exists|j: int| from + 1 <= j < p.len() && spec_skip_applies(#[trigger] p[j], skips)) by {
        assert(i != from);
    }
    if let Some(f) = filter {
        if text::spec_contains(name, f) {
            assert(text::spec_contains(p[from], f));
        } else {
            assert forall|i: int|
                from <= i < p.len() && text::spec_contains(#[trigger] p[i], f) implies (exists|
            j: int|
                from + 1 <= j < p.len() && text::spec_contains(#[trigger] p[j], f)) by {
                assert(i != from);
            }
        }
    }
}

/// Filtering a set of paths that all pass through the same fork, one
/// level down: the admitted set is unchanged.
proof fn lemma_admitted_paths_shift(
    ps: Seq<Seq<Seq<char>>>,
    filter: Option<Seq<char>>,
    skips: Seq<Seq<char>>,
    from: int,
    name: Seq<char>,
)
    requires
        from >= 0,
        forall|k: int|
            0 <= k < ps.len() ==> (#[trigger] ps[k]).len() > from && ps[k][from] == name,
        !spec_skip_applies(name, skips),
    ensures
        admitted_paths(ps, filter, skips, from) == admitted_paths(
            ps,
            if spec_matches(name, filter) {
                None
            } else {
                filter
            },
            skips,
            from + 1,
        ),
    decreases ps.len(),
{
    reveal_with_fuel(Seq::filter, 2);
    if ps.len() == 0 {
        assert(admitted_paths(ps, filter, skips, from) =~= Seq::<Seq<Seq<char>>>::empty());
    } else {
        let last = ps.last();
        lemma_admitted_shift_one(last, filter, skips, from, name);
        lemma_admitted_paths_shift(ps.drop_last(), filter, skips, from, name);
    }
}

/// No path through a fork whose name a skip filter hits is admitted.
proof fn lemma_admitted_paths_pruned(
    ps: Seq<Seq<Seq<char>>>,
    filter: Option<Seq<char>>,
    skips: Seq<Seq<char>>,
    from: int,
    name: Seq<char>,
)
    requires
        from >= 0,
        forall|k: int|
            0 <= k < ps.len() ==> (#[trigger] ps[k]).len() > from && ps[k][from] == name,
        spec_skip_applies(name, skips),
    ensures
        admitted_paths(ps, filter, skips, from) == Seq::<Seq<Seq<char>>>::empty(),
    decreases ps.len(),
{
    reveal_with_fuel(Seq::filter, 2);
    if ps.len() == 0 {
        assert(admitted_paths(ps, filter, skips, from) =~= Seq::<Seq<Seq<char>>>::empty());
    } else {
        let last = ps.last();
        assert(spec_skip_applies(last[from], skips));
        assert(!spec_path_admitted(last, filter, skips, from));
        lemma_admitted_paths_pruned(ps.drop_last(), filter, skips, from, name);
    }
}

proof fn lemma_plan_is_filtered<W>(
    t: TestTree<W>,
    filter: Option<Seq<char>>,
    skips: Seq<Seq<char>>,
    path: Seq<Seq<char>>,
    inherited: Option<Seq<char>>,
)
    ensures
        plan_paths(spec_plan(t, filter, skips, path, inherited)) == admitted_paths(
            spec_leaf_paths(t, path),
            filter,
            skips,
            path.len() as int,
        ),
    decreases t,
{
    broadcast use vstd::seq_lib::group_seq_lib_default;

    reveal_with_fuel(Seq::filter, 2);
    let d = path.len() as int;
    match t.0 {
        TreeNode::Leaf { name, assertion, options } => {
            let p = path.push(name@);
            assert(p[d] == name@);
            assert(spec_path_admitted(p, filter, skips, d) == (spec_matches(name@, filter)
                && !spec_skip_applies(name@, skips))) by {
                if spec_skip_applies(p[d], skips) {
                }
                if let Some(f) = filter {
                    if text::spec_contains(name@, f) {
                        assert(text::spec_contains(p[d], f));
                    }
                }
            }
            assert(plan_paths(spec_plan(t, filter, skips, path, inherited)) =~= admitted_paths(
                spec_leaf_paths(t, path),
                filter,
                skips,
                d,
            ));
        },
        TreeNode::Fork { name, tests, options } => {
            let q = path.push(name@);
            let ps = spec_forest_leaf_paths(tests@, q);
            lemma_forest_leaf_paths_extend(tests@, q);
            assert forall|k: int|
                0 <= k < ps.len() implies (#[trigger] ps[k]).len() > d && ps[k][d] == name@ by {
                assert(ps[k].subrange(0, q.len() as int) == q);
                assert(ps[k][d] == ps[k].subrange(0, q.len() as int)[d]);
            }
            if spec_skip_applies(name@, skips) {
                lemma_admitted_paths_pruned(ps, filter, skips, d, name@);
                assert(plan_paths(spec_plan(t, filter, skips, path, inherited))
                    =~= Seq::<Seq<Seq<char>>>::empty());
            } else {
                let sub_filter: Option<Seq<char>> = if spec_matches(name@, filter) {
                    None
                } else {
                    filter
                };
                let effective = spec_inherit(opt_str_view(options.skip_reason), inherited);
                lemma_forest_plan_is_filtered(tests@, sub_filter, skips, q, effective);
                lemma_admitted_paths_shift(ps, filter, skips, d, name@);
            }
        },
    }
}

proof fn lemma_forest_plan_is_filtered<W>(
    ts: Seq<TestTree<W>>,
    filter: Option<Seq<char>>,
    skips: Seq<Seq<char>>,
    path: Seq<Seq<char>>,
    inherited: Option<Seq<char>>,
)
    ensures
        plan_paths(spec_forest_plan(ts, filter, skips, path, inherited)) == admitted_paths(
            spec_forest_leaf_paths(ts, path),
            filter,
            skips,
            path.len() as int,
        ),
    decreases ts,
{
    broadcast use vstd::seq_lib::group_seq_lib_default;

    reveal_with_fuel(Seq::filter, 2);
    if ts.len() == 0 {
        assert(plan_paths(spec_forest_plan(ts, filter, skips, path, inherited))
            =~= Seq::<Seq<Seq<char>>>::empty());
        assert(admitted_paths(spec_forest_leaf_paths(ts, path), filter, skips, path.len() as int)
            =~= Seq::<Seq<Seq<char>>>::empty());
    } else {
        let rest = ts.subrange(1, ts.len() as int);
        lemma_plan_is_filtered(ts[0], filter, skips, path, inherited);
        lemma_forest_plan_is_filtered(rest, filter, skips, path, inherited);
        assert(plan_paths(
            spec_plan(ts[0], filter, skips, path, inherited) + spec_forest_plan(
                rest,
                filter,
                skips,
                path,
                inherited,
            ),
        ) =~= plan_paths(spec_plan(ts[0], filter, skips, path, inherited)) + plan_paths(
            spec_forest_plan(rest, filter, skips, path, inherited),
        ));
    }
}

/// Every leaf of the tree either appears exactly once in the plan,
/// under its own root-to-leaf path, or is excluded by the filter and
/// skip-filter rules; the plan holds nothing else, and keeps the
/// depth-first order of the leaves.
pub proof fn lemma_plan_lists_admitted_leaves<W>(
    t: TestTree<W>,
    filter: Option<Seq<char>>,
    skips: Seq<Seq<char>>,
)
    ensures
        plan_paths(spec_plan(t, filter, skips, Seq::empty(), None)) == admitted_paths(
            spec_leaf_paths(t, Seq::empty()),
            filter,
            skips,
            0,
        ),
{
    lemma_plan_is_filtered(t, filter, skips, Seq::empty(), None);
}

} // verus!
