use vstd::prelude::*;

pub mod config;
pub mod execution;
pub mod codec;
pub mod report;
pub mod supervisor;
mod text;
mod time;

pub use config::Config;
pub use execution::CompletedTask;
pub use execution::StageReport;
pub use execution::StageStatus;
pub use execution::Status;
pub use time::Duration;

verus! {

/// A named tree of tests: leaves are cases, forks are suites.
pub struct TestTree<W>(pub TreeNode<W>);

/// Inheritable per-node options.
///
/// A node's option wins over the one inherited from its ancestors;
/// inheritance is resolved once, when the plan is built.
pub struct Options {
    /// When set, the test is not run and completes as skipped with
    /// this reason.
    pub skip_reason: Option<String>,
}

impl Default for Options {
    fn default() -> (o: Options)
        ensures
            o.skip_reason is None,
    {
        Options { skip_reason: None }
    }
}

impl Options {
    /// Resolves this node's options against the inherited ones: an
    /// option set here wins, an unset one falls back to the parent's.
    pub fn inherit(self, parent: Options) -> (o: Options)
        ensures
            o.skip_reason == if self.skip_reason is Some {
                self.skip_reason
            } else {
                parent.skip_reason
            },
    {
        Options {
            skip_reason: if self.skip_reason.is_some() {
                self.skip_reason
            } else {
                parent.skip_reason
            },
        }
    }

    /// A copy with the same contents.
    pub fn duplicate(&self) -> (o: Options)
        ensures
            o.skip_reason matches Some(s) ==> (self.skip_reason matches Some(m) && s@ == m@),
            (o.skip_reason is Some) == (self.skip_reason is Some),
    {
        match &self.skip_reason {
            Some(reason) => Options { skip_reason: Some(reason.clone()) },
            None => Options { skip_reason: None },
        }
    }
}

/// One node of a test tree.
pub enum TreeNode<W> {
    Leaf { name: String, assertion: W, options: Options },
    Fork { name: String, tests: Vec<TestTree<W>>, options: Options },
}

impl<W> TestTree<W> {
    /// The node's own name.
    pub fn name(&self) -> (r: &str)
        ensures
            r@ == spec_tree_name(*self),
    {
        match &self.0 {
            TreeNode::Leaf { name, .. } => name.as_str(),
            TreeNode::Fork { name, .. } => name.as_str(),
        }
    }
}

/// The name of a tree's root node.
pub open spec fn spec_tree_name<W>(t: TestTree<W>) -> Seq<char> {
    match t.0 {
        TreeNode::Leaf { name, .. } => name@,
        TreeNode::Fork { name, .. } => name@,
    }
}

/// A single test case: a named leaf whose body does not use the
/// stage-report handle.
pub fn test_case<W>(name: &str, assertion: W) -> (t: TestTree<W>)
    ensures
        t.0 matches TreeNode::Leaf { name: n, assertion: a, options: o } && n@ == name@ && a
            == assertion && o.skip_reason is None,
{
    test_case_ctx(name, assertion)
}

/// A single test case whose body receives the test context, so that
/// it can emit stage reports while it runs.
pub fn test_case_ctx<W>(name: &str, assertion: W) -> (t: TestTree<W>)
    ensures
        t.0 matches TreeNode::Leaf { name: n, assertion: a, options: o } && n@ == name@ && a
            == assertion && o.skip_reason is None,
{
    TestTree(
        TreeNode::Leaf {
            name: name.to_owned(),
            assertion,
            options: Options { skip_reason: None },
        },
    )
}

/// A named suite grouping several subtrees.
pub fn test_suite<W>(name: &str, tests: Vec<TestTree<W>>) -> (t: TestTree<W>)
    ensures
        t.0 matches TreeNode::Fork { name: n, tests: c, options: o } && n@ == name@ && c == tests
            && o.skip_reason is None,
{
    TestTree(
        TreeNode::Fork { name: name.to_owned(), tests, options: Options { skip_reason: None } },
    )
}

/// Marks a subtree as skipped: every leaf under it completes as
/// `Skipped` with this reason and is never forked.
pub fn skip<W>(reason: &str, test: TestTree<W>) -> (t: TestTree<W>)
    ensures
        t.0 matches TreeNode::Leaf { name: n, assertion: a, options: o } ==> ({
            &&& test.0 matches TreeNode::Leaf { name: n2, assertion: a2, options: _ }
            &&& n == n2
            &&& a == a2
            &&& o.skip_reason matches Some(s)
            &&& s@ == reason@
        }),
        t.0 matches TreeNode::Fork { name: n, tests: c, options: o } ==> ({
            &&& test.0 matches TreeNode::Fork { name: n2, tests: c2, options: _ }
            &&& n == n2
            &&& c == c2
            &&& o.skip_reason matches Some(s)
            &&& s@ == reason@
        }),
{
    match test {
        TestTree(TreeNode::Leaf { name, assertion, options: _ }) => TestTree(
            TreeNode::Leaf {
                name,
                assertion,
                options: Options { skip_reason: Some(reason.to_owned()) },
            },
        ),
        TestTree(TreeNode::Fork { name, tests, options: _ }) => TestTree(
            TreeNode::Fork {
                name,
                tests,
                options: Options { skip_reason: Some(reason.to_owned()) },
            },
        ),
    }
}

/// The results of one whole run, in completion order.
pub struct TestResults {
    pub completed_tasks: Vec<CompletedTask>,
}

impl TestResults {
    pub fn new(completed_tasks: Vec<CompletedTask>) -> (r: TestResults)
        ensures
            r.completed_tasks == completed_tasks,
    {
        TestResults { completed_tasks }
    }

    /// Returns the list of completed tasks for examination.
    pub fn into_completed_tasks(self) -> (r: Vec<CompletedTask>)
        ensures
            r == self.completed_tasks,
    {
        self.completed_tasks
    }

    /// True when every completed task ended well: the run as a whole
    /// passed exactly when this holds.
    pub fn all_ok(&self) -> (r: bool)
        ensures
            r == forall|i: int|
                0 <= i < self.completed_tasks@.len() ==> (#[trigger] self.completed_tasks@[i].status
                    is Success || self.completed_tasks@[i].status is Skipped),
    {
        let mut i: usize = 0;
        while i < self.completed_tasks.len()
            invariant
                i <= self.completed_tasks@.len(),
                forall|j: int|
                    0 <= j < i ==> (#[trigger] self.completed_tasks@[j].status is Success
                        || self.completed_tasks@[j].status is Skipped),
            decreases self.completed_tasks@.len() - i,
        {
            if !self.completed_tasks[i].status.is_ok() {
                return false;
            }
            i += 1;
        }
        true
    }
}

} // verus!
