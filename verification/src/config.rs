use vstd::prelude::*;
use vstd::string::StringExecFns;

use crate::time::Duration;

verus! {

broadcast use vstd::string::group_string_axioms;

/// When colored output should be used.
#[derive(Clone, Copy, Debug, PartialEq, Eq, Structural)]
pub enum When {
    /// Detect whether the terminal supports color.
    Auto,
    /// Always display colors.
    Always,
    /// Never display colors.
    Never,
}

impl Default for When {
    fn default() -> (w: When)
        ensures
            w == When::Auto,
    {
        When::Auto
    }
}

impl When {
    fn merge(l: When, r: When) -> (m: When)
        ensures
            m == if l is Auto {
                r
            } else {
                l
            },
    {
        match l {
            When::Auto => r,
            _ => l,
        }
    }
}

/// The formats that can be used to report test results.
#[derive(Clone, Copy, Debug, PartialEq, Eq, Structural)]
pub enum Format {
    /// Default formatter.
    Auto,
    /// The format that libtest uses.
    LibTest,
    /// The format specified on http://testanything.org.
    Tap,
    /// One JSON object per reporter event.
    Json,
}

impl Default for Format {
    fn default() -> (f: Format)
        ensures
            f == Format::Auto,
    {
        Format::Auto
    }
}

impl Format {
    fn merge(l: Format, r: Format) -> (m: Format)
        ensures
            m == if l is Auto {
                r
            } else {
                l
            },
    {
        match l {
            Format::Auto => r,
            _ => l,
        }
    }
}

/// The resolved settings the driver runs under.
pub struct Config {
    /// Only tests whose name contains this string anywhere on their
    /// path are run.
    pub filter: Option<String>,
    /// Tests whose name contains any of these strings are pruned.
    pub skip_filters: Vec<String>,
    /// Wall-clock limit for a single test.
    pub timeout: Option<Duration>,
    /// Whether to color the report.
    pub color: When,
    /// Upper bound on the number of tests run in parallel.
    pub jobs: Option<usize>,
    /// The report format.
    pub format: Format,
    /// Mirror child output to the driver's own streams as it arrives.
    pub nocapture: bool,
}

/// Why a command line could not be turned into a `Config`.
pub enum ConfigParseError {
    HelpRequested,
    OptionError(String),
    UnknownArgs(Vec<String>),
    Unknown(String),
}

impl Default for Config {
    fn default() -> (c: Config)
        ensures
            c.filter is None,
            c.skip_filters@.len() == 0,
            c.timeout is None,
            c.color == When::Auto,
            c.jobs is None,
            c.format == Format::Auto,
            !c.nocapture,
    {
        Config {
            filter: None,
            skip_filters: Vec::new(),
            timeout: None,
            color: When::Auto,
            jobs: None,
            format: Format::Auto,
            nocapture: false,
        }
    }
}

/// Parses a WHEN word from the command line.
pub fn parse_when(input: &str) -> (r: Result<When, String>)
    ensures
        input@ == "auto"@ ==> r == Result::<When, String>::Ok(When::Auto),
        input@ == "always"@ ==> r == Result::<When, String>::Ok(When::Always),
        input@ == "never"@ ==> r == Result::<When, String>::Ok(When::Never),
        input@ != "auto"@ && input@ != "always"@ && input@ != "never"@ ==> (r matches Err(e)
            && e@ == "unsupported WHEN value: "@ + input@),
{
    proof {
        reveal_strlit("auto");
        reveal_strlit("always");
        reveal_strlit("never");
        assert(("auto"@).len() == 4);
        assert(("always"@).len() == 6);
        assert(("never"@).len() == 5);
    }
    if crate::text::str_eq(input, "auto") {
        Ok(When::Auto)
    } else if crate::text::str_eq(input, "always") {
        Ok(When::Always)
    } else if crate::text::str_eq(input, "never") {
        Ok(When::Never)
    } else {
        let mut msg = String::from_str("unsupported WHEN value: ");
        msg.append(input);
        Err(msg)
    }
}

/// Parses a FMT word from the command line.
pub fn parse_format(input: &str) -> (r: Result<Format, String>)
    ensures
        input@ == "auto"@ ==> r == Result::<Format, String>::Ok(Format::Auto),
        input@ == "libtest"@ ==> r == Result::<Format, String>::Ok(Format::LibTest),
        input@ == "tap"@ ==> r == Result::<Format, String>::Ok(Format::Tap),
        input@ == "json"@ ==> r == Result::<Format, String>::Ok(Format::Json),
        input@ != "auto"@ && input@ != "libtest"@ && input@ != "tap"@ && input@ != "json"@
            ==> (r matches Err(e) && e@ == "unsupported FMT value: "@ + input@),
{
    proof {
        reveal_strlit("auto");
        reveal_strlit("libtest");
        reveal_strlit("tap");
        reveal_strlit("json");
        assert(("auto"@).len() == 4);
        assert(("libtest"@).len() == 7);
        assert(("tap"@).len() == 3);
        assert(("json"@).len() == 4);
        assert(("auto"@)[0] == 'a' && ("json"@)[0] == 'j');
    }
    if crate::text::str_eq(input, "auto") {
        Ok(Format::Auto)
    } else if crate::text::str_eq(input, "libtest") {
        Ok(Format::LibTest)
    } else if crate::text::str_eq(input, "tap") {
        Ok(Format::Tap)
    } else if crate::text::str_eq(input, "json") {
        Ok(Format::Json)
    } else {
        let mut msg = String::from_str("unsupported FMT value: ");
        msg.append(input);
        Err(msg)
    }
}

impl Config {
    /// Merges two configurations: every unset field of `self` takes
    /// the value it has in `other`, and the skip filters of the two
    /// are concatenated.
    pub fn merge(self, other: Config) -> (c: Config)
        ensures
            c.filter == if self.filter is Some {
                self.filter
            } else {
                other.filter
            },
            c.skip_filters@ == self.skip_filters@ + other.skip_filters@,
            c.timeout == if self.timeout is Some {
                self.timeout
            } else {
                other.timeout
            },
            c.color == if self.color is Auto {
                other.color
            } else {
                self.color
            },
            c.jobs == if self.jobs is Some {
                self.jobs
            } else {
                other.jobs
            },
            c.format == if self.format is Auto {
                other.format
            } else {
                self.format
            },
            c.nocapture == (self.nocapture || other.nocapture),
    {
        let Config {
            filter: self_filter,
            skip_filters: mut self_skip,
            timeout: self_timeout,
            color: self_color,
            jobs: self_jobs,
            format: self_format,
            nocapture: self_nocapture,
        } = self;
        let Config {
            filter: other_filter,
            skip_filters: mut other_skip,
            timeout: other_timeout,
            color: other_color,
            jobs: other_jobs,
            format: other_format,
            nocapture: other_nocapture,
        } = other;
        self_skip.append(&mut other_skip);

        Config {
            filter: if self_filter.is_some() {
                self_filter
            } else {
                other_filter
            },
            skip_filters: self_skip,
            timeout: if self_timeout.is_some() {
                self_timeout
            } else {
                other_timeout
            },
            color: When::merge(self_color, other_color),
            jobs: if self_jobs.is_some() {
                self_jobs
            } else {
                other_jobs
            },
            format: Format::merge(self_format, other_format),
            nocapture: self_nocapture || other_nocapture,
        }
    }

    /// Sets the filter controlling which tests are to be executed.
    ///
    /// If set, only tests whose name contains the filter (in at least
    /// one component of the name: either suite or test name) will be
    /// executed.
    pub fn filter(self, filter: String) -> (c: Config)
        ensures
            c.filter matches Some(f) && f@ == filter@,
            c.skip_filters == self.skip_filters,
            c.timeout == self.timeout,
            c.color == self.color,
            c.jobs == self.jobs,
            c.format == self.format,
            c.nocapture == self.nocapture,
    {
        Config { filter: Some(filter), ..self }
    }

    /// Sets the filters controlling which tests DO NOT run.
    ///
    /// If set, all the tests whose name contains one of the filters
    /// (in at least one component of the name) will be skipped.
    pub fn skip_filters(self, filters: Vec<String>) -> (c: Config)
        ensures
            c.skip_filters == filters,
            c.filter == self.filter,
            c.timeout == self.timeout,
            c.color == self.color,
            c.jobs == self.jobs,
            c.format == self.format,
            c.nocapture == self.nocapture,
    {
        Config { skip_filters: filters, ..self }
    }

    /// Sets the time limit for the execution of a single test.
    pub fn timeout(self, d: Duration) -> (c: Config)
        ensures
            c.timeout == Some(d),
            c.filter == self.filter,
            c.skip_filters == self.skip_filters,
            c.color == self.color,
            c.jobs == self.jobs,
            c.format == self.format,
            c.nocapture == self.nocapture,
    {
        Config { timeout: Some(d), ..self }
    }

    /// Controls if colored output is used.
    pub fn color(self, when: When) -> (c: Config)
        ensures
            c.color == when,
            c.filter == self.filter,
            c.skip_filters == self.skip_filters,
            c.timeout == self.timeout,
            c.jobs == self.jobs,
            c.format == self.format,
            c.nocapture == self.nocapture,
    {
        Config { color: when, ..self }
    }

    /// Sets the upper limit on the number of tests that can be
    /// executed in parallel.
    pub fn jobs(self, num_jobs: usize) -> (c: Config)
        ensures
            c.jobs == Some(num_jobs),
            c.filter == self.filter,
            c.skip_filters == self.skip_filters,
            c.timeout == self.timeout,
            c.color == self.color,
            c.format == self.format,
            c.nocapture == self.nocapture,
    {
        Config { jobs: Some(num_jobs), ..self }
    }

    /// Sets the format that should be used for reporting test results.
    pub fn format(self, fmt: Format) -> (c: Config)
        ensures
            c.format == fmt,
            c.filter == self.filter,
            c.skip_filters == self.skip_filters,
            c.timeout == self.timeout,
            c.color == self.color,
            c.jobs == self.jobs,
            c.nocapture == self.nocapture,
    {
        Config { format: fmt, ..self }
    }

    /// Enables or disables mirroring of child output.
    pub fn nocapture(self, enabled: bool) -> (c: Config)
        ensures
            c.nocapture == enabled,
            c.filter == self.filter,
            c.skip_filters == self.skip_filters,
            c.timeout == self.timeout,
            c.color == self.color,
            c.jobs == self.jobs,
            c.format == self.format,
    {
        Config { nocapture: enabled, ..self }
    }
}

} // verus!
