//! The options of a profiling run and what they ask the probe to attach to.

use crate::error::TranslateError;
use vstd::prelude::*;
use vstd::string::*;

verus! {

/// Length of a window in seconds unless the options say otherwise.
pub const DEFAULT_DURATION: u32 = 5;

/// Samples per second unless the options say otherwise.
pub const DEFAULT_FREQUENCY: u64 = 99;

/// The options of a profiling run.
#[derive(Clone, Debug, PartialEq, Eq)]
pub struct ProfileOptions {
    /// Profile this process on any CPU.
    pub pid: Option<u32>,
    /// Length of a window in seconds.
    pub duration: u32,
    /// Samples per second.
    pub frequency: u64,
    /// Drop the samples of the kernel's idle thread.
    pub skip_idle: bool,
    /// Attach to this kernel function.
    pub kprobe: Option<String>,
    /// Attach to this user function.
    pub uprobe: Option<String>,
    /// Attach to this tracepoint, written `category:name`.
    pub tracepoint: Option<String>,
    /// Profile every process on this CPU.
    pub cpu: Option<u32>,
}

/// What the probe attaches to.
#[derive(Clone, Debug, PartialEq, Eq)]
pub enum Attach {
    /// A kernel function.
    KProbe(String),
    /// A user function.
    UProbe(String),
    /// A tracepoint, by category and name.
    TracePoint(String, String),
    /// The CPU clock, for one process on any CPU, at a frequency.
    Process(u32, u64),
    /// The CPU clock, for every process on one CPU, at a frequency.
    Cpu(u32, u64),
    /// The CPU clock on every CPU that is online, at a frequency.
    AllCpus(u64),
}

/// The first position at or after `from` that holds a colon, or the length.
pub open spec fn next_colon(s: Seq<char>, from: int) -> int
    decreases s.len() - from,
{
    if from < 0 || from >= s.len() {
        s.len() as int
    } else if s[from] == ':' {
        from
    } else {
        next_colon(s, from + 1)
    }
}

/// The category of a tracepoint: what stands before the first colon.
pub open spec fn tracepoint_category(s: Seq<char>) -> Seq<char> {
    s.subrange(0, next_colon(s, 0))
}

/// The name of a tracepoint: what stands between the first colon and the
/// next, or the end.
pub open spec fn tracepoint_name(s: Seq<char>) -> Seq<char> {
    s.subrange(next_colon(s, 0) + 1, next_colon(s, next_colon(s, 0) + 1))
}

fn find_colon(s: &str, from: usize) -> (at: usize)
    requires
        from <= s@.len(),
    ensures
        from <= at <= s@.len(),
        at == next_colon(s@, from as int),
{
    let n = s.unicode_len();
    let mut at = from;
    while at < n && s.get_char(at) != ':'
        invariant
            n == s@.len(),
            from <= at <= n,
            next_colon(s@, from as int) == next_colon(s@, at as int),
        decreases n - at,
    {
        at += 1;
    }
    at
}

/// One where the option is given, zero where it is not.
pub open spec fn given<T>(o: Option<T>) -> nat {
    if o.is_some() {
        1
    } else {
        0
    }
}

/// How many of the options that say what to attach to are given: kernel
/// function, user function, tracepoint, process, CPU.
pub open spec fn selectors(o: ProfileOptions) -> nat {
    given(o.kprobe) + given(o.uprobe) + given(o.tracepoint) + given(o.pid) + given(o.cpu)
}

impl ProfileOptions {
    /// The options of a run without arguments: sample every CPU at 99 Hz in
    /// windows of five seconds, and drop the idle thread.
    pub fn new() -> (res: ProfileOptions)
        ensures
            res == (ProfileOptions {
                pid: None,
                duration: DEFAULT_DURATION,
                frequency: DEFAULT_FREQUENCY,
                skip_idle: true,
                kprobe: None,
                uprobe: None,
                tracepoint: None,
                cpu: None,
            }),
    {
        ProfileOptions {
            pid: None,
            duration: DEFAULT_DURATION,
            frequency: DEFAULT_FREQUENCY,
            skip_idle: true,
            kprobe: None,
            uprobe: None,
            tracepoint: None,
            cpu: None,
        }
    }

    /// What the probe attaches to: the kernel function, user function or
    /// tracepoint that is named, else sampling of the process or of the CPU
    /// that is named, else sampling of every CPU. The five are mutually
    /// exclusive: options that name more than one are refused, and so is a
    /// tracepoint without a colon.
    pub fn attach(&self) -> (res: Result<Attach, TranslateError>)
        ensures
            if selectors(*self) > 1 {
                res matches Err(TranslateError::InvalidInput(what)) && what@
                    == "mutually exclusive options"@
            } else {
                match (self.kprobe, self.uprobe, self.tracepoint) {
                    (Some(k), _, _) => res == Ok::<Attach, TranslateError>(Attach::KProbe(k)),
                    (None, Some(u), _) => res == Ok::<Attach, TranslateError>(Attach::UProbe(u)),
                    (None, None, Some(t)) => if next_colon(t@, 0) < t@.len() {
                        res matches Ok(Attach::TracePoint(c, n)) && c@ == tracepoint_category(t@)
                            && n@ == tracepoint_name(t@)
                    } else {
                        res == Err::<Attach, TranslateError>(TranslateError::InvalidInput(t))
                    },
                    (None, None, None) => res == Ok::<Attach, TranslateError>(
                        match (self.pid, self.cpu) {
                            (Some(pid), _) => Attach::Process(pid, self.frequency),
                            (None, Some(cpu)) => Attach::Cpu(cpu, self.frequency),
                            (None, None) => Attach::AllCpus(self.frequency),
                        },
                    ),
                }
            },
    {
        let mut named: u8 = 0;
        if self.kprobe.is_some() {
            named += 1;
        }
        if self.uprobe.is_some() {
            named += 1;
        }
        if self.tracepoint.is_some() {
            named += 1;
        }
        if self.pid.is_some() {
            named += 1;
        }
        if self.cpu.is_some() {
            named += 1;
        }
        if named > 1 {
            return Err(TranslateError::InvalidInput(String::from_str("mutually exclusive options")));
        }
        if let Some(kprobe) = &self.kprobe {
            return Ok(Attach::KProbe(kprobe.clone()));
        }
        if let Some(uprobe) = &self.uprobe {
            return Ok(Attach::UProbe(uprobe.clone()));
        }
        if let Some(tracepoint) = &self.tracepoint {
            let s = tracepoint.as_str();
            let n = s.unicode_len();
            let first = find_colon(s, 0);
            if first >= n {
                return Err(TranslateError::InvalidInput(tracepoint.clone()));
            }
            let second = find_colon(s, first + 1);
            let category = s.substring_char(0, first);
            let name = s.substring_char(first + 1, second);
            return Ok(Attach::TracePoint(String::from_str(category), String::from_str(name)));
        }
        if let Some(pid) = self.pid {
            Ok(Attach::Process(pid, self.frequency))
        } else if let Some(cpu) = self.cpu {
            Ok(Attach::Cpu(cpu, self.frequency))
        } else {
            Ok(Attach::AllCpus(self.frequency))
        }
    }
}

} // verus!
