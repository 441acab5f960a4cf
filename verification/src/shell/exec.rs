//! How the commands of a pipeline are wired: which file or pipe each of
//! their standard streams uses.

use vstd::prelude::*;
use crate::shell::expander::ExpandedRedirect;
use crate::shell::builtin::CommandKind;
use crate::shell::runtime::ExecStatus;
use crate::text::append_str;

verus! {

/// How a redirection opens its file.
#[derive(Debug, Clone, Copy, PartialEq, Eq, Structural)]
pub enum OpenMode {
    /// Opened for reading (`<`).
    Read,
    /// Created or emptied for writing (`>`, `2>`).
    Truncate,
    /// Created if need be and appended to (`>>`, `2>>`).
    Append,
}

/// A file a stream is redirected to.
#[derive(Debug)]
pub struct FileTarget {
    pub path: String,
    pub mode: OpenMode,
}

/// The files a redirection sends each standard stream to, if any.
#[derive(Debug)]
pub struct RedirectFiles {
    pub stdin: Option<FileTarget>,
    pub stdout: Option<FileTarget>,
    pub stderr: Option<FileTarget>,
}

pub open spec fn target_is(t: Option<FileTarget>, path: Seq<char>, mode: OpenMode) -> bool {
    t matches Some(f) && f.path@ == path && f.mode == mode
}

/// The file stream `k` (0 input, 1 output, 2 error) is redirected to, and
/// how it is opened.
pub open spec fn stream_target(r: ExpandedRedirect, k: int) -> Option<(Seq<char>, OpenMode)> {
    match r {
        ExpandedRedirect::Absent => None,
        ExpandedRedirect::Input(p) => if k == 0 {
            Some((p@, OpenMode::Read))
        } else {
            None
        },
        ExpandedRedirect::Output(p) => if k == 1 {
            Some((p@, OpenMode::Truncate))
        } else {
            None
        },
        ExpandedRedirect::Append(p) => if k == 1 {
            Some((p@, OpenMode::Append))
        } else {
            None
        },
        ExpandedRedirect::ErrorOutput(p) => if k == 2 {
            Some((p@, OpenMode::Truncate))
        } else {
            None
        },
        ExpandedRedirect::ErrorAppend(p) => if k == 2 {
            Some((p@, OpenMode::Append))
        } else {
            None
        },
    }
}

/// The files a redirection sends each stream to: `<` standard input, `>`
/// and `>>` standard output, `2>` and `2>>` standard error.
pub fn redirect_files(r: &ExpandedRedirect) -> (res: RedirectFiles)
    ensures
        match r {
            ExpandedRedirect::Absent => res.stdin is None && res.stdout is None && res.stderr is None,
            ExpandedRedirect::Input(p) => target_is(res.stdin, p@, OpenMode::Read)
                && res.stdout is None && res.stderr is None,
            ExpandedRedirect::Output(p) => res.stdin is None && target_is(
                res.stdout,
                p@,
                OpenMode::Truncate,
            ) && res.stderr is None,
            ExpandedRedirect::Append(p) => res.stdin is None && target_is(
                res.stdout,
                p@,
                OpenMode::Append,
            ) && res.stderr is None,
            ExpandedRedirect::ErrorOutput(p) => res.stdin is None && res.stdout is None
                && target_is(res.stderr, p@, OpenMode::Truncate),
            ExpandedRedirect::ErrorAppend(p) => res.stdin is None && res.stdout is None
                && target_is(res.stderr, p@, OpenMode::Append),
        },
{
    match r {
        ExpandedRedirect::Absent => RedirectFiles { stdin: None, stdout: None, stderr: None },
        ExpandedRedirect::Input(p) => RedirectFiles {
            stdin: Some(FileTarget { path: p.clone(), mode: OpenMode::Read }),
            stdout: None,
            stderr: None,
        },
        ExpandedRedirect::Output(p) => RedirectFiles {
            stdin: None,
            stdout: Some(FileTarget { path: p.clone(), mode: OpenMode::Truncate }),
            stderr: None,
        },
        ExpandedRedirect::Append(p) => RedirectFiles {
            stdin: None,
            stdout: Some(FileTarget { path: p.clone(), mode: OpenMode::Append }),
            stderr: None,
        },
        ExpandedRedirect::ErrorOutput(p) => RedirectFiles {
            stdin: None,
            stdout: None,
            stderr: Some(FileTarget { path: p.clone(), mode: OpenMode::Truncate }),
        },
        ExpandedRedirect::ErrorAppend(p) => RedirectFiles {
            stdin: None,
            stdout: None,
            stderr: Some(FileTarget { path: p.clone(), mode: OpenMode::Append }),
        },
    }
}

/// The operator a failed redirection is reported with.
pub fn redirect_operator(is_stderr: bool, mode: OpenMode) -> (res: &'static str)
    ensures
        res@ == if is_stderr {
            if mode == OpenMode::Append {
                "2>>"@
            } else {
                "2>"@
            }
        } else {
            match mode {
                OpenMode::Read => "<"@,
                OpenMode::Truncate => ">"@,
                OpenMode::Append => ">>"@,
            }
        },
{
    if is_stderr {
        match mode {
            OpenMode::Append => "2>>",
            _ => "2>",
        }
    } else {
        match mode {
            OpenMode::Read => "<",
            OpenMode::Truncate => ">",
            OpenMode::Append => ">>",
        }
    }
}

/// Where one standard stream of a pipeline stage comes from or goes to.
#[derive(Debug)]
pub enum StreamSource {
    Inherit,
    PreviousPipe,
    NextPipe,
    File(FileTarget),
}

/// The three streams of a pipeline stage, and the redirection target that
/// a pipe overrides: that file is still opened (so created or truncated),
/// though no stream uses it.
#[derive(Debug)]
pub struct StagePlan {
    pub stdin: StreamSource,
    pub stdout: StreamSource,
    pub stderr: StreamSource,
    pub overridden: Option<FileTarget>,
}

/// The redirection target of `r` that a pipe takes the place of.
pub open spec fn overridden_target(r: ExpandedRedirect, has_previous: bool, is_last: bool) -> Option<
    (Seq<char>, OpenMode),
> {
    if has_previous && stream_target(r, 0) is Some {
        stream_target(r, 0)
    } else if !is_last && stream_target(r, 1) is Some {
        stream_target(r, 1)
    } else {
        None
    }
}

pub open spec fn opt_target(t: Option<(Seq<char>, OpenMode)>, f: Option<FileTarget>) -> bool {
    match t {
        Some((path, mode)) => target_is(f, path, mode),
        None => f is None,
    }
}

pub open spec fn source_of(t: Option<(Seq<char>, OpenMode)>, s: StreamSource) -> bool {
    match t {
        Some((path, mode)) => s matches StreamSource::File(g) && g.path@ == path && g.mode == mode,
        None => s is Inherit,
    }
}

/// The wiring of a stage: the pipe from the stage before, if any, is its
/// input and the pipe to the next stage, unless it is the last, its
/// output; these win over the stage's own redirection, which serves the
/// other streams, the rest being inherited. A target the pipes win over
/// is still named, to be opened.
pub open spec fn plan_ok(p: StagePlan, r: ExpandedRedirect, has_previous: bool, is_last: bool) -> bool {
    &&& has_previous ==> p.stdin is PreviousPipe
    &&& !is_last ==> p.stdout is NextPipe
    &&& !has_previous ==> source_of(stream_target(r, 0), p.stdin)
    &&& is_last ==> source_of(stream_target(r, 1), p.stdout)
    &&& source_of(stream_target(r, 2), p.stderr)
    &&& opt_target(overridden_target(r, has_previous, is_last), p.overridden)
}

/// Wires one stage, as `plan_ok` says.
pub fn stage_plan(r: &ExpandedRedirect, has_previous: bool, is_last: bool) -> (res: StagePlan)
    ensures
        plan_ok(res, *r, has_previous, is_last),
{
    let files = redirect_files(r);
    let mut overridden: Option<FileTarget> = None;
    let stdin = if has_previous {
        if files.stdin.is_some() {
            overridden = files.stdin;
        }
        StreamSource::PreviousPipe
    } else {
        match files.stdin {
            Some(f) => StreamSource::File(f),
            None => StreamSource::Inherit,
        }
    };
    let stdout = if !is_last {
        if files.stdout.is_some() && overridden.is_none() {
            overridden = files.stdout;
        }
        StreamSource::NextPipe
    } else {
        match files.stdout {
            Some(f) => StreamSource::File(f),
            None => StreamSource::Inherit,
        }
    };
    let stderr = match files.stderr {
        Some(f) => StreamSource::File(f),
        None => StreamSource::Inherit,
    };
    StagePlan { stdin, stdout, stderr, overridden }
}

/// What running one stage of a pipeline comes to.
#[derive(Debug)]
pub enum StageStep {
    /// Start the program, its streams wired by the plan.
    Spawn(StagePlan),
    /// Run the builtin in a child process, its streams wired by the plan.
    Fork(StagePlan),
    /// Stop the pipeline, printing the message, with the status.
    Stop(String, ExecStatus),
}

/// The step for the stage running the command `name`, found to be `kind`:
/// a program is started and a builtin forked, both wired as `plan_ok`
/// says; a command that is neither stops the pipeline with status 127.
pub fn stage_step(
    name: &str,
    kind: &CommandKind,
    r: &ExpandedRedirect,
    has_previous: bool,
    is_last: bool,
) -> (res: StageStep)
    ensures
        match kind {
            CommandKind::External { .. } => res matches StageStep::Spawn(p) && plan_ok(
                p,
                *r,
                has_previous,
                is_last,
            ),
            CommandKind::Builtin => res matches StageStep::Fork(p) && plan_ok(
                p,
                *r,
                has_previous,
                is_last,
            ),
            CommandKind::NotFound => res matches StageStep::Stop(m, s) && m@ == name@
                + ": command not found"@ && s == ExecStatus::Code(127),
        },
{
    match kind {
        CommandKind::External { .. } => StageStep::Spawn(stage_plan(r, has_previous, is_last)),
        CommandKind::Builtin => StageStep::Fork(stage_plan(r, has_previous, is_last)),
        CommandKind::NotFound => {
            let mut m = name.to_owned();
            append_str(&mut m, ": command not found");
            StageStep::Stop(m, ExecStatus::Code(127))
        },
    }
}

/// The status of a child that was killed by signal `sig`.
pub fn signal_status(sig: i32) -> (res: ExecStatus)
    requires
        128 + sig <= i32::MAX,
    ensures
        res == ExecStatus::Code((128 + sig) as i32),
{
    ExecStatus::Code(128 + sig)
}

} // verus!
