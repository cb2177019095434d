use crate::cli::{AgentAction, Cli, Command};
use vstd::prelude::*;

verus! {

/// How the process should react to writing into a closed pipe.
///
/// Rust ignores SIGPIPE at startup, which suits a server but not a CLI: a
/// closed stdout turns into a panic where every other CLI exits quietly. Chosen
/// once from the parsed command, since which behaviour is wanted follows from
/// what the process is.
#[derive(Clone, Copy, Debug, PartialEq, Eq, Structural)]
pub enum Sigpipe {
    /// Die on a closed pipe, as `head` and friends expect. For the CLI.
    Fatal,
    /// Report EPIPE instead. For the agent, whose clients hang up routinely and
    /// which must survive it.
    Ignored,
}

/// Whether a process for this command survives a closed pipe.
pub open spec fn survives(command: Option<Command>) -> bool {
    command matches Some(Command::Agent { action }) && action is Start
}

/// How this invocation should react to a closed pipe: only the long-running
/// daemon survives one.
pub fn sigpipe_for(cli: &Cli) -> (s: Sigpipe)
    ensures
        s == (if cli.command matches Some(Command::Agent { action }) && action is Start {
            Sigpipe::Ignored
        } else {
            Sigpipe::Fatal
        }),
        (s == Sigpipe::Ignored) == survives(cli.command),
{
    if cli.is_agent_start() {
        Sigpipe::Ignored
    } else {
        Sigpipe::Fatal
    }
}

/// An agent that serves clients survives their hanging up; whatever runs in a
/// shell, asking an agent for its status or to stop among it, ends with the pipe
/// that it writes to.
pub proof fn only_what_serves_survives(start: AgentAction, other: AgentAction)
    requires
        start is Start,
        !(other is Start),
    ensures
        survives(Some(Command::Agent { action: start })),
        !survives(Some(Command::Agent { action: other })),
        !survives(None),
{
}

} // verus!
