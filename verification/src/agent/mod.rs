pub mod client;
pub mod metrics;
pub mod outbox;
pub mod protocol;
pub mod server;
pub mod status;

use crate::addr::BDAddr;
use crate::path;
use crate::text;
use vstd::prelude::*;
use vstd::string::*;

verus! {

/// Fallback runtime directory. The agent needs raw BLE access and so runs as
/// root; `/run` is root-owned and is cleared on boot, unlike the world-writable
/// `/tmp`, where any local user could squat the socket or create the pid file
/// first.
pub open spec fn runtime_fallback() -> Seq<char> {
    "/run/btwattch2"@
}

/// Where the agent daemon keeps its IPC socket and pid file.
#[derive(Clone, Debug)]
pub struct AgentPaths {
    pub socket: String,
    pub pid: String,
}

impl AgentPaths {
    /// Derive the pid file from the socket path by swapping the extension
    /// (e.g. `btwattch2.sock` -> `btwattch2.pid`).
    pub fn pid_for(socket: &str) -> (pid: String)
        ensures
            pid@ == path::replaced_extension(socket@, "pid"@),
    {
        path::with_extension(socket, "pid")
    }
}

/// What the contents of a pid file say: a number between white space, or
/// nothing to go on.
pub open spec fn pid_in(contents: Seq<char>) -> Option<u32> {
    match text::unsigned(text::trim(contents), 10, u32::MAX as nat) {
        Ok(n) => Some(n as u32),
        Err(_) => None,
    }
}

/// The pid that the contents of a pid file record.
pub fn parse_pid(contents: &str) -> (pid: Option<u32>)
    ensures
        pid == pid_in(contents@),
{
    let cs = text::chars(contents);
    match text::read_unsigned(text::trimmed(cs.as_slice()), 10, u32::MAX as u64) {
        Ok(n) => Some(n as u32),
        Err(_) => None,
    }
}

/// Build paths from an explicit socket location, deriving the pid file by
/// extension so the two stay co-located.
pub fn paths_from_socket(socket: String) -> (paths: AgentPaths)
    ensures
        paths.socket@ == socket@,
        paths.pid@ == path::replaced_extension(socket@, "pid"@),
{
    let pid = AgentPaths::pid_for(socket.as_str());
    AgentPaths { socket, pid }
}

/// The runtime directory, `$XDG_RUNTIME_DIR` or its fallback.
pub open spec fn runtime_dir_of(xdg_runtime_dir: Option<&str>) -> Seq<char> {
    match xdg_runtime_dir {
        Some(dir) => dir@,
        None => runtime_fallback(),
    }
}

/// Default socket/pid locations below `$XDG_RUNTIME_DIR`, or below
/// `/run/btwattch2` where that is not set.
pub fn default_paths(xdg_runtime_dir: Option<&str>) -> (paths: AgentPaths)
    ensures
        paths.socket@ == path::below(runtime_dir_of(xdg_runtime_dir), "btwattch2.sock"@),
        paths.pid@ == path::replaced_extension(paths.socket@, "pid"@),
{
    proof {
        reveal_strlit("btwattch2.sock");
    }
    let dir = match xdg_runtime_dir {
        Some(dir) => dir,
        None => "/run/btwattch2",
    };
    paths_from_socket(path::join(dir, "btwattch2.sock"))
}

/// What a live agent reported about itself when it answered a ping.
#[derive(Debug)]
pub struct DaemonInfo {
    /// The device the agent is attached to, or `None` from an agent that does
    /// not report one. Clients compare it against an explicit `--addr` so a
    /// command meant for one device is not silently served by an agent holding
    /// another.
    pub addr: Option<BDAddr>,
    /// The agent's own counters, or `None` from an agent that does not report
    /// them.
    pub status: Option<protocol::AgentStatus>,
}

/// The default pid file lies beside the default socket, under the same name.
pub proof fn default_pid_is_beside_the_socket(dir: Seq<char>)
    ensures
        path::replaced_extension(path::below(dir, "btwattch2.sock"@), "pid"@) == path::below(
            dir,
            "btwattch2.pid"@,
        ),
{
    let socket = path::below(dir, "btwattch2.sock"@);
    let name = "btwattch2.sock"@;
    reveal_strlit("btwattch2.sock");
    reveal_strlit("btwattch2.pid");
    reveal_strlit("pid");
    let start = (socket.len() - name.len()) as nat;
    path::lemma_simple_file_name(socket, start);
    assert(socket.skip(start as int) =~= name);
    assert(socket.subrange(start as int, socket.len() as int) =~= name);
    path::lemma_simple_stem(name, 9);
    assert(path::replaced_extension(socket, "pid"@) =~= path::below(dir, "btwattch2.pid"@));
}

/// A pid that an agent wrote is the pid that is read, whatever white space stands
/// around it; a file that holds anything else says nothing.
pub proof fn a_pid_reads_back(before: Seq<char>, pid: u32, after: Seq<char>)
    requires
        text::blank(before),
        text::blank(after),
    ensures
        pid_in(before + text::decimal(pid as nat) + after) == Some(pid),
{
    let s = text::decimal(pid as nat);
    text::lemma_decimal_digits(pid as nat);
    text::lemma_number_reads_back(pid as nat, 10, u32::MAX as nat);
    assert('0' <= s[0] <= '9' && '0' <= s[s.len() - 1] <= '9');
    text::white_space_around_makes_no_difference(before, s, after);
}

} // verus!
