use vstd::prelude::*;

verus! {

/// Whether informational messages are printed. Warnings and errors always are.
#[derive(Clone, Copy, Debug, PartialEq, Eq, Structural)]
pub struct Log {
    pub info: bool,
}

/// Enable informational output, or disable it.
pub fn set_debug(log: &mut Log, enabled: bool)
    ensures
        final(log).info == enabled,
{
    log.info = enabled;
}

/// Whether informational messages are printed.
pub fn enabled(log: &Log) -> (b: bool)
    ensures
        b == log.info,
{
    log.info
}

} // verus!
