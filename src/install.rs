//! The decisions around installing a new build: where it lands, which
//! download source to try next, and when to stop waiting for it.

use vstd::prelude::*;

verus! {

/// How long to wait for an installation to finish, in seconds.
pub const INSTALL_TIMEOUT_SECS: u64 = 3600;

/// How long to sleep between two looks for the installed binary, in seconds.
pub const POLL_INTERVAL_SECS: u64 = 5;

/// What to do after one look for the installed binary.
#[derive(Clone, Copy, Debug, PartialEq, Eq, Structural)]
pub enum WaitStep {
    /// The binary is there: the installation is complete.
    Done,
    /// The time allowed has run out: the installation failed.
    TimedOut,
    /// Sleep for the poll interval, then look again.
    Retry,
}

/// Decides the next step of waiting for an installation, given the seconds
/// elapsed since the wait began and whether the binary was found; running out
/// of time is checked first.
pub fn wait_step(elapsed_secs: u64, found: bool) -> (r: WaitStep)
    ensures
        r == (if elapsed_secs > INSTALL_TIMEOUT_SECS {
            WaitStep::TimedOut
        } else if found {
            WaitStep::Done
        } else {
            WaitStep::Retry
        }),
{
    if elapsed_secs > INSTALL_TIMEOUT_SECS {
        WaitStep::TimedOut
    } else if found {
        WaitStep::Done
    } else {
        WaitStep::Retry
    }
}

/// The download source to try after `failed` sources have failed, out of
/// `sources` tried in order; `None` once all have failed.
pub fn next_source(failed: usize, sources: usize) -> (r: Option<usize>)
    ensures
        r == (if failed < sources {
            Some(failed)
        } else {
            None::<usize>
        }),
{
    if failed < sources {
        Some(failed)
    } else {
        None
    }
}

/// The installation directory of the browser's canary channel for a user.
pub fn edge_app_path(username: &str) -> (r: String)
    ensures
        r@ == "C:\\Users\\"@ + username@ + "\\AppData\\Local\\Microsoft\\Edge SxS\\Application"@,
{
    let mut path = String::from_str("C:\\Users\\");
    path.append(username);
    path.append("\\AppData\\Local\\Microsoft\\Edge SxS\\Application");
    path
}

} // verus!
