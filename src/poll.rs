//! The bookkeeping of the readiness multiplexer: the descriptor of the event
//! queue, the timeout and capacity handed to a wait, and how the raw result
//! of each system call is read.
use vstd::prelude::*;

verus! {

/// An OS error, by its error number.
#[derive(PartialEq, Eq, Structural)]
pub struct OsError {
    pub code: i32,
}

/// Reads the return value of a system call: a negative value is a failure
/// carrying `os_error`, any other value is the call's count or descriptor.
pub fn os_result(res: i32, os_error: i32) -> (r: Result<usize, OsError>)
    ensures
        res < 0 ==> r == Err::<usize, OsError>(OsError { code: os_error }),
        res >= 0 ==> r == Ok::<usize, OsError>(res as usize),
{
    if res < 0 {
        Err(OsError { code: os_error })
    } else {
        Ok(res as usize)
    }
}

/// The timeout handed to a wait, in milliseconds: none blocks indefinitely.
pub fn wait_timeout(timeout: Option<i32>) -> (r: i32)
    ensures
        timeout is None ==> r == -1,
        timeout matches Some(t) ==> r == t,
{
    match timeout {
        Some(t) => t,
        None => -1,
    }
}

/// The most events one wait may report into a buffer of `capacity` events.
pub fn max_events(capacity: usize) -> (r: i32)
    ensures
        capacity <= i32::MAX ==> r == capacity,
        capacity > i32::MAX ==> r == i32::MAX,
{
    if capacity > i32::MAX as usize {
        i32::MAX
    } else {
        capacity as i32
    }
}

/// The handle through which descriptors are registered with the event queue.
pub struct Registry {
    raw_fd: i32,
}

impl Registry {
    pub closed spec fn fd(&self) -> int {
        self.raw_fd as int
    }

    /// The descriptor of the event queue.
    pub fn raw_fd(&self) -> (r: i32)
        ensures
            r == self.fd(),
    {
        self.raw_fd
    }
}

/// The event queue.
pub struct Poll {
    registry: Registry,
}

impl Poll {
    pub closed spec fn fd(&self) -> int {
        self.registry.fd()
    }

    /// The event queue made by the create call that returned `res`: a
    /// negative `res` is the failure `os_error`.
    pub fn from_created(res: i32, os_error: i32) -> (r: Result<Poll, OsError>)
        ensures
            res < 0 <==> r is Err,
            res < 0 ==> r == Err::<Poll, OsError>(OsError { code: os_error }),
            r matches Ok(p) ==> p.fd() == res,
    {
        if res < 0 {
            Err(OsError { code: os_error })
        } else {
            Ok(Poll { registry: Registry { raw_fd: res } })
        }
    }

    /// The registry of this event queue.
    pub fn registry(&self) -> (r: &Registry)
        ensures
            r.fd() == self.fd(),
    {
        &self.registry
    }
}

} // verus!
