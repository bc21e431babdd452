//! The thread subsystem's data: a state enum and a thread record.  The
//! scheduler around them is not built yet; the kernel only reserves the
//! shape of a thread and the hook that will one day create the first one.

use vstd::prelude::*;

verus! {

/// The lifecycle states a thread can be in.
#[derive(Debug)]
pub enum ThreadState {
    /// Not yet started, or stopped without being torn down.
    Suspended,
    /// Runnable, waiting for a processor.
    Ready,
    /// Currently executing.
    Running,
    /// Waiting on a resource.
    Blocked,
    /// Waiting on time.
    Sleeping,
    /// Finished; awaiting teardown.
    Death,
}

/// A kernel thread record.
#[derive(Debug)]
pub struct Thread {
    /// The magic of this thread: the marker every live record carries.
    pub magic: i32,
    /// The priority of this thread.
    pub priority: i32,
    /// The status of this thread.
    pub state: ThreadState,
}

impl Thread {
    /// A fresh thread: marked live, default priority, suspended.
    pub fn new() -> (t: Thread)
        ensures
            t.magic == 0x70617274,
            t.priority == 0,
            t.state is Suspended,
    {
        Thread {
            magic: 0x70617274,  // 'part'
            priority: 0,
            state: ThreadState::Suspended,
        }
    }
}

/// Initializes the threading system; called once from the kernel's entry.
/// There is nothing to set up until a thread covers the currently running
/// state.
pub fn thread_early_init() {
}

} // verus!
