//! A running network stack as its owner sees it.
use vstd::prelude::*;

verus! {

/// A TUN device as far as it can be observed.
pub trait Tun {
    /// The name of the interface, where it is known.
    fn name(&self) -> (name: Option<String>);
}

/// The device of a stack that does not report its name.
pub struct TunHandle;

impl Tun for TunHandle {
    fn name(&self) -> (name: Option<String>)
        ensures
            name is None,
    {
        None
    }
}

/// The stack was closed before.
#[derive(Clone, Copy, Debug, PartialEq, Eq, Structural)]
pub struct StackClosed;

/// Whether the task of a stack is there to be stopped.
#[derive(Clone, Copy, Debug, PartialEq, Eq, Structural)]
pub struct StackState {
    running: bool,
}

impl StackState {
    pub closed spec fn is_running(&self) -> bool {
        self.running
    }

    /// A stack whose task was started.
    pub fn new() -> (s: Self)
        ensures
            s.is_running(),
    {
        StackState { running: true }
    }

    /// Starting succeeds as long as the stack was not closed.
    pub fn start(&self) -> (r: Result<(), StackClosed>)
        ensures
            r == (if self.is_running() {
                Ok::<(), StackClosed>(())
            } else {
                Err::<(), StackClosed>(StackClosed)
            }),
    {
        if self.running {
            Ok(())
        } else {
            Err(StackClosed)
        }
    }

    /// Closes the stack; tells whether its task is to be stopped. Only the
    /// first call stops it.
    pub fn close(&mut self) -> (stop: bool)
        ensures
            stop == old(self).is_running(),
            !final(self).is_running(),
    {
        let stop: bool = self.running;
        self.running = false;
        stop
    }
}

} // verus!
