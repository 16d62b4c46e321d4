//! Interface handles.
use vstd::prelude::*;

verus! {

/// A handle on one member interface. Two handles are equal exactly when they
/// name the same interface.
#[derive(Clone, Copy, PartialEq, Eq, Structural, Debug)]
pub struct NetDevice {
    /// The interface's index in the network stack.
    pub ifindex: u32,
}

impl NetDevice {
    pub fn new(ifindex: u32) -> (r: NetDevice)
        ensures
            r.ifindex == ifindex,
    {
        NetDevice { ifindex }
    }

    /// The interface this handle names.
    pub fn get_dev(&self) -> (r: u32)
        ensures
            r == self.ifindex,
    {
        self.ifindex
    }
}

} // verus!
