//! The messages that a register hands to the component that talks to the
//! other processes.
use crate::domain::{SystemCommandView, SystemRegisterCommand};
use std::sync::Arc;
use vstd::prelude::*;

verus! {

/// A system message to be sent to every process, this one included.
#[derive(Debug, PartialEq, Eq)]
pub struct Broadcast {
    pub cmd: Arc<SystemRegisterCommand>,
}

/// A system message to be sent to one process.
#[derive(Debug, PartialEq, Eq)]
pub struct Send {
    pub cmd: Arc<SystemRegisterCommand>,
    /// Identifier of the target process. Those start at 1.
    pub target: u8,
}

impl View for Broadcast {
    type V = SystemCommandView;

    open spec fn view(&self) -> SystemCommandView {
        self.cmd@
    }
}

impl View for Send {
    type V = (SystemCommandView, u8);

    open spec fn view(&self) -> (SystemCommandView, u8) {
        (self.cmd@, self.target)
    }
}

/// The component through which the registers of a process reach the
/// registers of all processes. Messages sent by a process to itself need
/// not go over the network.
pub trait RegisterClient {
    /// Sends a system message to a single process.
    fn send(&self, msg: Send);

    /// Broadcasts a system message to all processes in the system,
    /// including self.
    fn broadcast(&self, msg: Broadcast);
}

} // verus!
