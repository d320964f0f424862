//! The name model: validated `client:port` identifiers and the port metadata
//! derived from the external graph.

use vstd::prelude::*;

pub mod pathing;
pub mod ports;

verus! {

/// Why a raw string was rejected as a port name.
#[derive(Debug, Copy, Clone, Eq, PartialEq, Hash, Structural)]
pub enum NameError {
    /// The string holds no `:` separating a client name from a port name.
    InvalidFullname,
    /// The whole name is longer than the port-name limit.
    PortnameTooLong,
    /// The client segment is longer than the client-name limit.
    ClientnameTooLong,
}

} // verus!
