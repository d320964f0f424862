//! The parsed form of the persisted policy document.
//!
//! A document is a list of entries, each keyed either by a bare client name
//! or by a full `client:port` name. This module only models the document's
//! logical schema; reading and writing bytes is left to the surrounding
//! program.

use vstd::prelude::*;

use crate::config::LockStatus;
use crate::model::ports::PortFullname;

verus! {

/// A whole policy document: entries in document order. Later entries win
/// when keys repeat, mirroring how a keyed document is read.
pub struct ConfigFile {
    pub entries: Vec<LockEntry>,
}

/// One top-level entry of the document.
pub enum LockEntry {
    /// A bare client name with optional lock and nested port sections.
    Client { name: String, info: ClientInfo },
    /// A full `client:port` key with its port section.
    Port { name: PortFullname, info: PortInfo },
}

/// The value under a bare client key.
pub struct ClientInfo {
    /// The client-wide lock, if declared.
    pub lock: Option<LockStatus>,
    /// Port sections nested under the client, keyed by port short name.
    pub ports: Vec<(String, PortInfo)>,
}

impl ClientInfo {
    /// An empty section: no lock, no ports.
    pub fn new() -> (r: Self)
        ensures
            r.lock is None,
            r.ports@.len() == 0,
    {
        ClientInfo { lock: None, ports: Vec::new() }
    }

    /// The same section with its lock set.
    pub fn with_lock(self, lock: LockStatus) -> (r: Self)
        ensures
            r.lock == Some(lock),
            r.ports == self.ports,
    {
        ClientInfo { lock: Some(lock), ports: self.ports }
    }
}

impl Default for ClientInfo {
    fn default() -> (r: Self)
        ensures
            r.lock is None,
            r.ports@.len() == 0,
    {
        ClientInfo::new()
    }
}

/// The value under a port key: an optional lock and the peer ports this
/// port declares connections to.
pub struct PortInfo {
    pub lock: Option<LockStatus>,
    pub connections: Vec<PortFullname>,
}

impl PortInfo {
    /// An empty section: no lock, no declared connections.
    pub fn new() -> (r: Self)
        ensures
            r.lock is None,
            r.connections@.len() == 0,
    {
        PortInfo { lock: None, connections: Vec::new() }
    }

    /// Sets the port's lock, keeping its declared connections.
    pub fn set_lock(&mut self, lock: LockStatus)
        ensures
            final(self).lock == Some(lock),
            final(self).connections == old(self).connections,
    {
        self.lock = Some(lock);
    }
}

impl Default for PortInfo {
    fn default() -> (r: Self)
        ensures
            r.lock is None,
            r.connections@.len() == 0,
    {
        PortInfo::new()
    }
}

} // verus!
