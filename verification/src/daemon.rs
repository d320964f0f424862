//! The daemon's configuration surface: the parsed command-line choices and
//! the events its loop reacts to.

use vstd::prelude::*;

verus! {

/// Why the command line was rejected.
#[derive(Debug, Clone, Eq, PartialEq, Hash)]
pub enum ArgError {
    /// The requested client name is empty, blank or too long.
    InvalidClientName,
    /// An unrecognized flag.
    InvalidFlag(String),
    /// A missing or unusable policy file path.
    InvalidPath(String),
}

/// Whether the daemon may start the external server itself.
#[derive(Debug, Copy, Clone, Eq, PartialEq, Hash, Structural)]
pub enum StartServerFlag {
    StartServer,
    StartIfStopped,
    NoStart,
}

impl Default for StartServerFlag {
    /// Starting the server only when none runs is the default policy.
    fn default() -> (r: Self)
        ensures
            r == StartServerFlag::StartIfStopped,
    {
        StartServerFlag::StartIfStopped
    }
}

/// What wakes the daemon's loop: either the external graph changed, or the
/// policy file on disk did.
#[derive(Debug, Copy, Clone, Eq, PartialEq, Hash, Structural)]
pub enum DaemonMessage {
    GraphUpdated,
    ConfigUpdated,
}

/// The daemon's parsed command-line choices.
pub struct DaemonArgs {
    config_path: String,
    server_flag: Option<StartServerFlag>,
    client_name: Option<String>,
}

impl DaemonArgs {
    /// Assembles the choices; the surrounding program parses the command
    /// line and checks that the path names a readable file.
    pub fn new(
        config_path: String,
        server_flag: Option<StartServerFlag>,
        client_name: Option<String>,
    ) -> (r: DaemonArgs)
        ensures
            r.spec_config_path() == config_path@,
            r.spec_server_flag() == server_flag,
            r.spec_client_name() == client_name,
    {
        DaemonArgs { config_path, server_flag, client_name }
    }

    pub closed spec fn spec_config_path(self) -> Seq<char> {
        self.config_path@
    }

    pub closed spec fn spec_server_flag(self) -> Option<StartServerFlag> {
        self.server_flag
    }

    pub closed spec fn spec_client_name(self) -> Option<String> {
        self.client_name
    }

    /// The policy file to watch and reload.
    pub fn config_path(&self) -> (r: &str)
        ensures
            r@ == self.spec_config_path(),
    {
        self.config_path.as_str()
    }

    /// The display name to register with, or the built-in default.
    pub fn client_name(&self) -> (r: &str)
        ensures
            match self.spec_client_name() {
                Some(n) => r@ == n@,
                None => r@ == "trejdaemon"@,
            },
    {
        match &self.client_name {
            Some(n) => n.as_str(),
            None => "trejdaemon",
        }
    }

    /// The server-start policy, defaulting to start-if-stopped.
    pub fn server_flag(&self) -> (r: StartServerFlag)
        ensures
            r == (match self.spec_server_flag() {
                Some(f) => f,
                None => StartServerFlag::StartIfStopped,
            }),
    {
        match self.server_flag {
            Some(f) => f,
            None => StartServerFlag::StartIfStopped,
        }
    }
}

} // verus!
