//! The command-line surface, as plain data: the outer shell parses
//! arguments into these types and hands them in.

use vstd::prelude::*;

verus! {

/// What the operator asked for.
#[derive(Debug)]
pub enum Command {
    /// Run the server.
    Server(ServerOpt),
    /// Print the cluster status report.
    Status,
    /// Stage a role assignment for a node.
    Configure(ConfigureOpt),
    /// Stage a node's removal.
    Remove(RemoveOpt),
    /// Commit the staged layout edits.
    Apply(ApplyLayoutOpt),
    /// Discard the staged layout edits.
    Revert(RevertLayoutOpt),
    /// Ask a node to connect to a peer.
    Connect(ConnectOpt),
}

/// Options of the server command.
#[derive(Debug)]
pub struct ServerOpt {
    /// Path of the configuration file.
    pub config_file: String,
}

/// Options of the role-assignment command.
#[derive(Debug)]
pub struct ConfigureOpt {
    /// Hex prefix of the node to configure.
    pub node_id: String,
    /// The failure zone to assign.
    pub zone: String,
    /// The storage capacity to assign; `None` stages a gateway role.
    pub capacity: Option<u64>,
    /// Free-form tags.
    pub tags: Vec<String>,
}

/// Options of the removal command.
#[derive(Debug)]
pub struct RemoveOpt {
    /// Hex prefix of the node to remove.
    pub node_id: String,
    /// Removal is only staged when this flag is given.
    pub yes: bool,
}

/// Options of the commit command: the version the commit must produce,
/// as a guard against applying someone else's edits.
#[derive(Debug)]
pub struct ApplyLayoutOpt {
    pub version: u64,
}

/// Options of the revert command, with the same version guard.
#[derive(Debug)]
pub struct RevertLayoutOpt {
    pub version: u64,
}

/// Options of the connect command.
#[derive(Debug)]
pub struct ConnectOpt {
    /// The peer, as `<hex id>@<host>:<port>`.
    pub node: String,
}

} // verus!
