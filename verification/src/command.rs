//! What the owner of a running node asks of it.

use vstd::prelude::*;
use vstd::string::*;

verus! {

/// A request to the running node.
pub enum DhtCommand {
    /// Look for the peers of an info-hash.
    GetPeers { info_hash: String },
    /// Announce a peer of an info-hash at a port.
    AnnouncePeer { info_hash: String, port: u16 },
    /// Stop.
    Shutdown,
}

/// What a request stands for.
pub enum CommandModel {
    GetPeers { info_hash: Seq<char> },
    AnnouncePeer { info_hash: Seq<char>, port: u16 },
    Shutdown,
}

impl View for DhtCommand {
    type V = CommandModel;

    open spec fn view(&self) -> CommandModel {
        match self {
            DhtCommand::GetPeers { info_hash } => CommandModel::GetPeers { info_hash: info_hash@ },
            DhtCommand::AnnouncePeer { info_hash, port } => CommandModel::AnnouncePeer {
                info_hash: info_hash@,
                port: *port,
            },
            DhtCommand::Shutdown => CommandModel::Shutdown,
        }
    }
}

} // verus!
