//! The frames of the wire protocol, as typed values.

use vstd::prelude::*;
use crate::change::{changes_view, Change, ChangeView};

verus! {

/// What a client sends: a batch of changes. The version is what the client
/// believes the document to be at; it decides nothing.
#[derive(Debug, PartialEq, Eq)]
pub struct ClientUpdate {
    pub version: usize,
    pub changes: Vec<Change>,
}

/// What arrived on a connection.
#[derive(Debug, PartialEq, Eq)]
pub enum Incoming {
    /// A text frame that holds a client update.
    Update(ClientUpdate),
    /// A text frame that holds no client update.
    Malformed,
    /// A binary frame.
    Binary,
    Ping,
    Pong,
    Close,
}

/// What the server sends for a committed update. The changes are left out in
/// the frame that goes back to the sink the update came from.
#[derive(Debug, PartialEq, Eq)]
pub struct ServerUpdate {
    pub version: usize,
    pub changes: Option<Vec<Change>>,
}

/// The first frame on a new connection: the document's handle, its version
/// and the changes that the client has not seen.
#[derive(Debug, PartialEq, Eq)]
pub struct ServerHandshake {
    pub id: Option<String>,
    pub update: ServerUpdate,
}

/// The mathematical model of a server update.
pub ghost struct ServerUpdateView {
    pub version: nat,
    pub changes: Option<Seq<ChangeView>>,
}

/// The mathematical model of a handshake.
pub ghost struct ServerHandshakeView {
    pub id: Option<Seq<char>>,
    pub update: ServerUpdateView,
}

impl View for ServerUpdate {
    type V = ServerUpdateView;

    open spec fn view(&self) -> ServerUpdateView {
        ServerUpdateView {
            version: self.version as nat,
            changes: match self.changes {
                Some(changes) => Some(changes_view(changes@)),
                None => None,
            },
        }
    }
}

impl View for ServerHandshake {
    type V = ServerHandshakeView;

    open spec fn view(&self) -> ServerHandshakeView {
        ServerHandshakeView {
            id: match self.id {
                Some(id) => Some(id@),
                None => None,
            },
            update: self.update@,
        }
    }
}

} // verus!
