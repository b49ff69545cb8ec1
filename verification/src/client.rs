//! Per-connection client state and the dispatch decision for inbound
//! actions. The socket itself, the connection tasks and the channels live in
//! the application; the library decides what each action means for the
//! client record and what must be sent or forwarded.

use crate::messages::{ClientToServer, ServerToClient};
use vstd::prelude::*;

verus! {

/// The identity a connection carries: a server-minted id and self-reported
/// display metadata.
#[derive(Debug, Clone)]
pub struct ClientProfile {
    pub id: String,
    pub username: String,
    pub colour: u8,
    pub mod_hash: String,
}

/// The spec-level image of a profile.
pub struct ProfileV {
    pub id: Seq<char>,
    pub username: Seq<char>,
    pub colour: u8,
    pub mod_hash: Seq<char>,
}

impl View for ClientProfile {
    type V = ProfileV;

    open spec fn view(&self) -> ProfileV {
        ProfileV {
            id: self.id@,
            username: self.username@,
            colour: self.colour,
            mod_hash: self.mod_hash@,
        }
    }
}

impl ClientProfile {
    /// A field-for-field copy.
    pub fn duplicate(&self) -> (r: ClientProfile)
        ensures
            r@ == self@,
    {
        ClientProfile {
            id: self.id.clone(),
            username: self.username.clone(),
            colour: self.colour,
            mod_hash: self.mod_hash.clone(),
        }
    }
}

/// What the reader task owns about its connection: the profile and, when the
/// client sits in a lobby, that lobby's code. Whether a forwarding channel is
/// installed is tracked as a flag; the channel itself is the application's.
#[derive(Debug)]
pub struct Client {
    pub profile: ClientProfile,
    pub current_lobby: Option<String>,
    pub has_lobby_channel: bool,
    pub has_coordinator_channel: bool,
}

impl Client {
    /// A fresh client record around a server-minted id: the guest profile,
    /// no lobby.
    pub fn new(id: String, has_coordinator_channel: bool) -> (r: Client)
        ensures
            r.profile.id@ == id@,
            r.profile.username@ == "Guest"@,
            r.profile.colour == 0,
            r.profile.mod_hash@ == ""@,
            r.current_lobby is None,
            !r.has_lobby_channel,
            r.has_coordinator_channel == has_coordinator_channel,
    {
        Client {
            profile: ClientProfile {
                id,
                username: String::from_str("Guest"),
                colour: 0,
                mod_hash: String::from_str(""),
            },
            current_lobby: None,
            has_lobby_channel: false,
            has_coordinator_channel,
        }
    }
}

/// What the connection must do with one inbound action.
pub enum ClientStep {
    /// Send this reply back on the connection's own channel.
    Respond(ServerToClient),
    /// Ask the coordinator to create a lobby and await the join data.
    AskCreate { ruleset: String, game_mode: crate::game_mode::GameMode },
    /// Ask the coordinator to route a join to the lobby with this code.
    AskJoin { code: String },
    /// Tell the coordinator the client left; the record dropped its lobby.
    NotifyLeave,
    /// Forward the action verbatim to the current lobby.
    Forward(ClientToServer),
    /// Nothing to send.
    Done,
}

/// Decide one inbound action. Keep-alives, version checks and profile
/// updates are handled locally; create, join and leave go to the
/// coordinator; everything else is forwarded to the current lobby, or
/// answered with an error when the client is in none.
pub fn handle_client_action(client: &mut Client, action: ClientToServer) -> (step: ClientStep)
    ensures
        final(client).profile.id@ == old(client).profile.id@,
        final(client).has_coordinator_channel == old(client).has_coordinator_channel,
        (action matches ClientToServer::KeepAlive { .. } ==> step matches ClientStep::Respond(
            ServerToClient::KeepAliveResponse { .. },
        ) && *final(client) == *old(client)),
        (action matches ClientToServer::Version { .. } ==> step matches ClientStep::Respond(
            ServerToClient::VersionOk { .. },
        ) && *final(client) == *old(client)),
        (action matches ClientToServer::SetClientData { username, colour, mod_hash } ==> {
            &&& step matches ClientStep::Done
            &&& final(client).profile.username@ == username@
            &&& final(client).profile.colour == colour
            &&& final(client).profile.mod_hash@ == mod_hash@
            &&& final(client).current_lobby == old(client).current_lobby
            &&& final(client).has_lobby_channel == old(client).has_lobby_channel
        }),
        (action matches ClientToServer::CreateLobby { ruleset, game_mode } ==> step matches
            ClientStep::AskCreate { ruleset: r, game_mode: g } && r@ == ruleset@ && g == game_mode
            && *final(client) == *old(client)),
        (action matches ClientToServer::JoinLobby { code } ==> step matches ClientStep::AskJoin {
            code: c,
        } && c@ == code@ && *final(client) == *old(client)),
        (action matches ClientToServer::LeaveLobby { .. } ==> step matches
            ClientStep::NotifyLeave && final(client).current_lobby is None
            && !final(client).has_lobby_channel
            && final(client).profile == old(client).profile),
        (forwardable(action) ==> if old(client).has_lobby_channel {
            step matches ClientStep::Forward(a) && a == action && *final(client) == *old(client)
        } else {
            step matches ClientStep::Respond(ServerToClient::Error { .. }) && *final(client)
                == *old(client)
        }),
{
    match action {
        ClientToServer::KeepAlive {} => ClientStep::Respond(ServerToClient::KeepAliveResponse {}),
        ClientToServer::Version { version } => ClientStep::Respond(ServerToClient::VersionOk {}),
        ClientToServer::SetClientData { username, colour, mod_hash } => {
            client.profile.username = username;
            client.profile.colour = colour;
            client.profile.mod_hash = mod_hash;
            ClientStep::Done
        },
        ClientToServer::CreateLobby { ruleset, game_mode } => ClientStep::AskCreate {
            ruleset,
            game_mode,
        },
        ClientToServer::JoinLobby { code } => ClientStep::AskJoin { code },
        ClientToServer::LeaveLobby {} => {
            client.current_lobby = None;
            client.has_lobby_channel = false;
            ClientStep::NotifyLeave
        },
        other => {
            if client.has_lobby_channel {
                ClientStep::Forward(other)
            } else {
                ClientStep::Respond(
                    ServerToClient::Error {
                        message: String::from_str("Not in a lobby"),
                    },
                )
            }
        },
    }
}

/// The actions that the connection does not handle itself: they belong to
/// the lobby the client sits in.
pub open spec fn forwardable(action: ClientToServer) -> bool {
    !(action matches ClientToServer::KeepAlive { .. }) && !(action
        matches ClientToServer::Version { .. }) && !(action matches ClientToServer::SetClientData {
        ..
    }) && !(action matches ClientToServer::CreateLobby { .. }) && !(action
        matches ClientToServer::JoinLobby { .. }) && !(action matches ClientToServer::LeaveLobby {
        ..
    })
}

} // verus!
