//! The wire messages, the actor messages, and the effects that the decision
//! functions hand back to the application for delivery.

use crate::client::ClientProfile;
use crate::game_mode::{GameMode, LobbyOptions};
use crate::lobby::game_state::{ClientGameState, ClientLobbyEntry};
use crate::lobby::lobby::Lobby;
use crate::talisman_number::TalismanNumber;
use vstd::prelude::*;

verus! {

/// Every action a client can send, after decoding.
#[derive(Debug)]
pub enum ClientToServer {
    KeepAlive {},
    Version { version: String },
    SetClientData { username: String, colour: u8, mod_hash: String },
    CreateLobby { ruleset: String, game_mode: GameMode },
    FailRound {},
    SendPlayerDeck { deck: String },
    SendPlayerJokers { jokers: String },
    SetFurthestBlind { blind: u32 },
    JoinLobby { code: String },
    LeaveLobby {},
    UpdateLobbyOptions { options: LobbyOptions },
    SetReady { is_ready: bool },
    PlayHand { score: TalismanNumber, hands_left: u8 },
    Discard {},
    SetBossBlind { key: String, chips: TalismanNumber },
    Skip { blind: u32 },
    SetLocation { location: String },
    StartGame { seed: String, stake: i32 },
    StopGame {},
    UpdateHandsAndDiscards { hands_max: u8, discards_max: u8 },
    SendPhantom { key: String },
    RemovePhantom { key: String },
    Asteroid { target: String },
    LetsGoGamblingNemesis {},
    EatPizza { discards: u8 },
    SoldJoker {},
    StartAnteTimer { time: u32 },
    PauseAnteTimer { time: u32 },
    FailTimer {},
    SpentLastShop { amount: u32 },
    Magnet {},
    MagnetResponse { key: String },
    SendMoney { player_id: String },
}

/// Every message the server can send a client.
#[derive(Debug)]
pub enum ServerToClient {
    Connected { client_id: String },
    KeepAliveResponse {},
    VersionOk {},
    Error { message: String },
    JoinedLobby { player_id: String, lobby_data: Lobby },
    PlayerJoinedLobby { player: ClientLobbyEntry },
    PlayerLeftLobby { player_id: String, host_id: String },
    UpdateLobbyOptions { options: LobbyOptions },
    GameStarted { seed: String, stake: i32 },
    StartBlind {},
    GameStopped {},
    LoseGame {},
    WinGame {},
    ReceivePlayerJokers { player_id: String, jokers: String },
    ReceivePlayerDeck { player_id: String, deck: String },
    SetBossBlind { key: String },
    EndPvp { won: bool },
    GameStateUpdate { player_id: String, game_state: ClientGameState },
    ResetPlayers { players: Vec<ClientLobbyEntry> },
    LobbyReady { ready_states: Vec<(String, bool)> },
    InGameStatuses { statuses: Vec<(String, bool)> },
    SendPhantom { key: String },
    RemovePhantom { key: String },
    Asteroid { sender: String },
    LetsGoGamblingNemesis {},
    EatPizza { discards: u8 },
    SoldJoker {},
    SpentLastShop { player_id: String, amount: u32 },
    StartAnteTimer { time: u32 },
    PauseAnteTimer { time: u32 },
    Magnet {},
    MagnetResponse { key: String },
    ReceivedMoney {},
}

impl ServerToClient {
    /// The canned connection handshake.
    pub fn connected(client_id: String) -> (r: ServerToClient)
        ensures
            r matches ServerToClient::Connected { client_id: c } && c@ == client_id@,
    {
        ServerToClient::Connected { client_id }
    }

    /// An error reply with the given text.
    pub fn error(message: String) -> (r: ServerToClient)
        ensures
            r matches ServerToClient::Error { message: m } && m@ == message@,
    {
        ServerToClient::Error { message }
    }

    /// The reply that hands a joiner its id and the whole lobby record.
    pub fn joined_lobby(player_id: String, lobby_data: Lobby) -> (r: ServerToClient)
        ensures
            r matches ServerToClient::JoinedLobby { player_id: p, lobby_data: l } && p@
                == player_id@ && l@ == lobby_data@,
    {
        ServerToClient::JoinedLobby { player_id, lobby_data }
    }

    /// The broadcast that announces a new player to the rest of the lobby.
    pub fn player_joined_lobby(player: ClientLobbyEntry) -> (r: ServerToClient)
        ensures
            r matches ServerToClient::PlayerJoinedLobby { player: p } && p@ == player@,
    {
        ServerToClient::PlayerJoinedLobby { player }
    }

    /// The broadcast that announces a departure and the (possibly new) host.
    pub fn player_left_lobby(player_id: String, host_id: String) -> (r: ServerToClient)
        ensures
            r matches ServerToClient::PlayerLeftLobby { player_id: p, host_id: h } && p@
                == player_id@ && h@ == host_id@,
    {
        ServerToClient::PlayerLeftLobby { player_id, host_id }
    }
}

/// A numeric tag for each outbound message shape.
pub open spec fn msg_tag(m: &ServerToClient) -> int {
    match m {
        ServerToClient::Connected { .. } => 0,
        ServerToClient::KeepAliveResponse { .. } => 1,
        ServerToClient::VersionOk { .. } => 2,
        ServerToClient::Error { .. } => 3,
        ServerToClient::JoinedLobby { .. } => 4,
        ServerToClient::PlayerJoinedLobby { .. } => 5,
        ServerToClient::PlayerLeftLobby { .. } => 6,
        ServerToClient::UpdateLobbyOptions { .. } => 7,
        ServerToClient::GameStarted { .. } => 8,
        ServerToClient::StartBlind { .. } => 9,
        ServerToClient::GameStopped { .. } => 10,
        ServerToClient::LoseGame { .. } => 11,
        ServerToClient::WinGame { .. } => 12,
        ServerToClient::ReceivePlayerJokers { .. } => 13,
        ServerToClient::ReceivePlayerDeck { .. } => 14,
        ServerToClient::SetBossBlind { .. } => 15,
        ServerToClient::EndPvp { .. } => 16,
        ServerToClient::GameStateUpdate { .. } => 17,
        ServerToClient::ResetPlayers { .. } => 18,
        ServerToClient::LobbyReady { .. } => 19,
        ServerToClient::InGameStatuses { .. } => 20,
        ServerToClient::SendPhantom { .. } => 21,
        ServerToClient::RemovePhantom { .. } => 22,
        ServerToClient::Asteroid { .. } => 23,
        ServerToClient::LetsGoGamblingNemesis { .. } => 24,
        ServerToClient::EatPizza { .. } => 25,
        ServerToClient::SoldJoker { .. } => 26,
        ServerToClient::SpentLastShop { .. } => 27,
        ServerToClient::StartAnteTimer { .. } => 28,
        ServerToClient::PauseAnteTimer { .. } => 29,
        ServerToClient::Magnet { .. } => 30,
        ServerToClient::MagnetResponse { .. } => 31,
        ServerToClient::ReceivedMoney { .. } => 32,
    }
}

/// Whether two outbound messages have the same shape, payload aside.
pub fn same_variant(a: &ServerToClient, b: &ServerToClient) -> (r: bool)
    ensures
        r == (msg_tag(a) == msg_tag(b)),
{
    let ta = variant_tag(a);
    let tb = variant_tag(b);
    ta == tb
}

/// The tag of a message, executably.
fn variant_tag(m: &ServerToClient) -> (t: u32)
    ensures
        t == msg_tag(m),
{
    match m {
        ServerToClient::Connected { .. } => 0,
        ServerToClient::KeepAliveResponse { .. } => 1,
        ServerToClient::VersionOk { .. } => 2,
        ServerToClient::Error { .. } => 3,
        ServerToClient::JoinedLobby { .. } => 4,
        ServerToClient::PlayerJoinedLobby { .. } => 5,
        ServerToClient::PlayerLeftLobby { .. } => 6,
        ServerToClient::UpdateLobbyOptions { .. } => 7,
        ServerToClient::GameStarted { .. } => 8,
        ServerToClient::StartBlind { .. } => 9,
        ServerToClient::GameStopped { .. } => 10,
        ServerToClient::LoseGame { .. } => 11,
        ServerToClient::WinGame { .. } => 12,
        ServerToClient::ReceivePlayerJokers { .. } => 13,
        ServerToClient::ReceivePlayerDeck { .. } => 14,
        ServerToClient::SetBossBlind { .. } => 15,
        ServerToClient::EndPvp { .. } => 16,
        ServerToClient::GameStateUpdate { .. } => 17,
        ServerToClient::ResetPlayers { .. } => 18,
        ServerToClient::LobbyReady { .. } => 19,
        ServerToClient::InGameStatuses { .. } => 20,
        ServerToClient::SendPhantom { .. } => 21,
        ServerToClient::RemovePhantom { .. } => 22,
        ServerToClient::Asteroid { .. } => 23,
        ServerToClient::LetsGoGamblingNemesis { .. } => 24,
        ServerToClient::EatPizza { .. } => 25,
        ServerToClient::SoldJoker { .. } => 26,
        ServerToClient::SpentLastShop { .. } => 27,
        ServerToClient::StartAnteTimer { .. } => 28,
        ServerToClient::PauseAnteTimer { .. } => 29,
        ServerToClient::Magnet { .. } => 30,
        ServerToClient::MagnetResponse { .. } => 31,
        ServerToClient::ReceivedMoney { .. } => 32,
    }
}

/// What a lobby's inbound queue carries. Reply channels stay with the
/// application; here a message carries data only.
#[derive(Debug)]
pub enum LobbyMessage {
    ClientAction { client_id: String, action: ClientToServer },
    ClientJoin { client_id: String, client_profile: ClientProfile },
    ClientLeave { client_id: String },
}

/// What the coordinator's inbound queue carries, data only.
#[derive(Debug)]
pub enum CoordinatorMessage {
    CreateLobby { client_id: String, ruleset: String, game_mode: GameMode, client_profile: ClientProfile },
    JoinLobby { client_id: String, lobby_code: String, client_profile: ClientProfile },
    LobbyShutdown { lobby_code: String },
    ClientDisconnected { client_id: String },
}

/// One delivery the application owes after a lobby step: a message to an
/// explicit set of recipients, or the shutdown notice to the coordinator.
#[derive(Debug)]
pub enum Effect {
    Send { to: Vec<String>, msg: ServerToClient },
    Shutdown { lobby_code: String },
}

} // verus!
