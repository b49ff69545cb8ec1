//! Per-player lobby and game state.

use crate::client::{ClientProfile, ProfileV};
use crate::decnum::DecNum;
use crate::talisman_number::{tn_wf, TalismanNumber, TnView};
use vstd::prelude::*;

verus! {

/// A player's standing within the lobby.
#[derive(Debug, Clone)]
pub struct ClientLobbyState {
    pub current_lobby: Option<String>,
    pub is_ready: bool,
    pub first_ready: bool,
    pub is_cached: bool,
    pub is_host: bool,
    pub in_game: bool,
}

/// The spec-level image of `ClientLobbyState`.
pub struct LobbyStateV {
    pub current_lobby: Option<Seq<char>>,
    pub is_ready: bool,
    pub first_ready: bool,
    pub is_cached: bool,
    pub is_host: bool,
    pub in_game: bool,
}

impl View for ClientLobbyState {
    type V = LobbyStateV;

    open spec fn view(&self) -> LobbyStateV {
        LobbyStateV {
            current_lobby: match &self.current_lobby {
                Some(s) => Some(s@),
                None => None,
            },
            is_ready: self.is_ready,
            first_ready: self.first_ready,
            is_cached: self.is_cached,
            is_host: self.is_host,
            in_game: self.in_game,
        }
    }
}

/// A player's in-game counters and scores.
#[derive(Debug, Clone)]
pub struct ClientGameState {
    pub ante: u32,
    pub round: u32,
    pub furthest_blind: u32,
    pub hands_left: u8,
    pub hands_max: u8,
    pub discards_left: u8,
    pub discards_max: u8,
    pub lives: u8,
    pub lives_blocker: bool,
    pub location: String,
    pub skips: u8,
    pub score: TalismanNumber,
    pub highest_score: TalismanNumber,
    pub spent_in_shop: Vec<u32>,
    pub team: u8,
}

/// The spec-level image of `ClientGameState`.
pub struct GameStateV {
    pub ante: u32,
    pub round: u32,
    pub furthest_blind: u32,
    pub hands_left: u8,
    pub hands_max: u8,
    pub discards_left: u8,
    pub discards_max: u8,
    pub lives: u8,
    pub lives_blocker: bool,
    pub location: Seq<char>,
    pub skips: u8,
    pub score: TnView,
    pub highest_score: TnView,
    pub spent_in_shop: Seq<u32>,
    pub team: u8,
}

impl View for ClientGameState {
    type V = GameStateV;

    open spec fn view(&self) -> GameStateV {
        GameStateV {
            ante: self.ante,
            round: self.round,
            furthest_blind: self.furthest_blind,
            hands_left: self.hands_left,
            hands_max: self.hands_max,
            discards_left: self.discards_left,
            discards_max: self.discards_max,
            lives: self.lives,
            lives_blocker: self.lives_blocker,
            location: self.location@,
            skips: self.skips,
            score: self.score@,
            highest_score: self.highest_score@,
            spent_in_shop: self.spent_in_shop@,
            team: self.team,
        }
    }
}

/// The freshly-dealt game state: four hands, three discards, two lives, at
/// the first blind, in the selection screen, with a zero score.
pub open spec fn spec_default_game_state() -> GameStateV {
    GameStateV {
        ante: 0,
        round: 1,
        furthest_blind: 1,
        hands_left: 4,
        hands_max: 4,
        discards_left: 3,
        discards_max: 3,
        lives: 2,
        lives_blocker: false,
        location: "loc_selecting"@,
        skips: 0,
        score: TnView::Regular(DecNum::Num { mant: 0, exp: 0 }),
        highest_score: TnView::Regular(DecNum::Num { mant: 0, exp: 0 }),
        spent_in_shop: Seq::empty(),
        team: 1,
    }
}

/// A game state's scores are well-formed decimals.
pub open spec fn game_state_wf(g: GameStateV) -> bool {
    tn_wf(g.score) && tn_wf(g.highest_score)
}

impl Default for ClientGameState {
    /// The freshly-dealt game state.
    fn default() -> (r: ClientGameState)
        ensures
            r@ == spec_default_game_state(),
    {
        ClientGameState {
            ante: 0,
            round: 1,
            furthest_blind: 1,
            hands_left: 4,
            hands_max: 4,
            discards_left: 3,
            discards_max: 3,
            lives: 2,
            lives_blocker: false,
            location: String::from_str("loc_selecting"),
            skips: 0,
            score: TalismanNumber::Regular(DecNum::Num { mant: 0, exp: 0 }),
            highest_score: TalismanNumber::Regular(DecNum::Num { mant: 0, exp: 0 }),
            spent_in_shop: Vec::new(),
            team: 1,
        }
    }
}

impl ClientGameState {
    /// A field-for-field copy.
    pub fn duplicate(&self) -> (r: ClientGameState)
        ensures
            r@ == self@,
    {
        let mut spent: Vec<u32> = Vec::new();
        let mut i: usize = 0;
        while i < self.spent_in_shop.len()
            invariant
                i <= self.spent_in_shop@.len(),
                spent@ =~= self.spent_in_shop@.take(i as int),
            decreases self.spent_in_shop@.len() - i,
        {
            spent.push(self.spent_in_shop[i]);
            i = i + 1;
        }
        proof {
            assert(spent@ =~= self.spent_in_shop@);
        }
        ClientGameState {
            ante: self.ante,
            round: self.round,
            furthest_blind: self.furthest_blind,
            hands_left: self.hands_left,
            hands_max: self.hands_max,
            discards_left: self.discards_left,
            discards_max: self.discards_max,
            lives: self.lives,
            lives_blocker: self.lives_blocker,
            location: self.location.clone(),
            skips: self.skips,
            score: self.score.duplicate(),
            highest_score: self.highest_score.duplicate(),
            spent_in_shop: spent,
            team: self.team,
        }
    }
}

/// One player's seat in a lobby: profile, lobby standing, game state.
#[derive(Debug, Clone)]
pub struct ClientLobbyEntry {
    pub profile: ClientProfile,
    pub lobby_state: ClientLobbyState,
    pub game_state: ClientGameState,
}

/// The spec-level image of an entry.
pub struct EntryV {
    pub profile: ProfileV,
    pub lobby_state: LobbyStateV,
    pub game_state: GameStateV,
}

impl View for ClientLobbyEntry {
    type V = EntryV;

    open spec fn view(&self) -> EntryV {
        EntryV { profile: self.profile@, lobby_state: self.lobby_state@, game_state: self.game_state@ }
    }
}

impl ClientLobbyEntry {
    /// A new seat. The first player of a lobby is its host and starts ready.
    pub fn new(profile: ClientProfile, lobby_code: String, is_host: bool, starting_lives: u8) -> (r:
        ClientLobbyEntry)
        ensures
            r@.profile == profile@,
            r@.lobby_state.current_lobby matches Some(c) && c == lobby_code@,
            r@.lobby_state.is_ready == is_host,
            r@.lobby_state.is_host == is_host,
            !r@.lobby_state.first_ready,
            !r@.lobby_state.is_cached,
            !r@.lobby_state.in_game,
            r@.game_state == (GameStateV { lives: starting_lives, ..spec_default_game_state() }),
    {
        let mut game_state = ClientGameState::default();
        game_state.lives = starting_lives;
        ClientLobbyEntry {
            profile,
            lobby_state: ClientLobbyState {
                current_lobby: Some(lobby_code),
                is_ready: is_host,
                first_ready: false,
                is_cached: false,
                is_host,
                in_game: false,
            },
            game_state,
        }
    }

    /// Deal the player back in: ready off, fresh game state, the configured
    /// number of lives.
    pub fn reset_for_game(&mut self, starting_lives: u8)
        ensures
            final(self)@.profile == old(self)@.profile,
            final(self)@.lobby_state == (LobbyStateV { is_ready: false, ..old(self)@.lobby_state }),
            final(self)@.game_state == (GameStateV {
                lives: starting_lives,
                ..spec_default_game_state()
            }),
    {
        self.lobby_state.is_ready = false;
        self.game_state = ClientGameState::default();
        self.game_state.lives = starting_lives;
    }

    /// A field-for-field copy.
    pub fn duplicate(&self) -> (r: ClientLobbyEntry)
        ensures
            r@ == self@,
    {
        ClientLobbyEntry {
            profile: self.profile.duplicate(),
            lobby_state: ClientLobbyState {
                current_lobby: match &self.lobby_state.current_lobby {
                    Some(c) => Some(c.clone()),
                    None => None,
                },
                is_ready: self.lobby_state.is_ready,
                first_ready: self.lobby_state.first_ready,
                is_cached: self.lobby_state.is_cached,
                is_host: self.lobby_state.is_host,
                in_game: self.lobby_state.in_game,
            },
            game_state: self.game_state.duplicate(),
        }
    }
}

} // verus!
