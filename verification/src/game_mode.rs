//! The closed registry of game modes: per-mode default options, player caps
//! and the Clash damage schedule.

use vstd::prelude::*;

verus! {

/// The five game modes a lobby can play.
#[derive(Debug, Clone, Copy, PartialEq, Eq, Hash, Structural)]
pub enum GameMode {
    Attrition,
    Showdown,
    Survival,
    CoopSurvival,
    Clash,
}

/// Per-stage base damage in Clash; the index saturates at the last stage.
pub const CLASH_BASE_DAMAGE: [u8; 8] = [1, 2, 3, 4, 5, 6, 7, 8];

/// The options a lobby runs under. Strings the server does not interpret are
/// relayed to clients as they stand.
#[derive(Debug, Clone)]
pub struct LobbyOptions {
    pub back: String,
    pub challenge: String,
    pub custom_seed: String,
    pub death_on_round_loss: bool,
    pub different_decks: bool,
    pub different_seeds: bool,
    pub disable_live_and_timer_hud: bool,
    pub gamemode: GameMode,
    pub gold_on_life_loss: bool,
    pub multiplayer_jokers: bool,
    pub no_gold_on_round_loss: bool,
    pub normal_bosses: bool,
    pub pvp_start_round: i32,
    pub ruleset: String,
    pub showdown_starting_antes: i32,
    pub stake: i32,
    pub starting_lives: u8,
    pub timer_base_seconds: i32,
    pub timer_increment_seconds: i32,
}

/// The spec-level image of `LobbyOptions`.
pub struct LobbyOptionsV {
    pub back: Seq<char>,
    pub challenge: Seq<char>,
    pub custom_seed: Seq<char>,
    pub death_on_round_loss: bool,
    pub different_decks: bool,
    pub different_seeds: bool,
    pub disable_live_and_timer_hud: bool,
    pub gamemode: GameMode,
    pub gold_on_life_loss: bool,
    pub multiplayer_jokers: bool,
    pub no_gold_on_round_loss: bool,
    pub normal_bosses: bool,
    pub pvp_start_round: i32,
    pub ruleset: Seq<char>,
    pub showdown_starting_antes: i32,
    pub stake: i32,
    pub starting_lives: u8,
    pub timer_base_seconds: i32,
    pub timer_increment_seconds: i32,
}

impl View for LobbyOptions {
    type V = LobbyOptionsV;

    open spec fn view(&self) -> LobbyOptionsV {
        LobbyOptionsV {
            back: self.back@,
            challenge: self.challenge@,
            custom_seed: self.custom_seed@,
            death_on_round_loss: self.death_on_round_loss,
            different_decks: self.different_decks,
            different_seeds: self.different_seeds,
            disable_live_and_timer_hud: self.disable_live_and_timer_hud,
            gamemode: self.gamemode,
            gold_on_life_loss: self.gold_on_life_loss,
            multiplayer_jokers: self.multiplayer_jokers,
            no_gold_on_round_loss: self.no_gold_on_round_loss,
            normal_bosses: self.normal_bosses,
            pvp_start_round: self.pvp_start_round,
            ruleset: self.ruleset@,
            showdown_starting_antes: self.showdown_starting_antes,
            stake: self.stake,
            starting_lives: self.starting_lives,
            timer_base_seconds: self.timer_base_seconds,
            timer_increment_seconds: self.timer_increment_seconds,
        }
    }
}

impl LobbyOptions {
    /// A field-for-field copy.
    pub fn duplicate(&self) -> (r: LobbyOptions)
        ensures
            r@ == self@,
    {
        LobbyOptions {
            back: self.back.clone(),
            challenge: self.challenge.clone(),
            custom_seed: self.custom_seed.clone(),
            death_on_round_loss: self.death_on_round_loss,
            different_decks: self.different_decks,
            different_seeds: self.different_seeds,
            disable_live_and_timer_hud: self.disable_live_and_timer_hud,
            gamemode: self.gamemode,
            gold_on_life_loss: self.gold_on_life_loss,
            multiplayer_jokers: self.multiplayer_jokers,
            no_gold_on_round_loss: self.no_gold_on_round_loss,
            normal_bosses: self.normal_bosses,
            pvp_start_round: self.pvp_start_round,
            ruleset: self.ruleset.clone(),
            showdown_starting_antes: self.showdown_starting_antes,
            stake: self.stake,
            starting_lives: self.starting_lives,
            timer_base_seconds: self.timer_base_seconds,
            timer_increment_seconds: self.timer_increment_seconds,
        }
    }
}

/// A choice of blinds relayed to clients; the server never reads it.
#[derive(Debug, Clone)]
pub struct BlindChoice {
    pub small: Option<String>,
    pub big: Option<String>,
    pub boss: Option<String>,
}

/// What the registry knows about one game mode.
pub struct GameModeData {
    pub default_options: LobbyOptions,
    pub max_players: u8,
}

/// How many players the mode admits: six in cooperative survival, two
/// elsewhere.
pub open spec fn spec_max_players(m: GameMode) -> u8 {
    match m {
        GameMode::CoopSurvival => 6u8,
        GameMode::Clash => 6u8,
        _ => 2u8,
    }
}

/// The default options of a mode, over views.
pub open spec fn spec_default_options(m: GameMode) -> LobbyOptionsV {
    LobbyOptionsV {
        back: "Red Deck"@,
        challenge: ""@,
        custom_seed: "random"@,
        death_on_round_loss: m == GameMode::CoopSurvival,
        different_decks: m == GameMode::CoopSurvival,
        different_seeds: m == GameMode::CoopSurvival,
        disable_live_and_timer_hud: false,
        gamemode: m,
        gold_on_life_loss: m != GameMode::CoopSurvival,
        multiplayer_jokers: m != GameMode::CoopSurvival,
        no_gold_on_round_loss: m == GameMode::CoopSurvival,
        normal_bosses: m == GameMode::CoopSurvival,
        pvp_start_round: if m == GameMode::Survival {
            20i32
        } else {
            2i32
        },
        ruleset: if m == GameMode::CoopSurvival {
            "ruleset_mp_coop"@
        } else {
            "ruleset_mp_standard"@
        },
        showdown_starting_antes: 3,
        stake: 1,
        starting_lives: if m == GameMode::CoopSurvival {
            2u8
        } else {
            4u8
        },
        timer_base_seconds: 150,
        timer_increment_seconds: 60,
    }
}

impl GameMode {
    /// The registry entry for this mode.
    pub fn get_data(&self) -> (d: GameModeData)
        ensures
            d.default_options@ == spec_default_options(*self),
            d.max_players == spec_max_players(*self),
    {
        GameModeData { default_options: self.get_default_options(), max_players: self.get_max_players() }
    }

    /// How many players this mode admits.
    pub fn get_max_players(&self) -> (n: u8)
        ensures
            n == spec_max_players(*self),
    {
        match self {
            GameMode::CoopSurvival => 6,
            GameMode::Clash => 6,
            _ => 2,
        }
    }

    /// A fresh copy of the mode's default options.
    pub fn get_default_options(&self) -> (r: LobbyOptions)
        ensures
            r@ == spec_default_options(*self),
    {
        let coop = matches!(self, GameMode::CoopSurvival);
        LobbyOptions {
            back: String::from_str("Red Deck"),
            challenge: String::from_str(""),
            custom_seed: String::from_str("random"),
            death_on_round_loss: coop,
            different_decks: coop,
            different_seeds: coop,
            disable_live_and_timer_hud: false,
            gamemode: *self,
            gold_on_life_loss: !coop,
            multiplayer_jokers: !coop,
            no_gold_on_round_loss: coop,
            normal_bosses: coop,
            pvp_start_round: if matches!(self, GameMode::Survival) {
                20
            } else {
                2
            },
            ruleset: if coop {
                String::from_str("ruleset_mp_coop")
            } else {
                String::from_str("ruleset_mp_standard")
            },
            showdown_starting_antes: 3,
            stake: 1,
            starting_lives: if coop {
                2
            } else {
                4
            },
            timer_base_seconds: 150,
            timer_increment_seconds: 60,
        }
    }

    /// The mode's display name.
    pub fn name(&self) -> (r: String)
        ensures
            r@ == spec_mode_name(*self),
    {
        match self {
            GameMode::Attrition => String::from_str("Attrition"),
            GameMode::Showdown => String::from_str("Showdown"),
            GameMode::Survival => String::from_str("Survival"),
            GameMode::CoopSurvival => String::from_str("CoopSurvival"),
            GameMode::Clash => String::from_str("Clash"),
        }
    }

    /// Parse a display name back into a mode; anything else is refused.
    pub fn parse_name(s: &str) -> (r: Option<GameMode>)
        ensures
            r matches Some(m) ==> s@ == spec_mode_name(m),
            r is None ==> forall|m: GameMode| s@ != spec_mode_name(m),
    {
        proof {
            reveal_strlit("Attrition");
            reveal_strlit("Showdown");
            reveal_strlit("Survival");
            reveal_strlit("CoopSurvival");
            reveal_strlit("Clash");
        }
        if crate::talisman_number::str_eq_literal(s, "Attrition") {
            Some(GameMode::Attrition)
        } else if crate::talisman_number::str_eq_literal(s, "Showdown") {
            Some(GameMode::Showdown)
        } else if crate::talisman_number::str_eq_literal(s, "Survival") {
            Some(GameMode::Survival)
        } else if crate::talisman_number::str_eq_literal(s, "CoopSurvival") {
            Some(GameMode::CoopSurvival)
        } else if crate::talisman_number::str_eq_literal(s, "Clash") {
            Some(GameMode::Clash)
        } else {
            None
        }
    }
}

/// The display name of a mode.
pub open spec fn spec_mode_name(m: GameMode) -> Seq<char> {
    match m {
        GameMode::Attrition => "Attrition"@,
        GameMode::Showdown => "Showdown"@,
        GameMode::Survival => "Survival"@,
        GameMode::CoopSurvival => "CoopSurvival"@,
        GameMode::Clash => "Clash"@,
    }
}

} // verus!
