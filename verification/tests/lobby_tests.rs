//! Lobby behaviour: joins and leaves, host migration, rounds, game modes.

use lobby_server::client::{handle_client_action, Client, ClientProfile, ClientStep};
use lobby_server::decnum::DecNum;
use lobby_server::game_mode::GameMode;
use lobby_server::lobby::broadcaster::LobbyBroadcaster;
use lobby_server::lobby::handlers::LobbyHandlers;
use lobby_server::lobby::lobby::Lobby;
use lobby_server::lobby::task::{handle_client_join, handle_client_leave};
use lobby_server::messages::{ClientToServer, Effect, ServerToClient};
use lobby_server::talisman_number::TalismanNumber;
use lobby_server::test_utils::contains_response_of_type;

fn profile(name: &str) -> ClientProfile {
    ClientProfile {
        id: name.to_string(),
        username: name.to_string(),
        colour: 0,
        mod_hash: String::new(),
    }
}

fn messages_of(effects: Vec<Effect>) -> Vec<ServerToClient> {
    effects
        .into_iter()
        .filter_map(|e| match e {
            Effect::Send { to: _, msg } => Some(msg),
            Effect::Shutdown { .. } => None,
        })
        .collect()
}

fn messages_to(effects: &[Effect], id: &str) -> Vec<String> {
    let mut out = Vec::new();
    for e in effects {
        if let Effect::Send { to, msg } = e {
            if to.iter().any(|t| t == id) {
                out.push(format!("{:?}", msg));
            }
        }
    }
    out
}

fn join_all(lobby: &mut Lobby, broadcaster: &mut LobbyBroadcaster, ids: &[&str]) {
    for id in ids {
        let effects = handle_client_join(lobby, broadcaster, id.to_string(), profile(id));
        let msgs = messages_of(effects);
        assert!(contains_response_of_type(
            &msgs,
            &ServerToClient::JoinedLobby {
                player_id: String::new(),
                lobby_data: Lobby::new("X".to_string(), "r".to_string(), GameMode::Attrition),
            }
        ));
    }
}

fn act(lobby: &mut Lobby, broadcaster: &LobbyBroadcaster, who: &str, action: ClientToServer) -> Vec<Effect> {
    LobbyHandlers::handle_player_action(lobby, broadcaster, who.to_string(), action)
}

fn regular(n: i128) -> TalismanNumber {
    TalismanNumber::Regular(DecNum::Num { mant: n, exp: 0 })
}

fn lives_of(lobby: &Lobby, id: &str) -> u8 {
    for (pid, entry) in &lobby.players {
        if pid == id {
            return entry.game_state.lives;
        }
    }
    panic!("player not seated");
}

#[test]
fn test_client_join() {
    let mut lobby = Lobby::new("TEST".to_string(), "default".to_string(), GameMode::Attrition);
    let mut broadcaster = LobbyBroadcaster::new();
    let effects = handle_client_join(
        &mut lobby,
        &mut broadcaster,
        "player1".to_string(),
        profile("player1"),
    );
    let responses = messages_of(effects);
    let joined_variant = ServerToClient::JoinedLobby {
        player_id: "player1".to_string(),
        lobby_data: Lobby::new("TEST".to_string(), "default".to_string(), GameMode::Attrition),
    };
    assert!(contains_response_of_type(&responses, &joined_variant));

    // a second player fills the two-seat lobby
    let _ = handle_client_join(
        &mut lobby,
        &mut broadcaster,
        "player2".to_string(),
        profile("player2"),
    );

    // a third join is refused
    let effects = handle_client_join(
        &mut lobby,
        &mut broadcaster,
        "player3".to_string(),
        profile("player3"),
    );
    let responses = messages_of(effects);
    let error_variant = ServerToClient::Error { message: "Lobby is full".to_string() };
    assert!(contains_response_of_type(&responses, &error_variant));
    match &responses[0] {
        ServerToClient::Error { message } => assert_eq!(message, "Lobby is full"),
        _ => panic!("expected the refusal"),
    }
}

#[test]
fn test_client_leave() {
    let mut lobby = Lobby::new("TEST".to_string(), "default".to_string(), GameMode::Attrition);
    let mut broadcaster = LobbyBroadcaster::new();
    let _ = handle_client_join(
        &mut lobby,
        &mut broadcaster,
        "player1".to_string(),
        profile("player1"),
    );
    let (shutdown, effects) = handle_client_leave(&mut lobby, &mut broadcaster, "player1".to_string());
    assert!(shutdown, "Should signal shutdown when last player leaves");
    match &effects[0] {
        Effect::Shutdown { lobby_code } => assert_eq!(lobby_code, "TEST"),
        _ => panic!("Expected LobbyShutdown message"),
    }
}

#[test]
fn test_handle_client_action_keepalive() {
    let mut client = Client::new("c1".to_string(), false);
    let step = handle_client_action(&mut client, ClientToServer::KeepAlive {});
    assert!(matches!(step, ClientStep::Respond(ServerToClient::KeepAliveResponse {})));
}

#[test]
fn test_handle_client_action_version() {
    let mut client = Client::new("c1".to_string(), false);
    let step = handle_client_action(
        &mut client,
        ClientToServer::Version { version: "1.0.0".to_string() },
    );
    assert!(matches!(step, ClientStep::Respond(ServerToClient::VersionOk {})));
}

#[test]
fn test_handle_client_action_set_client_data() {
    let mut client = Client::new("c1".to_string(), false);
    let _ = handle_client_action(
        &mut client,
        ClientToServer::SetClientData {
            username: "Alice".to_string(),
            colour: 42,
            mod_hash: "abc123".to_string(),
        },
    );
    assert_eq!(client.profile.username, "Alice");
    assert_eq!(client.profile.colour, 42);
    assert_eq!(client.profile.mod_hash, "abc123");
}

#[test]
fn test_client_profile_new_default() {
    let client = Client::new("fresh".to_string(), false);
    assert_eq!(client.profile.username, "Guest");
    assert_eq!(client.profile.colour, 0);
    assert_eq!(client.profile.mod_hash, "");
    assert!(!client.has_lobby_channel);
    assert!(!client.has_coordinator_channel);
    assert!(client.current_lobby.is_none());
}

#[test]
fn two_player_attrition_round() {
    // the host and a second player play one round; the lower score loses a
    // life and both learn the outcome
    let mut lobby = Lobby::new("AT".to_string(), "r".to_string(), GameMode::Attrition);
    let mut broadcaster = LobbyBroadcaster::new();
    join_all(&mut lobby, &mut broadcaster, &["H", "C"]);
    let _ = act(&mut lobby, &broadcaster, "C", ClientToServer::SetReady { is_ready: true });
    let _ = act(
        &mut lobby,
        &broadcaster,
        "H",
        ClientToServer::StartGame { seed: "S".to_string(), stake: 1 },
    );
    assert!(lobby.started);
    let starting = lobby.lobby_options.starting_lives;
    let _ = act(
        &mut lobby,
        &broadcaster,
        "H",
        ClientToServer::PlayHand { score: regular(100), hands_left: 0 },
    );
    let effects = act(
        &mut lobby,
        &broadcaster,
        "C",
        ClientToServer::PlayHand { score: regular(50), hands_left: 0 },
    );
    assert_eq!(lives_of(&lobby, "H"), starting);
    assert_eq!(lives_of(&lobby, "C"), starting - 1);
    let to_h = messages_to(&effects, "H");
    let to_c = messages_to(&effects, "C");
    assert!(to_h.iter().any(|m| m.contains("EndPvp") && m.contains("true")));
    assert!(to_c.iter().any(|m| m.contains("EndPvp") && m.contains("false")));
    assert!(to_h.iter().any(|m| m.contains("GameStateUpdate")));
}

#[test]
fn coop_survival_team_loss() {
    // the whole team misses the boss target and everyone pays one life
    let mut lobby = Lobby::new("CO".to_string(), "r".to_string(), GameMode::CoopSurvival);
    let mut broadcaster = LobbyBroadcaster::new();
    join_all(&mut lobby, &mut broadcaster, &["A", "B"]);
    let _ = act(&mut lobby, &broadcaster, "B", ClientToServer::SetReady { is_ready: true });
    let _ = act(
        &mut lobby,
        &broadcaster,
        "A",
        ClientToServer::StartGame { seed: "S".to_string(), stake: 1 },
    );
    let _ = act(
        &mut lobby,
        &broadcaster,
        "A",
        ClientToServer::SetBossBlind {
            key: "boss".to_string(),
            chips: TalismanNumber::Big {
                m: DecNum::Num { mant: 1, exp: 0 },
                e: DecNum::Num { mant: 4, exp: 0 },
            },
        },
    );
    let _ = act(
        &mut lobby,
        &broadcaster,
        "A",
        ClientToServer::PlayHand { score: regular(1000), hands_left: 0 },
    );
    let effects = act(
        &mut lobby,
        &broadcaster,
        "B",
        ClientToServer::PlayHand { score: regular(1000), hands_left: 0 },
    );
    // starting lives in cooperative survival default to two
    assert_eq!(lives_of(&lobby, "A"), 1);
    assert_eq!(lives_of(&lobby, "B"), 1);
    assert!(lobby.started);
    let to_a = messages_to(&effects, "A");
    let to_b = messages_to(&effects, "B");
    assert!(to_a.iter().any(|m| m.contains("EndPvp") && m.contains("false")));
    assert!(to_b.iter().any(|m| m.contains("EndPvp") && m.contains("false")));
}

#[test]
fn host_migration_on_leave() {
    let mut lobby = Lobby::new("HM".to_string(), "r".to_string(), GameMode::CoopSurvival);
    let mut broadcaster = LobbyBroadcaster::new();
    join_all(&mut lobby, &mut broadcaster, &["H", "A", "B"]);
    let (shutdown, effects) = handle_client_leave(&mut lobby, &mut broadcaster, "H".to_string());
    assert!(!shutdown);
    let msgs = messages_of(effects);
    let left_variant = ServerToClient::PlayerLeftLobby {
        player_id: String::new(),
        host_id: String::new(),
    };
    assert!(contains_response_of_type(&msgs, &left_variant));
    let hosts: Vec<_> = lobby
        .players
        .iter()
        .filter(|(_, e)| e.lobby_state.is_host)
        .collect();
    assert_eq!(hosts.len(), 1);
    assert!(hosts[0].1.lobby_state.is_ready);
}

#[test]
fn clash_damage_schedule() {
    // four players; three tie for last at the first stage and take rising
    // damage by rank
    let mut lobby = Lobby::new("CL".to_string(), "r".to_string(), GameMode::Clash);
    let mut broadcaster = LobbyBroadcaster::new();
    join_all(&mut lobby, &mut broadcaster, &["P1", "P2", "P3", "P4"]);
    for p in ["P2", "P3", "P4"] {
        let _ = act(&mut lobby, &broadcaster, p, ClientToServer::SetReady { is_ready: true });
    }
    let _ = act(
        &mut lobby,
        &broadcaster,
        "P1",
        ClientToServer::StartGame { seed: "S".to_string(), stake: 1 },
    );
    let starting = lobby.lobby_options.starting_lives;
    assert_eq!(lobby.stage, 0);
    let _ = act(
        &mut lobby,
        &broadcaster,
        "P1",
        ClientToServer::PlayHand { score: regular(100), hands_left: 0 },
    );
    for p in ["P2", "P3", "P4"] {
        let _ = act(
            &mut lobby,
            &broadcaster,
            p,
            ClientToServer::PlayHand { score: regular(50), hands_left: 0 },
        );
    }
    // base damage at the first stage is one; ranks zero, one and two pay
    // two, three and four lives
    assert_eq!(lives_of(&lobby, "P1"), starting);
    assert_eq!(lives_of(&lobby, "P2"), starting - 2);
    assert_eq!(lives_of(&lobby, "P3"), starting - 3);
    assert_eq!(lives_of(&lobby, "P4"), starting.saturating_sub(4));
    assert_eq!(lobby.stage, 1);
}

#[test]
fn stop_game_resets_everyone() {
    let mut lobby = Lobby::new("SG".to_string(), "r".to_string(), GameMode::Attrition);
    let mut broadcaster = LobbyBroadcaster::new();
    join_all(&mut lobby, &mut broadcaster, &["H", "C"]);
    let _ = act(&mut lobby, &broadcaster, "C", ClientToServer::SetReady { is_ready: true });
    let _ = act(
        &mut lobby,
        &broadcaster,
        "H",
        ClientToServer::StartGame { seed: "S".to_string(), stake: 1 },
    );
    let _ = act(
        &mut lobby,
        &broadcaster,
        "H",
        ClientToServer::PlayHand { score: regular(7), hands_left: 2 },
    );
    let _ = act(&mut lobby, &broadcaster, "C", ClientToServer::StopGame {});
    assert!(!lobby.started);
    assert_eq!(lobby.stage, 0);
    assert_eq!(lobby.lobby_options.custom_seed, "random");
    for (_, entry) in &lobby.players {
        assert!(!entry.lobby_state.in_game);
        assert_eq!(entry.game_state.lives, lobby.lobby_options.starting_lives);
        match &entry.game_state.score {
            TalismanNumber::Regular(DecNum::Num { mant, exp }) => {
                assert_eq!(*mant, 0);
                assert_eq!(*exp, 0);
            },
            _ => panic!("expected a zero score"),
        }
    }
}

#[test]
fn survival_sole_survivor() {
    let mut lobby = Lobby::new("SV".to_string(), "r".to_string(), GameMode::Survival);
    let mut broadcaster = LobbyBroadcaster::new();
    join_all(&mut lobby, &mut broadcaster, &["A", "B"]);
    let _ = act(&mut lobby, &broadcaster, "B", ClientToServer::SetReady { is_ready: true });
    let _ = act(
        &mut lobby,
        &broadcaster,
        "A",
        ClientToServer::StartGame { seed: "S".to_string(), stake: 1 },
    );
    // B runs out of lives through repeated failed timers (survival's options
    // do not cost lives on round loss, so use the timer path)
    for _ in 0..8 {
        let _ = act(&mut lobby, &broadcaster, "B", ClientToServer::FailTimer {});
    }
    assert_eq!(lives_of(&lobby, "B"), 0);
    // A reports the top blind and takes the game
    let effects = act(&mut lobby, &broadcaster, "A", ClientToServer::SetFurthestBlind { blind: 5 });
    let to_a = messages_to(&effects, "A");
    let to_b = messages_to(&effects, "B");
    assert!(to_a.iter().any(|m| m.contains("WinGame")));
    assert!(to_b.iter().any(|m| m.contains("LoseGame")));
    assert!(!lobby.started);
}

#[test]
fn join_after_start_is_refused() {
    let mut lobby = Lobby::new("JS".to_string(), "r".to_string(), GameMode::CoopSurvival);
    let mut broadcaster = LobbyBroadcaster::new();
    join_all(&mut lobby, &mut broadcaster, &["A", "B"]);
    let _ = act(&mut lobby, &broadcaster, "B", ClientToServer::SetReady { is_ready: true });
    let _ = act(
        &mut lobby,
        &broadcaster,
        "A",
        ClientToServer::StartGame { seed: "S".to_string(), stake: 1 },
    );
    let effects = handle_client_join(&mut lobby, &mut broadcaster, "L".to_string(), profile("L"));
    let msgs = messages_of(effects);
    match &msgs[0] {
        ServerToClient::Error { message } => assert_eq!(message, "Lobby is already started"),
        _ => panic!("expected the refusal"),
    }
}

#[test]
fn pass_through_actions_relay() {
    let mut lobby = Lobby::new("PT".to_string(), "r".to_string(), GameMode::Attrition);
    let mut broadcaster = LobbyBroadcaster::new();
    join_all(&mut lobby, &mut broadcaster, &["A", "B"]);
    let effects = act(
        &mut lobby,
        &broadcaster,
        "A",
        ClientToServer::SendPhantom { key: "k1".to_string() },
    );
    assert_eq!(effects.len(), 1);
    match &effects[0] {
        Effect::Send { to, msg } => {
            assert_eq!(to.len(), 1);
            assert_eq!(to[0], "B");
            assert!(matches!(msg, ServerToClient::SendPhantom { .. }));
        },
        _ => panic!("expected a relay"),
    }
    let effects = act(
        &mut lobby,
        &broadcaster,
        "A",
        ClientToServer::SendMoney { player_id: "B".to_string() },
    );
    match &effects[0] {
        Effect::Send { to, msg } => {
            assert_eq!(to, &vec!["B".to_string()]);
            assert!(matches!(msg, ServerToClient::ReceivedMoney {}));
        },
        _ => panic!("expected a unicast"),
    }
}

#[test]
fn round_evaluation_is_idempotent() {
    // once a round has been judged, the hand budgets are restored, so a
    // second evaluation before anyone plays changes nothing
    let mut lobby = Lobby::new("ID".to_string(), "r".to_string(), GameMode::Attrition);
    let mut broadcaster = LobbyBroadcaster::new();
    join_all(&mut lobby, &mut broadcaster, &["H", "C"]);
    let _ = act(&mut lobby, &broadcaster, "C", ClientToServer::SetReady { is_ready: true });
    let _ = act(
        &mut lobby,
        &broadcaster,
        "H",
        ClientToServer::StartGame { seed: "S".to_string(), stake: 1 },
    );
    let _ = act(
        &mut lobby,
        &broadcaster,
        "H",
        ClientToServer::PlayHand { score: regular(100), hands_left: 0 },
    );
    let _ = act(
        &mut lobby,
        &broadcaster,
        "C",
        ClientToServer::PlayHand { score: regular(50), hands_left: 0 },
    );
    let lives_h = lives_of(&lobby, "H");
    let lives_c = lives_of(&lobby, "C");
    let report = lobby.evaluate_online_round(&broadcaster);
    assert!(!report.evaluated);
    assert!(report.effects.is_empty());
    assert_eq!(lives_of(&lobby, "H"), lives_h);
    assert_eq!(lives_of(&lobby, "C"), lives_c);
}

#[test]
fn lives_stay_within_starting_lives() {
    // repeated losses saturate at zero and never climb back over the cap
    let mut lobby = Lobby::new("LV".to_string(), "r".to_string(), GameMode::Attrition);
    let mut broadcaster = LobbyBroadcaster::new();
    join_all(&mut lobby, &mut broadcaster, &["H", "C"]);
    let _ = act(&mut lobby, &broadcaster, "C", ClientToServer::SetReady { is_ready: true });
    let _ = act(
        &mut lobby,
        &broadcaster,
        "H",
        ClientToServer::StartGame { seed: "S".to_string(), stake: 1 },
    );
    let starting = lobby.lobby_options.starting_lives;
    for _ in 0..10 {
        let _ = act(&mut lobby, &broadcaster, "C", ClientToServer::FailTimer {});
        for (_, entry) in &lobby.players {
            assert!(entry.game_state.lives <= starting);
        }
    }
    assert_eq!(lives_of(&lobby, "C"), 0);
}
