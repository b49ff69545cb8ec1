//! The lobby's action dispatch: every action a seated client can send, and
//! what it does to the lobby and to the outbound queues.

use crate::game_mode::GameMode;
use crate::lobby::broadcaster::{is_broadcast, is_broadcast_except, is_unicast, LobbyBroadcaster};
use crate::lobby::game_state::EntryV;
use crate::lobby::lobby::{
    after_loss, after_mark, entry_with_ready, evaluation_post, go_losers, go_winners, ids_views,
    lives_bounded, lobby_wf, ready_set, someone_dead, spec_all_in_game_ready, Lobby, LobbyV,
};
use crate::messages::{ClientToServer, Effect, ServerToClient};
use crate::talisman_number::tn_wf;
use vstd::prelude::*;

verus! {

/// The action handlers, grouped as the lobby's dispatch table.
pub struct LobbyHandlers;

/// Scores carried by an action are well-formed decimals.
pub open spec fn action_wf(action: ClientToServer) -> bool {
    match action {
        ClientToServer::PlayHand { score, hands_left } => tn_wf(score@),
        ClientToServer::SetBossBlind { key, chips } => tn_wf(chips@),
        _ => true,
    }
}

impl LobbyHandlers {
    /// Dispatch one forwarded action from a seated client: mutate the lobby
    /// under its invariant and hand back the deliveries owed. Host-only
    /// actions from non-hosts are silently ignored; pass-through actions
    /// relay their payload without touching state.
    #[verifier::rlimit(100)]
    #[verifier::spinoff_prover]
    pub fn handle_player_action(
        lobby: &mut Lobby,
        broadcaster: &LobbyBroadcaster,
        player_id: String,
        action: ClientToServer,
    ) -> (effects: Vec<Effect>)
        requires
            lobby_wf(old(lobby)@),
            broadcaster.wf(),
            old(lobby)@.players.len() <= 255,
            action_wf(action),
        ensures
            lobby_wf(final(lobby)@),
            final(lobby)@.code == old(lobby)@.code,
            final(lobby)@.max_players == old(lobby)@.max_players,
            final(lobby)@.players.len() <= 255,
            (action matches ClientToServer::StopGame { .. } ==> {
                &&& !final(lobby)@.started
                &&& final(lobby)@.stage == 0
                &&& final(lobby)@.boss_chips == crate::talisman_number::TnView::Regular(
                    crate::decnum::DecNum::Num { mant: 0, exp: 0 },
                )
                &&& final(lobby)@.lobby_options.custom_seed =~= "random"@
                &&& effects@.len() == 3
                &&& is_broadcast(effects@[0], broadcaster.view_members())
                &&& (effects@[0]->Send_msg matches ServerToClient::GameStopped { .. })
                &&& is_broadcast(effects@[1], broadcaster.view_members())
                &&& (effects@[1]->Send_msg matches ServerToClient::LobbyReady { .. })
                &&& crate::lobby::lobby::ready_payload(
                    effects@[1]->Send_msg,
                    final(lobby)@.players,
                )
                &&& is_broadcast(effects@[2], broadcaster.view_members())
                &&& (effects@[2]->Send_msg matches ServerToClient::InGameStatuses { .. })
                &&& crate::lobby::lobby::statuses_payload(
                    effects@[2]->Send_msg,
                    final(lobby)@.players,
                )
                &&& forall|k: int|
                    0 <= k < final(lobby)@.players.len() ==> {
                        let e = (#[trigger] final(lobby)@.players[k]).1;
                        &&& !e.lobby_state.in_game
                        &&& e.game_state.lives == old(lobby)@.lobby_options.starting_lives
                        &&& e.game_state.score == crate::talisman_number::TnView::Regular(
                            crate::decnum::DecNum::Num { mant: 0, exp: 0 },
                        )
                        &&& e.lobby_state.is_ready == e.lobby_state.is_host
                    }
            }),
            (action matches ClientToServer::StartGame { seed, stake } ==> {
                if exists|i: int|
                    0 <= i < old(lobby)@.players.len() && (#[trigger] old(lobby)@.players[i]).0
                        == player_id@ && old(lobby)@.players[i].1.lobby_state.is_host {
                    &&& final(lobby)@.started
                    &&& forall|k: int|
                        0 <= k < final(lobby)@.players.len() ==> {
                            let e = (#[trigger] final(lobby)@.players[k]).1;
                            &&& e.lobby_state.in_game
                            &&& e.game_state.lives == old(lobby)@.lobby_options.starting_lives
                        }
                    &&& effects@.len() == 4
                    &&& is_broadcast(effects@[0], broadcaster.view_members())
                    &&& (effects@[0]->Send_msg matches ServerToClient::ResetPlayers { players: ps }
                        && ps@.map_values(|e: crate::lobby::game_state::ClientLobbyEntry| e@)
                        == final(lobby)@.players.map_values(|p: (Seq<char>, EntryV)| p.1))
                    &&& is_broadcast(effects@[1], broadcaster.view_members())
                    &&& (effects@[1]->Send_msg matches ServerToClient::GameStarted {
                        seed: s2,
                        stake: st2,
                    } && s2@ == final(lobby)@.lobby_options.custom_seed && st2 == stake)
                    &&& is_broadcast(effects@[2], broadcaster.view_members())
                    &&& (effects@[2]->Send_msg matches ServerToClient::LobbyReady { .. })
                    &&& crate::lobby::lobby::ready_payload(
                        effects@[2]->Send_msg,
                        final(lobby)@.players,
                    )
                    &&& is_broadcast(effects@[3], broadcaster.view_members())
                    &&& (effects@[3]->Send_msg matches ServerToClient::InGameStatuses { .. })
                    &&& crate::lobby::lobby::statuses_payload(
                        effects@[3]->Send_msg,
                        final(lobby)@.players,
                    )
                } else {
                    final(lobby)@ == old(lobby)@ && effects@.len() == 0
                }
            }),
            (action matches ClientToServer::SetBossBlind { key, chips } ==> {
                if exists|i: int|
                    0 <= i < old(lobby)@.players.len() && (#[trigger] old(lobby)@.players[i]).0
                        == player_id@ && old(lobby)@.players[i].1.lobby_state.is_host {
                    final(lobby)@ == (LobbyV { boss_chips: chips@, ..old(lobby)@ })
                        && effects@.len() == 1 && is_broadcast_except(
                        effects@[0],
                        broadcaster.view_members(),
                        player_id@,
                    ) && (effects@[0]->Send_msg matches ServerToClient::SetBossBlind { key: k2 }
                        && k2@ == key@)
                } else {
                    final(lobby)@ == old(lobby)@ && effects@.len() == 0
                }
            }),
            (action matches ClientToServer::UpdateLobbyOptions { options } ==> {
                if exists|i: int|
                    0 <= i < old(lobby)@.players.len() && (#[trigger] old(lobby)@.players[i]).0
                        == player_id@ && old(lobby)@.players[i].1.lobby_state.is_host {
                    &&& final(lobby)@ == (LobbyV {
                        lobby_options: options@,
                        players: old(lobby)@.players.map_values(
                            |p: (Seq<char>, EntryV)| (
                                p.0,
                                entry_with_ready(p.1, p.1.lobby_state.is_host),
                            ),
                        ),
                        ..old(lobby)@
                    })
                    &&& effects@.len() == 2
                    &&& is_broadcast_except(effects@[0], broadcaster.view_members(), player_id@)
                    &&& (effects@[0]->Send_msg matches ServerToClient::LobbyReady { .. })
                    &&& crate::lobby::lobby::ready_payload(
                        effects@[0]->Send_msg,
                        final(lobby)@.players,
                    )
                    &&& is_broadcast_except(effects@[1], broadcaster.view_members(), player_id@)
                    &&& (effects@[1]->Send_msg matches ServerToClient::UpdateLobbyOptions {
                        options: o2,
                    } && o2@ == options@)
                } else {
                    final(lobby)@ == old(lobby)@ && effects@.len() == 0
                }
            }),
            (action matches ClientToServer::SendPhantom { key } ==> final(lobby)@ == old(lobby)@
                && effects@.len() == 1 && is_broadcast_except(
                effects@[0],
                broadcaster.view_members(),
                player_id@,
            ) && (effects@[0]->Send_msg matches ServerToClient::SendPhantom { key: k2 } && k2@
                == key@)),
            (action matches ClientToServer::RemovePhantom { key } ==> final(lobby)@ == old(lobby)@
                && effects@.len() == 1 && is_broadcast_except(
                effects@[0],
                broadcaster.view_members(),
                player_id@,
            ) && (effects@[0]->Send_msg matches ServerToClient::RemovePhantom { key: k2 } && k2@
                == key@)),
            (action matches ClientToServer::Asteroid { target } ==> final(lobby)@ == old(lobby)@
                && effects@.len() == 1 && is_unicast(
                effects@[0],
                broadcaster.view_members(),
                target@,
            ) && (effects@[0]->Send_msg matches ServerToClient::Asteroid { sender } && sender@
                == player_id@)),
            (action matches ClientToServer::LetsGoGamblingNemesis { .. } ==> final(lobby)@ == old(
                lobby,
            )@ && effects@.len() == 1 && is_broadcast_except(
                effects@[0],
                broadcaster.view_members(),
                player_id@,
            ) && (effects@[0]->Send_msg matches ServerToClient::LetsGoGamblingNemesis { .. })),
            (action matches ClientToServer::EatPizza { discards } ==> final(lobby)@ == old(lobby)@
                && effects@.len() == 1 && is_broadcast_except(
                effects@[0],
                broadcaster.view_members(),
                player_id@,
            ) && (effects@[0]->Send_msg matches ServerToClient::EatPizza { discards: d2 } && d2
                == discards)),
            (action matches ClientToServer::SoldJoker { .. } ==> final(lobby)@ == old(lobby)@
                && effects@.len() == 1 && is_broadcast_except(
                effects@[0],
                broadcaster.view_members(),
                player_id@,
            ) && (effects@[0]->Send_msg matches ServerToClient::SoldJoker { .. })),
            (action matches ClientToServer::Magnet { .. } ==> final(lobby)@ == old(lobby)@
                && effects@.len() == 1 && is_broadcast_except(
                effects@[0],
                broadcaster.view_members(),
                player_id@,
            ) && (effects@[0]->Send_msg matches ServerToClient::Magnet { .. })),
            (action matches ClientToServer::MagnetResponse { key } ==> final(lobby)@ == old(
                lobby,
            )@ && effects@.len() == 1 && is_broadcast_except(
                effects@[0],
                broadcaster.view_members(),
                player_id@,
            ) && (effects@[0]->Send_msg matches ServerToClient::MagnetResponse { key: k2 } && k2@
                == key@)),
            (action matches ClientToServer::StartAnteTimer { time } ==> final(lobby)@ == old(
                lobby,
            )@ && effects@.len() == 1 && is_broadcast_except(
                effects@[0],
                broadcaster.view_members(),
                player_id@,
            ) && (effects@[0]->Send_msg matches ServerToClient::StartAnteTimer { time: t2 } && t2
                == time)),
            (action matches ClientToServer::PauseAnteTimer { time } ==> final(lobby)@ == old(
                lobby,
            )@ && effects@.len() == 1 && is_broadcast_except(
                effects@[0],
                broadcaster.view_members(),
                player_id@,
            ) && (effects@[0]->Send_msg matches ServerToClient::PauseAnteTimer { time: t2 } && t2
                == time)),
            (action matches ClientToServer::SpentLastShop { amount } ==> final(lobby)@ == old(
                lobby,
            )@ && effects@.len() == 1 && is_broadcast(effects@[0], broadcaster.view_members()) && (
            effects@[0]->Send_msg matches ServerToClient::SpentLastShop { player_id: p2, amount: a2 }
                && p2@ == player_id@ && a2 == amount)),
            (action matches ClientToServer::SendMoney { player_id: target } ==> final(lobby)@
                == old(lobby)@ && effects@.len() == 1 && is_unicast(
                effects@[0],
                broadcaster.view_members(),
                target@,
            ) && (effects@[0]->Send_msg matches ServerToClient::ReceivedMoney { .. })),
            (action matches ClientToServer::SendPlayerDeck { deck } ==> final(lobby)@ == old(
                lobby,
            )@ && effects@.len() == 1 && is_broadcast_except(
                effects@[0],
                broadcaster.view_members(),
                player_id@,
            ) && (effects@[0]->Send_msg
                matches ServerToClient::ReceivePlayerDeck { player_id: p2, deck: d2 } && p2@
                == player_id@ && d2@ == deck@)),
            (action matches ClientToServer::SendPlayerJokers { jokers } ==> final(lobby)@ == old(
                lobby,
            )@ && effects@.len() == 1 && is_broadcast_except(
                effects@[0],
                broadcaster.view_members(),
                player_id@,
            ) && (effects@[0]->Send_msg
                matches ServerToClient::ReceivePlayerJokers { player_id: p2, jokers: j2 } && p2@
                == player_id@ && j2@ == jokers@)),
            (action matches ClientToServer::Discard { .. } ==> final(lobby)@ == old(lobby)@
                && effects@.len() == 0),
            (action matches ClientToServer::Skip { blind } ==> update_post(
                old(lobby)@,
                final(lobby)@,
                broadcaster.view_members(),
                player_id@,
                SeatPatch::Skip { blind },
                effects@,
            )),
            (action matches ClientToServer::SetLocation { location } ==> update_post(
                old(lobby)@,
                final(lobby)@,
                broadcaster.view_members(),
                player_id@,
                SeatPatch::Location { location },
                effects@,
            )),
            (action matches ClientToServer::UpdateHandsAndDiscards { hands_max, discards_max }
                ==> update_post(
                old(lobby)@,
                final(lobby)@,
                broadcaster.view_members(),
                player_id@,
                SeatPatch::Budgets { hands_max, discards_max },
                effects@,
            )),
            (action matches ClientToServer::FailRound { .. } ==> fail_post(
                old(lobby)@,
                final(lobby)@,
                broadcaster.view_members(),
                player_id@,
                false,
                effects@,
            )),
            (action matches ClientToServer::FailTimer { .. } ==> fail_post(
                old(lobby)@,
                final(lobby)@,
                broadcaster.view_members(),
                player_id@,
                true,
                effects@,
            )),
            (action matches ClientToServer::SetFurthestBlind { blind } ==> {
                let mid = patched_lobby(old(lobby)@, player_id@, SeatPatch::Blind { blind });
                &&& (old(lobby)@.lobby_options.gamemode != GameMode::Survival ==> update_post(
                    old(lobby)@,
                    final(lobby)@,
                    broadcaster.view_members(),
                    player_id@,
                    SeatPatch::Blind { blind },
                    effects@,
                ))
                &&& (old(lobby)@.lobby_options.gamemode == GameMode::Survival ==> {
                    if crate::lobby::lobby::seated(old(lobby)@.players, player_id@) {
                        &&& effects@.len() >= 1
                        &&& is_broadcast(effects@[0], broadcaster.view_members())
                        &&& (effects@[0]->Send_msg matches ServerToClient::GameStateUpdate {
                            player_id: p2,
                            game_state: g2,
                        } && p2@ == player_id@)
                        &&& survival_check_post(
                            mid,
                            final(lobby)@,
                            broadcaster.view_members(),
                            player_id@,
                            effects@.skip(1),
                        )
                    } else {
                        survival_check_post(
                            old(lobby)@,
                            final(lobby)@,
                            broadcaster.view_members(),
                            player_id@,
                            effects@,
                        )
                    }
                })
            }),
            (action matches ClientToServer::SetReady { is_ready } ==> {
                let mid = ready_set(old(lobby)@, player_id@, is_ready);
                &&& (!old(lobby)@.started ==> final(lobby)@ == mid && effects@.len() == 1
                    && is_broadcast_except(effects@[0], broadcaster.view_members(), player_id@)
                    && (effects@[0]->Send_msg matches ServerToClient::LobbyReady { .. })
                    && crate::lobby::lobby::ready_payload(
                    effects@[0]->Send_msg,
                    final(lobby)@.players,
                ))
                &&& (old(lobby)@.started && spec_all_in_game_ready(mid.players) ==> final(lobby)@
                    == (LobbyV {
                    players: mid.players.map_values(
                        |p: (Seq<char>, EntryV)| (
                            p.0,
                            crate::lobby::lobby::entry_scores_reset(entry_with_ready(p.1, false)),
                        ),
                    ),
                    ..mid
                }) && effects@.len() == 2 && effects@[0] is Send && (effects@[0]->Send_msg
                    matches ServerToClient::StartBlind { .. }) && (forall|x: Seq<char>|
                    #[trigger] crate::lobby::broadcaster::ids_view(
                        effects@[0]->Send_to@,
                    ).contains(x) <==> (broadcaster.view_members().contains(x)
                        && !crate::lobby::lobby::ids_where(
                        final(lobby)@.players,
                        (|p: (Seq<char>, crate::lobby::game_state::EntryV)|
                            !p.1.lobby_state.in_game),
                    ).contains(x))) && is_broadcast(
                    effects@[1],
                    broadcaster.view_members(),
                ) && (effects@[1]->Send_msg matches ServerToClient::LobbyReady { .. })
                    && crate::lobby::lobby::ready_payload(
                    effects@[1]->Send_msg,
                    final(lobby)@.players,
                ))
                &&& (old(lobby)@.started && !spec_all_in_game_ready(mid.players) ==> final(lobby)@
                    == mid && effects@.len() == 0)
            }),
            (action matches ClientToServer::PlayHand { score, hands_left } ==> {
                if crate::lobby::lobby::seated(old(lobby)@.players, player_id@) {
                    let i = crate::lobby::lobby::seat_index(old(lobby)@.players, player_id@);
                    let midp = played(old(lobby)@, player_id@, score@, hands_left);
                    &&& effects@.len() >= 1
                    &&& is_broadcast_except(effects@[0], broadcaster.view_members(), player_id@)
                    &&& (effects@[0]->Send_msg matches ServerToClient::GameStateUpdate {
                        player_id: p2,
                        game_state: g2,
                    } && p2@ == player_id@ && g2@ == midp.players[i].1.game_state)
                    &&& exists|
                        ev: bool,
                        en: bool,
                        w: Seq<Seq<char>>,
                        lo: Seq<Seq<char>>,
                        fw2: Seq<Seq<char>>,
                        fl2: Seq<Seq<char>>,
                    |
                        #[trigger] evaluation_post(
                            midp,
                            final(lobby)@,
                            broadcaster.view_members(),
                            ev,
                            en,
                            w,
                            lo,
                            fw2,
                            fl2,
                            effects@.skip(1),
                        )
                } else {
                    final(lobby)@ == old(lobby)@ && effects@.len() == 0
                }
            }),
    {
        match action {
            ClientToServer::PlayHand { score, hands_left } => {
                let mut effects: Vec<Effect> = Vec::new();
                match lobby.find_player(player_id.as_str()) {
                    Some(i) => {
                        proof {
                            assert(crate::lobby::game_state::game_state_wf(
                                lobby@.players[i as int].1.game_state,
                            ));
                            crate::lobby::lobby::lemma_seat_index(old(lobby)@.players, i as int);
                        }
                        let added = match lobby.players[i].1.game_state.score.add(&score) {
                            Ok(v) => v,
                            Err(_) => score.duplicate(),
                        };
                        lobby.players[i].1.game_state.score = added;
                        lobby.players[i].1.game_state.hands_left = hands_left;
                        proof {
                            let b = old(lobby)@.players;
                            assert(lobby@.players =~= b.update(
                                i as int,
                                (b[i as int].0, lobby@.players[i as int].1),
                            ));
                            crate::lobby::lobby::lemma_host_count_update(
                                b,
                                i as int,
                                lobby@.players[i as int],
                            );
                            assert(lobby@ == played(old(lobby)@, player_id@, score@, hands_left));
                        }
                        let ghost midp = lobby@;
                        let id2 = player_id.clone();
                        let gs = lobby.players[i].1.game_state.duplicate();
                        effects.push(
                            broadcaster.broadcast_except(
                                player_id.as_str(),
                                ServerToClient::GameStateUpdate { player_id: id2, game_state: gs },
                            ),
                        );
                        let ghost head = effects@;
                        let report = lobby.evaluate_online_round(broadcaster);
                        let mut more = report.effects;
                        let ghost tail = more@;
                        effects.append(&mut more);
                        proof {
                            assert(effects@ =~= head + tail);
                            assert(effects@.skip(1) =~= tail);
                            assert(evaluation_post(
                                midp,
                                lobby@,
                                broadcaster.view_members(),
                                report.evaluated,
                                report.ended,
                                ids_views(report.winners@),
                                ids_views(report.losers@),
                                ids_views(report.final_winners@),
                                ids_views(report.final_losers@),
                                tail,
                            ));
                        }
                    },
                    None => {
                        proof {
                            if crate::lobby::lobby::seated(old(lobby)@.players, player_id@) {
                                let k = choose|k: int|
                                    0 <= k < old(lobby)@.players.len() && (#[trigger] old(
                                        lobby,
                                    )@.players[k]).0 == player_id@;
                            }
                        }
                    },
                }
                effects
            },
            ClientToServer::SetReady { is_ready } => {
                let mut effects: Vec<Effect> = Vec::new();
                lobby.set_player_ready(player_id.as_str(), is_ready);
                proof {
                    assert(lobby@ == ready_set(old(lobby)@, player_id@, is_ready)) by {
                        if crate::lobby::lobby::seated(old(lobby)@.players, player_id@) {
                            let k = choose|k: int|
                                0 <= k < old(lobby)@.players.len() && (#[trigger] old(
                                    lobby,
                                )@.players[k]).0 == player_id@;
                            let j = choose|j: int|
                                {
                                    &&& 0 <= j < old(lobby)@.players.len()
                                    &&& (#[trigger] old(lobby)@.players[j]).0 == player_id@
                                    &&& lobby@ == (LobbyV {
                                        players: old(lobby)@.players.update(
                                            j,
                                            (
                                                old(lobby)@.players[j].0,
                                                entry_with_ready(
                                                    old(lobby)@.players[j].1,
                                                    is_ready,
                                                ),
                                            ),
                                        ),
                                        ..old(lobby)@
                                    })
                                };
                            crate::lobby::lobby::lemma_seat_index(old(lobby)@.players, j);
                        }
                    }
                }
                if lobby.started {
                    if lobby.all_in_game_ready() {
                        let mut more = lobby.start_online_blind(broadcaster);
                        let ghost tail = more@;
                        effects.append(&mut more);
                        proof {
                            assert(effects@ =~= tail);
                        }
                    }
                } else {
                    let ready = lobby.collect_ready_states();
                    effects.push(
                        broadcaster.broadcast_except(
                            player_id.as_str(),
                            ServerToClient::LobbyReady { ready_states: ready },
                        ),
                    );
                }
                effects
            },
            ClientToServer::UpdateLobbyOptions { options } => {
                let mut effects: Vec<Effect> = Vec::new();
                if lobby.is_player_host(player_id.as_str()) {
                    lobby.lobby_options = options;
                    let ghost withopts = lobby@;
                    lobby.reset_ready_states_to_host_only();
                    proof {
                        assert(lobby@.players =~= old(lobby)@.players.map_values(
                            |p: (Seq<char>, EntryV)| (
                                p.0,
                                entry_with_ready(p.1, p.1.lobby_state.is_host),
                            ),
                        ));
                    }
                    let ready = lobby.collect_ready_states();
                    effects.push(
                        broadcaster.broadcast_except(
                            player_id.as_str(),
                            ServerToClient::LobbyReady { ready_states: ready },
                        ),
                    );
                    let copy = lobby.lobby_options.duplicate();
                    effects.push(
                        broadcaster.broadcast_except(
                            player_id.as_str(),
                            ServerToClient::UpdateLobbyOptions { options: copy },
                        ),
                    );
                }
                effects
            },
            ClientToServer::StartGame { seed, stake } => {
                let mut effects: Vec<Effect> = Vec::new();
                if lobby.is_player_host(player_id.as_str()) {
                    lobby.start_game();
                    let players = lobby.players_snapshot();
                    effects.push(broadcaster.broadcast(ServerToClient::ResetPlayers { players }));
                    let seed_out = lobby.lobby_options.custom_seed.clone();
                    effects.push(
                        broadcaster.broadcast(ServerToClient::GameStarted { seed: seed_out, stake }),
                    );
                    let ready = lobby.collect_ready_states();
                    effects.push(
                        broadcaster.broadcast(ServerToClient::LobbyReady { ready_states: ready }),
                    );
                    let statuses = lobby.get_in_game_statuses();
                    effects.push(broadcaster.broadcast(ServerToClient::InGameStatuses { statuses }));
                }
                effects
            },
            ClientToServer::StopGame {} => {
                let mut effects: Vec<Effect> = Vec::new();
                lobby.stop_game();
                effects.push(broadcaster.broadcast(ServerToClient::GameStopped {}));
                lobby.reset_ready_states_to_host_only();
                let ready = lobby.collect_ready_states();
                effects.push(
                    broadcaster.broadcast(ServerToClient::LobbyReady { ready_states: ready }),
                );
                let statuses = lobby.get_in_game_statuses();
                effects.push(broadcaster.broadcast(ServerToClient::InGameStatuses { statuses }));
                effects
            },
            ClientToServer::SetBossBlind { key, chips } => {
                let mut effects: Vec<Effect> = Vec::new();
                if lobby.is_player_host(player_id.as_str()) {
                    lobby.boss_chips = chips;
                    effects.push(
                        broadcaster.broadcast_except(
                            player_id.as_str(),
                            ServerToClient::SetBossBlind { key },
                        ),
                    );
                }
                effects
            },
            ClientToServer::Skip { blind } => {
                Self::update_and_broadcast_all(lobby, broadcaster, player_id, SeatPatch::Skip {
                    blind,
                })
            },
            ClientToServer::SetLocation { location } => {
                Self::update_and_broadcast_all(
                    lobby,
                    broadcaster,
                    player_id,
                    SeatPatch::Location { location },
                )
            },
            ClientToServer::UpdateHandsAndDiscards { hands_max, discards_max } => {
                Self::update_and_broadcast_all(
                    lobby,
                    broadcaster,
                    player_id,
                    SeatPatch::Budgets { hands_max, discards_max },
                )
            },
            ClientToServer::SetFurthestBlind { blind } => {
                let mut effects = Self::update_and_broadcast_all(
                    lobby,
                    broadcaster,
                    player_id.as_str().to_owned(),
                    SeatPatch::Blind { blind },
                );
                proof {
                    reveal(update_post);
                    assert(lobby@ == patched_lobby(
                        old(lobby)@,
                        player_id@,
                        SeatPatch::Blind { blind },
                    )) by {
                        if crate::lobby::lobby::seated(old(lobby)@.players, player_id@) {
                            let j = choose|j: int|
                                {
                                    &&& 0 <= j < old(lobby)@.players.len()
                                    &&& (#[trigger] old(lobby)@.players[j]).0 == player_id@
                                    &&& lobby@.players == old(lobby)@.players.update(
                                        j,
                                        (
                                            old(lobby)@.players[j].0,
                                            EntryV {
                                                game_state: patched(
                                                    old(lobby)@.players[j].1.game_state,
                                                    SeatPatch::Blind { blind },
                                                ),
                                                ..old(lobby)@.players[j].1
                                            },
                                        ),
                                    )
                                };
                            crate::lobby::lobby::lemma_seat_index(old(lobby)@.players, j);
                            assert(lobby@ == (LobbyV { players: lobby@.players, ..old(lobby)@ }));
                        }
                    }
                }
                if matches!(lobby.lobby_options.gamemode, GameMode::Survival) {
                    let ghost head = effects@;
                    let mut more = Self::survival_blind_check(
                        lobby,
                        broadcaster,
                        player_id.as_str(),
                    );
                    let ghost tail = more@;
                    effects.append(&mut more);
                    proof {
                        assert(effects@ =~= head + tail);
                        if crate::lobby::lobby::seated(old(lobby)@.players, player_id@) {
                            assert(head.len() == 1);
                            assert(effects@.skip(1) =~= tail);
                        } else {
                            assert(head.len() == 0);
                            assert(effects@ =~= tail);
                        }
                    }
                }
                effects
            },
            ClientToServer::FailRound {} => {
                Self::fail_with_life_loss(lobby, broadcaster, player_id, false)
            },
            ClientToServer::FailTimer {} => {
                Self::fail_with_life_loss(lobby, broadcaster, player_id, true)
            },
            ClientToServer::SendPlayerDeck { deck } => {
                let mut effects: Vec<Effect> = Vec::new();
                let id2 = player_id.clone();
                effects.push(
                    broadcaster.broadcast_except(
                        player_id.as_str(),
                        ServerToClient::ReceivePlayerDeck { player_id: id2, deck },
                    ),
                );
                effects
            },
            ClientToServer::SendPlayerJokers { jokers } => {
                let mut effects: Vec<Effect> = Vec::new();
                let id2 = player_id.clone();
                effects.push(
                    broadcaster.broadcast_except(
                        player_id.as_str(),
                        ServerToClient::ReceivePlayerJokers { player_id: id2, jokers },
                    ),
                );
                effects
            },
            ClientToServer::SendPhantom { key } => {
                let mut effects: Vec<Effect> = Vec::new();
                effects.push(
                    broadcaster.broadcast_except(
                        player_id.as_str(),
                        ServerToClient::SendPhantom { key },
                    ),
                );
                effects
            },
            ClientToServer::RemovePhantom { key } => {
                let mut effects: Vec<Effect> = Vec::new();
                effects.push(
                    broadcaster.broadcast_except(
                        player_id.as_str(),
                        ServerToClient::RemovePhantom { key },
                    ),
                );
                effects
            },
            ClientToServer::Asteroid { target } => {
                let mut effects: Vec<Effect> = Vec::new();
                let sender = player_id.clone();
                effects.push(
                    broadcaster.send_to(target.as_str(), ServerToClient::Asteroid { sender }),
                );
                effects
            },
            ClientToServer::LetsGoGamblingNemesis {} => {
                let mut effects: Vec<Effect> = Vec::new();
                effects.push(
                    broadcaster.broadcast_except(
                        player_id.as_str(),
                        ServerToClient::LetsGoGamblingNemesis {},
                    ),
                );
                effects
            },
            ClientToServer::EatPizza { discards } => {
                let mut effects: Vec<Effect> = Vec::new();
                effects.push(
                    broadcaster.broadcast_except(
                        player_id.as_str(),
                        ServerToClient::EatPizza { discards },
                    ),
                );
                effects
            },
            ClientToServer::SoldJoker {} => {
                let mut effects: Vec<Effect> = Vec::new();
                effects.push(
                    broadcaster.broadcast_except(player_id.as_str(), ServerToClient::SoldJoker {}),
                );
                effects
            },
            ClientToServer::SpentLastShop { amount } => {
                let mut effects: Vec<Effect> = Vec::new();
                let id2 = player_id.clone();
                effects.push(
                    broadcaster.broadcast(
                        ServerToClient::SpentLastShop { player_id: id2, amount },
                    ),
                );
                effects
            },
            ClientToServer::Magnet {} => {
                let mut effects: Vec<Effect> = Vec::new();
                effects.push(
                    broadcaster.broadcast_except(player_id.as_str(), ServerToClient::Magnet {}),
                );
                effects
            },
            ClientToServer::MagnetResponse { key } => {
                let mut effects: Vec<Effect> = Vec::new();
                effects.push(
                    broadcaster.broadcast_except(
                        player_id.as_str(),
                        ServerToClient::MagnetResponse { key },
                    ),
                );
                effects
            },
            ClientToServer::StartAnteTimer { time } => {
                let mut effects: Vec<Effect> = Vec::new();
                effects.push(
                    broadcaster.broadcast_except(
                        player_id.as_str(),
                        ServerToClient::StartAnteTimer { time },
                    ),
                );
                effects
            },
            ClientToServer::PauseAnteTimer { time } => {
                let mut effects: Vec<Effect> = Vec::new();
                effects.push(
                    broadcaster.broadcast_except(
                        player_id.as_str(),
                        ServerToClient::PauseAnteTimer { time },
                    ),
                );
                effects
            },
            ClientToServer::SendMoney { player_id: target } => {
                let mut effects: Vec<Effect> = Vec::new();
                effects.push(broadcaster.send_to(target.as_str(), ServerToClient::ReceivedMoney {}));
                effects
            },
            _ => Vec::new(),
        }
    }

    /// Patch one seat's game state and broadcast the update to everyone.
    fn update_and_broadcast_all(
        lobby: &mut Lobby,
        broadcaster: &LobbyBroadcaster,
        player_id: String,
        patch: SeatPatch,
    ) -> (effects: Vec<Effect>)
        requires
            lobby_wf(old(lobby)@),
            broadcaster.wf(),
        ensures
            lobby_wf(final(lobby)@),
            lives_bounded(old(lobby)@) ==> lives_bounded(final(lobby)@),
            final(lobby)@.code == old(lobby)@.code,
            final(lobby)@.started == old(lobby)@.started,
            final(lobby)@.boss_chips == old(lobby)@.boss_chips,
            final(lobby)@.lobby_options == old(lobby)@.lobby_options,
            final(lobby)@.stage == old(lobby)@.stage,
            final(lobby)@.max_players == old(lobby)@.max_players,
            final(lobby)@.players.len() == old(lobby)@.players.len(),
            update_post(
                old(lobby)@,
                final(lobby)@,
                broadcaster.view_members(),
                player_id@,
                patch,
                effects@,
            ),
    {
        proof {
            reveal(update_post);
        }
        let mut effects: Vec<Effect> = Vec::new();
        match lobby.find_player(player_id.as_str()) {
            Some(i) => {
                match &patch {
                    SeatPatch::Skip { blind } => {
                        let old_skips = lobby.players[i].1.game_state.skips;
                        lobby.players[i].1.game_state.skips = if old_skips < 255 {
                            old_skips + 1
                        } else {
                            255
                        };
                        lobby.players[i].1.game_state.furthest_blind = *blind;
                    },
                    SeatPatch::Location { location } => {
                        lobby.players[i].1.game_state.location = location.clone();
                    },
                    SeatPatch::Budgets { hands_max, discards_max } => {
                        lobby.players[i].1.game_state.hands_max = *hands_max;
                        lobby.players[i].1.game_state.discards_max = *discards_max;
                    },
                    SeatPatch::Blind { blind } => {
                        lobby.players[i].1.game_state.furthest_blind = *blind;
                    },
                }
                proof {
                    let b = old(lobby)@.players;
                    assert(lobby@.players =~= b.update(
                        i as int,
                        (b[i as int].0, lobby@.players[i as int].1),
                    ));
                    crate::lobby::lobby::lemma_host_count_update(
                        b,
                        i as int,
                        lobby@.players[i as int],
                    );
                    assert(lobby@.players[i as int].1.game_state == patched(
                        b[i as int].1.game_state,
                        patch,
                    ));
                }
                let id2 = player_id.clone();
                let gs = lobby.players[i].1.game_state.duplicate();
                effects.push(
                    broadcaster.broadcast(
                        ServerToClient::GameStateUpdate { player_id: id2, game_state: gs },
                    ),
                );
            },
            None => {},
        }
        effects
    }

    /// In survival, a blind update from the last player standing whose blind
    /// matches the lobby maximum ends the game in their favour.
    fn survival_blind_check(
        lobby: &mut Lobby,
        broadcaster: &LobbyBroadcaster,
        player_id: &str,
    ) -> (effects: Vec<Effect>)
        requires
            lobby_wf(old(lobby)@),
            broadcaster.wf(),
        ensures
            lobby_wf(final(lobby)@),
            lives_bounded(old(lobby)@) ==> lives_bounded(final(lobby)@),
            final(lobby)@.code == old(lobby)@.code,
            final(lobby)@.max_players == old(lobby)@.max_players,
            final(lobby)@.players.len() == old(lobby)@.players.len(),
            final(lobby)@.lobby_options == old(lobby)@.lobby_options,
            survival_check_post(
                old(lobby)@,
                final(lobby)@,
                broadcaster.view_members(),
                player_id@,
                effects@,
            ),
    {
        proof {
            reveal(survival_check_post);
        }
        let ghost pre = lobby@;
        let ghost mv = broadcaster.view_members();
        let mut effects: Vec<Effect> = Vec::new();
        if !lobby.all_other_players_dead(player_id) {
            return effects;
        }
        let maxb = lobby.get_max_furthest_blind();
        match lobby.find_player(player_id) {
            Some(i) => {
                proof {
                    crate::lobby::lobby::lemma_seat_index(pre.players, i as int);
                }
                if lobby.players[i].1.game_state.furthest_blind == maxb {
                    let (winners, losers) = lobby.get_survival_winners_losers();
                    let ghost w = ids_views(winners@);
                    let ghost l = ids_views(losers@);
                    let mut k: usize = 0;
                    while k < winners.len()
                        invariant
                            k <= winners@.len(),
                            broadcaster.wf(),
                            mv == broadcaster.view_members(),
                            w == ids_views(winners@),
                            effects@.len() == k,
                            forall|t: int|
                                0 <= t < k ==> is_unicast(#[trigger] effects@[t], mv, w[t]) && (
                                effects@[t]->Send_msg matches ServerToClient::WinGame { .. }),
                        decreases winners@.len() - k,
                    {
                        effects.push(
                            broadcaster.send_to(winners[k].as_str(), ServerToClient::WinGame {}),
                        );
                        k = k + 1;
                    }
                    let ghost n1 = effects@.len();
                    let ghost pre1 = effects@;
                    let mut k2: usize = 0;
                    while k2 < losers.len()
                        invariant
                            k2 <= losers@.len(),
                            broadcaster.wf(),
                            mv == broadcaster.view_members(),
                            l == ids_views(losers@),
                            effects@.len() == n1 + k2,
                            effects@.take(n1 as int) == pre1,
                            forall|t: int|
                                0 <= t < k2 ==> is_unicast(
                                    #[trigger] effects@[n1 + t],
                                    mv,
                                    l[t],
                                ) && (effects@[n1 + t]->Send_msg
                                    matches ServerToClient::LoseGame { .. }),
                        decreases losers@.len() - k2,
                    {
                        effects.push(
                            broadcaster.send_to(losers[k2].as_str(), ServerToClient::LoseGame {}),
                        );
                        proof {
                            assert(effects@.take(n1 as int) =~= pre1);
                        }
                        k2 = k2 + 1;
                    }
                    let ghost outseq = effects@;
                    lobby.started = false;
                    lobby.reset_ready_states_to_host_only();
                    let ready = lobby.collect_ready_states();
                    effects.push(
                        broadcaster.broadcast(ServerToClient::LobbyReady { ready_states: ready }),
                    );
                    let statuses = lobby.get_in_game_statuses();
                    effects.push(
                        broadcaster.broadcast(ServerToClient::InGameStatuses { statuses }),
                    );
                    proof {
                        assert(effects@.take(outseq.len() as int) =~= outseq);
                        assert forall|t: int| 0 <= t < w.len() implies is_unicast(
                            #[trigger] effects@[t],
                            mv,
                            w[t],
                        ) && (effects@[t]->Send_msg matches ServerToClient::WinGame { .. }) by {
                            assert(effects@[t] == outseq[t]);
                            assert(outseq[t] == outseq.take(n1 as int)[t]);
                            assert(outseq[t] == pre1[t]);
                        }
                        assert forall|t: int| 0 <= t < l.len() implies is_unicast(
                            #[trigger] effects@[w.len() + t],
                            mv,
                            l[t],
                        ) && (effects@[w.len() + t]->Send_msg matches ServerToClient::LoseGame {
                            ..
                        }) by {
                            assert(effects@[w.len() + t] == outseq[w.len() + t]);
                        }
                        assert(final(lobby)@ == (LobbyV {
                            started: false,
                            players: pre.players.map_values(
                                |p: (Seq<char>, EntryV)| (
                                    p.0,
                                    entry_with_ready(p.1, p.1.lobby_state.is_host),
                                ),
                            ),
                            ..pre
                        }));
                    }
                    effects
                } else {
                    effects
                }
            },
            None => effects,
        }
    }

    /// A reported failure costs the reporter a life when the options say so
    /// (a timer failure always does: the death-on-round-loss option gates
    /// only round failures, so the timer path takes the life
    /// unconditionally), life updates go out, the game-over rules run (with
    /// their outcome messages, the dead players' notices included even when
    /// a Clash game continues), and a timer failure finally pauses the ante
    /// timer at its base.
    #[verifier::rlimit(100)]
    #[verifier::spinoff_prover]
    fn fail_with_life_loss(
        lobby: &mut Lobby,
        broadcaster: &LobbyBroadcaster,
        player_id: String,
        always: bool,
    ) -> (effects: Vec<Effect>)
        requires
            lobby_wf(old(lobby)@),
            broadcaster.wf(),
            old(lobby)@.players.len() <= 255,
        ensures
            lobby_wf(final(lobby)@),
            lives_bounded(old(lobby)@) ==> lives_bounded(final(lobby)@),
            final(lobby)@.code == old(lobby)@.code,
            final(lobby)@.max_players == old(lobby)@.max_players,
            final(lobby)@.lobby_options == old(lobby)@.lobby_options,
            fail_post(
                old(lobby)@,
                final(lobby)@,
                broadcaster.view_members(),
                player_id@,
                always,
                effects@,
            ),
    {
        proof {
            reveal(fail_post);
        }
        let ghost pre = lobby@;
        let ghost mv = broadcaster.view_members();
        let mut effects: Vec<Effect> = Vec::new();
        let seated_here = matches!(lobby.find_player(player_id.as_str()), Some(_));
        if (always || lobby.lobby_options.death_on_round_loss) && seated_here {
            let mut one: Vec<String> = Vec::new();
            let ghost b = lobby@.players;
            one.push(player_id.clone());
            proof {
                assert(ids_views(one@) =~= seq![player_id@]);
                assert(ids_views(one@)[0] == player_id@);
                let i = choose|i: int| 0 <= i < b.len() && (#[trigger] b[i]).0 == player_id@;
                assert(crate::lobby::lobby::seated(b, player_id@));
            }
            lobby.apply_life_loss(&one);
            proof {
                assert(lobby@.players =~= after_loss(pre, seq![player_id@]).players);
                assert(lobby@ == after_loss(pre, seq![player_id@]));
            }
        }
        let ghost mid = lobby@;
        proof {
            assert forall|k: int| 0 <= k < mid.players.len() implies (
            #[trigger] mid.players[k]).0 == pre.players[k].0 by {}
        }
        // life updates: the whole lobby in cooperative survival, the one
        // player otherwise
        if matches!(lobby.lobby_options.gamemode, GameMode::CoopSurvival) {
            let mut j: usize = 0;
            while j < lobby.players.len()
                invariant
                    j <= lobby.players@.len(),
                    lobby_wf(lobby@),
                    broadcaster.wf(),
                    mv == broadcaster.view_members(),
                    mid == lobby@,
                    effects@.len() == j,
                    forall|t: int|
                        0 <= t < j ==> is_broadcast(#[trigger] effects@[t], mv) && (
                        effects@[t]->Send_msg matches ServerToClient::GameStateUpdate {
                            player_id,
                            game_state,
                        } && player_id@ == mid.players[t].0 && game_state@
                            == mid.players[t].1.game_state),
                decreases lobby.players@.len() - j,
            {
                let id = lobby.players[j].0.clone();
                let gs = lobby.players[j].1.game_state.duplicate();
                effects.push(
                    broadcaster.broadcast(
                        ServerToClient::GameStateUpdate { player_id: id, game_state: gs },
                    ),
                );
                j = j + 1;
            }
        } else {
            match lobby.find_player(player_id.as_str()) {
                Some(i) => {
                    proof {
                        crate::lobby::lobby::lemma_seat_index(mid.players, i as int);
                    }
                    let id = player_id.clone();
                    let gs = lobby.players[i].1.game_state.duplicate();
                    effects.push(
                        broadcaster.broadcast(
                            ServerToClient::GameStateUpdate { player_id: id, game_state: gs },
                        ),
                    );
                },
                None => {
                    proof {
                        if crate::lobby::lobby::seated(pre.players, player_id@) {
                            let i = choose|i: int|
                                0 <= i < pre.players.len() && (#[trigger] pre.players[i]).0
                                    == player_id@;
                            assert(mid.players[i].0 == player_id@);
                        }
                    }
                },
            }
        }
        let ghost nupd = effects@.len() as int;
        let ghost upd_seq = effects@;
        let (ended, winners, losers) = lobby.check_game_over();
        let ghost marked = lobby@;
        proof {
            crate::lobby::lobby::lemma_go_functions(
                mid,
                ended,
                ids_views(winners@),
                ids_views(losers@),
            );
            assert(marked == after_mark(mid)) by {
                if mid.lobby_options.gamemode == GameMode::Clash && someone_dead(mid.players) {
                    assert(marked.players =~= after_mark(mid).players);
                }
            }
        }
        let ghost prev_fx = effects@;
        let ghost wv = ids_views(winners@);
        let ghost lv = ids_views(losers@);
        let effects = Self::emit_game_over(
            lobby,
            broadcaster,
            ended,
            winners,
            losers,
            always,
            effects,
        );
        proof {
            assert(effects@.take(prev_fx.len() as int) == prev_fx);
            let pre0 = old(lobby)@;
            let pid = player_id@;
            assert(seated_here == crate::lobby::lobby::seated(pre0.players, pid)) by {
                if crate::lobby::lobby::seated(pre0.players, pid) && !seated_here {
                    let i = choose|i: int|
                        0 <= i < pre0.players.len() && (#[trigger] pre0.players[i]).0 == pid;
                }
            }
            let hit = (always || pre0.lobby_options.death_on_round_loss)
                && crate::lobby::lobby::seated(pre0.players, pid);
            assert(mid == (if hit {
                after_loss(pre0, seq![pid])
            } else {
                pre0
            }));
            let fw = go_winners(mid, ended);
            let fl = go_losers(mid, ended);
            assert(fw == wv && fl == lv);
            assert(effects@.take(nupd) == upd_seq);
            assert forall|t: int| 0 <= t < nupd implies #[trigger] effects@[t] == upd_seq[t] by {
                assert(effects@[t] == effects@.take(nupd)[t]);
            }
            let coop = pre0.lobby_options.gamemode == GameMode::CoopSurvival;
            let nupd_spec = if coop {
                pre0.players.len() as int
            } else if crate::lobby::lobby::seated(pre0.players, pid) {
                1int
            } else {
                0int
            };
            assert(nupd == nupd_spec);
            assert(ended == crate::lobby::lobby::game_over_spec(mid));
            assert(ended ==> final(lobby)@ == (LobbyV {
                started: false,
                players: after_mark(mid).players.map_values(
                    |p: (Seq<char>, EntryV)| (p.0, entry_with_ready(p.1, p.1.lobby_state.is_host)),
                ),
                ..after_mark(mid)
            }));
            assert(!ended ==> final(lobby)@ == after_mark(mid));
            assert(effects@.len() == nupd + (if ended {
                fw.len() as int
            } else {
                0int
            }) + fl.len() + (if ended {
                2int
            } else {
                0int
            }) + (if always {
                1int
            } else {
                0int
            }));
            let mv0 = broadcaster.view_members();
            assert(coop ==> forall|j: int|
                0 <= j < nupd ==> is_broadcast(#[trigger] effects@[j], mv0) && (
                effects@[j]->Send_msg matches ServerToClient::GameStateUpdate {
                    player_id: pj,
                    game_state,
                } && pj@ == mid.players[j].0 && game_state@ == mid.players[j].1.game_state));
            assert(!coop && crate::lobby::lobby::seated(pre0.players, pid) ==> is_broadcast(
                effects@[0],
                mv0,
            ) && (effects@[0]->Send_msg matches ServerToClient::GameStateUpdate {
                player_id: p0,
                game_state,
            } && p0@ == pid && game_state@ == crate::lobby::lobby::entry_of(
                mid.players,
                pid,
            ).game_state));
            assert(ended ==> forall|t: int|
                0 <= t < fw.len() ==> is_unicast(#[trigger] effects@[nupd + t], mv0, fw[t]) && (
                effects@[nupd + t]->Send_msg matches ServerToClient::WinGame { .. }));
            let nwin = nupd + (if ended {
                fw.len() as int
            } else {
                0int
            });
            assert(upd_seq.len() == nupd);
            assert(prev_fx == upd_seq);
            if ended {
                assert forall|t: int| 0 <= t < lv.len() implies is_unicast(
                    #[trigger] effects@[nupd + wv.len() + t],
                    mv0,
                    lv[t],
                ) && (effects@[nupd + wv.len() + t]->Send_msg
                    matches ServerToClient::LoseGame { .. }) by {}
            } else {
                assert forall|t: int| 0 <= t < lv.len() implies is_unicast(
                    #[trigger] effects@[nupd + t],
                    mv0,
                    lv[t],
                ) && (effects@[nupd + t]->Send_msg matches ServerToClient::LoseGame { .. }) by {}
            }

            assert({
                let nwin2 = nupd + (if ended {
                    fw.len() as int
                } else {
                    0int
                });
                forall|t: int|
                    0 <= t < fl.len() ==> is_unicast(#[trigger] effects@[nwin2 + t], mv0, fl[t])
                        && (effects@[nwin2 + t]->Send_msg matches ServerToClient::LoseGame { .. })
            });
            assert(ended ==> is_broadcast(effects@[nupd + fw.len() + fl.len() + 0int], mv0) && (
            effects@[nupd + fw.len() + fl.len() + 0int]->Send_msg
                matches ServerToClient::LobbyReady { .. }) && is_broadcast(
                effects@[nupd + fw.len() + fl.len() + 1int],
                mv0,
            ) && (effects@[nupd + fw.len() + fl.len() + 1int]->Send_msg
                matches ServerToClient::InGameStatuses { .. }));
            assert(always ==> {
                let tb = if pre0.lobby_options.timer_base_seconds >= 0 {
                    pre0.lobby_options.timer_base_seconds as u32
                } else {
                    0u32
                };
                is_broadcast(effects@[effects@.len() - 1], mv0) && (effects@[effects@.len()
                    - 1]->Send_msg matches ServerToClient::PauseAnteTimer { time } && time == tb)
            });
        }
        effects
    }

    /// Append the game-over deliveries: winner and loser notices, then — on
    /// a finished game — the ready reset with its broadcast and the in-game
    /// statuses, then — for a timer failure — the timer pause.
    fn emit_game_over(
        lobby: &mut Lobby,
        broadcaster: &LobbyBroadcaster,
        ended: bool,
        winners: Vec<String>,
        losers: Vec<String>,
        always: bool,
        prior: Vec<Effect>,
    ) -> (out: Vec<Effect>)
        requires
            lobby_wf(old(lobby)@),
            broadcaster.wf(),
        ensures
            lobby_wf(final(lobby)@),
            lives_bounded(old(lobby)@) ==> lives_bounded(final(lobby)@),
            final(lobby)@.code == old(lobby)@.code,
            final(lobby)@.max_players == old(lobby)@.max_players,
            final(lobby)@.lobby_options == old(lobby)@.lobby_options,
            ended ==> final(lobby)@ == (LobbyV {
                started: false,
                players: old(lobby)@.players.map_values(
                    |p: (Seq<char>, EntryV)| (p.0, entry_with_ready(p.1, p.1.lobby_state.is_host)),
                ),
                ..old(lobby)@
            }),
            !ended ==> final(lobby)@ == old(lobby)@,
            ({
                let base = prior@.len() as int;
                let mv = broadcaster.view_members();
                let w = ids_views(winners@);
                let l = ids_views(losers@);
                let nwin = base + (if ended {
                    w.len() as int
                } else {
                    0int
                });
                &&& out@.take(base) == prior@
                &&& out@.len() == base + (if ended {
                    w.len() as int
                } else {
                    0int
                }) + l.len() + (if ended {
                    2int
                } else {
                    0int
                }) + (if always {
                    1int
                } else {
                    0int
                })
                &&& (ended ==> forall|t: int|
                    0 <= t < w.len() ==> is_unicast(#[trigger] out@[base + t], mv, w[t]) && (
                    out@[base + t]->Send_msg matches ServerToClient::WinGame { .. }))
                &&& (ended ==> forall|t: int|
                    0 <= t < l.len() ==> is_unicast(
                        #[trigger] out@[base + w.len() + t],
                        mv,
                        l[t],
                    ) && (out@[base + w.len() + t]->Send_msg
                        matches ServerToClient::LoseGame { .. }))
                &&& (!ended ==> forall|t: int|
                    0 <= t < l.len() ==> is_unicast(#[trigger] out@[base + t], mv, l[t]) && (
                    out@[base + t]->Send_msg matches ServerToClient::LoseGame { .. }))
                &&& (ended ==> is_broadcast(out@[base + w.len() + l.len() + 0int], mv) && (out@[base
                    + w.len() + l.len() + 0int]->Send_msg
                    matches ServerToClient::LobbyReady { .. })
                    && crate::lobby::lobby::ready_payload(
                    out@[base + w.len() + l.len() + 0int]->Send_msg,
                    final(lobby)@.players,
                ) && is_broadcast(
                    out@[base + w.len() + l.len() + 1int],
                    mv,
                ) && (out@[base + w.len() + l.len() + 1int]->Send_msg
                    matches ServerToClient::InGameStatuses { .. })
                    && crate::lobby::lobby::statuses_payload(
                    out@[base + w.len() + l.len() + 1int]->Send_msg,
                    final(lobby)@.players,
                ))
                &&& (always ==> {
                    let tb = if old(lobby)@.lobby_options.timer_base_seconds >= 0 {
                        old(lobby)@.lobby_options.timer_base_seconds as u32
                    } else {
                        0u32
                    };
                    is_broadcast(out@[out@.len() - 1], mv) && (out@[out@.len() - 1]->Send_msg
                        matches ServerToClient::PauseAnteTimer { time } && time == tb)
                })
            }),
    {
        let ghost base = prior@.len() as int;
        let ghost mv = broadcaster.view_members();
        let mut effects = prior;
        let ghost upd_seq = effects@;
        proof {
            assert(effects@.take(base) =~= upd_seq);
        }
        if ended {
            let mut k: usize = 0;
            while k < winners.len()
                invariant
                    k <= winners@.len(),
                    broadcaster.wf(),
                    mv == broadcaster.view_members(),
                    0 <= base,
                    upd_seq.len() == base,
                    effects@.len() == base + k,
                    effects@.take(base) == upd_seq,
                    forall|t: int|
                        0 <= t < k ==> is_unicast(
                            #[trigger] effects@[base + t],
                            mv,
                            ids_views(winners@)[t],
                        ) && (effects@[base + t]->Send_msg matches ServerToClient::WinGame { .. }),
                decreases winners@.len() - k,
            {
                effects.push(
                    broadcaster.send_to(winners[k].as_str(), ServerToClient::WinGame {}),
                );
                proof {
                    assert(effects@.take(base) =~= upd_seq);
                }
                k = k + 1;
            }
        }
        let ghost n1 = effects@.len() as int;
        let ghost pre1 = effects@;
        proof {
            assert(effects@.take(n1) =~= pre1);
        }
        let mut k2: usize = 0;
        while k2 < losers.len()
            invariant
                k2 <= losers@.len(),
                broadcaster.wf(),
                mv == broadcaster.view_members(),
                0 <= base <= n1,
                upd_seq.len() == base,
                pre1.len() == n1,
                effects@.len() == n1 + k2,
                effects@.take(n1) == pre1,
                forall|t: int|
                    0 <= t < k2 ==> is_unicast(
                        #[trigger] effects@[n1 + t],
                        mv,
                        ids_views(losers@)[t],
                    ) && (effects@[n1 + t]->Send_msg matches ServerToClient::LoseGame { .. }),
            decreases losers@.len() - k2,
        {
            effects.push(broadcaster.send_to(losers[k2].as_str(), ServerToClient::LoseGame {}));
            proof {
                assert(effects@.take(n1) =~= pre1);
            }
            k2 = k2 + 1;
        }
        let ghost n2 = effects@.len() as int;
        let ghost pre2 = effects@;
        if ended {
            lobby.started = false;
            lobby.reset_ready_states_to_host_only();
            let ready = lobby.collect_ready_states();
            effects.push(
                broadcaster.broadcast(ServerToClient::LobbyReady { ready_states: ready }),
            );
            let statuses = lobby.get_in_game_statuses();
            effects.push(broadcaster.broadcast(ServerToClient::InGameStatuses { statuses }));
            proof {
                assert(effects@.take(n2) =~= pre2);
            }
        }
        if always {
            let base_secs = lobby.lobby_options.timer_base_seconds;
            let time: u32 = if base_secs >= 0 {
                base_secs as u32
            } else {
                0
            };
            effects.push(broadcaster.broadcast(ServerToClient::PauseAnteTimer { time }));
            proof {
                assert(effects@.take(n2) =~= pre2);
            }
        }
        proof {
            assert(effects@.take(n2) =~= pre2);
            assert forall|t: int| 0 <= t < n1 implies #[trigger] effects@[t] == pre1[t] by {
                assert(effects@[t] == effects@.take(n2)[t]);
                assert(pre2[t] == pre2.take(n1)[t]);
                assert(pre2.take(n1) == pre1);
            }
            assert(pre2.take(n1) =~= pre1);
            assert(effects@.take(base) =~= upd_seq) by {
                assert forall|t: int| 0 <= t < base implies #[trigger] effects@[t]
                    == upd_seq[t] by {
                    assert(effects@[t] == pre1[t]);
                    assert(pre1[t] == pre1.take(base)[t]);
                    assert(pre1.take(base) =~= upd_seq);
                }
            }
        }
        effects
    }
}

/// The lobby with one seat's game state patched, found by id; unknown ids
/// leave it unchanged.
pub open spec fn patched_lobby(l: LobbyV, pid: Seq<char>, patch: SeatPatch) -> LobbyV {
    if crate::lobby::lobby::seated(l.players, pid) {
        let i = crate::lobby::lobby::seat_index(l.players, pid);
        LobbyV {
            players: l.players.update(
                i,
                (
                    l.players[i].0,
                    EntryV {
                        game_state: patched(l.players[i].1.game_state, patch),
                        ..l.players[i].1
                    },
                ),
            ),
            ..l
        }
    } else {
        l
    }
}

/// The lobby after one played hand: the seat's score accumulates the
/// reported score and its remaining hands are as reported.
pub open spec fn played(
    l: LobbyV,
    pid: Seq<char>,
    score: crate::talisman_number::TnView,
    hands_left: u8,
) -> LobbyV {
    let i = crate::lobby::lobby::seat_index(l.players, pid);
    LobbyV {
        players: l.players.update(
            i,
            (
                l.players[i].0,
                EntryV {
                    game_state: crate::lobby::game_state::GameStateV {
                        score: crate::talisman_number::spec_score_add(
                            l.players[i].1.game_state.score,
                            score,
                        ),
                        hands_left,
                        ..l.players[i].1.game_state
                    },
                    ..l.players[i].1
                },
            ),
        ),
        ..l
    }
}

/// What a single-seat update guarantees: the named seat patched and its new
/// state broadcast to everyone, or nothing at all for an unknown id.
#[verifier::opaque]
pub open spec fn update_post(
    pre: LobbyV,
    post: LobbyV,
    mv: Seq<Seq<char>>,
    pid: Seq<char>,
    patch: SeatPatch,
    effects: Seq<Effect>,
) -> bool {
    &&& (crate::lobby::lobby::seated(pre.players, pid) ==> exists|i: int|
        {
            &&& 0 <= i < pre.players.len()
            &&& (#[trigger] pre.players[i]).0 == pid
            &&& post.players == pre.players.update(
                i,
                (
                    pre.players[i].0,
                    EntryV {
                        game_state: patched(pre.players[i].1.game_state, patch),
                        ..pre.players[i].1
                    },
                ),
            )
            &&& effects.len() == 1
            &&& is_broadcast(effects[0], mv)
            &&& effects[0]->Send_msg matches ServerToClient::GameStateUpdate {
                player_id: p2,
                game_state: g2,
            } && p2@ == pid && g2@ == patched(pre.players[i].1.game_state, patch)
        })
    &&& (!crate::lobby::lobby::seated(pre.players, pid) ==> post == pre && effects.len() == 0)
}

/// What the survival sole-survivor check guarantees: when every other player
/// is dead and the reporter holds the top blind, the game closes out in
/// their favour with the winner and loser notices, the ready states and the
/// in-game statuses; otherwise nothing changes.
#[verifier::opaque]
pub open spec fn survival_check_post(
    pre: LobbyV,
    post: LobbyV,
    mv: Seq<Seq<char>>,
    pid: Seq<char>,
    effects: Seq<Effect>,
) -> bool {
    let maxb = crate::lobby::lobby::max_blind(pre.players);
    let wins = (forall|i: int|
        0 <= i < pre.players.len() && (#[trigger] pre.players[i]).0 != pid
            ==> pre.players[i].1.game_state.lives == 0) && crate::lobby::lobby::seated(
        pre.players,
        pid,
    ) && crate::lobby::lobby::entry_of(pre.players, pid).game_state.furthest_blind == maxb;
    if wins {
        let w = crate::lobby::lobby::ids_where(
            pre.players,
            |p: (Seq<char>, EntryV)| p.1.game_state.furthest_blind == maxb,
        );
        let l = crate::lobby::lobby::ids_where(
            pre.players,
            |p: (Seq<char>, EntryV)| p.1.game_state.furthest_blind != maxb,
        );
        &&& post == (LobbyV {
            started: false,
            players: pre.players.map_values(
                |p: (Seq<char>, EntryV)| (p.0, entry_with_ready(p.1, p.1.lobby_state.is_host)),
            ),
            ..pre
        })
        &&& effects.len() == w.len() + l.len() + 2
        &&& forall|t: int|
            0 <= t < w.len() ==> is_unicast(#[trigger] effects[t], mv, w[t]) && (
            effects[t]->Send_msg matches ServerToClient::WinGame { .. })
        &&& forall|t: int|
            0 <= t < l.len() ==> is_unicast(#[trigger] effects[w.len() + t], mv, l[t]) && (
            effects[w.len() + t]->Send_msg matches ServerToClient::LoseGame { .. })
        &&& is_broadcast(effects[w.len() + l.len() + 0int], mv) && (effects[w.len() + l.len()
            + 0int]->Send_msg matches ServerToClient::LobbyReady { .. })
        &&& crate::lobby::lobby::ready_payload(
            effects[w.len() + l.len() + 0int]->Send_msg,
            post.players,
        )
        &&& is_broadcast(effects[w.len() + l.len() + 1int], mv) && (effects[w.len() + l.len()
            + 1int]->Send_msg matches ServerToClient::InGameStatuses { .. })
        &&& crate::lobby::lobby::statuses_payload(
            effects[w.len() + l.len() + 1int]->Send_msg,
            post.players,
        )
    } else {
        post == pre && effects.len() == 0
    }
}

/// What a reported failure guarantees: a life lost when the options demand
/// it (always, for a timer failure), the life updates fanned out, the
/// game-over outcome delivered (the dead players' notices even when a Clash
/// game continues), and — for a timer failure — the ante timer paused at its
/// base.
#[verifier::opaque]
pub open spec fn fail_post(
    pre: LobbyV,
    post: LobbyV,
    mv: Seq<Seq<char>>,
    pid: Seq<char>,
    always: bool,
    effects: Seq<Effect>,
) -> bool {
    let hit = (always || pre.lobby_options.death_on_round_loss) && crate::lobby::lobby::seated(
        pre.players,
        pid,
    );
    let mid = if hit {
        after_loss(pre, seq![pid])
    } else {
        pre
    };
    let coop = pre.lobby_options.gamemode == GameMode::CoopSurvival;
    let nupd = if coop {
        pre.players.len() as int
    } else if crate::lobby::lobby::seated(pre.players, pid) {
        1int
    } else {
        0int
    };
    let ended = crate::lobby::lobby::game_over_spec(mid);
    let fw = go_winners(mid, ended);
    let fl = go_losers(mid, ended);
    let marked = after_mark(mid);
    &&& (ended ==> post == (LobbyV {
        started: false,
        players: marked.players.map_values(
            |p: (Seq<char>, EntryV)| (p.0, entry_with_ready(p.1, p.1.lobby_state.is_host)),
        ),
        ..marked
    }))
    &&& (!ended ==> post == marked)
    &&& effects.len() == nupd + (if ended {
        fw.len() as int
    } else {
        0int
    }) + fl.len() + (if ended {
        2int
    } else {
        0int
    }) + (if always {
        1int
    } else {
        0int
    })
    &&& (coop ==> forall|j: int|
        0 <= j < nupd ==> is_broadcast(#[trigger] effects[j], mv) && (effects[j]->Send_msg
            matches ServerToClient::GameStateUpdate { player_id, game_state } && player_id@
            == mid.players[j].0 && game_state@ == mid.players[j].1.game_state))
    &&& (!coop && crate::lobby::lobby::seated(pre.players, pid) ==> is_broadcast(effects[0], mv)
        && (effects[0]->Send_msg matches ServerToClient::GameStateUpdate {
        player_id,
        game_state,
    } && player_id@ == pid && game_state@ == crate::lobby::lobby::entry_of(
        mid.players,
        pid,
    ).game_state))
    &&& (ended ==> forall|t: int|
        0 <= t < fw.len() ==> is_unicast(#[trigger] effects[nupd + t], mv, fw[t]) && (effects[nupd
            + t]->Send_msg matches ServerToClient::WinGame { .. }))
    &&& (ended ==> forall|t: int|
        0 <= t < fl.len() ==> is_unicast(#[trigger] effects[nupd + fw.len() + t], mv, fl[t]) && (
        effects[nupd + fw.len() + t]->Send_msg matches ServerToClient::LoseGame { .. }))
    &&& (!ended ==> forall|t: int|
        0 <= t < fl.len() ==> is_unicast(#[trigger] effects[nupd + t], mv, fl[t]) && (effects[nupd
            + t]->Send_msg matches ServerToClient::LoseGame { .. }))
    &&& (ended ==> is_broadcast(effects[nupd + fw.len() + fl.len() + 0int], mv) && (effects[nupd
        + fw.len() + fl.len() + 0int]->Send_msg matches ServerToClient::LobbyReady { .. })
        && crate::lobby::lobby::ready_payload(
        effects[nupd + fw.len() + fl.len() + 0int]->Send_msg,
        post.players,
    ) && is_broadcast(effects[nupd + fw.len() + fl.len() + 1int], mv) && (effects[nupd + fw.len()
        + fl.len() + 1int]->Send_msg matches ServerToClient::InGameStatuses { .. })
        && crate::lobby::lobby::statuses_payload(
        effects[nupd + fw.len() + fl.len() + 1int]->Send_msg,
        post.players,
    ))
    &&& (always ==> {
        let tb = if pre.lobby_options.timer_base_seconds >= 0 {
            pre.lobby_options.timer_base_seconds as u32
        } else {
            0u32
        };
        is_broadcast(effects[effects.len() - 1], mv) && (effects[effects.len() - 1]->Send_msg
            matches ServerToClient::PauseAnteTimer { time } && time == tb)
    })
}

/// A sequence of id strings, viewed.

/// The single-seat updates the pass-through handlers make.
pub enum SeatPatch {
    Skip { blind: u32 },
    Location { location: String },
    Budgets { hands_max: u8, discards_max: u8 },
    Blind { blind: u32 },
}

/// What a patch does to a seat's game state.
pub open spec fn patched(
    g: crate::lobby::game_state::GameStateV,
    patch: SeatPatch,
) -> crate::lobby::game_state::GameStateV {
    match patch {
        SeatPatch::Skip { blind } => crate::lobby::game_state::GameStateV {
            skips: if g.skips < 255 {
                (g.skips + 1) as u8
            } else {
                255u8
            },
            furthest_blind: blind,
            ..g
        },
        SeatPatch::Location { location } => crate::lobby::game_state::GameStateV {
            location: location@,
            ..g
        },
        SeatPatch::Budgets { hands_max, discards_max } => crate::lobby::game_state::GameStateV {
            hands_max,
            discards_max,
            ..g
        },
        SeatPatch::Blind { blind } => crate::lobby::game_state::GameStateV {
            furthest_blind: blind,
            ..g
        },
    }
}

} // verus!
